use mgen::server::{HandshakeAction, Registry, Route};
use mgen::web::{process, web_url, web_url_string, WebAction};
use mgen::{MessageBody, MessageHeader, MessageHeaderRef, NonZeroU32};

#[test]
fn test_uri_generation() {
    // none of these may be invalid
    assert!(web_url("192.0.2.1", 0, "Alice").is_some());
    assert!(web_url("hostname", 65536, "Bob").is_some());
    assert!(web_url("web0", 4294967295, "Carol").is_some());
    assert!(web_url("web1", 1, "").is_some());
    assert!(web_url("foo.bar.baz", 1, "Dave").is_some());
}

#[test]
fn web_url_text() {
    assert_eq!(web_url_string("web0", 1792, "Alice"), "https://web0/?size=1792&user=Alice");
    assert_eq!(web_url_string("h:1", 0, ""), "https://h:1/?size=0&user=");
    let uri = web_url("web0", 1792, "Alice").unwrap();
    assert_eq!(uri.host(), Some("web0"));
    assert_eq!(uri.query(), Some("size=1792&user=Alice"));
    assert!(web_url("bad host", 1, "x").is_none());
}

#[test]
fn web_requests() {
    assert_eq!(process(None, true), WebAction::Missing);
    assert_eq!(process(Some("size=5"), true), WebAction::Missing);
    assert_eq!(process(Some("user=Alice&size=x"), true), WebAction::NotNumeric);
    assert_eq!(
        process(Some("user=Alice&size=5"), true),
        WebAction::Send { from: b"Alice".to_vec(), size: 5 }
    );
    assert_eq!(
        process(Some("user=Alice"), true),
        WebAction::Send { from: b"Alice".to_vec(), size: 0 }
    );
    assert_eq!(
        process(Some("user=Alice&size=5"), false),
        WebAction::Receive { from: b"Alice".to_vec() }
    );
    // the last of repeated names counts, and names and values are decoded
    assert_eq!(
        process(Some("user=Bob&size=1&user=A%20l+i&size=%2B7"), true),
        WebAction::Send { from: b"A l i".to_vec(), size: 7 }
    );
}

fn header(sender: &str, group: &str, body: MessageBody) -> Vec<u8> {
    MessageHeader { sender: sender.to_string(), group: group.to_string(), id: 9, body }
        .serialize()
        .header
}

#[test]
fn registry_and_routes() {
    let mut reg = Registry::new();
    assert_eq!(reg.on_handshake("alice", "g1", true), HandshakeAction::Register { new_group: true });
    assert_eq!(reg.on_handshake("bob", "g1", true), HandshakeAction::Register { new_group: false });
    assert_eq!(reg.on_handshake("carol", "g2", true), HandshakeAction::Register { new_group: true });
    assert_eq!(reg.on_handshake("alice", "g1", false), HandshakeAction::Reconnect);
    assert_eq!(reg.on_handshake("dave", "g1", false), HandshakeAction::LateRegistration);
    assert!(reg.is_known("bob", "g1"));
    assert!(!reg.is_known("dave", "g1"));
    assert_eq!(reg.members_except("g1", "alice"), vec!["bob".to_string()]);
    assert_eq!(reg.members_except("g1", "zed"), vec!["alice".to_string(), "bob".to_string()]);
    assert!(reg.members_except("g3", "alice").is_empty());

    let size = MessageBody::Size(NonZeroU32::new(160).unwrap());
    let h = header("alice", "g1", size);
    let m = MessageHeaderRef::deserialize(&h[4..]).unwrap();
    assert_eq!(reg.route(&m, "alice", "g1"), Route::Broadcast);
    assert_eq!(reg.route(&m, "bob", "g1"), Route::Reject);
    assert_eq!(reg.route(&m, "alice", "g2"), Route::Reject);
    let h = header("alice", "bob", MessageBody::Receipt);
    let m = MessageHeaderRef::deserialize(&h[4..]).unwrap();
    assert_eq!(reg.route(&m, "alice", "g1"), Route::Deliver);
    let h = header("alice", "carol", MessageBody::Receipt);
    let m = MessageHeaderRef::deserialize(&h[4..]).unwrap();
    assert_eq!(reg.route(&m, "alice", "g1"), Route::Reject);
}
