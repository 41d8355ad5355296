use mgen::messenger::client::{
    conversation_servers, delay_of_hash, next_conn_step, spawn_delay_ms, ConnEvent, ConnStep,
};
use mgen::messenger::holder::MessageHolder;
use std::sync::Arc;
use mgen::messenger::error::{FatalError, MessengerError, RecoverableError, SocksErrorKind};
use mgen::messenger::peer::{
    next_peer_step, plan_peer, PeerConversation, PeerEvent, PeerStep, PlanError,
};
use mgen::messenger::state::{
    clamp_blocks, manage_active_conversation, manage_idle_conversation, send_step, ActiveGroupActions,
    Conversation, ConversationDists, Effect, IdleGroupActions, StateMachine,
};
use mgen::{parse_hosts_file, Error, MessageBody, MessageHeader, NonZeroU32, MAX_BLOCKS_IN_BODY};

/// Distributions that always give the same answers.
struct Fixed {
    s: bool,
    r: bool,
    m: u64,
}

impl ConversationDists<u64> for Fixed {
    fn sample_s(&self, rng: &mut u64) -> bool {
        *rng += 1;
        self.s
    }
    fn sample_r(&self, rng: &mut u64) -> bool {
        *rng += 1;
        self.r
    }
    fn sample_m(&self, rng: &mut u64) -> u64 {
        *rng += 1;
        self.m
    }
    fn deadline_i(&self, _rng: &mut u64) -> u64 {
        100
    }
    fn deadline_w(&self, _rng: &mut u64) -> u64 {
        200
    }
    fn deadline_a_s(&self, _rng: &mut u64) -> u64 {
        300
    }
    fn deadline_a_r(&self, _rng: &mut u64) -> u64 {
        400
    }
}

fn idle(machine: StateMachine<Fixed>) -> Conversation<Fixed, mgen::messenger::state::Idle> {
    match machine {
        StateMachine::Idle(c) => c,
        StateMachine::Active(_) => panic!("expected Idle"),
    }
}

fn active(machine: StateMachine<Fixed>) -> Conversation<Fixed, mgen::messenger::state::Active> {
    match machine {
        StateMachine::Active(c) => c,
        StateMachine::Idle(_) => panic!("expected Active"),
    }
}

#[test]
fn idle_send_numbers_messages() {
    let mut rng = 0u64;
    let machine = StateMachine::start(Fixed { s: false, r: false, m: 3 }, &mut rng);
    assert_eq!(machine.name(), "Idle");
    let c = idle(machine);
    assert_eq!(c.next_id, 0);
    assert_eq!(c.delay, 100);
    let step = manage_idle_conversation::<false, _, _>(c, IdleGroupActions::Send, "Alice", "group", &mut rng);
    match step.effect {
        Effect::Broadcast { message, blocks, id } => {
            assert_eq!(blocks, 3);
            assert_eq!(id, 0);
            assert_eq!(message.body.total_size(), 480);
            let h = MessageHeader::deserialize(&message.header[4..]).unwrap();
            assert_eq!(h.sender, "Alice");
            assert_eq!(h.group, "group");
            assert_eq!(h.id, 0);
        }
        _ => panic!("expected a broadcast"),
    }
    let c = idle(step.machine);
    assert_eq!(c.next_id, 1);
    let step = manage_idle_conversation::<false, _, _>(c, IdleGroupActions::Send, "Alice", "group", &mut rng);
    match step.effect {
        Effect::Broadcast { id, .. } => assert_eq!(id, 1),
        _ => panic!("expected a broadcast"),
    }
    assert_eq!(idle(step.machine).next_id, 2);
}

#[test]
fn idle_send_can_turn_active() {
    let mut rng = 0u64;
    let c = idle(StateMachine::start(Fixed { s: true, r: false, m: 1 }, &mut rng));
    let step = manage_idle_conversation::<false, _, _>(c, IdleGroupActions::Send, "Alice", "group", &mut rng);
    assert_eq!(step.machine.name(), "Active");
    let a = active(step.machine);
    assert_eq!(a.next_id, 1);
    assert_eq!(a.delay, 300);
    assert_eq!(a.state.wait, 200);
}

#[test]
fn idle_transitions_by_outcome() {
    let mut rng = 0u64;
    let c = idle(StateMachine::start(Fixed { s: false, r: false, m: 1 }, &mut rng));
    let a = active(c.after_send(true, 7, 9));
    assert_eq!((a.next_id, a.delay, a.state.wait), (1, 7, 9));
    let c = idle(StateMachine::start(Fixed { s: false, r: false, m: 1 }, &mut rng));
    let i = idle(c.after_send(false, 5, 9));
    assert_eq!((i.next_id, i.delay), (1, 5));
    let c = idle(StateMachine::start(Fixed { s: false, r: false, m: 1 }, &mut rng));
    let a = active(c.after_receive(true, 3, 4));
    assert_eq!((a.next_id, a.delay, a.state.wait), (0, 3, 4));
    let c = idle(StateMachine::start(Fixed { s: false, r: false, m: 1 }, &mut rng));
    let delay = c.delay;
    let i = idle(c.after_receive(false, 3, 4));
    assert_eq!((i.next_id, i.delay), (0, delay));
}

fn message_from(sender: &str, group: &str, id: u32) -> MessageHeader {
    MessageHeader {
        sender: sender.to_string(),
        group: group.to_string(),
        id,
        body: MessageBody::Size(NonZeroU32::new(160).unwrap()),
    }
}

#[test]
fn receiving_answers_with_a_receipt() {
    let mut rng = 0u64;
    let c = idle(StateMachine::start(Fixed { s: false, r: true, m: 1 }, &mut rng));
    let msg = message_from("Bob", "group", 41);
    let step = manage_idle_conversation::<false, _, _>(c, IdleGroupActions::Receive(msg), "Alice", "group", &mut rng);
    match step.effect {
        Effect::Reply { to, receipt } => {
            assert_eq!(to, "Bob");
            assert_eq!(receipt.body, MessageBody::Receipt);
            let h = MessageHeader::deserialize(&receipt.header[4..]).unwrap();
            assert_eq!(h.sender, "Alice");
            assert_eq!(h.group, "Bob");
            assert_eq!(h.id, 41);
        }
        _ => panic!("expected a reply"),
    }
    let a = active(step.machine);
    assert_eq!(a.next_id, 0);
    assert_eq!(a.delay, 400);
}

#[test]
fn peers_answer_to_the_group() {
    let mut rng = 0u64;
    let c = idle(StateMachine::start(Fixed { s: false, r: false, m: 1 }, &mut rng));
    let msg = message_from("Bob", "Alice-Bob", 5);
    let step = manage_idle_conversation::<true, _, _>(c, IdleGroupActions::Receive(msg), "Alice", "Alice-Bob", &mut rng);
    match step.effect {
        Effect::Reply { to, receipt } => {
            assert_eq!(to, "Bob");
            let h = MessageHeader::deserialize(&receipt.header[4..]).unwrap();
            assert_eq!(h.group, "Alice-Bob");
        }
        _ => panic!("expected a reply"),
    }
    assert_eq!(step.machine.name(), "Idle");
}

#[test]
fn receipts_change_nothing() {
    let mut rng = 0u64;
    let c = idle(StateMachine::start(Fixed { s: true, r: true, m: 1 }, &mut rng));
    let receipt = MessageHeader {
        sender: "Bob".to_string(),
        group: "Alice".to_string(),
        id: 0,
        body: MessageBody::Receipt,
    };
    let step = manage_idle_conversation::<false, _, _>(c, IdleGroupActions::Receive(receipt), "Alice", "group", &mut rng);
    assert!(matches!(step.effect, Effect::Nothing));
    assert_eq!(idle(step.machine).delay, 100);
}

#[test]
fn active_conversations() {
    let mut rng = 0u64;
    let c = idle(StateMachine::start(Fixed { s: true, r: true, m: 1 }, &mut rng));
    let step = manage_idle_conversation::<false, _, _>(c, IdleGroupActions::Send, "Alice", "group", &mut rng);
    let a = active(step.machine);
    let (until, action) = Conversation::<Fixed, mgen::messenger::state::Active>::sleep(a.delay, a.state.wait);
    assert_eq!(until, 200);
    assert!(matches!(action, ActiveGroupActions::Idle));
    let step = manage_active_conversation(a, ActiveGroupActions::Send, "Alice", "group", false, &mut rng);
    let a = active(step.machine);
    assert_eq!(a.next_id, 2);
    let step = manage_active_conversation(a, ActiveGroupActions::Idle, "Alice", "group", false, &mut rng);
    assert!(matches!(step.effect, Effect::Nothing));
    let c = idle(step.machine);
    assert_eq!(c.next_id, 2);
    let (until, action) = Conversation::<Fixed, mgen::messenger::state::Active>::sleep(10, 20);
    assert_eq!(until, 10);
    assert!(matches!(action, ActiveGroupActions::Send));
}

#[test]
fn message_sizes_are_capped() {
    assert_eq!(clamp_blocks(0), 0);
    assert_eq!(clamp_blocks(7), 7);
    assert_eq!(clamp_blocks(u64::MAX), MAX_BLOCKS_IN_BODY);
    let mut rng = 0u64;
    let c = idle(StateMachine::start(Fixed { s: false, r: false, m: u64::MAX }, &mut rng));
    let step = manage_idle_conversation::<false, _, _>(c, IdleGroupActions::Send, "A", "g", &mut rng);
    match step.effect {
        Effect::Broadcast { message, blocks, .. } => {
            assert_eq!(blocks, MAX_BLOCKS_IN_BODY);
            assert_eq!(message.body.total_size(), 100 * 1024 * 1024);
        }
        _ => panic!("expected a broadcast"),
    }
}

#[test]
fn send_step_uses_the_drawn_size() {
    let mut rng = 0u64;
    let c = idle(StateMachine::start(Fixed { s: false, r: false, m: 1 }, &mut rng));
    let step = send_step(c, "Alice", "group", 3, &mut rng);
    match step.effect {
        Effect::Broadcast { message, blocks, id } => {
            assert_eq!(blocks, 3);
            assert_eq!(id, 0);
            assert_eq!(message.body.total_size(), 480);
        }
        _ => panic!("expected a broadcast"),
    }
    assert_eq!(idle(step.machine).next_id, 1);
    let c = idle(StateMachine::start(Fixed { s: false, r: false, m: 1 }, &mut rng));
    let step = send_step(c, "Alice", "group", u64::MAX, &mut rng);
    match step.effect {
        Effect::Broadcast { blocks, .. } => assert_eq!(blocks, MAX_BLOCKS_IN_BODY),
        _ => panic!("expected a broadcast"),
    }
}

#[test]
fn hosts_file_later_lines_win() {
    let hosts = parse_hosts_file("10.0.0.1 alice bob\n\n10.0.0.2\t carol\r\n10.0.0.3 bob\n");
    let mut pairs: Vec<(String, String)> = hosts
        .into_iter()
        .map(|(n, a)| (String::from_utf8(n).unwrap(), String::from_utf8(a).unwrap()))
        .collect();
    pairs.sort();
    assert_eq!(
        pairs,
        vec![
            ("alice".to_string(), "10.0.0.1".to_string()),
            ("bob".to_string(), "10.0.0.3".to_string()),
            ("carol".to_string(), "10.0.0.2".to_string()),
        ]
    );
    assert!(parse_hosts_file("").is_empty());
    assert!(parse_hosts_file("10.0.0.9\n").is_empty());
}

fn conv(group: &str, recipients: &[&str]) -> PeerConversation {
    PeerConversation {
        group: group.to_string(),
        recipients: recipients.iter().map(|r| r.to_string()).collect(),
    }
}

#[test]
fn peer_plan() {
    let hosts = parse_hosts_file("1.1.1.1:1 alice\n2.2.2.2:2 bob\n3.3.3.3:3 carol\n");
    let convs = vec![conv("g1", &["bob", "carol"]), conv("g2", &["bob"]), conv("g1", &["carol"])];
    let plan = plan_peer("alice", None, &convs, &hosts).unwrap();
    assert_eq!(plan.listen, b"1.1.1.1:1".to_vec());
    assert_eq!(plan.recipients.len(), 2);
    let bob = &plan.recipients[0];
    assert_eq!(bob.name, "bob");
    assert_eq!(bob.address, b"2.2.2.2:2".to_vec());
    assert_eq!(bob.conversation, 0);
    assert_eq!(bob.groups, vec![("g1".to_string(), 0), ("g2".to_string(), 1)]);
    let carol = &plan.recipients[1];
    assert_eq!(carol.name, "carol");
    assert_eq!(carol.groups, vec![("g1".to_string(), 0)]);
    let plan = plan_peer("dave", Some("0.0.0.0:9"), &convs, &hosts).unwrap();
    assert_eq!(plan.listen, b"0.0.0.0:9".to_vec());
    assert!(matches!(plan_peer("dave", None, &convs, &hosts), Err(PlanError::UnknownUser)));
    let convs = vec![conv("g1", &["bob", "erin"])];
    match plan_peer("alice", None, &convs, &hosts) {
        Err(PlanError::UnknownRecipient(r)) => assert_eq!(r, "erin"),
        _ => panic!("expected an unknown recipient"),
    }
}

#[test]
fn spawn_delays() {
    assert_eq!(delay_of_hash(123_456), 3_456);
    assert_eq!(delay_of_hash(9_999), 9_999);
    assert!(spawn_delay_ms("Alice", "group") < 10_000);
    assert_eq!(spawn_delay_ms("Alice", "group"), spawn_delay_ms("Alice", "group"));
}

#[test]
fn error_classification() {
    let e: MessengerError<()> = MessengerError::from_wire(Error::Io(std::io::Error::new(std::io::ErrorKind::Other, "x")));
    assert!(matches!(e, MessengerError::Recoverable(RecoverableError::Io(_))));
    assert!(!e.is_fatal());
    let bad = std::str::from_utf8(&[0xff]).unwrap_err();
    let e: MessengerError<()> = MessengerError::from_wire(Error::Utf8Error(bad));
    assert!(matches!(e, MessengerError::Fatal(FatalError::Utf8Error(_))));
    assert!(e.is_fatal());
    let e: MessengerError<()> = MessengerError::from_wire(Error::MalformedSerialization(vec![1, 2], std::backtrace::Backtrace::disabled()));
    match e {
        MessengerError::Fatal(FatalError::MalformedSerialization(v, _)) => assert_eq!(v, vec![1, 2]),
        _ => panic!("expected a fatal error"),
    }
    for kind in [
        SocksErrorKind::Io,
        SocksErrorKind::ProxyServerUnreachable,
        SocksErrorKind::GeneralSocksServerFailure,
        SocksErrorKind::HostUnreachable,
        SocksErrorKind::TtlExpired,
    ] {
        assert!(!MessengerError::from_socks_kind(7u8, kind).is_fatal());
    }
    assert!(matches!(
        MessengerError::from_socks_kind(7u8, SocksErrorKind::Other),
        MessengerError::Fatal(FatalError::Socks(7))
    ));
    let e: FatalError<()> = FatalError::from_io(std::io::Error::new(std::io::ErrorKind::Other, "x"));
    assert!(matches!(e, FatalError::Io(_)));
}

#[test]
fn client_connection_steps() {
    type S = String;
    let recoverable = || MessengerError::<S>::Recoverable(RecoverableError::Socks("down".to_string()));
    let fatal = || MessengerError::<S>::Fatal(FatalError::Socks("refused".to_string()));
    assert!(matches!(next_conn_step(ConnEvent::TcpFailed(recoverable())), ConnStep::WaitThenConnect));
    assert!(matches!(next_conn_step::<S>(ConnEvent::TlsFailed), ConnStep::WaitThenConnect));
    assert!(matches!(next_conn_step::<S>(ConnEvent::HandshakeUnsent), ConnStep::ConnectNow));
    assert!(matches!(next_conn_step::<S>(ConnEvent::Connected), ConnStep::HandOver));
    assert!(matches!(next_conn_step(ConnEvent::StreamFailed(recoverable())), ConnStep::ConnectNow));
    assert!(matches!(
        next_conn_step(ConnEvent::TcpFailed(fatal())),
        ConnStep::Stop(FatalError::Socks(s)) if s == "refused"
    ));
    assert!(matches!(
        next_conn_step(ConnEvent::StreamFailed(fatal())),
        ConnStep::Stop(FatalError::Socks(s)) if s == "refused"
    ));
}

#[test]
fn peer_connection_steps() {
    type S = String;
    let io = || std::io::Error::new(std::io::ErrorKind::BrokenPipe, "gone");
    assert!(matches!(next_peer_step::<S>(PeerEvent::ListenerSocket), PeerStep::UseSocket));
    assert!(matches!(next_peer_step::<S>(PeerEvent::Connected), PeerStep::UseSocket));
    assert!(matches!(next_peer_step::<S>(PeerEvent::WriteFailed), PeerStep::Reestablish));
    assert!(matches!(
        next_peer_step::<S>(PeerEvent::ConnectFailed(MessengerError::from_io(io()))),
        PeerStep::WaitThenConnect
    ));
    assert!(matches!(
        next_peer_step(PeerEvent::ConnectFailed(MessengerError::<S>::Fatal(FatalError::Parameter("p".to_string())))),
        PeerStep::Stop(FatalError::Parameter(p)) if p == "p"
    ));
    assert!(matches!(next_peer_step::<S>(PeerEvent::NameUnsent(io(), false)), PeerStep::WaitThenConnect));
    assert!(matches!(
        next_peer_step::<S>(PeerEvent::NameUnsent(io(), true)),
        PeerStep::Stop(FatalError::Io(e)) if e.kind() == std::io::ErrorKind::BrokenPipe
    ));
}

#[test]
fn conversation_server_defaults() {
    let (m, w) = conversation_servers(None, Some("web9".to_string()), "msg0", "web0");
    assert_eq!((m.as_str(), w.as_str()), ("msg0", "web9"));
    let (m, w) = conversation_servers(Some("msg1".to_string()), None, "msg0", "web0");
    assert_eq!((m.as_str(), w.as_str()), ("msg1", "web0"));
}

#[test]
fn shared_holders_hold_the_same_message() {
    let m = mgen::construct_message("Alice".to_string(), "group".to_string(), 3, 2);
    let header = m.header.clone();
    let a = <Arc<mgen::SerializedMessage> as MessageHolder>::new(m);
    let b = MessageHolder::clone(&a);
    assert_eq!(b.message().header, header);
    assert_eq!(b.message().body.total_size(), 320);
    assert!(Arc::ptr_eq(&a, &b));
    let boxed = <Box<mgen::SerializedMessage> as MessageHolder>::new(
        mgen::construct_message("Bob".to_string(), "g".to_string(), 1, 1),
    );
    assert_eq!(boxed.message().body.total_size(), 160);
}
