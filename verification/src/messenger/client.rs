//! Decisions of the client in the client-server mode.
use vstd::prelude::*;

use crate::messenger::error::{FatalError, MessengerError};

verus! {

/// `rustc_hash::FxHasher` fed `user`, then `group` (through `Hash` for `str`),
/// finished. Nothing is stated of the hash: it depends on the machine's word
/// size and byte order.
#[verifier::external_body]
fn fx_hash_pair(user: &str, group: &str) -> (res: u64) {
    let mut hasher = rustc_hash::FxHasher::default();
    std::hash::Hash::hash(user, &mut hasher);
    std::hash::Hash::hash(group, &mut hasher);
    std::hash::Hasher::finish(&hasher)
}

/// How long a conversation waits before connecting, in milliseconds, for a
/// hash of its user and group.
pub fn delay_of_hash(hash: u64) -> (res: u64)
    ensures
        res == hash % 10_000,
{
    hash % 10_000
}

/// How long the conversation of `user` in `group` waits before connecting,
/// in milliseconds: a pseudorandom amount under ten seconds, so that many
/// clients starting at once do not overload the server.
pub fn spawn_delay_ms(user: &str, group: &str) -> (res: u64)
    ensures
        res < 10_000,
{
    delay_of_hash(fx_hash_pair(user, group))
}

/// What happened on the client's connection to the server.
pub enum ConnEvent<S> {
    /// Opening the TCP connection (through the socks proxy, if any) failed.
    TcpFailed(MessengerError<S>),
    /// The TLS handshake failed.
    TlsFailed,
    /// The client's handshake could not be written.
    HandshakeUnsent,
    /// The handshake was written: the connection is up.
    Connected,
    /// The reader or the writer thread reported an error on the connection.
    StreamFailed(MessengerError<S>),
}

/// What the client does next with its connection to the server.
pub enum ConnStep<S> {
    /// Wait the retry time, then connect again.
    WaitThenConnect,
    /// Connect again at once.
    ConnectNow,
    /// Give the connection's halves to the reader and writer threads, and
    /// wait for one of them to report an error.
    HandOver,
    /// Give up with this error.
    Stop(FatalError<S>),
}

/// The client's next step after an event on its connection: a recoverable
/// TCP failure or a TLS failure waits the retry time before reconnecting; a
/// handshake that could not be written, or a recoverable error on the
/// stream, reconnects at once; a fatal error stops; a connection that is up
/// is handed over.
pub fn next_conn_step<S>(event: ConnEvent<S>) -> (res: ConnStep<S>)
    ensures
        (match event {
            ConnEvent::TcpFailed(MessengerError::Recoverable(_)) => res is WaitThenConnect,
            ConnEvent::TlsFailed => res is WaitThenConnect,
            ConnEvent::TcpFailed(MessengerError::Fatal(e)) => res == ConnStep::Stop(e),
            ConnEvent::StreamFailed(MessengerError::Fatal(e)) => res == ConnStep::Stop(e),
            ConnEvent::HandshakeUnsent => res is ConnectNow,
            ConnEvent::StreamFailed(MessengerError::Recoverable(_)) => res is ConnectNow,
            ConnEvent::Connected => res is HandOver,
        }),
{
    match event {
        ConnEvent::TcpFailed(MessengerError::Recoverable(_)) => ConnStep::WaitThenConnect,
        ConnEvent::TlsFailed => ConnStep::WaitThenConnect,
        ConnEvent::TcpFailed(MessengerError::Fatal(e)) => ConnStep::Stop(e),
        ConnEvent::StreamFailed(MessengerError::Fatal(e)) => ConnStep::Stop(e),
        ConnEvent::HandshakeUnsent => ConnStep::ConnectNow,
        ConnEvent::StreamFailed(MessengerError::Recoverable(_)) => ConnStep::ConnectNow,
        ConnEvent::Connected => ConnStep::HandOver,
    }
}

/// The message server and web server of a conversation: those its own
/// configuration names, the defaults where it names none.
pub fn conversation_servers(
    message_server: Option<String>,
    web_server: Option<String>,
    default_message_server: &str,
    default_web_server: &str,
) -> (res: (String, String))
    ensures
        res.0@ == (match message_server {
            Some(s) => s@,
            None => default_message_server@,
        }),
        res.1@ == (match web_server {
            Some(s) => s@,
            None => default_web_server@,
        }),
{
    let m = match message_server {
        Some(s) => s,
        None => default_message_server.to_string(),
    };
    let w = match web_server {
        Some(s) => s,
        None => default_web_server.to_string(),
    };
    (m, w)
}

} // verus!
