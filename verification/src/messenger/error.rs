//! The errors of the messenger clients and peers, split into those that
//! reconnecting may cure and those that end the program.
use vstd::prelude::*;

verus! {

/// The kinds of socks errors that reconnecting may cure, and the rest
/// (for `tokio_socks::Error`: the variants `Io`, `ProxyServerUnreachable`,
/// `GeneralSocksServerFailure`, `HostUnreachable`, `TtlExpired`, and the others).
#[derive(Debug, Clone, Copy, PartialEq, Eq, Structural)]
pub enum SocksErrorKind {
    Io,
    ProxyServerUnreachable,
    GeneralSocksServerFailure,
    HostUnreachable,
    TtlExpired,
    Other,
}

/// Errors where it is possible reconnecting could resolve the problem.
#[derive(Debug)]
pub enum RecoverableError<S> {
    /// Recoverable errors from the socks connection.
    Socks(S),
    /// Network I/O errors.
    Io(std::io::Error),
}

/// Errors where something is wrong enough we should terminate.
#[derive(Debug)]
pub enum FatalError<S> {
    /// Fatal errors from the socks connection.
    Socks(S),
    /// Errors from the conversations' distribution parameters, described.
    Parameter(String),
    /// Error while trying to interpret bytes as a String.
    Utf8Error(std::str::Utf8Error),
    /// A message failed to deserialize.
    MalformedSerialization(Vec<u8>, std::backtrace::Backtrace),
    /// Fatal network I/O errors.
    Io(std::io::Error),
}

/// Errors encountered by the client; `S` is the socks connection's error.
/// Note that I/O errors are Recoverable by default.
#[derive(Debug)]
pub enum MessengerError<S> {
    Recoverable(RecoverableError<S>),
    Fatal(FatalError<S>),
}

/// Whether reconnecting may cure a socks error of this kind.
pub open spec fn socks_recoverable(kind: SocksErrorKind) -> bool {
    kind != SocksErrorKind::Other
}

impl<S> MessengerError<S> {
    /// Whether the error ends the program.
    pub fn is_fatal(&self) -> (res: bool)
        ensures
            res == (self is Fatal),
    {
        match self {
            MessengerError::Recoverable(_) => false,
            MessengerError::Fatal(_) => true,
        }
    }

    /// An error reading a message: I/O errors are recoverable, the others fatal.
    pub fn from_wire(e: crate::wire::Error) -> (res: MessengerError<S>)
        ensures
            match e {
                crate::wire::Error::Io(x) => res == MessengerError::Recoverable(RecoverableError::<S>::Io(x)),
                crate::wire::Error::Utf8Error(x) => res == MessengerError::Fatal(FatalError::<S>::Utf8Error(x)),
                crate::wire::Error::MalformedSerialization(v, b) => res matches MessengerError::Fatal(
                    FatalError::MalformedSerialization(w, c),
                ) && w@ == v@ && c == b,
            },
    {
        match e {
            crate::wire::Error::Io(x) => MessengerError::Recoverable(RecoverableError::Io(x)),
            crate::wire::Error::Utf8Error(x) => MessengerError::Fatal(FatalError::Utf8Error(x)),
            crate::wire::Error::MalformedSerialization(v, b) => MessengerError::Fatal(FatalError::MalformedSerialization(v, b)),
        }
    }

    /// A network I/O error, which reconnecting may cure.
    pub fn from_io(e: std::io::Error) -> (res: MessengerError<S>)
        ensures
            res == MessengerError::Recoverable(RecoverableError::<S>::Io(e)),
    {
        MessengerError::Recoverable(RecoverableError::Io(e))
    }

    /// A socks error of the given kind: recoverable for I/O errors, an
    /// unreachable proxy or host, a general server failure or an expired TTL;
    /// fatal otherwise.
    pub fn from_socks_kind(e: S, kind: SocksErrorKind) -> (res: MessengerError<S>)
        ensures
            socks_recoverable(kind) ==> res == MessengerError::Recoverable(RecoverableError::Socks(e)),
            !socks_recoverable(kind) ==> res == MessengerError::Fatal(FatalError::Socks(e)),
    {
        match kind {
            SocksErrorKind::Other => MessengerError::Fatal(FatalError::Socks(e)),
            _ => MessengerError::Recoverable(RecoverableError::Socks(e)),
        }
    }
}

impl<S> FatalError<S> {
    /// A network I/O error that ends the program.
    pub fn from_io(e: std::io::Error) -> (res: FatalError<S>)
        ensures
            res == FatalError::<S>::Io(e),
    {
        FatalError::Io(e)
    }
}

} // verus!
