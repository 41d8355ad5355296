//! How the conversation hands messages to the threads that write them: in a
//! `Box` where one stream gets each message, in an `Arc` shared by several.
use vstd::prelude::*;

use crate::wire::SerializedMessage;
use std::sync::Arc;

verus! {

/// A holder of a message on its way to a writer thread.
pub trait MessageHolder: Sized {
    /// The message held.
    spec fn held(&self) -> SerializedMessage;

    /// Whether the holder may be handed to more than one stream.
    spec fn shares(&self) -> bool;

    /// Hold a message.
    fn new(m: SerializedMessage) -> (res: Self)
        ensures
            res.held() == m,
    ;

    /// A holder of the same message, for another stream; only a holder that
    /// shares its message is ever cloned.
    fn clone(&self) -> (res: Self)
        requires
            self.shares(),
        ensures
            res.held().header@ == self.held().header@,
            res.held().body == self.held().body,
    ;

    /// The message held.
    fn message(&self) -> (res: &SerializedMessage)
        ensures
            *res == self.held(),
    ;
}

/// `Arc::clone`: another pointer to the same message.
#[verifier::external_body]
fn share(m: &Arc<SerializedMessage>) -> (res: Arc<SerializedMessage>)
    ensures
        *res == **m,
{
    std::clone::Clone::clone(m)
}

impl MessageHolder for Arc<SerializedMessage> {
    open spec fn held(&self) -> SerializedMessage {
        **self
    }

    open spec fn shares(&self) -> bool {
        true
    }

    fn new(m: SerializedMessage) -> (res: Self) {
        Arc::new(m)
    }

    fn clone(&self) -> (res: Self) {
        share(self)
    }

    fn message(&self) -> (res: &SerializedMessage) {
        &**self
    }
}

impl MessageHolder for Box<SerializedMessage> {
    open spec fn held(&self) -> SerializedMessage {
        **self
    }

    /// A box holds a message for a single stream.
    open spec fn shares(&self) -> bool {
        false
    }

    fn new(m: SerializedMessage) -> (res: Self) {
        Box::new(m)
    }

    /// Never called: a box serves a single stream (`shares` is false). Were
    /// it called, the new box would hold a copy.
    fn clone(&self) -> (res: Self) {
        let mut header: Vec<u8> = Vec::new();
        let n = self.header.len();
        let mut i: usize = 0;
        while i < n
            invariant
                n == self.header@.len(),
                i <= n,
                header@ == self.header@.take(i as int),
            decreases n - i,
        {
            header.push(self.header[i]);
            i = i + 1;
            assert(header@ =~= self.header@.take(i as int));
        }
        assert(self.header@.take(n as int) =~= self.header@);
        Box::new(SerializedMessage { header, body: self.body })
    }

    fn message(&self) -> (res: &SerializedMessage) {
        &**self
    }
}

} // verus!
