//! Decisions of the server: which clients it knows, and where a message a
//! client sends goes.
use vstd::prelude::*;

use crate::wire::{utf8, Handshake, MessageBody, MessageHeaderRef};

verus! {

/// Whether two byte strings are equal.
fn same_bytes(x: &[u8], y: &[u8]) -> (res: bool)
    ensures
        res == (x@ == y@),
{
    if x.len() != y.len() {
        return false;
    }
    let n = x.len();
    let mut i: usize = 0;
    while i < n
        invariant
            n == x@.len() == y@.len(),
            i <= n,
            forall|j: int| 0 <= j < i ==> x@[j] == y@[j],
        decreases n - i,
    {
        if x[i] != y[i] {
            return false;
        }
        i = i + 1;
    }
    assert(x@ =~= y@);
    true
}

/// Whether two strings are equal, compared by their bytes.
pub fn str_eq(a: &str, b: &str) -> (res: bool)
    ensures
        res == (a@ == b@),
{
    let res = same_bytes(a.as_bytes(), b.as_bytes());
    proof {
        vstd::utf8::encode_utf8_decode_utf8(a@);
        vstd::utf8::encode_utf8_decode_utf8(b@);
    }
    res
}

/// The clients a server has registered, each by the (sender, group) of its handshake.
pub struct Registry {
    clients: Vec<Handshake>,
}

/// The registered (sender, group) pairs, in order of registration.
pub open spec fn reg_view(clients: Seq<Handshake>) -> Seq<(Seq<char>, Seq<char>)> {
    clients.map_values(|h: Handshake| (h.sender@, h.group@))
}

/// Whether no pair is registered twice.
pub open spec fn no_repeats(v: Seq<(Seq<char>, Seq<char>)>) -> bool {
    forall|i: int, j: int| 0 <= i < j < v.len() ==> v[i] != v[j]
}

/// Whether some registered client is in `group`.
pub open spec fn group_known(v: Seq<(Seq<char>, Seq<char>)>, group: Seq<char>) -> bool {
    exists|i: int| 0 <= i < v.len() && (#[trigger] v[i]).1 == group
}

/// The senders registered in `group` other than `sender`, in order of registration.
pub open spec fn others_in_group(v: Seq<(Seq<char>, Seq<char>)>, group: Seq<char>, sender: Seq<char>) -> Seq<Seq<char>>
    decreases v.len(),
{
    if v.len() == 0 {
        Seq::empty()
    } else {
        let rest = others_in_group(v.drop_last(), group, sender);
        if v.last().1 == group && v.last().0 != sender {
            rest.push(v.last().0)
        } else {
            rest
        }
    }
}

/// What the server does with a handshake.
#[derive(Debug, Clone, Copy, PartialEq, Eq, Structural)]
pub enum HandshakeAction {
    /// A known client reconnected: give its sender thread the new socket.
    Reconnect,
    /// A new client registers; `new_group` when no client of its group came before.
    Register { new_group: bool },
    /// A new client after the registration phase: an error.
    LateRegistration,
}

/// Where a message read from a client's socket goes.
#[derive(Debug, Clone, Copy, PartialEq, Eq, Structural)]
pub enum Route {
    /// To every other client of the connection's group.
    Broadcast,
    /// A receipt, to the client its group field names.
    Deliver,
    /// A message that does not belong on this connection: an error.
    Reject,
}

impl Registry {
    /// The registered pairs.
    pub closed spec fn view_pairs(&self) -> Seq<(Seq<char>, Seq<char>)> {
        reg_view(self.clients@)
    }

    /// No pair is registered twice.
    #[verifier::type_invariant]
    spec fn registry_inv(self) -> bool {
        no_repeats(reg_view(self.clients@))
    }

    /// No client registered.
    pub fn new() -> (res: Registry)
        ensures
            res.view_pairs() == Seq::<(Seq<char>, Seq<char>)>::empty(),
    {
        let r = Registry { clients: Vec::new() };
        assert(r.view_pairs() =~= Seq::<(Seq<char>, Seq<char>)>::empty());
        r
    }

    /// Whether the client with this handshake is registered.
    pub fn is_known(&self, sender: &str, group: &str) -> (res: bool)
        ensures
            res == self.view_pairs().contains((sender@, group@)),
    {
        let n = self.clients.len();
        let mut i: usize = 0;
        while i < n
            invariant
                n == self.clients@.len(),
                i <= n,
                forall|j: int| 0 <= j < i ==> self.view_pairs()[j] != (sender@, group@),
            decreases n - i,
        {
            let h = &self.clients[i];
            if str_eq(h.sender.as_str(), sender) && str_eq(h.group.as_str(), group) {
                assert(self.view_pairs()[i as int] == (sender@, group@));
                return true;
            }
            i = i + 1;
        }
        false
    }

    /// Whether some registered client is in `group`.
    fn has_group(&self, group: &str) -> (res: bool)
        ensures
            res == group_known(self.view_pairs(), group@),
    {
        let n = self.clients.len();
        let mut i: usize = 0;
        while i < n
            invariant
                n == self.clients@.len(),
                i <= n,
                forall|j: int| 0 <= j < i ==> (#[trigger] self.view_pairs()[j]).1 != group@,
            decreases n - i,
        {
            if str_eq(self.clients[i].group.as_str(), group) {
                assert(self.view_pairs()[i as int].1 == group@);
                return true;
            }
            i = i + 1;
        }
        false
    }

    /// Handle a handshake: a known client reconnects; a new one registers
    /// during the registration phase and is refused after it.
    pub fn on_handshake(&mut self, sender: &str, group: &str, registration_phase: bool) -> (res: HandshakeAction)
        ensures
            no_repeats(final(self).view_pairs()),
            old(self).view_pairs().contains((sender@, group@)) ==> res == HandshakeAction::Reconnect
                && final(self).view_pairs() == old(self).view_pairs(),
            !old(self).view_pairs().contains((sender@, group@)) && registration_phase ==> res
                == (HandshakeAction::Register { new_group: !group_known(old(self).view_pairs(), group@) })
                && final(self).view_pairs() == old(self).view_pairs().push((sender@, group@)),
            !old(self).view_pairs().contains((sender@, group@)) && !registration_phase ==> res
                == HandshakeAction::LateRegistration && final(self).view_pairs() == old(self).view_pairs(),
    {
        proof {
            use_type_invariant(&*self);
        }
        if self.is_known(sender, group) {
            return HandshakeAction::Reconnect;
        }
        if !registration_phase {
            return HandshakeAction::LateRegistration;
        }
        let new_group = !self.has_group(group);
        let ghost before = self.view_pairs();
        let mut clients: Vec<Handshake> = Vec::new();
        std::mem::swap(&mut clients, &mut self.clients);
        clients.push(Handshake { sender: sender.to_string(), group: group.to_string() });
        assert(reg_view(clients@) =~= before.push((sender@, group@)));
        self.clients = clients;
        HandshakeAction::Register { new_group }
    }

    /// The clients of `group` other than `sender`, in order of registration:
    /// where a message from `sender` to `group` goes.
    pub fn members_except(&self, group: &str, sender: &str) -> (res: Vec<String>)
        ensures
            res@.map_values(|s: String| s@) == others_in_group(self.view_pairs(), group@, sender@),
    {
        let n = self.clients.len();
        let mut out: Vec<String> = Vec::new();
        let mut i: usize = 0;
        while i < n
            invariant
                n == self.clients@.len(),
                i <= n,
                out@.map_values(|s: String| s@) == others_in_group(reg_view(self.clients@.take(i as int)), group@, sender@),
            decreases n - i,
        {
            let h = &self.clients[i];
            assert(reg_view(self.clients@.take(i + 1)).drop_last() =~= reg_view(self.clients@.take(i as int)));
            if str_eq(h.group.as_str(), group) && !str_eq(h.sender.as_str(), sender) {
                let ghost before = out@.map_values(|s: String| s@);
                out.push(h.sender.clone());
                assert(out@.map_values(|s: String| s@) =~= before.push(h.sender@));
            }
            i = i + 1;
        }
        assert(self.clients@.take(n as int) =~= self.clients@);
        out
    }

    /// Where a message read from the connection of `sender` in `group` goes:
    /// one not from `sender` is rejected; a message to another group too; a
    /// message to the group goes to the other clients of the group; a receipt
    /// goes to the client it names, rejected where that client is not of the group.
    pub fn route(&self, msg: &MessageHeaderRef, sender: &str, group: &str) -> (res: Route)
        ensures
            msg.sender@ != sender@ ==> res == Route::Reject,
            msg.sender@ == sender@ && msg.body is Size ==> res == (if msg.group@ == group@ {
                Route::Broadcast
            } else {
                Route::Reject
            }),
            msg.sender@ == sender@ && msg.body is Receipt ==> res == (if self.view_pairs().contains(
                (msg.group@, group@),
            ) {
                Route::Deliver
            } else {
                Route::Reject
            }),
    {
        if !str_eq(msg.sender, sender) {
            return Route::Reject;
        }
        match msg.body {
            MessageBody::Size(_) => {
                if str_eq(msg.group, group) {
                    Route::Broadcast
                } else {
                    Route::Reject
                }
            },
            MessageBody::Receipt => {
                if self.is_known(msg.group, group) {
                    Route::Deliver
                } else {
                    Route::Reject
                }
            },
        }
    }
}

} // verus!

verus! {

/// A message of a client to its group goes to every other client of the
/// group, and never back to the client itself.
pub proof fn lemma_broadcast_others(v: Seq<(Seq<char>, Seq<char>)>, group: Seq<char>, sender: Seq<char>, name: Seq<char>)
    ensures
        others_in_group(v, group, sender).contains(name) <==> name != sender && v.contains((name, group)),
    decreases v.len(),
{
    if v.len() > 0 {
        let rest = v.drop_last();
        let last = v.last();
        let o = others_in_group(rest, group, sender);
        lemma_broadcast_others(rest, group, sender, name);
        assert(v =~= rest.push(last));
        assert(v.contains((name, group)) <==> rest.contains((name, group)) || last == (name, group)) by {
            if v.contains((name, group)) {
                let i = choose|i: int| 0 <= i < v.len() && v[i] == (name, group);
                if i < rest.len() {
                    assert(rest[i] == (name, group));
                }
            }
            if rest.contains((name, group)) {
                let i = choose|i: int| 0 <= i < rest.len() && rest[i] == (name, group);
                assert(v[i] == (name, group));
            }
            if last == (name, group) {
                assert(v[v.len() - 1] == (name, group));
            }
        }
        if last.1 == group && last.0 != sender {
            assert(others_in_group(v, group, sender) == o.push(last.0));
            assert(o.push(last.0).contains(name) <==> o.contains(name) || last.0 == name) by {
                if o.push(last.0).contains(name) {
                    let i = choose|i: int| 0 <= i < o.push(last.0).len() && o.push(last.0)[i] == name;
                    if i < o.len() {
                        assert(o[i] == name);
                    }
                }
                if o.contains(name) {
                    let i = choose|i: int| 0 <= i < o.len() && o[i] == name;
                    assert(o.push(last.0)[i] == name);
                }
                if last.0 == name {
                    assert(o.push(last.0)[o.len() as int] == name);
                }
            }
        } else {
            assert(others_in_group(v, group, sender) == o);
        }
    }
}

/// A client that registered is known from then on, and another handshake
/// of it is a reconnection.
pub proof fn lemma_registered_known(before: Seq<(Seq<char>, Seq<char>)>, sender: Seq<char>, group: Seq<char>)
    ensures
        before.push((sender, group)).contains((sender, group)),
{
    assert(before.push((sender, group))[before.len() as int] == (sender, group));
}

} // verus!
