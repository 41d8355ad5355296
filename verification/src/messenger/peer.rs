//! Decisions of the peer in the peer-to-peer mode: which reader and writer
//! threads its conversations need, and where it listens.
use vstd::prelude::*;

use crate::messenger::error::{FatalError, MessengerError};
use crate::server::str_eq;
use crate::wire::utf8;

verus! {

/// A conversation of a peer's configuration, as far as the threads it needs go.
pub struct PeerConversation {
    pub group: String,
    pub recipients: Vec<String>,
}

/// The reader and writer threads for one recipient: its name and address,
/// the conversation whose retry time they use (the first to name the
/// recipient), and for each group the conversation its messages go to (the
/// first of that group to name the recipient).
pub struct RecipientPlan {
    pub name: String,
    pub address: Vec<u8>,
    pub conversation: usize,
    pub groups: Vec<(String, usize)>,
}

/// The threads of a peer and the address it listens on.
pub struct PeerPlan {
    pub recipients: Vec<RecipientPlan>,
    pub listen: Vec<u8>,
}

/// Why a peer's configuration cannot be run.
#[derive(Debug, PartialEq, Eq)]
pub enum PlanError {
    /// A recipient is not in the hosts file.
    UnknownRecipient(String),
    /// No listening address is given and the user is not in the hosts file.
    UnknownUser,
}

/// The address of the last pair named `key`.
pub open spec fn assoc_get(l: Seq<(Seq<u8>, Seq<u8>)>, key: Seq<u8>) -> Option<Seq<u8>>
    decreases l.len(),
{
    if l.len() == 0 {
        None
    } else if l.last().0 == key {
        Some(l.last().1)
    } else {
        assoc_get(l.drop_last(), key)
    }
}

/// The (name, address) pairs of a hosts list.
pub open spec fn hosts_view(v: Seq<(Vec<u8>, Vec<u8>)>) -> Seq<(Seq<u8>, Seq<u8>)> {
    v.map_values(|p: (Vec<u8>, Vec<u8>)| (p.0@, p.1@))
}

/// Whether conversation `c` names `r` as a recipient.
pub open spec fn in_conv(convs: Seq<PeerConversation>, c: int, r: Seq<char>) -> bool {
    exists|k: int| 0 <= k < convs[c].recipients@.len() && (#[trigger] convs[c].recipients@[k])@ == r
}

/// Whether conversation `c` is the first to name `r`.
pub open spec fn first_conv(convs: Seq<PeerConversation>, r: Seq<char>, c: int) -> bool {
    &&& 0 <= c < convs.len()
    &&& in_conv(convs, c, r)
    &&& forall|d: int| 0 <= d < c ==> !#[trigger] in_conv(convs, d, r)
}

/// Whether conversation `c` is the first of group `g` to name `r`.
pub open spec fn first_in_group(convs: Seq<PeerConversation>, r: Seq<char>, g: Seq<char>, c: int) -> bool {
    &&& 0 <= c < convs.len()
    &&& in_conv(convs, c, r)
    &&& convs[c].group@ == g
    &&& forall|d: int| 0 <= d < c ==> !(#[trigger] in_conv(convs, d, r) && convs[d].group@ == g)
}

/// Whether some plan is for `name`.
pub open spec fn covered(p: Seq<RecipientPlan>, name: Seq<char>) -> bool {
    exists|i: int| 0 <= i < p.len() && (#[trigger] p[i]).name@ == name
}

/// Whether group `g` is listed.
pub open spec fn group_listed(groups: Seq<(String, usize)>, g: Seq<char>) -> bool {
    exists|j: int| 0 <= j < groups.len() && (#[trigger] groups[j]).0@ == g
}

/// Whether every recipient of every conversation is in the hosts list.
pub open spec fn recipients_known(convs: Seq<PeerConversation>, hosts: Seq<(Seq<u8>, Seq<u8>)>) -> bool {
    forall|c: int, k: int|
        0 <= c < convs.len() && 0 <= k < convs[c].recipients@.len() ==> assoc_get(
            hosts,
            utf8((#[trigger] convs[c].recipients@[k])@),
        ) is Some
}

/// Whether the threads of a plan are those the conversations need: one per
/// recipient named, each with the recipient's address, the first
/// conversation to name it, and for each group of the conversations naming
/// it the first such conversation of that group.
pub open spec fn plan_holds(p: Seq<RecipientPlan>, convs: Seq<PeerConversation>, hosts: Seq<(Seq<u8>, Seq<u8>)>) -> bool {
    &&& forall|i: int, j: int| 0 <= i < j < p.len() ==> (#[trigger] p[i]).name@ != (#[trigger] p[j]).name@
    &&& forall|c: int, k: int|
        0 <= c < convs.len() && 0 <= k < convs[c].recipients@.len() ==> covered(p, (#[trigger] convs[c].recipients@[k])@)
    &&& forall|i: int|
        0 <= i < p.len() ==> {
            &&& first_conv(convs, (#[trigger] p[i]).name@, p[i].conversation as int)
            &&& assoc_get(hosts, utf8(p[i].name@)) == Some(p[i].address@)
            &&& forall|j1: int, j2: int|
                0 <= j1 < j2 < p[i].groups@.len() ==> (#[trigger] p[i].groups@[j1]).0@ != (
                #[trigger] p[i].groups@[j2]).0@
            &&& forall|j: int|
                0 <= j < p[i].groups@.len() ==> first_in_group(
                    convs,
                    p[i].name@,
                    (#[trigger] p[i].groups@[j]).0@,
                    p[i].groups@[j].1 as int,
                )
            &&& forall|c: int|
                0 <= c < convs.len() && #[trigger] in_conv(convs, c, p[i].name@) ==> group_listed(
                    p[i].groups@,
                    convs[c].group@,
                )
        }
}

} // verus!

verus! {

/// The address of the last pair named `key`.
fn host_address(hosts: &[(Vec<u8>, Vec<u8>)], key: &[u8]) -> (res: Option<Vec<u8>>)
    ensures
        match (res, assoc_get(hosts_view(hosts@), key@)) {
            (Some(a), Some(b)) => a@ == b,
            (None, None) => true,
            _ => false,
        },
{
    let mut i: usize = hosts.len();
    assert(hosts@.take(i as int) =~= hosts@);
    while i > 0
        invariant
            i <= hosts@.len(),
            assoc_get(hosts_view(hosts@), key@) == assoc_get(hosts_view(hosts@.take(i as int)), key@),
        decreases i,
    {
        assert(hosts_view(hosts@.take(i as int)).drop_last() =~= hosts_view(hosts@.take(i - 1)));
        if same(hosts[i - 1].0.as_slice(), key) {
            return Some(hosts[i - 1].1.clone());
        }
        i = i - 1;
    }
    None
}

/// Whether two byte strings are equal.
fn same(a: &[u8], b: &[u8]) -> (res: bool)
    ensures
        res == (a@ == b@),
{
    if a.len() != b.len() {
        return false;
    }
    let n = a.len();
    let mut i: usize = 0;
    while i < n
        invariant
            n == a@.len() == b@.len(),
            i <= n,
            forall|j: int| 0 <= j < i ==> a@[j] == b@[j],
        decreases n - i,
    {
        if a[i] != b[i] {
            return false;
        }
        i = i + 1;
    }
    assert(a@ =~= b@);
    true
}

/// The index of the plan for recipient `r`.
fn find_plan(recs: &Vec<RecipientPlan>, r: &str) -> (res: Option<usize>)
    ensures
        res matches Some(i) ==> i < recs@.len() && recs@[i as int].name@ == r@,
        res is None ==> forall|i: int| 0 <= i < recs@.len() ==> (#[trigger] recs@[i]).name@ != r@,
{
    let n = recs.len();
    let mut i: usize = 0;
    while i < n
        invariant
            n == recs@.len(),
            i <= n,
            forall|j: int| 0 <= j < i ==> (#[trigger] recs@[j]).name@ != r@,
        decreases n - i,
    {
        if str_eq(recs[i].name.as_str(), r) {
            return Some(i);
        }
        i = i + 1;
    }
    None
}

/// Whether group `g` is among the groups.
fn has_group(groups: &Vec<(String, usize)>, g: &str) -> (res: bool)
    ensures
        res == exists|j: int| 0 <= j < groups@.len() && (#[trigger] groups@[j]).0@ == g@,
{
    let n = groups.len();
    let mut i: usize = 0;
    while i < n
        invariant
            n == groups@.len(),
            i <= n,
            forall|j: int| 0 <= j < i ==> (#[trigger] groups@[j]).0@ != g@,
        decreases n - i,
    {
        if str_eq(groups[i].0.as_str(), g) {
            return true;
        }
        i = i + 1;
    }
    false
}

/// Whether recipient `k` of conversation `c` comes before position (`c2`, `k2`).
pub open spec fn before(c: int, k: int, c2: int, k2: int) -> bool {
    c < c2 || (c == c2 && k < k2)
}

/// `plan_holds`, for the recipients before position (`c`, `k`).
pub open spec fn prefix_holds(
    p: Seq<RecipientPlan>,
    convs: Seq<PeerConversation>,
    hosts: Seq<(Seq<u8>, Seq<u8>)>,
    c: int,
    k: int,
) -> bool {
    &&& forall|i: int, j: int| 0 <= i < j < p.len() ==> (#[trigger] p[i]).name@ != (#[trigger] p[j]).name@
    &&& forall|c2: int, k2: int|
        0 <= c2 < convs.len() && 0 <= k2 < convs[c2].recipients@.len() && before(c2, k2, c, k) ==> covered(
            p,
            (#[trigger] convs[c2].recipients@[k2])@,
        )
    &&& forall|i: int|
        0 <= i < p.len() ==> {
            &&& first_conv(convs, (#[trigger] p[i]).name@, p[i].conversation as int)
            &&& p[i].conversation <= c
            &&& assoc_get(hosts, utf8(p[i].name@)) == Some(p[i].address@)
            &&& forall|j1: int, j2: int|
                0 <= j1 < j2 < p[i].groups@.len() ==> (#[trigger] p[i].groups@[j1]).0@ != (
                #[trigger] p[i].groups@[j2]).0@
            &&& forall|j: int|
                0 <= j < p[i].groups@.len() ==> first_in_group(
                    convs,
                    p[i].name@,
                    (#[trigger] p[i].groups@[j]).0@,
                    p[i].groups@[j].1 as int,
                )
            &&& forall|c2: int, k2: int|
                0 <= c2 < convs.len() && 0 <= k2 < convs[c2].recipients@.len() && before(c2, k2, c, k)
                    && (#[trigger] convs[c2].recipients@[k2])@ == p[i].name@ ==> group_listed(
                    p[i].groups@,
                    convs[c2].group@,
                )
        }
}

/// Whether `res` is what planning a peer gives: the plan where every
/// recipient and (without `listen`) the user are in the hosts list; the
/// first error otherwise.
pub open spec fn plan_outcome(
    res: Result<PeerPlan, PlanError>,
    user: Seq<char>,
    listen: Option<&str>,
    convs: Seq<PeerConversation>,
    hv: Seq<(Seq<u8>, Seq<u8>)>,
) -> bool {
    match res {
        Ok(plan) => {
            &&& recipients_known(convs, hv)
            &&& plan_holds(plan.recipients@, convs, hv)
            &&& plan.listen@ == match listen {
                Some(l) => utf8(l@),
                None => assoc_get(hv, utf8(user))->0,
            }
            &&& (listen is None ==> assoc_get(hv, utf8(user)) is Some)
        },
        Err(PlanError::UnknownRecipient(r)) => exists|c: int|
            0 <= c < convs.len() && #[trigger] in_conv(convs, c, r@) && assoc_get(hv, utf8(r@)) is None,
        Err(PlanError::UnknownUser) => {
            &&& recipients_known(convs, hv)
            &&& listen is None
            &&& assoc_get(hv, utf8(user)) is None
        },
    }
}

/// Plan the threads of a peer: for each recipient its address from the hosts
/// list, and the address to listen on (`listen` where given, else the user's
/// own address in the hosts list).
pub fn plan_peer(
    user: &str,
    listen: Option<&str>,
    conversations: &[PeerConversation],
    hosts: &[(Vec<u8>, Vec<u8>)],
) -> (res: Result<PeerPlan, PlanError>)
    ensures
        plan_outcome(res, user@, listen, conversations@, hosts_view(hosts@)),
{
    let ghost convs = conversations@;
    let ghost hv = hosts_view(hosts@);
    let mut recs: Vec<RecipientPlan> = Vec::new();
    let n = conversations.len();
    let mut c: usize = 0;
    while c < n
        invariant
            convs == conversations@,
            hv == hosts_view(hosts@),
            n == convs.len(),
            c <= n,
            prefix_holds(recs@, convs, hv, c as int, 0),
            forall|c2: int, k2: int|
                0 <= c2 < c && 0 <= k2 < convs[c2].recipients@.len() ==> assoc_get(
                    hv,
                    utf8((#[trigger] convs[c2].recipients@[k2])@),
                ) is Some,
        decreases n - c,
    {
        let conv = &conversations[c];
        let m = conv.recipients.len();
        let mut k: usize = 0;
        while k < m
            invariant
                convs == conversations@,
                hv == hosts_view(hosts@),
                n == convs.len(),
                c < n,
                *conv == convs[c as int],
                m == convs[c as int].recipients@.len(),
                k <= m,
                prefix_holds(recs@, convs, hv, c as int, k as int),
                forall|c2: int, k2: int|
                    0 <= c2 < convs.len() && 0 <= k2 < convs[c2].recipients@.len() && before(c2, k2, c as int, k as int)
                        ==> assoc_get(hv, utf8((#[trigger] convs[c2].recipients@[k2])@)) is Some,
            decreases m - k,
        {
            let r: &String = &conv.recipients[k];
            assert(convs[c as int].recipients@[k as int] == *r);
            let ghost rv = r@;
            proof {
                assert(in_conv(convs, c as int, rv));
            }
            match find_plan(&recs, r.as_str()) {
                Some(i) => {
                    if !has_group(&recs[i].groups, conv.group.as_str()) {
                        assert(!group_listed(recs@[i as int].groups@, convs[c as int].group@));
                        let ghost old_recs = recs@;
                        let mut tmp = RecipientPlan {
                            name: String::new(),
                            address: Vec::new(),
                            conversation: 0,
                            groups: Vec::new(),
                        };
                        std::mem::swap(&mut tmp, &mut recs[i]);
                        assert(tmp == old_recs[i as int]);
                        let ghost old_groups = tmp.groups@;
                        tmp.groups.push((conv.group.clone(), c));
                        recs.set(i, tmp);
                        proof {
                            lemma_add_group(old_recs, recs@, convs, hv, c as int, k as int, i as int, old_groups);
                        }
                    } else {
                        assert(group_listed(recs@[i as int].groups@, convs[c as int].group@));
                        proof {
                            lemma_same_plan(recs@, convs, hv, c as int, k as int, i as int);
                        }
                    }
                },
                None => {
                    let rs: &str = r.as_str();
                    let rb = rs.as_bytes();
                    assert(rb@ == utf8(rv));
                    let address = match host_address(hosts, rb) {
                        Some(a) => a,
                        None => {
                            let name = r.clone();
                            assert(exists|c2: int|
                                0 <= c2 < conversations@.len() && #[trigger] in_conv(conversations@, c2, name@)
                                    && assoc_get(hosts_view(hosts@), utf8(name@)) is None);
                            let res: Result<PeerPlan, PlanError> = Err(PlanError::UnknownRecipient(name));
                            return res;
                        },
                    };
                    let ghost old_recs = recs@;
                    let mut groups: Vec<(String, usize)> = Vec::new();
                    groups.push((conv.group.clone(), c));
                    recs.push(RecipientPlan { name: r.clone(), address, conversation: c, groups });
                    proof {
                        lemma_new_plan(old_recs, recs@, convs, hv, c as int, k as int);
                    }
                },
            }
            k = k + 1;
        }
        proof {
            lemma_next_conv(recs@, convs, hv, c as int);
        }
        c = c + 1;
    }
    proof {
        lemma_prefix_done(recs@, convs, hv);
    }
    let listen_addr = match listen {
        Some(l) => {
            let mut v: Vec<u8> = Vec::new();
            let b = l.as_bytes();
            let len = b.len();
            let mut j: usize = 0;
            while j < len
                invariant
                    len == b@.len(),
                    j <= len,
                    v@ == b@.take(j as int),
                decreases len - j,
            {
                v.push(b[j]);
                j = j + 1;
                assert(v@ =~= b@.take(j as int));
            }
            assert(b@.take(len as int) =~= b@);
            v
        },
        None => match host_address(hosts, user.as_bytes()) {
            Some(a) => a,
            None => return Err(PlanError::UnknownUser),
        },
    };
    Ok(PeerPlan { recipients: recs, listen: listen_addr })
}

} // verus!

verus! {

proof fn lemma_same_plan(
    recs: Seq<RecipientPlan>,
    convs: Seq<PeerConversation>,
    hv: Seq<(Seq<u8>, Seq<u8>)>,
    c: int,
    k: int,
    i: int,
)
    requires
        prefix_holds(recs, convs, hv, c, k),
        0 <= c < convs.len(),
        0 <= k < convs[c].recipients@.len(),
        0 <= i < recs.len(),
        recs[i].name@ == convs[c].recipients@[k]@,
        group_listed(recs[i].groups@, convs[c].group@),
    ensures
        prefix_holds(recs, convs, hv, c, k + 1),
        assoc_get(hv, utf8(convs[c].recipients@[k]@)) is Some,
{
    assert forall|c2: int, k2: int|
        0 <= c2 < convs.len() && 0 <= k2 < convs[c2].recipients@.len() && before(c2, k2, c, k + 1) implies covered(
        recs,
        (#[trigger] convs[c2].recipients@[k2])@,
    ) by {
        if !before(c2, k2, c, k) {
            assert(c2 == c && k2 == k);
            assert(recs[i].name@ == convs[c2].recipients@[k2]@);
        }
    }
    assert forall|x: int| 0 <= x < recs.len() implies (forall|c2: int, k2: int|
        0 <= c2 < convs.len() && 0 <= k2 < convs[c2].recipients@.len() && before(c2, k2, c, k + 1)
            && (#[trigger] convs[c2].recipients@[k2])@ == (#[trigger] recs[x]).name@ ==> group_listed(
            recs[x].groups@,
            convs[c2].group@,
        )) by {
        assert forall|c2: int, k2: int|
            0 <= c2 < convs.len() && 0 <= k2 < convs[c2].recipients@.len() && before(c2, k2, c, k + 1)
                && (#[trigger] convs[c2].recipients@[k2])@ == recs[x].name@ implies group_listed(
            recs[x].groups@,
            convs[c2].group@,
        ) by {
            if !before(c2, k2, c, k) {
                assert(c2 == c && k2 == k);
                if x != i {
                    assert(recs[x].name@ != recs[i].name@);
                }
            }
        }
    }
}

proof fn lemma_new_plan(
    old_recs: Seq<RecipientPlan>,
    recs: Seq<RecipientPlan>,
    convs: Seq<PeerConversation>,
    hv: Seq<(Seq<u8>, Seq<u8>)>,
    c: int,
    k: int,
)
    requires
        prefix_holds(old_recs, convs, hv, c, k),
        0 <= c < convs.len(),
        0 <= k < convs[c].recipients@.len(),
        forall|i: int| 0 <= i < old_recs.len() ==> (#[trigger] old_recs[i]).name@ != convs[c].recipients@[k]@,
        recs.len() == old_recs.len() + 1,
        forall|i: int| 0 <= i < old_recs.len() ==> #[trigger] recs[i] == old_recs[i],
        recs.last().name@ == convs[c].recipients@[k]@,
        assoc_get(hv, utf8(convs[c].recipients@[k]@)) == Some(recs.last().address@),
        recs.last().conversation == c,
        recs.last().groups@.len() == 1,
        recs.last().groups@[0].0@ == convs[c].group@,
        recs.last().groups@[0].1 == c,
    ensures
        prefix_holds(recs, convs, hv, c, k + 1),
{
    let r = convs[c].recipients@[k]@;
    let g = convs[c].group@;
    let last = recs.len() - 1;
    assert(recs[last] == recs.last());
    assert(in_conv(convs, c, r));
    assert forall|d: int| 0 <= d < c implies !#[trigger] in_conv(convs, d, r) by {
        if in_conv(convs, d, r) {
            let k2 = choose|k2: int| 0 <= k2 < convs[d].recipients@.len() && (#[trigger] convs[d].recipients@[k2])@ == r;
            assert(before(d, k2, c, k));
            assert(covered(old_recs, convs[d].recipients@[k2]@));
        }
    }
    assert(first_conv(convs, r, c));
    assert(first_in_group(convs, r, g, c));
    assert(group_listed(recs[last].groups@, g)) by {
        assert(recs[last].groups@[0].0@ == g);
    }
    assert forall|i: int, j: int| 0 <= i < j < recs.len() implies (#[trigger] recs[i]).name@ != (#[trigger] recs[j]).name@ by {
        if j == last {
            assert(old_recs[i].name@ != r);
        } else {
            assert(old_recs[i].name@ != old_recs[j].name@);
        }
    }
    assert forall|c2: int, k2: int|
        0 <= c2 < convs.len() && 0 <= k2 < convs[c2].recipients@.len() && before(c2, k2, c, k + 1) implies covered(
        recs,
        (#[trigger] convs[c2].recipients@[k2])@,
    ) by {
        if !before(c2, k2, c, k) {
            assert(recs[last].name@ == convs[c2].recipients@[k2]@);
        } else {
            assert(covered(old_recs, convs[c2].recipients@[k2]@));
            let x = choose|x: int| 0 <= x < old_recs.len() && (#[trigger] old_recs[x]).name@ == convs[c2].recipients@[k2]@;
            assert(recs[x] == old_recs[x]);
        }
    }
    assert forall|x: int|
        0 <= x < recs.len() implies {
        &&& first_conv(convs, (#[trigger] recs[x]).name@, recs[x].conversation as int)
        &&& recs[x].conversation <= c
        &&& assoc_get(hv, utf8(recs[x].name@)) == Some(recs[x].address@)
        &&& forall|j1: int, j2: int|
            0 <= j1 < j2 < recs[x].groups@.len() ==> (#[trigger] recs[x].groups@[j1]).0@ != (
            #[trigger] recs[x].groups@[j2]).0@
        &&& forall|j: int|
            0 <= j < recs[x].groups@.len() ==> first_in_group(
                convs,
                recs[x].name@,
                (#[trigger] recs[x].groups@[j]).0@,
                recs[x].groups@[j].1 as int,
            )
        &&& forall|c2: int, k2: int|
            0 <= c2 < convs.len() && 0 <= k2 < convs[c2].recipients@.len() && before(c2, k2, c, k + 1)
                && (#[trigger] convs[c2].recipients@[k2])@ == recs[x].name@ ==> group_listed(
                recs[x].groups@,
                convs[c2].group@,
            )
    } by {
        if x == last {
            assert forall|j: int|
                0 <= j < recs[x].groups@.len() implies first_in_group(
                convs,
                recs[x].name@,
                (#[trigger] recs[x].groups@[j]).0@,
                recs[x].groups@[j].1 as int,
            ) by {
                assert(j == 0);
            }
            assert forall|c2: int, k2: int|
                0 <= c2 < convs.len() && 0 <= k2 < convs[c2].recipients@.len() && before(c2, k2, c, k + 1)
                    && (#[trigger] convs[c2].recipients@[k2])@ == recs[x].name@ implies group_listed(
                recs[x].groups@,
                convs[c2].group@,
            ) by {
                if before(c2, k2, c, k) {
                    assert(covered(old_recs, convs[c2].recipients@[k2]@));
                    let y = choose|y: int| 0 <= y < old_recs.len() && (#[trigger] old_recs[y]).name@ == convs[c2].recipients@[k2]@;
                    assert(old_recs[y].name@ != r);
                } else {
                    assert(c2 == c);
                }
            }
        } else {
            assert(recs[x] == old_recs[x]);
            assert forall|c2: int, k2: int|
                0 <= c2 < convs.len() && 0 <= k2 < convs[c2].recipients@.len() && before(c2, k2, c, k + 1)
                    && (#[trigger] convs[c2].recipients@[k2])@ == recs[x].name@ implies group_listed(
                recs[x].groups@,
                convs[c2].group@,
            ) by {
                if !before(c2, k2, c, k) {
                    assert(c2 == c && k2 == k);
                    assert(old_recs[x].name@ != r);
                }
            }
        }
    }
}

proof fn lemma_add_group(
    old_recs: Seq<RecipientPlan>,
    recs: Seq<RecipientPlan>,
    convs: Seq<PeerConversation>,
    hv: Seq<(Seq<u8>, Seq<u8>)>,
    c: int,
    k: int,
    i: int,
    old_groups: Seq<(String, usize)>,
)
    requires
        prefix_holds(old_recs, convs, hv, c, k),
        0 <= c < convs.len(),
        0 <= k < convs[c].recipients@.len(),
        0 <= i < old_recs.len(),
        old_recs[i].name@ == convs[c].recipients@[k]@,
        old_recs[i].groups@ == old_groups,
        !group_listed(old_groups, convs[c].group@),
        recs.len() == old_recs.len(),
        forall|x: int| 0 <= x < recs.len() && x != i ==> #[trigger] recs[x] == old_recs[x],
        recs[i].name == old_recs[i].name,
        recs[i].address == old_recs[i].address,
        recs[i].conversation == old_recs[i].conversation,
        recs[i].groups@.len() == old_groups.len() + 1,
        forall|j: int| 0 <= j < old_groups.len() ==> #[trigger] recs[i].groups@[j] == old_groups[j],
        recs[i].groups@.last().0@ == convs[c].group@,
        recs[i].groups@.last().1 == c,
    ensures
        prefix_holds(recs, convs, hv, c, k + 1),
        assoc_get(hv, utf8(convs[c].recipients@[k]@)) is Some,
{
    let r = convs[c].recipients@[k]@;
    let g = convs[c].group@;
    let gl = old_groups.len() as int;
    assert(recs[i].groups@[gl] == recs[i].groups@.last());
    assert(in_conv(convs, c, r));
    assert forall|d: int| 0 <= d < c implies !(#[trigger] in_conv(convs, d, r) && convs[d].group@ == g) by {
        if in_conv(convs, d, r) && convs[d].group@ == g {
            let k2 = choose|k2: int| 0 <= k2 < convs[d].recipients@.len() && (#[trigger] convs[d].recipients@[k2])@ == r;
            assert(before(d, k2, c, k));
            assert(convs[d].recipients@[k2]@ == old_recs[i].name@);
            assert(group_listed(old_recs[i].groups@, convs[d].group@));
        }
    }
    assert(first_in_group(convs, r, g, c));
    assert(group_listed(recs[i].groups@, g)) by {
        assert(recs[i].groups@[gl].0@ == g);
    }
    assert forall|a: int, b: int| 0 <= a < b < recs.len() implies (#[trigger] recs[a]).name@ != (#[trigger] recs[b]).name@ by {
        assert(old_recs[a].name@ != old_recs[b].name@);
    }
    assert forall|c2: int, k2: int|
        0 <= c2 < convs.len() && 0 <= k2 < convs[c2].recipients@.len() && before(c2, k2, c, k + 1) implies covered(
        recs,
        (#[trigger] convs[c2].recipients@[k2])@,
    ) by {
        if !before(c2, k2, c, k) {
            assert(recs[i].name@ == convs[c2].recipients@[k2]@);
        } else {
            assert(covered(old_recs, convs[c2].recipients@[k2]@));
            let x = choose|x: int| 0 <= x < old_recs.len() && (#[trigger] old_recs[x]).name@ == convs[c2].recipients@[k2]@;
            if x != i {
                assert(recs[x] == old_recs[x]);
            } else {
                assert(recs[i].name@ == old_recs[i].name@);
            }
        }
    }
    assert forall|x: int|
        0 <= x < recs.len() implies {
        &&& first_conv(convs, (#[trigger] recs[x]).name@, recs[x].conversation as int)
        &&& recs[x].conversation <= c
        &&& assoc_get(hv, utf8(recs[x].name@)) == Some(recs[x].address@)
        &&& forall|j1: int, j2: int|
            0 <= j1 < j2 < recs[x].groups@.len() ==> (#[trigger] recs[x].groups@[j1]).0@ != (
            #[trigger] recs[x].groups@[j2]).0@
        &&& forall|j: int|
            0 <= j < recs[x].groups@.len() ==> first_in_group(
                convs,
                recs[x].name@,
                (#[trigger] recs[x].groups@[j]).0@,
                recs[x].groups@[j].1 as int,
            )
        &&& forall|c2: int, k2: int|
            0 <= c2 < convs.len() && 0 <= k2 < convs[c2].recipients@.len() && before(c2, k2, c, k + 1)
                && (#[trigger] convs[c2].recipients@[k2])@ == recs[x].name@ ==> group_listed(
                recs[x].groups@,
                convs[c2].group@,
            )
    } by {
        if x == i {
            assert forall|j1: int, j2: int|
                0 <= j1 < j2 < recs[x].groups@.len() implies (#[trigger] recs[x].groups@[j1]).0@ != (
                #[trigger] recs[x].groups@[j2]).0@ by {
                assert(recs[x].groups@[j1] == old_groups[j1]);
                if j2 == gl {
                    assert(old_groups[j1].0@ != g);
                } else {
                    assert(recs[x].groups@[j2] == old_groups[j2]);
                    assert(old_recs[i].groups@[j1].0@ != old_recs[i].groups@[j2].0@);
                }
            }
            assert forall|j: int|
                0 <= j < recs[x].groups@.len() implies first_in_group(
                convs,
                recs[x].name@,
                (#[trigger] recs[x].groups@[j]).0@,
                recs[x].groups@[j].1 as int,
            ) by {
                if j < gl {
                    assert(recs[x].groups@[j] == old_groups[j]);
                    assert(old_groups[j] == old_recs[i].groups@[j]);
                }
            }
            assert forall|c2: int, k2: int|
                0 <= c2 < convs.len() && 0 <= k2 < convs[c2].recipients@.len() && before(c2, k2, c, k + 1)
                    && (#[trigger] convs[c2].recipients@[k2])@ == recs[x].name@ implies group_listed(
                recs[x].groups@,
                convs[c2].group@,
            ) by {
                if before(c2, k2, c, k) {
                    assert(group_listed(old_recs[i].groups@, convs[c2].group@));
                    let j = choose|j: int| 0 <= j < old_groups.len() && (#[trigger] old_groups[j]).0@ == convs[c2].group@;
                    assert(recs[x].groups@[j] == old_groups[j]);
                } else {
                    assert(c2 == c);
                }
            }
        } else {
            assert(recs[x] == old_recs[x]);
            assert forall|c2: int, k2: int|
                0 <= c2 < convs.len() && 0 <= k2 < convs[c2].recipients@.len() && before(c2, k2, c, k + 1)
                    && (#[trigger] convs[c2].recipients@[k2])@ == recs[x].name@ implies group_listed(
                recs[x].groups@,
                convs[c2].group@,
            ) by {
                if !before(c2, k2, c, k) {
                    assert(c2 == c && k2 == k);
                    assert(old_recs[x].name@ != old_recs[i].name@);
                }
            }
        }
    }
}

proof fn lemma_next_conv(recs: Seq<RecipientPlan>, convs: Seq<PeerConversation>, hv: Seq<(Seq<u8>, Seq<u8>)>, c: int)
    requires
        0 <= c < convs.len(),
        prefix_holds(recs, convs, hv, c, convs[c].recipients@.len() as int),
    ensures
        prefix_holds(recs, convs, hv, c + 1, 0),
{
    let m = convs[c].recipients@.len() as int;
    assert forall|c2: int, k2: int|
        0 <= c2 < convs.len() && 0 <= k2 < convs[c2].recipients@.len() && before(c2, k2, c + 1, 0) implies covered(
        recs,
        (#[trigger] convs[c2].recipients@[k2])@,
    ) by {
        assert(before(c2, k2, c, m));
    }
    assert forall|x: int| 0 <= x < recs.len() implies (forall|c2: int, k2: int|
        0 <= c2 < convs.len() && 0 <= k2 < convs[c2].recipients@.len() && before(c2, k2, c + 1, 0)
            && (#[trigger] convs[c2].recipients@[k2])@ == (#[trigger] recs[x]).name@ ==> group_listed(
            recs[x].groups@,
            convs[c2].group@,
        )) by {
        assert forall|c2: int, k2: int|
            0 <= c2 < convs.len() && 0 <= k2 < convs[c2].recipients@.len() && before(c2, k2, c + 1, 0)
                && (#[trigger] convs[c2].recipients@[k2])@ == recs[x].name@ implies group_listed(
            recs[x].groups@,
            convs[c2].group@,
        ) by {
            assert(before(c2, k2, c, m));
        }
    }
}

proof fn lemma_prefix_done(recs: Seq<RecipientPlan>, convs: Seq<PeerConversation>, hv: Seq<(Seq<u8>, Seq<u8>)>)
    requires
        prefix_holds(recs, convs, hv, convs.len() as int, 0),
    ensures
        plan_holds(recs, convs, hv),
{
    let n = convs.len() as int;
    assert forall|c2: int, k2: int|
        0 <= c2 < convs.len() && 0 <= k2 < convs[c2].recipients@.len() implies covered(
        recs,
        (#[trigger] convs[c2].recipients@[k2])@,
    ) by {
        assert(before(c2, k2, n, 0));
    }
    assert forall|x: int| 0 <= x < recs.len() implies (forall|c: int|
        0 <= c < convs.len() && #[trigger] in_conv(convs, c, (#[trigger] recs[x]).name@) ==> group_listed(
            recs[x].groups@,
            convs[c].group@,
        )) by {
        assert forall|c: int|
            0 <= c < convs.len() && #[trigger] in_conv(convs, c, recs[x].name@) implies group_listed(
            recs[x].groups@,
            convs[c].group@,
        ) by {
            let k2 = choose|k2: int| 0 <= k2 < convs[c].recipients@.len() && (#[trigger] convs[c].recipients@[k2])@ == recs[x].name@;
            assert(before(c, k2, n, 0));
        }
    }
}

} // verus!

verus! {

/// What happened while a peer's writer thread looked for, or used, its
/// connection to a recipient.
pub enum PeerEvent<S> {
    /// The listener thread handed over a connection the recipient opened.
    ListenerSocket,
    /// Connecting to the recipient and sending this user's name succeeded.
    Connected,
    /// Connecting to the recipient failed.
    ConnectFailed(MessengerError<S>),
    /// Sending this user's name on a new connection failed; the flag is set
    /// where the connection was tried at once rather than after the retry wait.
    NameUnsent(std::io::Error, bool),
    /// Writing a message on the connection failed.
    WriteFailed,
}

/// What a peer's writer thread does next with its connection.
pub enum PeerStep<S> {
    /// Write on the connection it has.
    UseSocket,
    /// Wait the retry time, unless the listener hands over a connection
    /// first, then connect again.
    WaitThenConnect,
    /// Take a connection the listener already holds, else connect at once
    /// (unless the listener hands one over first).
    Reestablish,
    /// Give up with this error.
    Stop(FatalError<S>),
}

/// The writer's next step after an event: a connection from the listener or
/// its own is used; a recoverable failure to connect waits the retry time
/// before connecting again, a fatal one stops; failing to send the name stops
/// where the connection was tried at once and waits otherwise; a failed
/// write looks for a new connection.
pub fn next_peer_step<S>(event: PeerEvent<S>) -> (res: PeerStep<S>)
    ensures
        (match event {
            PeerEvent::ListenerSocket => res is UseSocket,
            PeerEvent::Connected => res is UseSocket,
            PeerEvent::ConnectFailed(MessengerError::Recoverable(_)) => res is WaitThenConnect,
            PeerEvent::ConnectFailed(MessengerError::Fatal(e)) => res == PeerStep::Stop(e),
            PeerEvent::NameUnsent(e, at_once) => if at_once {
                res == PeerStep::<S>::Stop(FatalError::Io(e))
            } else {
                res is WaitThenConnect
            },
            PeerEvent::WriteFailed => res is Reestablish,
        }),
{
    match event {
        PeerEvent::ListenerSocket => PeerStep::UseSocket,
        PeerEvent::Connected => PeerStep::UseSocket,
        PeerEvent::ConnectFailed(MessengerError::Recoverable(_)) => PeerStep::WaitThenConnect,
        PeerEvent::ConnectFailed(MessengerError::Fatal(e)) => PeerStep::Stop(e),
        PeerEvent::NameUnsent(e, at_once) => {
            if at_once {
                PeerStep::Stop(FatalError::from_io(e))
            } else {
                PeerStep::WaitThenConnect
            }
        },
        PeerEvent::WriteFailed => PeerStep::Reestablish,
    }
}

} // verus!
