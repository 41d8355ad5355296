//! Message lengths, in padding blocks, of the users in recorded conversations.
use vstd::prelude::*;

verus! {

/// The padding blocks a message of `bytes` bytes takes: one up to 112
/// bytes, then one more per 160 bytes.
pub open spec fn blocks_for(bytes: int) -> int {
    if bytes <= 112 {
        1
    } else {
        (bytes + 208) / 160
    }
}

/// The number of padding blocks a message of `bytes` bytes takes.
pub fn bytes_to_blocks(bytes: i32) -> (res: usize)
    requires
        bytes <= i32::MAX - 208,
    ensures
        res == blocks_for(bytes as int),
{
    if bytes <= 112 {
        1
    } else {
        ((bytes + 208) / 160) as usize
    }
}

/// The bytes of a message: its characters, four per emoji (the emoji count
/// taken as an `i32`), and an attached file's size.
pub open spec fn message_bytes(char_count: i32, emoji_count: u32, file_size: i32) -> int {
    char_count + (emoji_count as i32) * 4 + file_size
}

/// The padding blocks of a message with these counts and attached file size.
pub fn message_blocks(char_count: i32, emoji_count: u32, file_size: i32) -> (res: usize)
    requires
        i32::MIN <= (emoji_count as i32) * 4 <= i32::MAX,
        i32::MIN <= char_count + (emoji_count as i32) * 4 <= i32::MAX,
        i32::MIN <= message_bytes(char_count, emoji_count, file_size) <= i32::MAX - 208,
    ensures
        res == blocks_for(message_bytes(char_count, emoji_count, file_size)),
{
    let emoji: i32 = #[verifier::truncate] (emoji_count as i32);
    let bytes: i32 = char_count + emoji * 4 + file_size;
    bytes_to_blocks(bytes)
}

/// The lengths of user `u`'s messages, in order.
pub open spec fn lens_of(users: Seq<i32>, lens: Seq<usize>, u: i32) -> Seq<usize>
    decreases users.len(),
{
    if users.len() == 0 || lens.len() == 0 {
        Seq::empty()
    } else {
        let rest = lens_of(users.drop_last(), lens.drop_last(), u);
        if users.last() == u {
            rest.push(lens.last())
        } else {
            rest
        }
    }
}

/// Whether `res` lists each user of `users` once, and no one else, with the
/// lengths of their messages in order.
pub open spec fn grouped(res: Seq<(i32, Vec<usize>)>, users: Seq<i32>, lens: Seq<usize>) -> bool {
    &&& forall|i: int, j: int| 0 <= i < j < res.len() ==> (#[trigger] res[i]).0 != (#[trigger] res[j]).0
    &&& forall|i: int| 0 <= i < res.len() ==> (#[trigger] res[i]).1@ == lens_of(users, lens, res[i].0)
    &&& forall|k: int| 0 <= k < users.len() ==> exists|i: int| 0 <= i < res.len() && (#[trigger] res[i]).0 == #[trigger] users[k]
    &&& forall|i: int| 0 <= i < res.len() ==> users.contains((#[trigger] res[i]).0)
}

/// A user who sent none of the messages has no lengths.
proof fn lemma_lens_of_absent(users: Seq<i32>, lens: Seq<usize>, u: i32)
    requires
        users.len() == lens.len(),
        forall|k: int| 0 <= k < users.len() ==> users[k] != u,
    ensures
        lens_of(users, lens, u) == Seq::<usize>::empty(),
    decreases users.len(),
{
    if users.len() > 0 {
        lemma_lens_of_absent(users.drop_last(), lens.drop_last(), u);
    }
}

/// The index of the entry for user `u`.
fn find_entry(res: &Vec<(i32, Vec<usize>)>, u: i32) -> (r: Option<usize>)
    ensures
        r matches Some(i) ==> i < res@.len() && res@[i as int].0 == u,
        r is None ==> forall|j: int| 0 <= j < res@.len() ==> (#[trigger] res@[j]).0 != u,
{
    let m = res.len();
    let mut i: usize = 0;
    while i < m
        invariant
            m == res@.len(),
            i <= m,
            forall|j: int| 0 <= j < i ==> (#[trigger] res@[j]).0 != u,
        decreases m - i,
    {
        if res[i].0 == u {
            return Some(i);
        }
        i = i + 1;
    }
    None
}

/// Group message lengths by user: `users[k]` sent the message of length `lens[k]`.
pub fn lengths_by_user(users: &[i32], lens: &[usize]) -> (res: Vec<(i32, Vec<usize>)>)
    requires
        users@.len() == lens@.len(),
    ensures
        grouped(res@, users@, lens@),
{
    let n = users.len();
    let mut res: Vec<(i32, Vec<usize>)> = Vec::new();
    let mut k: usize = 0;
    while k < n
        invariant
            n == users@.len() == lens@.len(),
            k <= n,
            grouped(res@, users@.take(k as int), lens@.take(k as int)),
        decreases n - k,
    {
        let u = users[k];
        let l = lens[k];
        let ghost us = users@.take(k + 1);
        let ghost ls = lens@.take(k + 1);
        assert(us.drop_last() =~= users@.take(k as int));
        assert(ls.drop_last() =~= lens@.take(k as int));
        let ghost before = res@;
        let ghost pu = users@.take(k as int);
        let ghost pl = lens@.take(k as int);
        match find_entry(&res, u) {
            Some(i) => {
                let mut entry: (i32, Vec<usize>) = (0, Vec::new());
                std::mem::swap(&mut entry, &mut res[i]);
                entry.1.push(l);
                res.set(i, entry);
                proof {
                    assert forall|j: int| 0 <= j < res@.len() implies (#[trigger] res@[j]).1@ == lens_of(us, ls, res@[j].0) by {
                        if j == i {
                            assert(res@[j].1@ == before[j].1@.push(l));
                        } else {
                            assert(res@[j] == before[j]);
                            assert(before[j].0 != before[i as int].0);
                        }
                    }
                    assert forall|a: int, b: int| 0 <= a < b < res@.len() implies (#[trigger] res@[a]).0 != (#[trigger] res@[b]).0 by {
                        assert(before[a].0 != before[b].0);
                    }
                    assert forall|q: int| 0 <= q < us.len() implies exists|x: int| 0 <= x < res@.len() && (#[trigger] res@[x]).0 == #[trigger] us[q] by {
                        if q < k {
                            assert(pu[q] == us[q]);
                            let x = choose|x: int| 0 <= x < before.len() && (#[trigger] before[x]).0 == #[trigger] pu[q];
                            assert(res@[x].0 == before[x].0);
                        } else {
                            assert(res@[i as int].0 == us[q]);
                        }
                    }
                }
            },
            None => {
                let mut v: Vec<usize> = Vec::new();
                v.push(l);
                res.push((u, v));
                proof {
                    lemma_lens_of_absent(pu, pl, u);
                    assert forall|j: int| 0 <= j < res@.len() implies (#[trigger] res@[j]).1@ == lens_of(us, ls, res@[j].0) by {
                        if j < before.len() {
                            assert(res@[j] == before[j]);
                        } else {
                            assert(res@[j].1@ =~= seq![l]);
                        }
                    }
                    assert forall|a: int, b: int| 0 <= a < b < res@.len() implies (#[trigger] res@[a]).0 != (#[trigger] res@[b]).0 by {
                        if b < before.len() {
                            assert(before[a].0 != before[b].0);
                        }
                    }
                    assert forall|q: int| 0 <= q < us.len() implies exists|x: int| 0 <= x < res@.len() && (#[trigger] res@[x]).0 == #[trigger] us[q] by {
                        if q < k {
                            assert(pu[q] == us[q]);
                            let x = choose|x: int| 0 <= x < before.len() && (#[trigger] before[x]).0 == #[trigger] pu[q];
                            assert(res@[x].0 == before[x].0);
                        } else {
                            assert(res@[before.len() as int].0 == us[q]);
                        }
                    }
                }
            },
        }
        k = k + 1;
    }
    proof {
        assert(users@.take(n as int) =~= users@);
        assert(lens@.take(n as int) =~= lens@);
    }
    res
}

} // verus!
