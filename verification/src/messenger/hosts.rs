//! The hosts file of the peer-to-peer mode: each line gives an address,
//! then the names of the users reached at it.
use vstd::prelude::*;

use crate::text::{lines, lines_of, views};
use crate::wire::utf8;

verus! {

/// Whether `b` is ASCII whitespace, as `u8::is_ascii_whitespace` has it:
/// space, tab, line feed, form feed or carriage return.
pub open spec fn is_ascii_ws(b: u8) -> bool {
    b == 32 || b == 9 || b == 10 || b == 12 || b == 13
}

/// The words of `s`, as `split_ascii_whitespace` gives them: the maximal runs
/// of bytes that are not ASCII whitespace, in order.
pub open spec fn words(s: Seq<u8>) -> Seq<Seq<u8>>
    decreases s.len(),
{
    if s.len() == 0 {
        Seq::empty()
    } else {
        let w = words(s.drop_last());
        let c = s.last();
        if is_ascii_ws(c) {
            w
        } else if s.len() >= 2 && !is_ascii_ws(s[s.len() - 2]) {
            w.update(w.len() - 1, w.last().push(c))
        } else {
            w.push(seq![c])
        }
    }
}

/// `m` with each of `ws[1..k]` mapped to `ws[0]`, in order.
pub open spec fn insert_names(m: Map<Seq<u8>, Seq<u8>>, ws: Seq<Seq<u8>>, k: int) -> Map<Seq<u8>, Seq<u8>>
    decreases k,
{
    if k <= 1 {
        m
    } else {
        insert_names(m, ws, k - 1).insert(ws[k - 1], ws[0])
    }
}

/// The addresses of the names in the lines `ls` of a hosts file: a line's
/// first word is an address, and each further word a name reached at it; a
/// name given again later takes the later address.
pub open spec fn hosts_map(ls: Seq<Seq<u8>>) -> Map<Seq<u8>, Seq<u8>>
    decreases ls.len(),
{
    if ls.len() == 0 {
        Map::empty()
    } else {
        let ws = words(ls.last());
        insert_names(hosts_map(ls.drop_last()), ws, ws.len() as int)
    }
}

/// The (name, address) pairs of a list, as byte strings.
pub open spec fn pairs_view(v: Seq<(Vec<u8>, Vec<u8>)>) -> Seq<(Seq<u8>, Seq<u8>)> {
    v.map_values(|p: (Vec<u8>, Vec<u8>)| (p.0@, p.1@))
}

/// Whether a list of pairs gives each of its names once, and exactly the map `m`.
pub open spec fn is_assoc_of(l: Seq<(Seq<u8>, Seq<u8>)>, m: Map<Seq<u8>, Seq<u8>>) -> bool {
    &&& forall|i: int, j: int| 0 <= i < j < l.len() ==> (#[trigger] l[i]).0 != (#[trigger] l[j]).0
    &&& forall|i: int| 0 <= i < l.len() ==> m.contains_key((#[trigger] l[i]).0) && m[l[i].0] == l[i].1
    &&& forall|k: Seq<u8>| #[trigger] m.contains_key(k) ==> exists|i: int| 0 <= i < l.len() && (#[trigger] l[i]).0 == k
}

/// Split a line into its words.
fn split_words(line: &[u8]) -> (res: Vec<Vec<u8>>)
    ensures
        views(res@) == words(line@),
{
    let mut res: Vec<Vec<u8>> = Vec::new();
    let n = line.len();
    let mut i: usize = 0;
    while i < n
        invariant
            n == line@.len(),
            i <= n,
            views(res@) == words(line@.take(i as int)),
        decreases n - i,
    {
        let c = line[i];
        let ghost before = views(res@);
        assert(line@.take(i + 1).drop_last() =~= line@.take(i as int));
        if c == 32 || c == 9 || c == 10 || c == 12 || c == 13 {
        } else if i >= 1 && !(line[i - 1] == 32 || line[i - 1] == 9 || line[i - 1] == 10 || line[i - 1] == 12
            || line[i - 1] == 13) {
            proof {
                lemma_words_nonempty(line@.take(i as int));
            }
            let k = res.len() - 1;
            let mut w: Vec<u8> = Vec::new();
            std::mem::swap(&mut w, &mut res[k]);
            w.push(c);
            res.set(k, w);
            assert(views(res@) =~= before.update(before.len() - 1, before.last().push(c)));
        } else {
            let mut w: Vec<u8> = Vec::new();
            w.push(c);
            res.push(w);
            assert(views(res@) =~= before.push(seq![c]));
        }
        i = i + 1;
    }
    assert(line@.take(n as int) =~= line@);
    res
}

/// A text whose last byte is not whitespace has a word.
proof fn lemma_words_nonempty(s: Seq<u8>)
    requires
        s.len() > 0,
        !is_ascii_ws(s.last()),
    ensures
        words(s).len() > 0,
    decreases s.len(),
{
    if s.len() >= 2 && !is_ascii_ws(s[s.len() - 2]) {
        lemma_words_nonempty(s.drop_last());
    }
}

/// Map `name` to `addr` in the list: replace the address where the name is
/// there, add the pair where it is not.
fn set_address(list: &mut Vec<(Vec<u8>, Vec<u8>)>, name: &Vec<u8>, addr: &Vec<u8>, Ghost(m): Ghost<Map<Seq<u8>, Seq<u8>>>)
    requires
        is_assoc_of(pairs_view(old(list)@), m),
    ensures
        is_assoc_of(pairs_view(final(list)@), m.insert(name@, addr@)),
{
    let n = list.len();
    let mut i: usize = 0;
    while i < n
        invariant
            n == list@.len(),
            i <= n,
            list@ == old(list)@,
            is_assoc_of(pairs_view(list@), m),
            forall|j: int| 0 <= j < i ==> (#[trigger] pairs_view(list@)[j]).0 != name@,
        decreases n - i,
    {
        if vec_eq(&list[i].0, name) {
            let ghost before = pairs_view(list@);
            let entry = (name.clone(), addr.clone());
            list.set(i, entry);
            proof {
                let after = pairs_view(list@);
                assert(before[i as int].0 == name@);
                assert(after =~= before.update(i as int, (name@, addr@)));
                let m2 = m.insert(name@, addr@);
                assert forall|a: int, b: int| 0 <= a < b < after.len() implies (#[trigger] after[a]).0
                    != (#[trigger] after[b]).0 by {
                    assert(before[a].0 != before[b].0);
                }
                assert forall|j: int| 0 <= j < after.len() implies m2.contains_key((#[trigger] after[j]).0)
                    && m2[after[j].0] == after[j].1 by {
                    if j != i {
                        assert(before[j].0 != before[i as int].0);
                        assert(m.contains_key(before[j].0));
                    }
                }
                assert forall|k: Seq<u8>| #[trigger] m2.contains_key(k) implies exists|j: int|
                    0 <= j < after.len() && (#[trigger] after[j]).0 == k by {
                    if k == name@ {
                        assert(after[i as int].0 == k);
                    } else {
                        let j = choose|j: int| 0 <= j < before.len() && (#[trigger] before[j]).0 == k;
                        assert(after[j].0 == k);
                    }
                }
            }
            return;
        }
        i = i + 1;
    }
    let ghost before = pairs_view(list@);
    list.push((name.clone(), addr.clone()));
    proof {
        let after = pairs_view(list@);
        assert(after =~= before.push((name@, addr@)));
        let m2 = m.insert(name@, addr@);
        assert forall|k: Seq<u8>| #[trigger] m2.contains_key(k) implies exists|j: int|
            0 <= j < after.len() && (#[trigger] after[j]).0 == k by {
            if k == name@ {
                assert(after[n as int].0 == k);
            } else {
                let j = choose|j: int| 0 <= j < before.len() && (#[trigger] before[j]).0 == k;
                assert(after[j].0 == k);
            }
        }
    }
}

/// Whether two byte strings are equal.
fn vec_eq(a: &Vec<u8>, b: &Vec<u8>) -> (res: bool)
    ensures
        res == (a@ == b@),
{
    if a.len() != b.len() {
        return false;
    }
    let n = a.len();
    let mut i: usize = 0;
    while i < n
        invariant
            n == a@.len() == b@.len(),
            i <= n,
            forall|j: int| 0 <= j < i ==> a@[j] == b@[j],
        decreases n - i,
    {
        if a[i] != b[i] {
            return false;
        }
        i = i + 1;
    }
    assert(a@ =~= b@);
    true
}

/// Read a hosts file: each name with the address of the last line that names
/// it, each name once (byte strings, as the file has them).
pub fn parse_hosts_file(file_contents: &str) -> (res: Vec<(Vec<u8>, Vec<u8>)>)
    ensures
        is_assoc_of(pairs_view(res@), hosts_map(lines(utf8(file_contents@)))),
{
    let bytes = file_contents.as_bytes();
    let ls = lines_of(bytes);
    let ghost lv = lines(bytes@);
    let mut ret: Vec<(Vec<u8>, Vec<u8>)> = Vec::new();
    let n = ls.len();
    let mut i: usize = 0;
    while i < n
        invariant
            n == ls@.len(),
            views(ls@) == lv,
            i <= n,
            is_assoc_of(pairs_view(ret@), hosts_map(lv.take(i as int))),
        decreases n - i,
    {
        assert(ls@[i as int]@ == lv[i as int]);
        let ws = split_words(ls[i].as_slice());
        let ghost base = hosts_map(lv.take(i as int));
        assert(lv.take(i + 1).drop_last() =~= lv.take(i as int));
        if ws.len() > 0 {
            let addr = &ws[0];
            let m = ws.len();
            let mut k: usize = 1;
            while k < m
                invariant
                    m == ws@.len(),
                    1 <= k <= m,
                    addr@ == ws@[0]@,
                    is_assoc_of(pairs_view(ret@), insert_names(base, views(ws@), k as int)),
                decreases m - k,
            {
                set_address(&mut ret, &ws[k], addr, Ghost(insert_names(base, views(ws@), k as int)));
                k = k + 1;
            }
        }
        i = i + 1;
    }
    assert(lv.take(n as int) =~= lv);
    ret
}

} // verus!
