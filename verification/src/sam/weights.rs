//! Empirical distributions as weights files: a line of counts, then a line of values.
use vstd::prelude::*;

use crate::alias::{
    alias_outcome, alias_weights, lemma_read_counts, lemma_read_values_i32, lemma_read_values_u32, second_i32,
    second_u32, weights_file_result, WeightsFile,
};
use crate::sam::extract::list_text;
use crate::text::{decimals, format_list, join_commas, lemma_list_lines, lines, Decimal};

verus! {

/// How often `x` occurs in `s`.
pub open spec fn occurrences(s: Seq<i64>, x: i64) -> nat
    decreases s.len(),
{
    if s.len() == 0 {
        0
    } else {
        occurrences(s.drop_last(), x) + if s.last() == x {
            1nat
        } else {
            0nat
        }
    }
}

/// Occurrences in two runs of values one after the other add up.
pub proof fn lemma_occurrences_append(a: Seq<i64>, b: Seq<i64>, x: i64)
    ensures
        occurrences(a + b, x) == occurrences(a, x) + occurrences(b, x),
    decreases b.len(),
{
    if b.len() == 0 {
        assert(a + b =~= a);
    } else {
        lemma_occurrences_append(a, b.drop_last(), x);
        assert((a + b).drop_last() =~= a + b.drop_last());
        assert((a + b).last() == b.last());
    }
}

/// A single value occurs once if it is `x`, else not at all.
pub proof fn lemma_occurrences_one(y: i64, x: i64)
    ensures
        occurrences(seq![y], x) == (if y == x { 1nat } else { 0nat }),
{
    assert(seq![y].drop_last() =~= Seq::<i64>::empty());
    assert(seq![y].last() == y);
    assert(occurrences(Seq::<i64>::empty(), x) == 0);
}

/// Whether `items` is strictly increasing.
pub open spec fn strictly_sorted(items: Seq<i64>) -> bool {
    forall|a: int, b: int| 0 <= a < b < items.len() ==> items[a] < items[b]
}

/// Whether `items` and `counts` are the distinct values of `values` in
/// increasing order and how often each occurs.
pub open spec fn is_weighting(values: Seq<i64>, counts: Seq<usize>, items: Seq<i64>) -> bool {
    &&& counts.len() == items.len()
    &&& strictly_sorted(items)
    &&& forall|k: int| 0 <= k < items.len() ==> #[trigger] counts[k] == occurrences(values, items[k])
    &&& forall|k: int| 0 <= k < items.len() ==> #[trigger] counts[k] > 0
    &&& forall|i: int| 0 <= i < values.len() ==> items.contains(#[trigger] values[i])
}

proof fn lemma_occurrences_le_len(s: Seq<i64>, x: i64)
    ensures
        occurrences(s, x) <= s.len(),
    decreases s.len(),
{
    if s.len() > 0 {
        lemma_occurrences_le_len(s.drop_last(), x);
    }
}

/// Count how often each value occurs: the counts, then the distinct values
/// in increasing order.
pub fn create_weighted(values: &[i64]) -> (res: (Vec<usize>, Vec<i64>))
    ensures
        is_weighting(values@, res.0@, res.1@),
{
    let mut counts: Vec<usize> = Vec::new();
    let mut items: Vec<i64> = Vec::new();
    let n = values.len();
    let mut i: usize = 0;
    while i < n
        invariant
            n == values@.len(),
            i <= n,
            is_weighting(values@.take(i as int), counts@, items@),
        decreases n - i,
    {
        let v = values[i];
        let ghost prefix = values@.take(i as int);
        let ghost next = values@.take(i + 1);
        proof {
            assert(next.drop_last() =~= prefix);
            assert(next.last() == v);
        }
        let m = items.len();
        let mut k: usize = 0;
        while k < m && items[k] < v
            invariant
                m == items@.len(),
                k <= m,
                forall|a: int| 0 <= a < k ==> items@[a] < v,
            decreases m - k,
        {
            k = k + 1;
        }
        if k < m && items[k] == v {
            let c = counts[k];
            proof {
                lemma_occurrences_le_len(prefix, v);
            }
            counts.set(k, c + 1);
            proof {
                assert forall|j: int| 0 <= j < items@.len() implies #[trigger] counts@[j]
                    == occurrences(next, items@[j]) by {
                    if j != k {
                        assert(items@[j] != v);
                    }
                }
                assert forall|t: int| 0 <= t < next.len() implies items@.contains(#[trigger] next[t]) by {
                    if t < i {
                        assert(prefix[t] == next[t]);
                    } else {
                        assert(items@[k as int] == next[t]);
                    }
                }
            }
        } else {
            proof {
                assert forall|t: int| 0 <= t < prefix.len() implies prefix[t] != v by {
                    assert(items@.contains(prefix[t]));
                    let j = choose|j: int| 0 <= j < items@.len() && items@[j] == prefix[t];
                    if j < k {
                    } else {
                        assert(items@[k as int] > v || k == m);
                    }
                }
                lemma_occurrences_absent(prefix, v);
            }
            let ghost old_items = items@;
            let ghost old_counts = counts@;
            items.insert(k, v);
            counts.insert(k, 1);
            proof {
                assert forall|a: int, b: int| 0 <= a < b < items@.len() implies items@[a] < items@[b] by {
                    if a < k && b > k {
                        assert(old_items[a] < v);
                    }
                }
                assert forall|j: int| 0 <= j < items@.len() implies #[trigger] counts@[j]
                    == occurrences(next, items@[j]) by {
                    if j < k {
                        assert(counts@[j] == old_counts[j]);
                        assert(items@[j] != v);
                    } else if j > k {
                        assert(counts@[j] == old_counts[j - 1]);
                        assert(items@[j] == old_items[j - 1]);
                        assert(old_items[j - 1] != v);
                    }
                }
                assert forall|t: int| 0 <= t < next.len() implies items@.contains(#[trigger] next[t]) by {
                    if t < i {
                        assert(prefix[t] == next[t]);
                        assert(old_items.contains(prefix[t]));
                        let j = choose|j: int| 0 <= j < old_items.len() && old_items[j] == prefix[t];
                        if j < k {
                            assert(items@[j] == next[t]);
                        } else {
                            assert(items@[j + 1] == next[t]);
                        }
                    } else {
                        assert(items@[k as int] == next[t]);
                    }
                }
            }
        }
        i = i + 1;
    }
    proof {
        assert(values@.take(n as int) =~= values@);
    }
    (counts, items)
}

/// A value that never occurs has no occurrences.
proof fn lemma_occurrences_absent(s: Seq<i64>, x: i64)
    requires
        forall|t: int| 0 <= t < s.len() ==> s[t] != x,
    ensures
        occurrences(s, x) == 0,
    decreases s.len(),
{
    if s.len() > 0 {
        lemma_occurrences_absent(s.drop_last(), x);
    }
}

/// The text of a weights file for `values`: the counts of the distinct values,
/// then the values in increasing order, each a comma-separated line.
pub fn write_weighted_text(values: &[i64]) -> (res: String)
    ensures
        exists|counts: Seq<usize>, items: Seq<i64>|
            is_weighting(values@, counts, items) && res@ == list_text(counts) + list_text(items),
{
    let (counts, items) = create_weighted(values);
    let mut res = format_list(counts.as_slice());
    res.append(format_list(items.as_slice()).as_str());
    res
}

} // verus!

verus! {

/// The sum of the counts.
pub open spec fn counts_total(counts: Seq<usize>) -> nat
    decreases counts.len(),
{
    if counts.len() == 0 {
        0
    } else {
        counts_total(counts.drop_last()) + counts.last() as nat
    }
}

/// The occurrences in `values` of each of `items`, added up.
pub open spec fn occurrences_total(values: Seq<i64>, items: Seq<i64>) -> nat
    decreases items.len(),
{
    if items.len() == 0 {
        0
    } else {
        occurrences_total(values, items.drop_last()) + occurrences(values, items.last())
    }
}

/// How many of `items` are `x`.
pub open spec fn matches_of(items: Seq<i64>, x: i64) -> nat
    decreases items.len(),
{
    if items.len() == 0 {
        0
    } else {
        matches_of(items.drop_last(), x) + if items.last() == x {
            1nat
        } else {
            0nat
        }
    }
}

proof fn lemma_total_step(values: Seq<i64>, items: Seq<i64>)
    requires
        values.len() > 0,
    ensures
        occurrences_total(values, items) == occurrences_total(values.drop_last(), items) + matches_of(
            items,
            values.last(),
        ),
    decreases items.len(),
{
    if items.len() > 0 {
        lemma_total_step(values, items.drop_last());
    }
}

proof fn lemma_matches_once(items: Seq<i64>, x: i64)
    requires
        strictly_sorted(items),
    ensures
        matches_of(items, x) == (if items.contains(x) {
            1nat
        } else {
            0nat
        }),
    decreases items.len(),
{
    if items.len() > 0 {
        let rest = items.drop_last();
        assert(strictly_sorted(rest));
        lemma_matches_once(rest, x);
        if items.last() == x {
            if rest.contains(x) {
                let i = choose|i: int| 0 <= i < rest.len() && rest[i] == x;
                assert(items[i] < items[items.len() - 1]);
            }
        }
        if items.contains(x) {
            let i = choose|i: int| 0 <= i < items.len() && items[i] == x;
            if i < rest.len() {
                assert(rest[i] == x);
            }
        }
        if rest.contains(x) {
            let i = choose|i: int| 0 <= i < rest.len() && rest[i] == x;
            assert(items[i] == x);
        }
    }
}

proof fn lemma_occurrences_total(values: Seq<i64>, items: Seq<i64>)
    requires
        strictly_sorted(items),
        forall|i: int| 0 <= i < values.len() ==> items.contains(#[trigger] values[i]),
    ensures
        occurrences_total(values, items) == values.len(),
    decreases values.len(),
{
    if values.len() == 0 {
        assert(values =~= Seq::<i64>::empty());
        lemma_total_zero(items);
    } else {
        let rest = values.drop_last();
        assert forall|i: int| 0 <= i < rest.len() implies items.contains(#[trigger] rest[i]) by {
            assert(rest[i] == values[i]);
        }
        lemma_occurrences_total(rest, items);
        lemma_total_step(values, items);
        assert(items.contains(values[values.len() - 1]));
        lemma_matches_once(items, values.last());
    }
}

proof fn lemma_total_zero(items: Seq<i64>)
    ensures
        occurrences_total(Seq::<i64>::empty(), items) == 0,
    decreases items.len(),
{
    if items.len() > 0 {
        lemma_total_zero(items.drop_last());
    }
}

proof fn lemma_counts_match(values: Seq<i64>, counts: Seq<usize>, items: Seq<i64>)
    requires
        counts.len() == items.len(),
        forall|k: int| 0 <= k < items.len() ==> #[trigger] counts[k] == occurrences(values, items[k]),
    ensures
        counts_total(counts) == occurrences_total(values, items),
    decreases items.len(),
{
    if items.len() > 0 {
        let c = counts.drop_last();
        let it = items.drop_last();
        assert forall|k: int| 0 <= k < it.len() implies #[trigger] c[k] == occurrences(values, it[k]) by {
            assert(c[k] == counts[k]);
        }
        lemma_counts_match(values, c, it);
        assert(counts[counts.len() - 1] == occurrences(values, items[items.len() - 1]));
    }
}

/// The counts of a weighting add up to the number of values: every value is
/// counted, and counted once.
pub proof fn lemma_weighting_total(values: Seq<i64>, counts: Seq<usize>, items: Seq<i64>)
    requires
        is_weighting(values, counts, items),
    ensures
        counts_total(counts) == values.len(),
{
    lemma_counts_match(values, counts, items);
    lemma_occurrences_total(values, items);
}

/// What reading a weights file whose weights are `w` and whose values are
/// `v` gives: the distribution over the values weighted by `w` where
/// `WeightedAliasIndex` accepts the weights, or the error it gives for them.
pub open spec fn reads_back<T>(res: WeightsFile<T>, w: Seq<u32>, v: Seq<T>) -> bool {
    match alias_outcome(w) {
        Ok(_) => res matches WeightsFile::Distribution(d, vals) && alias_weights(d) == w && vals@ == v,
        Err(e) => res == WeightsFile::<T>::Weighted(e),
    }
}

/// The bytes of the weights file written for `counts` and `items`.
pub open spec fn weights_bytes(counts: Seq<usize>, items: Seq<i64>) -> Seq<u8> {
    vstd::utf8::encode_utf8(list_text(counts) + list_text(items))
}

/// A weighting of some values has items, and counts that fit a `u32`.
proof fn lemma_weights_lines(values: Seq<i64>, counts: Seq<usize>, items: Seq<i64>)
    requires
        is_weighting(values, counts, items),
        0 < values.len() <= u32::MAX,
    ensures
        items.len() > 0,
        forall|k: int| 0 <= k < counts.len() ==> #[trigger] counts[k] <= u32::MAX,
{
    assert(items.contains(values[0]));
    assert forall|k: int| 0 <= k < counts.len() implies #[trigger] counts[k] <= u32::MAX by {
        lemma_occurrences_le_len(values, items[k]);
    }
}

/// A weights file written by `write_weighted_text` reads back, with `i32`
/// values, as the distinct values weighted by how often each occurs: reading
/// it (`res`) gives the distribution over the items weighted by the counts,
/// or the error `WeightedAliasIndex` gives for those counts.
pub proof fn lemma_weights_read_back_i32(values: Seq<i64>, counts: Seq<usize>, items: Seq<i64>, res: WeightsFile<i32>)
    requires
        is_weighting(values, counts, items),
        0 < values.len() <= u32::MAX,
        forall|k: int| 0 <= k < items.len() ==> i32::MIN <= #[trigger] items[k] <= i32::MAX,
        weights_file_result(
            res,
            lines(weights_bytes(counts, items)),
            second_i32(lines(weights_bytes(counts, items))),
        ),
    ensures
        reads_back(res, counts.map_values(|c: usize| c as u32), items.map_values(|x: i64| x as i32)),
{
    lemma_weights_lines(values, counts, items);
    lemma_read_values_i32(items);
    lemma_read_counts(counts);
    lemma_list_lines(join_commas(decimals(counts)), join_commas(decimals(items)));
    assert(list_text(counts) + list_text(items) =~= join_commas(decimals(counts)) + seq!['\n'] + join_commas(
        decimals(items),
    ) + seq!['\n']);
}

/// A weights file written by `write_weighted_text` reads back, with `u32`
/// values, as the distinct values weighted by how often each occurs: reading
/// it (`res`) gives the distribution over the items weighted by the counts,
/// or the error `WeightedAliasIndex` gives for those counts.
pub proof fn lemma_weights_read_back_u32(values: Seq<i64>, counts: Seq<usize>, items: Seq<i64>, res: WeightsFile<u32>)
    requires
        is_weighting(values, counts, items),
        0 < values.len() <= u32::MAX,
        forall|k: int| 0 <= k < items.len() ==> 0 <= #[trigger] items[k] <= u32::MAX,
        weights_file_result(
            res,
            lines(weights_bytes(counts, items)),
            second_u32(lines(weights_bytes(counts, items))),
        ),
    ensures
        reads_back(res, counts.map_values(|c: usize| c as u32), items.map_values(|x: i64| x as u32)),
{
    lemma_weights_lines(values, counts, items);
    lemma_read_values_u32(items);
    lemma_read_counts(counts);
    lemma_list_lines(join_commas(decimals(counts)), join_commas(decimals(items)));
    assert(list_text(counts) + list_text(items) =~= join_commas(decimals(counts)) + seq!['\n'] + join_commas(
        decimals(items),
    ) + seq!['\n']);
}

} // verus!
