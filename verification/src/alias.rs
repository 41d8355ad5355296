//! Weights files: a line of `u32` weights and a line of values, turned into a
//! distribution that picks each value with probability proportional to its weight.
use vstd::prelude::*;

use crate::text::{
    ascii, decimals, join_commas, lemma_parse_decimal, lemma_parse_signed_decimal, lemma_split_join, lines, lines_of,
    list_chars, parse_bounded, parse_i32, parse_signed_bounded, parse_u32, split, split_bytes, views,
};

verus! {

/// A distribution over the indices of some weights (a `rand_distr::WeightedAliasIndex<u32>`),
/// picking each index with probability proportional to its weight. The
/// distribution is held opaquely: its type's parameter is bounded by an
/// outside trait (`AliasableWeight`) that Verus cannot take as a bound.
#[verifier::external_body]
pub struct AliasIndex {
    index: rand_distr::WeightedAliasIndex<u32>,
}

#[verifier::external_type_specification]
#[verifier::external_body]
pub struct ExXoshiro256PlusPlus(rand_xoshiro::Xoshiro256PlusPlus);

/// The weights that an `AliasIndex` picks indices by.
pub uninterp spec fn alias_weights(d: AliasIndex) -> Seq<u32>;

/// Why weights cannot make a distribution (the errors of `rand_distr::WeightedError`).
#[derive(Debug, Clone, Copy, PartialEq, Eq, Structural)]
pub enum WeightedError {
    /// There are no weights.
    NoItem,
    /// A weight is larger than `u32::MAX` divided by the number of weights.
    InvalidWeight,
    /// Every weight is zero.
    AllWeightsZero,
    /// There are more than `u32::MAX` weights.
    TooMany,
}

/// What `WeightedAliasIndex::new` gives for `weights`.
pub open spec fn alias_outcome(weights: Seq<u32>) -> Result<Seq<u32>, WeightedError> {
    if weights.len() == 0 {
        Err(WeightedError::NoItem)
    } else if weights.len() > u32::MAX {
        Err(WeightedError::TooMany)
    } else if exists|i: int| 0 <= i < weights.len() && #[trigger] weights[i] > u32::MAX / (weights.len() as u32) {
        Err(WeightedError::InvalidWeight)
    } else if forall|i: int| 0 <= i < weights.len() ==> #[trigger] weights[i] == 0 {
        Err(WeightedError::AllWeightsZero)
    } else {
        Ok(weights)
    }
}

/// `rand_distr::WeightedAliasIndex::new`: a distribution over the indices of
/// `weights`, or the first of these errors that applies: no weights, more than
/// `u32::MAX` weights, a weight above `u32::MAX` divided by their number, all
/// weights zero. Its errors are given as this library's `WeightedError`.
#[verifier::external_body]
fn new_alias_index(weights: Vec<u32>) -> (res: Result<AliasIndex, WeightedError>)
    ensures
        match (res, alias_outcome(weights@)) {
            (Ok(d), Ok(w)) => alias_weights(d) == w,
            (Err(e), Err(f)) => e == f,
            _ => false,
        },
{
    match rand_distr::WeightedAliasIndex::new(weights) {
        Ok(index) => Ok(AliasIndex { index }),
        Err(rand_distr::WeightedError::NoItem) => Err(WeightedError::NoItem),
        Err(rand_distr::WeightedError::InvalidWeight) => Err(WeightedError::InvalidWeight),
        Err(rand_distr::WeightedError::AllWeightsZero) => Err(WeightedError::AllWeightsZero),
        Err(rand_distr::WeightedError::TooMany) => Err(WeightedError::TooMany),
    }
}

/// `<WeightedAliasIndex<u32> as Distribution<usize>>::sample`: an index
/// picked at random, less than the number of weights the distribution was
/// made from, and never one whose weight is zero. Which index is picked is not
/// stated: it depends on the generator.
#[verifier::external_body]
fn sample_index(d: &AliasIndex, rng: &mut rand_xoshiro::Xoshiro256PlusPlus) -> (res: usize)
    ensures
        res < alias_weights(*d).len(),
        alias_weights(*d)[res as int] > 0,
{
    rand_distr::Distribution::sample(&d.index, rng)
}

/// Whether the draw of `sample_index` from `d` with the generator behind `r`
/// can give index `k`.
pub closed spec fn index_drawn(d: AliasIndex, r: &mut rand_xoshiro::Xoshiro256PlusPlus, k: usize) -> bool {
    call_ensures(sample_index, (&d, r), k)
}

/// Every index a draw can give is below the number of weights and has a
/// weight above zero.
pub proof fn lemma_index_drawn(d: AliasIndex, r: &mut rand_xoshiro::Xoshiro256PlusPlus, k: usize)
    requires
        index_drawn(d, r, k),
    ensures
        k < alias_weights(d).len(),
        alias_weights(d)[k as int] > 0,
{
}

/// The value picked by index `k`: `values[k]`, or `None` past the end.
pub fn value_at<T: Copy>(values: &[T], k: usize) -> (res: Option<T>)
    ensures
        res == (if k < values@.len() {
            Some(values@[k as int])
        } else {
            None
        }),
{
    if k < values.len() {
        Some(values[k])
    } else {
        None
    }
}

/// Pick one of `values` at random, by the distribution over their indices:
/// the value at an index below the number of weights whose weight is not
/// zero, `None` only where there are fewer values than weights. The generator
/// goes through exactly one draw of `sample_index`, and the value is the one
/// at the index that draw gave.
pub fn sample_weighted<T: Copy>(d: &AliasIndex, values: &[T], rng: &mut rand_xoshiro::Xoshiro256PlusPlus) -> (res: Option<T>)
    ensures
        res matches Some(v) ==> exists|k: int|
            0 <= k < alias_weights(*d).len() && k < values@.len() && alias_weights(*d)[k] > 0
                && #[trigger] values@[k] == v,
        values@.len() >= alias_weights(*d).len() ==> res is Some,
        exists|r: &mut rand_xoshiro::Xoshiro256PlusPlus, k: usize|
            *r == *old(rng) && *final(r) == *final(rng) && index_drawn(*d, r, k) && res == (if k
                < values@.len() {
                Some(values@[k as int])
            } else {
                None
            }),
{
    let draw = sample_index;
    let k = draw(d, rng);
    proof {
        let r = choose|r: &mut rand_xoshiro::Xoshiro256PlusPlus|
            *r == *old(rng) && *final(r) == *final(rng) && call_ensures(sample_index, (d, r), k);
        assert(index_drawn(*d, r, k));
    }
    let res = value_at(values, k);
    if k < values.len() {
        assert(values@[k as int] == res->0);
    }
    res
}

/// What reading a weights file gives.
pub enum WeightsFile<T> {
    /// The distribution over the values' indices, and the values.
    Distribution(AliasIndex, Vec<T>),
    /// The file has no lines.
    NoWeightsLine,
    /// A weight is not a `u32`.
    BadWeights,
    /// The file has only one line.
    NoValuesLine,
    /// A value does not parse.
    BadValues,
    /// There are not as many values as weights.
    LengthMismatch,
    /// The weights make no distribution.
    Weighted(WeightedError),
}

/// Turn weights and their values into a distribution over the values' indices.
pub fn weighted_distribution<T>(weights: Vec<u32>, values: Vec<T>) -> (res: WeightsFile<T>)
    ensures
        weights@.len() != values@.len() ==> res is LengthMismatch,
        weights@.len() == values@.len() ==> match alias_outcome(weights@) {
            Ok(w) => res matches WeightsFile::Distribution(d, v) && alias_weights(d) == w && v@
                == values@,
            Err(e) => res == WeightsFile::<T>::Weighted(e),
        },
{
    if weights.len() != values.len() {
        return WeightsFile::LengthMismatch;
    }
    match new_alias_index(weights) {
        Ok(d) => WeightsFile::Distribution(d, values),
        Err(e) => WeightsFile::Weighted(e),
    }
}

} // verus!

verus! {

/// A `u32` field of a weights file, as `u32::from_str` reads it.
pub open spec fn field_u32(f: Seq<u8>) -> Option<u32> {
    match parse_bounded(f, u32::MAX as nat) {
        Some(v) => Some(v as u32),
        None => None,
    }
}

/// An `i32` field of a weights file, as `i32::from_str` reads it.
pub open spec fn field_i32(f: Seq<u8>) -> Option<i32> {
    match parse_signed_bounded(f, 0x8000_0000, 0x7fff_ffff) {
        Some(v) => Some(v as i32),
        None => None,
    }
}

/// The comma-separated `u32` fields of `line`, if all of them read.
pub open spec fn fields_u32(line: Seq<u8>) -> Option<Seq<u32>> {
    let fs = split(line, 44);
    if forall|k: int| 0 <= k < fs.len() ==> (#[trigger] field_u32(fs[k])) is Some {
        Some(Seq::new(fs.len(), |k: int| field_u32(fs[k])->0))
    } else {
        None
    }
}

/// The comma-separated `i32` fields of `line`, if all of them read.
pub open spec fn fields_i32(line: Seq<u8>) -> Option<Seq<i32>> {
    let fs = split(line, 44);
    if forall|k: int| 0 <= k < fs.len() ==> (#[trigger] field_i32(fs[k])) is Some {
        Some(Seq::new(fs.len(), |k: int| field_i32(fs[k])->0))
    } else {
        None
    }
}

/// Read the comma-separated `u32` fields of `line`; `None` if one does not read.
pub fn parse_u32_fields(line: &[u8]) -> (res: Option<Vec<u32>>)
    ensures
        match (res, fields_u32(line@)) {
            (Some(v), Some(w)) => v@ == w,
            (None, None) => true,
            _ => false,
        },
{
    let fields = split_bytes(line, 44);
    let ghost fs = split(line@, 44);
    let n = fields.len();
    let mut out: Vec<u32> = Vec::new();
    let mut k: usize = 0;
    while k < n
        invariant
            n == fields@.len(),
            views(fields@) == fs,
            fs == split(line@, 44),
            k <= n,
            out@.len() == k,
            forall|j: int| 0 <= j < k ==> #[trigger] field_u32(fs[j]) == Some(out@[j]),
        decreases n - k,
    {
        assert(fields@[k as int]@ == fs[k as int]);
        match parse_u32(fields[k].as_slice()) {
            Some(v) => out.push(v),
            None => {
                assert(field_u32(fs[k as int]) is None);
                return None;
            },
        }
        k = k + 1;
    }
    assert(forall|j: int| 0 <= j < fs.len() ==> (#[trigger] field_u32(fs[j])) is Some);
    assert(out@ =~= Seq::new(fs.len(), |j: int| field_u32(fs[j])->0));
    Some(out)
}

/// Read the comma-separated `i32` fields of `line`; `None` if one does not read.
pub fn parse_i32_fields(line: &[u8]) -> (res: Option<Vec<i32>>)
    ensures
        match (res, fields_i32(line@)) {
            (Some(v), Some(w)) => v@ == w,
            (None, None) => true,
            _ => false,
        },
{
    let fields = split_bytes(line, 44);
    let ghost fs = split(line@, 44);
    let n = fields.len();
    let mut out: Vec<i32> = Vec::new();
    let mut k: usize = 0;
    while k < n
        invariant
            n == fields@.len(),
            views(fields@) == fs,
            fs == split(line@, 44),
            k <= n,
            out@.len() == k,
            forall|j: int| 0 <= j < k ==> #[trigger] field_i32(fs[j]) == Some(out@[j]),
        decreases n - k,
    {
        assert(fields@[k as int]@ == fs[k as int]);
        match parse_i32(fields[k].as_slice()) {
            Some(v) => out.push(v),
            None => {
                assert(field_i32(fs[k as int]) is None);
                return None;
            },
        }
        k = k + 1;
    }
    assert(forall|j: int| 0 <= j < fs.len() ==> (#[trigger] field_i32(fs[j])) is Some);
    assert(out@ =~= Seq::new(fs.len(), |j: int| field_i32(fs[j])->0));
    Some(out)
}

/// Whether `res` is what reading a weights file with lines `ls` gives, where
/// `values` is what the second line reads as (`None` if it does not read): the
/// first line's `u32` weights, the second line's values, then the distribution.
pub open spec fn weights_file_result<T>(res: WeightsFile<T>, ls: Seq<Seq<u8>>, values: Option<Seq<T>>) -> bool {
    if ls.len() == 0 {
        res is NoWeightsLine
    } else {
        match fields_u32(ls[0]) {
            None => res is BadWeights,
            Some(w) => if ls.len() == 1 {
                res is NoValuesLine
            } else {
                match values {
                    None => res is BadValues,
                    Some(v) => if w.len() != v.len() {
                        res is LengthMismatch
                    } else {
                        match alias_outcome(w) {
                            Ok(_) => res matches WeightsFile::Distribution(d, vals) && alias_weights(d)
                                == w && vals@ == v,
                            Err(e) => res == WeightsFile::<T>::Weighted(e),
                        }
                    },
                }
            },
        }
    }
}

/// The second of the lines `ls`, read by `fields_u32`; `None` where there is none.
pub open spec fn second_u32(ls: Seq<Seq<u8>>) -> Option<Seq<u32>> {
    if ls.len() > 1 { fields_u32(ls[1]) } else { None }
}

/// The second of the lines `ls`, read by `fields_i32`; `None` where there is none.
pub open spec fn second_i32(ls: Seq<Seq<u8>>) -> Option<Seq<i32>> {
    if ls.len() > 1 { fields_i32(ls[1]) } else { None }
}

/// Read a weights file whose values are `u32`s.
pub fn parse_weights_u32(contents: &[u8]) -> (res: WeightsFile<u32>)
    ensures
        weights_file_result(res, lines(contents@), second_u32(lines(contents@))),
{
    let ls = lines_of(contents);
    if ls.len() == 0 {
        return WeightsFile::NoWeightsLine;
    }
    assert(ls@[0]@ == lines(contents@)[0]);
    let weights = match parse_u32_fields(ls[0].as_slice()) {
        Some(w) => w,
        None => return WeightsFile::BadWeights,
    };
    if ls.len() < 2 {
        return WeightsFile::NoValuesLine;
    }
    assert(ls@[1]@ == lines(contents@)[1]);
    let values = match parse_u32_fields(ls[1].as_slice()) {
        Some(v) => v,
        None => return WeightsFile::BadValues,
    };
    weighted_distribution(weights, values)
}

/// Read a weights file whose values are `i32`s.
pub fn parse_weights_i32(contents: &[u8]) -> (res: WeightsFile<i32>)
    ensures
        weights_file_result(res, lines(contents@), second_i32(lines(contents@))),
{
    let ls = lines_of(contents);
    if ls.len() == 0 {
        return WeightsFile::NoWeightsLine;
    }
    assert(ls@[0]@ == lines(contents@)[0]);
    let weights = match parse_u32_fields(ls[0].as_slice()) {
        Some(w) => w,
        None => return WeightsFile::BadWeights,
    };
    if ls.len() < 2 {
        return WeightsFile::NoValuesLine;
    }
    assert(ls@[1]@ == lines(contents@)[1]);
    let values = match parse_i32_fields(ls[1].as_slice()) {
        Some(v) => v,
        None => return WeightsFile::BadValues,
    };
    weighted_distribution(weights, values)
}

/// Counts up to `u32::MAX`, written as a list, read back as `u32` fields.
pub(crate) proof fn lemma_read_counts(xs: Seq<usize>)
    requires
        xs.len() > 0,
        forall|k: int| 0 <= k < xs.len() ==> #[trigger] xs[k] <= u32::MAX,
    ensures
        fields_u32(ascii(join_commas(decimals(xs)))) == Some(xs.map_values(|x: usize| x as u32)),
        list_chars(join_commas(decimals(xs))),
{
    let parts = decimals(xs);
    assert forall|k: int| 0 <= k < parts.len() implies list_chars(#[trigger] parts[k]) && !parts[k].contains(',') by {
        lemma_parse_decimal(xs[k] as nat);
    }
    lemma_split_join(parts);
    let fs = split(ascii(join_commas(parts)), 44);
    assert forall|k: int| 0 <= k < fs.len() implies #[trigger] field_u32(fs[k]) == Some(xs[k] as u32) by {
        lemma_parse_decimal(xs[k] as nat);
        assert(fs[k] == ascii(parts[k]));
    }
    assert(Seq::new(fs.len(), |k: int| field_u32(fs[k])->0) =~= xs.map_values(|x: usize| x as u32));
}

/// Values in `i32` range, written as a list, read back as `i32` fields.
pub(crate) proof fn lemma_read_values_i32(xs: Seq<i64>)
    requires
        xs.len() > 0,
        forall|k: int| 0 <= k < xs.len() ==> i32::MIN <= #[trigger] xs[k] <= i32::MAX,
    ensures
        fields_i32(ascii(join_commas(decimals(xs)))) == Some(xs.map_values(|x: i64| x as i32)),
        list_chars(join_commas(decimals(xs))),
{
    let parts = decimals(xs);
    assert forall|k: int| 0 <= k < parts.len() implies list_chars(#[trigger] parts[k]) && !parts[k].contains(',') by {
        lemma_parse_signed_decimal(xs[k] as int);
    }
    lemma_split_join(parts);
    let fs = split(ascii(join_commas(parts)), 44);
    assert forall|k: int| 0 <= k < fs.len() implies #[trigger] field_i32(fs[k]) == Some(xs[k] as i32) by {
        lemma_parse_signed_decimal(xs[k] as int);
        assert(fs[k] == ascii(parts[k]));
    }
    assert(Seq::new(fs.len(), |k: int| field_i32(fs[k])->0) =~= xs.map_values(|x: i64| x as i32));
}

/// Values in `u32` range, written as a list, read back as `u32` fields.
pub(crate) proof fn lemma_read_values_u32(xs: Seq<i64>)
    requires
        xs.len() > 0,
        forall|k: int| 0 <= k < xs.len() ==> 0 <= #[trigger] xs[k] <= u32::MAX,
    ensures
        fields_u32(ascii(join_commas(decimals(xs)))) == Some(xs.map_values(|x: i64| x as u32)),
        list_chars(join_commas(decimals(xs))),
{
    let parts = decimals(xs);
    assert forall|k: int| 0 <= k < parts.len() implies list_chars(#[trigger] parts[k]) && !parts[k].contains(',') by {
        lemma_parse_decimal(xs[k] as nat);
    }
    lemma_split_join(parts);
    let fs = split(ascii(join_commas(parts)), 44);
    assert forall|k: int| 0 <= k < fs.len() implies #[trigger] field_u32(fs[k]) == Some(xs[k] as u32) by {
        lemma_parse_decimal(xs[k] as nat);
        assert(fs[k] == ascii(parts[k]));
    }
    assert(Seq::new(fs.len(), |k: int| field_u32(fs[k])->0) =~= xs.map_values(|x: i64| x as u32));
}

} // verus!
