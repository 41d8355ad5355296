//! Text handling shared by the file formats: splitting into lines and fields,
//! reading and writing decimal numbers.
use vstd::prelude::*;

verus! {

// ---------------------------------------------------------------------------
// Splitting
// ---------------------------------------------------------------------------

/// The pieces of `s` between the occurrences of `sep` (as `str::split` gives
/// them): always at least one piece.
pub open spec fn split(s: Seq<u8>, sep: u8) -> Seq<Seq<u8>>
    decreases s.len(),
{
    if s.len() == 0 {
        seq![Seq::<u8>::empty()]
    } else {
        let parts = split(s.drop_last(), sep);
        if s.last() == sep {
            parts.push(Seq::<u8>::empty())
        } else {
            parts.update(parts.len() - 1, parts.last().push(s.last()))
        }
    }
}

/// The views of a vector of byte vectors.
pub open spec fn views(v: Seq<Vec<u8>>) -> Seq<Seq<u8>> {
    v.map_values(|x: Vec<u8>| x@)
}

proof fn lemma_split_nonempty(s: Seq<u8>, sep: u8)
    ensures
        split(s, sep).len() >= 1,
    decreases s.len(),
{
    if s.len() > 0 {
        lemma_split_nonempty(s.drop_last(), sep);
    }
}

/// Split `s` at every occurrence of `sep`.
pub fn split_bytes(s: &[u8], sep: u8) -> (res: Vec<Vec<u8>>)
    ensures
        views(res@) == split(s@, sep),
{
    let mut parts: Vec<Vec<u8>> = Vec::new();
    let mut cur: Vec<u8> = Vec::new();
    let n = s.len();
    let mut i: usize = 0;
    while i < n
        invariant
            n == s@.len(),
            i <= n,
            views(parts@).push(cur@) == split(s@.take(i as int), sep),
        decreases n - i,
    {
        proof {
            lemma_split_nonempty(s@.take(i as int), sep);
            assert(s@.take(i + 1).drop_last() =~= s@.take(i as int));
        }
        let b = s[i];
        if b == sep {
            let mut done: Vec<u8> = Vec::new();
            std::mem::swap(&mut done, &mut cur);
            parts.push(done);
            assert(views(parts@).push(cur@) =~= split(s@.take(i + 1), sep));
        } else {
            cur.push(b);
            assert(views(parts@).push(cur@) =~= split(s@.take(i + 1), sep));
        }
        i = i + 1;
    }
    parts.push(cur);
    assert(s@.take(n as int) =~= s@);
    assert(views(parts@) =~= split(s@, sep));
    parts
}

} // verus!

verus! {

/// A line without the carriage return of a "\r\n" ending.
pub open spec fn strip_cr(l: Seq<u8>) -> Seq<u8> {
    if l.len() > 0 && l.last() == 13 {
        l.drop_last()
    } else {
        l
    }
}

/// The lines of `s`, as `str::lines` gives them: split at "\n", each line that
/// ended in "\r\n" without its "\r"; a final line ending adds no empty line.
pub open spec fn lines(s: Seq<u8>) -> Seq<Seq<u8>> {
    if s.len() == 0 {
        Seq::empty()
    } else {
        let parts = split(s, 10);
        if s.last() == 10 {
            parts.drop_last().map_values(|l: Seq<u8>| strip_cr(l))
        } else {
            parts.drop_last().map_values(|l: Seq<u8>| strip_cr(l)).push(parts.last())
        }
    }
}

/// Remove the last byte of `v` if it is a carriage return.
fn strip_cr_in_place(v: &mut Vec<u8>)
    ensures
        final(v)@ == strip_cr(old(v)@),
{
    let n = v.len();
    if n > 0 && v[n - 1] == 13 {
        v.pop();
    }
}

/// Split `s` into its lines.
pub fn lines_of(s: &[u8]) -> (res: Vec<Vec<u8>>)
    ensures
        views(res@) == lines(s@),
{
    if s.len() == 0 {
        let none: Vec<Vec<u8>> = Vec::new();
        assert(views(none@) =~= lines(s@));
        return none;
    }
    let mut parts = split_bytes(s, 10);
    proof {
        lemma_split_nonempty(s@, 10);
    }
    let last = parts.pop();
    let last = match last {
        Some(l) => l,
        None => Vec::new(),
    };
    let ghost pieces = split(s@, 10);
    assert(views(parts@) =~= pieces.drop_last());
    let mut res: Vec<Vec<u8>> = Vec::new();
    let k = parts.len();
    let mut i: usize = 0;
    while i < k
        invariant
            k == parts@.len(),
            k == pieces.len() - 1,
            i <= k,
            forall|j: int| i <= j < k ==> (#[trigger] parts@[j])@ == pieces[j],
            views(res@) == pieces.drop_last().take(i as int).map_values(|l: Seq<u8>| strip_cr(l)),
        decreases k - i,
    {
        let mut line: Vec<u8> = Vec::new();
        std::mem::swap(&mut line, &mut parts[i]);
        assert(line@ == pieces.drop_last()[i as int]);
        strip_cr_in_place(&mut line);
        let ghost before = views(res@);
        res.push(line);
        assert(views(res@) =~= before.push(strip_cr(pieces[i as int])));
        assert(pieces.drop_last().take(i + 1) =~= pieces.drop_last().take(i as int).push(
            pieces[i as int],
        ));
        i = i + 1;
        assert(views(res@) =~= pieces.drop_last().take(i as int).map_values(
            |l: Seq<u8>| strip_cr(l),
        ));
    }
    assert(pieces.drop_last().take(k as int) =~= pieces.drop_last());
    if s[s.len() - 1] != 10 {
        res.push(last);
        assert(views(res@) =~= lines(s@));
    } else {
        assert(views(res@) =~= lines(s@));
    }
    res
}

} // verus!

verus! {

// ---------------------------------------------------------------------------
// Reading decimal numbers
// ---------------------------------------------------------------------------

/// Whether `b` is an ASCII digit.
pub open spec fn is_digit(b: u8) -> bool {
    48 <= b <= 57
}

/// Whether every byte of `s` is an ASCII digit.
pub open spec fn all_digits(s: Seq<u8>) -> bool {
    forall|i: int| 0 <= i < s.len() ==> is_digit(#[trigger] s[i])
}

/// The number that the ASCII digits `s` write in decimal.
pub open spec fn digits_value(s: Seq<u8>) -> nat
    decreases s.len(),
{
    if s.len() == 0 {
        0
    } else {
        digits_value(s.drop_last()) * 10 + (s.last() - 48) as nat
    }
}

/// The digits of an unsigned number's text, after an optional '+'.
pub open spec fn unsigned_digits(s: Seq<u8>) -> Seq<u8> {
    if s.len() > 0 && s[0] == 43 {
        s.drop_first()
    } else {
        s
    }
}

/// The value of an unsigned decimal text as `FromStr` reads it: an optional
/// '+', then one or more digits, nothing else.
pub open spec fn spec_parse_unsigned(s: Seq<u8>) -> Option<nat> {
    let d = unsigned_digits(s);
    if d.len() > 0 && all_digits(d) {
        Some(digits_value(d))
    } else {
        None
    }
}

/// The value of a signed decimal text as `FromStr` reads it: an optional
/// '+' or '-', then one or more digits, nothing else.
pub open spec fn spec_parse_signed(s: Seq<u8>) -> Option<int> {
    if s.len() > 0 && s[0] == 45 {
        let d = s.drop_first();
        if d.len() > 0 && all_digits(d) {
            Some(-digits_value(d))
        } else {
            None
        }
    } else {
        match spec_parse_unsigned(s) {
            Some(v) => Some(v as int),
            None => None,
        }
    }
}

/// A text's value if it is at most `max`, as `FromStr` for an unsigned type
/// with that maximum reads it.
pub open spec fn parse_bounded(s: Seq<u8>, max: nat) -> Option<nat> {
    match spec_parse_unsigned(s) {
        Some(v) => if v <= max {
            Some(v)
        } else {
            None
        },
        None => None,
    }
}

/// A text's value if it lies in [-`neg`, `pos`], as `FromStr` for a signed
/// type with those bounds reads it.
pub open spec fn parse_signed_bounded(s: Seq<u8>, neg: nat, pos: nat) -> Option<int> {
    match spec_parse_signed(s) {
        Some(v) => if -neg <= v <= pos {
            Some(v)
        } else {
            None
        },
        None => None,
    }
}

/// More digits never make a smaller number.
proof fn lemma_digits_value_grows(s: Seq<u8>, i: int)
    requires
        0 <= i <= s.len(),
        all_digits(s),
    ensures
        digits_value(s.take(i)) <= digits_value(s),
    decreases s.len(),
{
    if i < s.len() {
        assert(s.drop_last().take(i) =~= s.take(i));
        lemma_digits_value_grows(s.drop_last(), i);
    } else {
        assert(s.take(i) =~= s);
    }
}

/// Read the digits `s[start..]` as a number at most `max`; `None` when a byte
/// is not a digit, there are no digits, or the number exceeds `max`.
fn parse_digits(s: &[u8], start: usize, max: u64) -> (res: Option<u64>)
    requires
        start <= s@.len(),
    ensures
        ({
            let d = s@.skip(start as int);
            if d.len() > 0 && all_digits(d) && digits_value(d) <= max {
                res == Some(digits_value(d) as u64)
            } else {
                res is None
            }
        }),
{
    let n = s.len();
    if start >= n {
        return None;
    }
    let ghost d = s@.skip(start as int);
    let mut v: u128 = 0;
    let mut i: usize = start;
    while i < n
        invariant
            start <= i <= n,
            n == s@.len(),
            d == s@.skip(start as int),
            all_digits(d.take(i - start)),
            v == digits_value(d.take(i - start)),
            v <= max,
        decreases n - i,
    {
        let b = s[i];
        if b < 48 || b > 57 {
            assert(!is_digit(d[i - start]));
            return None;
        }
        proof {
            assert(d.take(i - start + 1).drop_last() =~= d.take(i - start));
        }
        v = v * 10 + (b - 48) as u128;
        assert(v == digits_value(d.take(i - start + 1)));
        assert(all_digits(d.take(i - start + 1)));
        if v > max as u128 {
            proof {
                if all_digits(d) {
                    lemma_digits_value_grows(d, i - start + 1);
                }
            }
            return None;
        }
        i = i + 1;
    }
    assert(d.take(n - start) =~= d);
    Some(v as u64)
}

/// Read an unsigned decimal number at most `max`, as `FromStr` does.
pub fn parse_unsigned(s: &[u8], max: u64) -> (res: Option<u64>)
    ensures
        res matches Some(v) ==> parse_bounded(s@, max as nat) == Some(v as nat),
        res is None ==> parse_bounded(s@, max as nat) is None,
{
    let start: usize = if s.len() > 0 && s[0] == 43 {
        1
    } else {
        0
    };
    assert(s@.skip(start as int) =~= unsigned_digits(s@));
    parse_digits(s, start, max)
}

/// Read a signed decimal number in [-`neg`, `pos`], as `FromStr` does.
pub fn parse_signed(s: &[u8], neg: u64, pos: u64) -> (res: Option<i128>)
    ensures
        res matches Some(v) ==> parse_signed_bounded(s@, neg as nat, pos as nat) == Some(v as int),
        res is None ==> parse_signed_bounded(s@, neg as nat, pos as nat) is None,
{
    if s.len() > 0 && s[0] == 45 {
        assert(s@.skip(1) =~= s@.drop_first());
        match parse_digits(s, 1, neg) {
            Some(v) => Some(-(v as i128)),
            None => None,
        }
    } else {
        match parse_unsigned(s, pos) {
            Some(v) => Some(v as i128),
            None => None,
        }
    }
}

/// Read a `u16`, as `u16::from_str` does.
pub fn parse_u16(s: &[u8]) -> (res: Option<u16>)
    ensures
        res matches Some(v) ==> parse_bounded(s@, u16::MAX as nat) == Some(v as nat),
        res is None ==> parse_bounded(s@, u16::MAX as nat) is None,
{
    match parse_unsigned(s, u16::MAX as u64) {
        Some(v) => Some(v as u16),
        None => None,
    }
}

/// Read a `u32`, as `u32::from_str` does.
pub fn parse_u32(s: &[u8]) -> (res: Option<u32>)
    ensures
        res matches Some(v) ==> parse_bounded(s@, u32::MAX as nat) == Some(v as nat),
        res is None ==> parse_bounded(s@, u32::MAX as nat) is None,
{
    match parse_unsigned(s, u32::MAX as u64) {
        Some(v) => Some(v as u32),
        None => None,
    }
}

/// Read a `usize`, as `usize::from_str` does.
pub fn parse_usize(s: &[u8]) -> (res: Option<usize>)
    ensures
        res matches Some(v) ==> parse_bounded(s@, usize::MAX as nat) == Some(v as nat),
        res is None ==> parse_bounded(s@, usize::MAX as nat) is None,
{
    match parse_unsigned(s, usize::MAX as u64) {
        Some(v) => Some(v as usize),
        None => None,
    }
}

/// Read an `i32`, as `i32::from_str` does.
pub fn parse_i32(s: &[u8]) -> (res: Option<i32>)
    ensures
        res matches Some(v) ==> parse_signed_bounded(s@, 0x8000_0000, 0x7fff_ffff) == Some(
            v as int,
        ),
        res is None ==> parse_signed_bounded(s@, 0x8000_0000, 0x7fff_ffff) is None,
{
    match parse_signed(s, 0x8000_0000, 0x7fff_ffff) {
        Some(v) => Some(v as i32),
        None => None,
    }
}

} // verus!

verus! {

// ---------------------------------------------------------------------------
// Writing decimal numbers
// ---------------------------------------------------------------------------

/// The character of the decimal digit `d`.
pub open spec fn digit_char(d: nat) -> char {
    if d == 0 {
        '0'
    } else if d == 1 {
        '1'
    } else if d == 2 {
        '2'
    } else if d == 3 {
        '3'
    } else if d == 4 {
        '4'
    } else if d == 5 {
        '5'
    } else if d == 6 {
        '6'
    } else if d == 7 {
        '7'
    } else if d == 8 {
        '8'
    } else {
        '9'
    }
}

/// `n` written in decimal, without leading zeros.
pub open spec fn decimal(n: nat) -> Seq<char>
    decreases n,
{
    if n < 10 {
        seq![digit_char(n)]
    } else {
        decimal(n / 10).push(digit_char(n % 10))
    }
}

/// `n` written in decimal, with a leading '-' when negative.
pub open spec fn signed_decimal(n: int) -> Seq<char> {
    if n < 0 {
        seq!['-'] + decimal((-n) as nat)
    } else {
        decimal(n as nat)
    }
}

/// Append the character of the digit `d` to `s`.
fn push_digit(s: &mut String, d: u64)
    requires
        d < 10,
    ensures
        final(s)@ == old(s)@.push(digit_char(d as nat)),
{
    let t: &str = if d == 0 {
        proof {
            reveal_strlit("0");
        }
        "0"
    } else if d == 1 {
        proof {
            reveal_strlit("1");
        }
        "1"
    } else if d == 2 {
        proof {
            reveal_strlit("2");
        }
        "2"
    } else if d == 3 {
        proof {
            reveal_strlit("3");
        }
        "3"
    } else if d == 4 {
        proof {
            reveal_strlit("4");
        }
        "4"
    } else if d == 5 {
        proof {
            reveal_strlit("5");
        }
        "5"
    } else if d == 6 {
        proof {
            reveal_strlit("6");
        }
        "6"
    } else if d == 7 {
        proof {
            reveal_strlit("7");
        }
        "7"
    } else if d == 8 {
        proof {
            reveal_strlit("8");
        }
        "8"
    } else {
        proof {
            reveal_strlit("9");
        }
        "9"
    };
    assert(t@ =~= seq![digit_char(d as nat)]);
    s.append(t);
    assert(s@ =~= old(s)@.push(digit_char(d as nat)));
}

/// Append `n` in decimal to `s`.
pub(crate) fn push_decimal(s: &mut String, n: u64)
    ensures
        final(s)@ == old(s)@ + decimal(n as nat),
    decreases n,
{
    if n >= 10 {
        push_decimal(s, n / 10);
        push_digit(s, n % 10);
        assert(s@ =~= old(s)@ + decimal(n as nat));
    } else {
        push_digit(s, n);
        assert(s@ =~= old(s)@ + decimal(n as nat));
    }
}

/// Append `n` in decimal, with a leading '-' when negative, to `s`.
fn push_signed_decimal(s: &mut String, n: i64)
    ensures
        final(s)@ == old(s)@ + signed_decimal(n as int),
{
    if n < 0 {
        proof {
            reveal_strlit("-");
        }
        s.append("-");
        let m: u64 = (-(n as i128)) as u64;
        push_decimal(s, m);
        assert(s@ =~= old(s)@ + signed_decimal(n as int));
    } else {
        push_decimal(s, n as u64);
    }
}

/// Numbers that can be written in decimal, as `Display` writes them.
pub trait Decimal {
    /// The decimal text of the number.
    spec fn spec_decimal(&self) -> Seq<char>;

    /// Append the decimal text of the number to `s`.
    fn push_to(&self, s: &mut String)
        ensures
            final(s)@ == old(s)@ + self.spec_decimal(),
    ;
}

impl Decimal for u16 {
    open spec fn spec_decimal(&self) -> Seq<char> {
        decimal(*self as nat)
    }

    fn push_to(&self, s: &mut String) {
        push_decimal(s, *self as u64);
    }
}

impl Decimal for u32 {
    open spec fn spec_decimal(&self) -> Seq<char> {
        decimal(*self as nat)
    }

    fn push_to(&self, s: &mut String) {
        push_decimal(s, *self as u64);
    }
}

impl Decimal for u64 {
    open spec fn spec_decimal(&self) -> Seq<char> {
        decimal(*self as nat)
    }

    fn push_to(&self, s: &mut String) {
        push_decimal(s, *self);
    }
}

impl Decimal for usize {
    open spec fn spec_decimal(&self) -> Seq<char> {
        decimal(*self as nat)
    }

    fn push_to(&self, s: &mut String) {
        push_decimal(s, *self as u64);
    }
}

impl Decimal for i32 {
    open spec fn spec_decimal(&self) -> Seq<char> {
        signed_decimal(*self as int)
    }

    fn push_to(&self, s: &mut String) {
        push_signed_decimal(s, *self as i64);
    }
}

impl Decimal for i64 {
    open spec fn spec_decimal(&self) -> Seq<char> {
        signed_decimal(*self as int)
    }

    fn push_to(&self, s: &mut String) {
        push_signed_decimal(s, *self);
    }
}

/// The parts joined with a ',' between each two.
pub open spec fn join_commas(parts: Seq<Seq<char>>) -> Seq<char>
    decreases parts.len(),
{
    if parts.len() == 0 {
        Seq::empty()
    } else if parts.len() == 1 {
        parts[0]
    } else {
        join_commas(parts.drop_last()) + seq![','] + parts.last()
    }
}

/// The decimal texts of the items.
pub open spec fn decimals<T: Decimal>(items: Seq<T>) -> Seq<Seq<char>> {
    items.map_values(|x: T| x.spec_decimal())
}

/// The items in decimal, separated by commas, ending with a newline.
pub fn format_list<T: Decimal>(items: &[T]) -> (res: String)
    ensures
        res@ == join_commas(decimals(items@)) + seq!['\n'],
{
    let mut s = String::new();
    let n = items.len();
    let mut i: usize = 0;
    while i < n
        invariant
            n == items@.len(),
            i <= n,
            s@ == join_commas(decimals(items@.take(i as int))),
        decreases n - i,
    {
        proof {
            assert(decimals(items@.take(i + 1)).drop_last() =~= decimals(items@.take(i as int)));
        }
        if i > 0 {
            proof {
                reveal_strlit(",");
            }
            s.append(",");
        }
        items[i].push_to(&mut s);
        i = i + 1;
        assert(s@ =~= join_commas(decimals(items@.take(i as int))));
    }
    proof {
        reveal_strlit("\n");
        assert(items@.take(n as int) =~= items@);
    }
    s.append("\n");
    s
}

} // verus!

verus! {

// ---------------------------------------------------------------------------
// Reading back what was written
// ---------------------------------------------------------------------------

/// The bytes of ASCII text, one per character.
pub open spec fn ascii(s: Seq<char>) -> Seq<u8> {
    s.map_values(|c: char| c as u8)
}

/// Whether `c` is a character of a list of numbers: a digit, a minus sign or a comma.
pub open spec fn list_char(c: char) -> bool {
    ('0' <= c && c <= '9') || c == '-' || c == ','
}

/// Whether every character of `s` is a character of a list of numbers.
pub open spec fn list_chars(s: Seq<char>) -> bool {
    forall|i: int| 0 <= i < s.len() ==> list_char(#[trigger] s[i])
}

proof fn lemma_ascii_concat(a: Seq<char>, b: Seq<char>)
    ensures
        ascii(a + b) == ascii(a) + ascii(b),
{
    assert(ascii(a + b) =~= ascii(a) + ascii(b));
}

/// UTF-8 of ASCII text is its bytes.
pub proof fn lemma_utf8_ascii(s: Seq<char>)
    requires
        vstd::utf8::is_ascii_chars(s),
    ensures
        vstd::utf8::encode_utf8(s) == ascii(s),
{
    vstd::utf8::is_ascii_chars_encode_utf8(s);
    assert(vstd::utf8::encode_utf8(s) =~= ascii(s));
}

/// A number's decimal text is one or more digits whose value is the number.
proof fn lemma_decimal_digits(n: nat)
    ensures
        decimal(n).len() > 0,
        forall|i: int| 0 <= i < decimal(n).len() ==> '0' <= #[trigger] decimal(n)[i] && decimal(n)[i] <= '9',
        all_digits(ascii(decimal(n))),
        digits_value(ascii(decimal(n))) == n,
    decreases n,
{
    let d = decimal(n);
    let m = n % 10;
    assert(digit_char(m) as u8 == 48 + m);
    assert('0' <= digit_char(m) && digit_char(m) <= '9');
    if n < 10 {
        assert(ascii(d).drop_last() =~= Seq::<u8>::empty());
        assert(ascii(d) =~= seq![digit_char(n) as u8]);
        assert forall|i: int| 0 <= i < ascii(d).len() implies is_digit(#[trigger] ascii(d)[i]) by {
            assert(i == 0);
        }
        assert(ascii(d).last() == 48 + n);
        assert(digits_value(ascii(d).drop_last()) == 0);
        assert(digits_value(ascii(d)) == n);
    } else {
        lemma_decimal_digits(n / 10);
        let h = decimal(n / 10);
        assert(d == h.push(digit_char(m)));
        assert(ascii(d).drop_last() =~= ascii(h));
        assert(ascii(d).last() == digit_char(m) as u8);
        assert forall|i: int| 0 <= i < d.len() implies '0' <= #[trigger] d[i] && d[i] <= '9' by {
            if i < h.len() {
                assert(d[i] == h[i]);
            }
        }
        assert forall|i: int| 0 <= i < ascii(d).len() implies is_digit(#[trigger] ascii(d)[i]) by {
            if i < h.len() {
                assert(ascii(d)[i] == ascii(h)[i]);
            }
        }
        assert(digits_value(ascii(d)) == digits_value(ascii(h)) * 10 + m);
        assert(n == (n / 10) * 10 + n % 10) by (nonlinear_arith);
        assert(digits_value(ascii(d)) == n);
    }
}

/// Reading a number's decimal text gives the number.
pub(crate) proof fn lemma_parse_decimal(n: nat)
    ensures
        spec_parse_unsigned(ascii(decimal(n))) == Some(n),
        list_chars(decimal(n)),
        !decimal(n).contains(','),
        decimal(n) == signed_decimal(n as int),
{
    lemma_decimal_digits(n);
    assert(unsigned_digits(ascii(decimal(n))) == ascii(decimal(n)));
}

/// Reading a number's signed decimal text gives the number.
pub(crate) proof fn lemma_parse_signed_decimal(n: int)
    ensures
        spec_parse_signed(ascii(signed_decimal(n))) == Some(n),
        list_chars(signed_decimal(n)),
        !signed_decimal(n).contains(','),
        signed_decimal(n).len() > 0,
{
    if n < 0 {
        let m = (-n) as nat;
        let t = signed_decimal(n);
        lemma_decimal_digits(m);
        lemma_ascii_concat(seq!['-'], decimal(m));
        assert(ascii(t).drop_first() =~= ascii(decimal(m)));
        assert forall|i: int| 0 <= i < t.len() implies list_char(#[trigger] t[i]) && t[i] != ',' by {
            if i > 0 {
                assert(t[i] == decimal(m)[i - 1]);
            }
        }
    } else {
        lemma_parse_decimal(n as nat);
        lemma_decimal_digits(n as nat);
    }
}

/// Text without the separator is one piece.
pub(crate) proof fn lemma_split_whole(p: Seq<u8>, sep: u8)
    requires
        forall|i: int| 0 <= i < p.len() ==> #[trigger] p[i] != sep,
    ensures
        split(p, sep) == seq![p],
    decreases p.len(),
{
    if p.len() == 0 {
        assert(p =~= Seq::<u8>::empty());
    } else {
        let q = p.drop_last();
        assert forall|i: int| 0 <= i < q.len() implies #[trigger] q[i] != sep by {
            assert(q[i] == p[i]);
        }
        lemma_split_whole(q, sep);
        assert(p[p.len() - 1] != sep);
        assert(q.push(p.last()) =~= p);
        assert(seq![q].update(0, q.push(p.last())) =~= seq![p]);
    }
}

/// Text after a separator, without another, is the last piece.
pub(crate) proof fn lemma_split_after(a: Seq<u8>, p: Seq<u8>, sep: u8)
    requires
        forall|i: int| 0 <= i < p.len() ==> #[trigger] p[i] != sep,
    ensures
        split(a + seq![sep] + p, sep) == split(a, sep).push(p),
    decreases p.len(),
{
    let s = a + seq![sep] + p;
    if p.len() == 0 {
        assert(p =~= Seq::<u8>::empty());
        assert(s =~= a.push(sep));
        assert(s.drop_last() =~= a);
        assert(s.last() == sep);
    } else {
        let q = p.drop_last();
        assert forall|i: int| 0 <= i < q.len() implies #[trigger] q[i] != sep by {
            assert(q[i] == p[i]);
        }
        lemma_split_after(a, q, sep);
        assert(s.drop_last() =~= a + seq![sep] + q);
        assert(s.last() == p[p.len() - 1]);
        assert(q.push(p.last()) =~= p);
        let parts = split(a, sep).push(q);
        assert(parts.update(parts.len() - 1, parts.last().push(s.last())) =~= split(a, sep).push(p));
    }
}

/// Splitting comma-joined parts at the commas gives back the parts.
pub(crate) proof fn lemma_split_join(parts: Seq<Seq<char>>)
    requires
        parts.len() > 0,
        forall|k: int| 0 <= k < parts.len() ==> list_chars(#[trigger] parts[k]) && !parts[k].contains(','),
    ensures
        split(ascii(join_commas(parts)), 44) == parts.map_values(|p: Seq<char>| ascii(p)),
        list_chars(join_commas(parts)),
    decreases parts.len(),
{
    let last = parts.last();
    assert(list_chars(parts[parts.len() - 1]));
    assert forall|i: int| 0 <= i < ascii(last).len() implies #[trigger] ascii(last)[i] != 44 by {
        assert(list_char(last[i]));
        if ascii(last)[i] == 44 {
            assert(last.contains(last[i]));
        }
    }
    if parts.len() == 1 {
        lemma_split_whole(ascii(last), 44);
        assert(parts.map_values(|p: Seq<char>| ascii(p)) =~= seq![ascii(last)]);
    } else {
        let init = parts.drop_last();
        assert forall|k: int| 0 <= k < init.len() implies list_chars(#[trigger] init[k]) && !init[k].contains(',') by {
            assert(init[k] == parts[k]);
        }
        lemma_split_join(init);
        let j = join_commas(init);
        lemma_ascii_concat(j, seq![',']);
        lemma_ascii_concat(j + seq![','], last);
        assert(ascii(seq![',']) =~= seq![44u8]);
        lemma_split_after(ascii(j), ascii(last), 44);
        assert(parts.map_values(|p: Seq<char>| ascii(p)) =~= init.map_values(|p: Seq<char>| ascii(p)).push(ascii(last)));
        let t = join_commas(parts);
        assert forall|i: int| 0 <= i < t.len() implies list_char(#[trigger] t[i]) by {
            if i < j.len() {
                assert(t[i] == j[i]);
            } else if i > j.len() {
                assert(t[i] == last[i - j.len() - 1]);
            }
        }
    }
}

/// Two lines, each ending in a newline, are read back as themselves.
pub(crate) proof fn lemma_two_lines(a: Seq<u8>, b: Seq<u8>)
    requires
        forall|i: int| 0 <= i < a.len() ==> #[trigger] a[i] != 10 && a[i] != 13,
        forall|i: int| 0 <= i < b.len() ==> #[trigger] b[i] != 10 && b[i] != 13,
    ensures
        lines(a + seq![10u8] + b + seq![10u8]) == seq![a, b],
{
    let s = a + seq![10u8] + b + seq![10u8];
    lemma_split_whole(a, 10);
    lemma_split_after(a, b, 10);
    assert(s.drop_last() =~= a + seq![10u8] + b);
    assert(split(s, 10) == seq![a, b].push(Seq::<u8>::empty()));
    assert(seq![a, b].push(Seq::<u8>::empty()).drop_last() =~= seq![a, b]);
    if a.len() > 0 {
        assert(a.last() != 13);
    }
    if b.len() > 0 {
        assert(b.last() != 13);
    }
    assert(seq![a, b].map_values(|l: Seq<u8>| strip_cr(l)) =~= seq![a, b]);
}

/// The bytes of list text are neither newlines nor carriage returns.
pub(crate) proof fn lemma_list_bytes(j: Seq<char>)
    requires
        list_chars(j),
    ensures
        forall|i: int| 0 <= i < ascii(j).len() ==> #[trigger] ascii(j)[i] != 10 && ascii(j)[i] != 13,
        vstd::utf8::is_ascii_chars(j),
{
    assert forall|i: int| 0 <= i < ascii(j).len() implies #[trigger] ascii(j)[i] != 10 && ascii(j)[i] != 13 by {
        assert(list_char(j[i]));
    }
    assert forall|i: int| 0 <= i < j.len() implies '\0' <= #[trigger] j[i] && j[i] <= '\u{7f}' by {
        assert(list_char(j[i]));
    }
}

/// Two lines of list text, each ending in a newline, read back as their bytes.
pub(crate) proof fn lemma_list_lines(j1: Seq<char>, j2: Seq<char>)
    requires
        list_chars(j1),
        list_chars(j2),
    ensures
        lines(vstd::utf8::encode_utf8(j1 + seq!['\n'] + j2 + seq!['\n'])) == seq![ascii(j1), ascii(j2)],
{
    let t = j1 + seq!['\n'] + j2 + seq!['\n'];
    lemma_list_bytes(j1);
    lemma_list_bytes(j2);
    assert forall|i: int| 0 <= i < t.len() implies '\0' <= #[trigger] t[i] && t[i] <= '\u{7f}' by {
        if i < j1.len() {
            assert(t[i] == j1[i]);
        } else if j1.len() < i < j1.len() + 1 + j2.len() {
            assert(t[i] == j2[i - j1.len() - 1]);
        }
    }
    lemma_utf8_ascii(t);
    assert(ascii(t) =~= ascii(j1) + seq![10u8] + ascii(j2) + seq![10u8]);
    lemma_two_lines(ascii(j1), ascii(j2));
}

/// Four lines of list text and a fifth line, each ending in a newline, read
/// back as themselves.
pub(crate) proof fn lemma_five_lines(j: Seq<Seq<char>>, e: Seq<u8>, end: bool)
    requires
        j.len() == 4,
        forall|k: int| 0 <= k < 4 ==> list_chars(#[trigger] j[k]),
        forall|i: int| 0 <= i < e.len() ==> #[trigger] e[i] != 10 && e[i] != 13,
        end || e.len() > 0,
    ensures
        lines(
            vstd::utf8::encode_utf8(j[0] + seq!['\n'] + j[1] + seq!['\n'] + j[2] + seq!['\n'] + j[3] + seq!['\n'])
                + e + line_end(end),
        ) == seq![ascii(j[0]), ascii(j[1]), ascii(j[2]), ascii(j[3]), e],
{
    let t = j[0] + seq!['\n'] + j[1] + seq!['\n'] + j[2] + seq!['\n'] + j[3] + seq!['\n'];
    let a0 = ascii(j[0]);
    let a1 = ascii(j[1]);
    let a2 = ascii(j[2]);
    let a3 = ascii(j[3]);
    assert(list_chars(j[0]) && list_chars(j[1]) && list_chars(j[2]) && list_chars(j[3]));
    lemma_list_bytes(j[0]);
    lemma_list_bytes(j[1]);
    lemma_list_bytes(j[2]);
    lemma_list_bytes(j[3]);
    assert forall|i: int| 0 <= i < t.len() implies '\0' <= #[trigger] t[i] && t[i] <= '\u{7f}' by {
        let l0 = j[0].len() + 1;
        let l1 = l0 + j[1].len() + 1;
        let l2 = l1 + j[2].len() + 1;
        if i < j[0].len() {
            assert(t[i] == j[0][i]);
        } else if l0 <= i < l0 + j[1].len() {
            assert(t[i] == j[1][i - l0]);
        } else if l1 <= i < l1 + j[2].len() {
            assert(t[i] == j[2][i - l1]);
        } else if l2 <= i < l2 + j[3].len() {
            assert(t[i] == j[3][i - l2]);
        }
    }
    lemma_utf8_ascii(t);
    let nl = seq![10u8];
    assert(ascii(t) =~= a0 + nl + a1 + nl + a2 + nl + a3 + nl);
    let s = ascii(t) + e + line_end(end);
    lemma_split_whole(a0, 10);
    lemma_split_after(a0, a1, 10);
    lemma_split_after(a0 + nl + a1, a2, 10);
    lemma_split_after(a0 + nl + a1 + nl + a2, a3, 10);
    lemma_split_after(a0 + nl + a1 + nl + a2 + nl + a3, e, 10);
    let body = a0 + nl + a1 + nl + a2 + nl + a3 + nl + e;
    let parts = seq![a0, a1, a2, a3, e];
    assert(split(body, 10) =~= parts);
    assert forall|k: int| 0 <= k < 5 implies strip_cr(#[trigger] parts[k]) == parts[k] by {
        if parts[k].len() > 0 {
            assert(parts[k][parts[k].len() - 1] != 13);
        }
    }
    if end {
        assert(s.drop_last() =~= body);
        assert(s.last() == 10);
        assert(split(s, 10) =~= parts.push(Seq::<u8>::empty()));
        assert(parts.push(Seq::<u8>::empty()).drop_last() =~= parts);
        assert(parts.map_values(|l: Seq<u8>| strip_cr(l)) =~= parts);
    } else {
        assert(s =~= body);
        assert(s.last() == e.last());
        assert(e[e.len() - 1] != 10);
        let init = parts.drop_last();
        assert forall|k: int| 0 <= k < 4 implies strip_cr(#[trigger] init[k]) == init[k] by {
            assert(init[k] == parts[k]);
        }
        assert(init.map_values(|l: Seq<u8>| strip_cr(l)).push(parts.last()) =~= parts);
    }
}

/// The end of a last line: a newline, or nothing.
pub open spec fn line_end(end: bool) -> Seq<u8> {
    if end {
        seq![10u8]
    } else {
        Seq::empty()
    }
}

} // verus!
