//! The web side of attachments: the URLs clients fetch and upload
//! attachments at, and what the web server answers a request.
use vstd::prelude::*;

use crate::text::{decimal, parse_bounded, parse_usize, push_decimal};
use crate::wire::utf8;

verus! {

#[verifier::external_type_specification]
#[verifier::external_body]
pub struct ExUri(hyper::Uri);

/// The text of the URL for `size` bytes of attachments of `user` at `target`.
pub open spec fn web_url_text(target: Seq<char>, size: nat, user: Seq<char>) -> Seq<char> {
    "https://"@ + target + "/?size="@ + decimal(size) + "&user="@ + user
}

/// Whether `hyper::Uri` parses the text (`<hyper::Uri as FromStr>::from_str` gives `Ok`).
pub uninterp spec fn uri_parses(s: Seq<char>) -> bool;

/// `s.parse::<hyper::Uri>()`: the URI where the text parses, `None` where it
/// does not. What the URI holds is not stated.
#[verifier::external_body]
fn parse_uri(s: &str) -> (res: Option<hyper::Uri>)
    ensures
        res is Some <==> uri_parses(s@),
{
    s.parse::<hyper::Uri>().ok()
}

/// The text of the URL a web server is asked for attachments at: `target` is
/// the IP or host name of the web server, `size` the number of bytes to
/// download or upload, `user` lets the server log the user making the request.
pub fn web_url_string(target: &str, size: usize, user: &str) -> (res: String)
    ensures
        res@ == web_url_text(target@, size as nat, user@),
{
    let mut s = String::new();
    proof {
        reveal_strlit("https://");
        reveal_strlit("/?size=");
        reveal_strlit("&user=");
    }
    s.append("https://");
    s.append(target);
    s.append("/?size=");
    push_decimal(&mut s, size as u64);
    s.append("&user=");
    s.append(user);
    assert(s@ =~= web_url_text(target@, size as nat, user@));
    s
}

/// Create a URL the web server can use to accept or produce traffic:
/// `None` where the text does not make a valid URI.
pub fn web_url(target: &str, size: usize, user: &str) -> (res: Option<hyper::Uri>)
    ensures
        res is Some <==> uri_parses(web_url_text(target@, size as nat, user@)),
{
    let formatted = web_url_string(target, size, user);
    parse_uri(formatted.as_str())
}

/// The (name, value) pairs of a query string, as
/// `url::form_urlencoded::parse` gives them, as UTF-8 bytes.
pub uninterp spec fn form_pairs(query: Seq<u8>) -> Seq<(Seq<u8>, Seq<u8>)>;

/// The pairs of a list of byte-string pairs.
pub open spec fn byte_pairs(v: Seq<(Vec<u8>, Vec<u8>)>) -> Seq<(Seq<u8>, Seq<u8>)> {
    v.map_values(|p: (Vec<u8>, Vec<u8>)| (p.0@, p.1@))
}

/// `url::form_urlencoded::parse`, each name and value owned and given as its
/// UTF-8 bytes. The pairs are named, not stated: their decoding (`+` to a
/// space, percent escapes, lossy UTF-8) is the outside crate's.
#[verifier::external_body]
fn parse_form(query: &[u8]) -> (res: Vec<(Vec<u8>, Vec<u8>)>)
    ensures
        byte_pairs(res@) == form_pairs(query@),
{
    url::form_urlencoded::parse(query).into_owned().map(|(k, v)| (k.into_bytes(), v.into_bytes())).collect()
}

/// The value of the last pair named `key`, as collecting the pairs into a
/// map keeps it; `None` where no pair has that name.
pub open spec fn last_value(pairs: Seq<(Seq<u8>, Seq<u8>)>, key: Seq<u8>) -> Option<Seq<u8>>
    decreases pairs.len(),
{
    if pairs.len() == 0 {
        None
    } else if pairs.last().0 == key {
        Some(pairs.last().1)
    } else {
        last_value(pairs.drop_last(), key)
    }
}

/// What the web server does with a request.
#[derive(Debug, PartialEq, Eq)]
pub enum WebAction {
    /// Answer 422: the query or the user is missing.
    Missing,
    /// Answer 422: the size is not a number.
    NotNumeric,
    /// Answer with `size` zero bytes, for `from`.
    Send { from: Vec<u8>, size: usize },
    /// Accept whatever was sent, from `from`.
    Receive { from: Vec<u8> },
}

/// The value of the last pair named `key`.
fn find_last(pairs: &Vec<(Vec<u8>, Vec<u8>)>, key: &[u8]) -> (res: Option<Vec<u8>>)
    ensures
        match (res, last_value(byte_pairs(pairs@), key@)) {
            (Some(v), Some(w)) => v@ == w,
            (None, None) => true,
            _ => false,
        },
{
    let mut i: usize = pairs.len();
    assert(pairs@.take(i as int) =~= pairs@);
    while i > 0
        invariant
            i <= pairs@.len(),
            last_value(byte_pairs(pairs@), key@) == last_value(byte_pairs(pairs@.take(i as int)), key@),
        decreases i,
    {
        assert(byte_pairs(pairs@.take(i as int)).drop_last() =~= byte_pairs(pairs@.take(i - 1)));
        if bytes_eq(pairs[i - 1].0.as_slice(), key) {
            return Some(pairs[i - 1].1.clone());
        }
        i = i - 1;
    }
    None
}

/// Whether two byte strings are equal.
fn bytes_eq(a: &[u8], b: &[u8]) -> (res: bool)
    ensures
        res == (a@ == b@),
{
    if a.len() != b.len() {
        return false;
    }
    let n = a.len();
    let mut i: usize = 0;
    while i < n
        invariant
            n == a@.len() == b@.len(),
            i <= n,
            forall|j: int| 0 <= j < i ==> a@[j] == b@[j],
        decreases n - i,
    {
        if a[i] != b[i] {
            return false;
        }
        i = i + 1;
    }
    assert(a@ =~= b@);
    true
}

/// The bytes of "user".
pub open spec fn user_key() -> Seq<u8> {
    seq![117u8, 115u8, 101u8, 114u8]
}

/// The bytes of "size".
pub open spec fn size_key() -> Seq<u8> {
    seq![115u8, 105u8, 122u8, 101u8]
}

/// What the web server does with a request whose query string (if any) is
/// `query`: a GET sends the asked size (0 where none is asked), another
/// method receives; both need the user.
pub open spec fn web_outcome(query: Option<Seq<u8>>, is_get: bool) -> WebOutcome {
    match query {
        None => WebOutcome::Missing,
        Some(q) => match last_value(form_pairs(q), user_key()) {
            None => WebOutcome::Missing,
            Some(from) => if is_get {
                match last_value(form_pairs(q), size_key()) {
                    None => WebOutcome::Send(from, 0),
                    Some(s) => match parse_bounded(s, usize::MAX as nat) {
                        None => WebOutcome::NotNumeric,
                        Some(n) => WebOutcome::Send(from, n),
                    },
                }
            } else {
                WebOutcome::Receive(from)
            },
        },
    }
}

/// A `WebAction` as values.
pub enum WebOutcome {
    Missing,
    NotNumeric,
    Send(Seq<u8>, nat),
    Receive(Seq<u8>),
}

/// The `WebAction` as values.
pub open spec fn outcome_of(a: WebAction) -> WebOutcome {
    match a {
        WebAction::Missing => WebOutcome::Missing,
        WebAction::NotNumeric => WebOutcome::NotNumeric,
        WebAction::Send { from, size } => WebOutcome::Send(from@, size as nat),
        WebAction::Receive { from } => WebOutcome::Receive(from@),
    }
}

/// Decide the answer to a request with this query string and method.
pub fn process(query: Option<&str>, is_get: bool) -> (res: WebAction)
    ensures
        outcome_of(res) == web_outcome(
            match query {
                Some(q) => Some(utf8(q@)),
                None => None,
            },
            is_get,
        ),
{
    let q = match query {
        Some(q) => q,
        None => return WebAction::Missing,
    };
    let params = parse_form(q.as_bytes());
    let user_bytes: [u8; 4] = [117u8, 115u8, 101u8, 114u8];
    let size_bytes: [u8; 4] = [115u8, 105u8, 122u8, 101u8];
    assert(user_bytes@ =~= user_key());
    assert(size_bytes@ =~= size_key());
    let from = match find_last(&params, &user_bytes) {
        Some(f) => f,
        None => return WebAction::Missing,
    };
    if is_get {
        match find_last(&params, &size_bytes) {
            None => WebAction::Send { from, size: 0 },
            Some(s) => match parse_usize(s.as_slice()) {
                None => WebAction::NotNumeric,
                Some(size) => WebAction::Send { from, size },
            },
        }
    } else {
        WebAction::Receive { from }
    }
}

} // verus!
