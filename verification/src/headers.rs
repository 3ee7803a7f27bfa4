//! Access to `hyper`'s `HeaderMap`, and the byte-level rules for header
//! values.
use vstd::prelude::*;
use hyper::header::HeaderMap;

verus! {

#[verifier::external_type_specification]
#[verifier::external_body]
#[verifier::reject_recursive_types(T)]
pub struct ExHeaderMap<T>(hyper::header::HeaderMap<T>);

#[verifier::external_type_specification]
#[verifier::external_body]
pub struct ExHeaderValue(hyper::header::HeaderValue);

/// The values a header map holds, by lower-case header name, in order.
pub uninterp spec fn header_map_values(m: HeaderMap) -> Map<Seq<char>, Seq<Seq<u8>>>;

/// A lower-case header name: letters `a-z`, digits and `-`, not empty.
pub open spec fn is_lower_header_name(s: Seq<char>) -> bool {
    s.len() > 0 && forall|i: int|
        0 <= i < s.len() ==> ('a' <= #[trigger] s[i] <= 'z') || ('0' <= s[i] <= '9') || s[i]
            == '-'
}

/// A byte that a header value may hold (`HeaderValue::from_bytes`).
pub open spec fn is_value_byte(b: u8) -> bool {
    (b >= 32 && b != 127) || b == 9
}

/// A byte of a header value that reads as text (`HeaderValue::to_str`).
pub open spec fn is_visible_byte(b: u8) -> bool {
    (b >= 32 && b < 127) || b == 9
}

/// Every byte may stand in a header value.
pub open spec fn is_valid_value(v: Seq<u8>) -> bool {
    forall|i: int| 0 <= i < v.len() ==> is_value_byte(#[trigger] v[i])
}

/// Every byte reads as text.
pub open spec fn is_visible_value(v: Seq<u8>) -> bool {
    forall|i: int| 0 <= i < v.len() ==> is_visible_byte(#[trigger] v[i])
}

/// The first value of header `name`.
pub open spec fn first_value(m: Map<Seq<char>, Seq<Seq<u8>>>, name: Seq<char>) -> Option<Seq<u8>> {
    if m.contains_key(name) && m[name].len() > 0 {
        Some(m[name][0])
    } else {
        None
    }
}

/// The first value stored under `name` (`HeaderMap::get`), as bytes.
#[verifier::external_body]
pub(crate) fn header_first(m: &HeaderMap, name: &str) -> (r: Option<Vec<u8>>)
    requires
        is_lower_header_name(name@),
    ensures
        match r {
            Some(v) => first_value(header_map_values(*m), name@) == Some(v@),
            None => first_value(header_map_values(*m), name@) is None,
        },
{
    match m.get(name) {
        Some(v) => Some(v.as_bytes().to_vec()),
        None => None,
    }
}

/// A char that a header name may hold: a letter, a digit, or one of
/// ``!#$%&'*+-.^_`|~``.
pub open spec fn is_name_char(c: char) -> bool {
    ||| ('a' <= c && c <= 'z')
    ||| ('A' <= c && c <= 'Z')
    ||| ('0' <= c && c <= '9')
    ||| c == '!' || c == '#' || c == '$' || c == '%' || c == '&' || c == '\'' || c == '*'
    ||| c == '+' || c == '-' || c == '.' || c == '^' || c == '_' || c == '`' || c == '|'
    ||| c == '~'
}

/// `c` with an upper-case ASCII letter made lower-case.
pub open spec fn lower_char(c: char) -> char {
    if 'A' <= c && c <= 'Z' {
        ((c as u32) + 32) as char
    } else {
        c
    }
}

/// The longest header name, in bytes.
pub const MAX_HEADER_NAME_LEN: usize = 65535usize;

/// The key under which a header map stores the header `name`
/// (`HeaderName::from_bytes`): the name in lower case, when it is not empty,
/// not longer than 65535 chars, and made of name chars only.
pub open spec fn header_key(name: Seq<char>) -> Option<Seq<char>> {
    if 0 < name.len() && name.len() <= MAX_HEADER_NAME_LEN && forall|i: int|
        0 <= i < name.len() ==> is_name_char(#[trigger] name[i]) {
        Some(name.map_values(|c: char| lower_char(c)))
    } else {
        None
    }
}

/// The fewest distinct headers a map holds when it refuses to take one
/// more (`HeaderMap::try_insert` fails only when its index table would
/// grow past 32768 slots, at one entry per five slots at the earliest).
pub const MAP_FULL_AT: usize = 6554;

/// What writing a header did.
#[derive(Clone, Copy, Debug, PartialEq, Eq)]
pub enum HeaderWrite {
    /// The header now holds the value alone.
    Written,
    /// The name is not a header name; nothing was written.
    BadName,
    /// The map has reached its size limit; nothing was written.
    Full,
}

/// Replaces all values of header `name` by `value`
/// (`HeaderName::from_bytes`, then `HeaderMap::try_insert`). A name that
/// is not a header name, or a map that has reached its size limit, leaves
/// the values as they were. A map holds finitely many headers, and it
/// reaches its size limit only with at least [`MAP_FULL_AT`] of them.
#[verifier::external_body]
pub(crate) fn header_set(m: &mut HeaderMap, name: &str, value: &[u8]) -> (r: HeaderWrite)
    requires
        is_valid_value(value@),
    ensures
        match header_key(name@) {
            Some(k) => match r {
                HeaderWrite::Written => header_map_values(*final(m)) == header_map_values(
                    *old(m),
                ).insert(k, seq![value@]),
                HeaderWrite::Full => header_map_values(*final(m)) == header_map_values(*old(m)),
                HeaderWrite::BadName => false,
            },
            None => r == HeaderWrite::BadName && header_map_values(*final(m)) == header_map_values(
                *old(m),
            ),
        },
        header_map_values(*old(m)).dom().finite(),
        r == HeaderWrite::Full ==> header_map_values(*old(m)).dom().len() >= MAP_FULL_AT,
{
    match hyper::header::HeaderName::from_bytes(name.as_bytes()) {
        Err(_) => HeaderWrite::BadName,
        Ok(n) => match hyper::header::HeaderValue::from_bytes(value) {
            Err(_) => HeaderWrite::Full,
            Ok(v) => match m.try_insert(n, v) {
                Ok(_) => HeaderWrite::Written,
                Err(_) => HeaderWrite::Full,
            },
        },
    }
}

/// Whether the header map stores the header `name` under `vary`.
pub(crate) fn is_vary_name(name: &str) -> (r: bool)
    ensures
        r == (header_key(name@) == Some("vary"@)),
{
    proof {
        reveal_strlit("vary");
    }
    let v = crate::text::chars_of(name);
    if v.len() != 4 {
        proof {
            if header_key(name@) == Some("vary"@) {
                assert(name@.map_values(|c: char| lower_char(c)).len() == 4);
            }
        }
        return false;
    }
    let ok = (v[0] == 'v' || v[0] == 'V') && (v[1] == 'a' || v[1] == 'A') && (v[2] == 'r' || v[2]
        == 'R') && (v[3] == 'y' || v[3] == 'Y');
    proof {
        let low = name@.map_values(|c: char| lower_char(c));
        if ok {
            assert forall|i: int| 0 <= i < name@.len() implies is_name_char(#[trigger] name@[i]) by {
                assert(name@[i] == v@[i]);
            }
            assert(low =~= "vary"@);
        } else if header_key(name@) == Some("vary"@) {
            assert(low[0] == 'v' && low[1] == 'a' && low[2] == 'r' && low[3] == 'y');
            assert(false);
        }
    }
    ok
}

/// Whether every byte may stand in a header value.
pub fn valid_value(v: &[u8]) -> (r: bool)
    ensures
        r == is_valid_value(v@),
{
    let mut i: usize = 0;
    while i < v.len()
        invariant
            0 <= i <= v@.len(),
            forall|j: int| 0 <= j < i ==> is_value_byte(#[trigger] v@[j]),
        decreases v@.len() - i,
    {
        let b = v[i];
        if !((b >= 32 && b != 127) || b == 9) {
            return false;
        }
        i = i + 1;
    }
    true
}

/// Whether every byte reads as text.
pub fn visible_value(v: &[u8]) -> (r: bool)
    ensures
        r == is_visible_value(v@),
{
    let mut i: usize = 0;
    while i < v.len()
        invariant
            0 <= i <= v@.len(),
            forall|j: int| 0 <= j < i ==> is_visible_byte(#[trigger] v@[j]),
        decreases v@.len() - i,
    {
        let b = v[i];
        if !((b >= 32 && b < 127) || b == 9) {
            return false;
        }
        i = i + 1;
    }
    true
}

/// The text of a header value, if every byte reads as text
/// (`HeaderValue::to_str`).
pub fn value_text(v: &[u8]) -> (r: Option<String>)
    ensures
        match r {
            Some(s) => is_visible_value(v@) && s@ == crate::text::ascii_chars(v@),
            None => !is_visible_value(v@),
        },
{
    if !visible_value(v) {
        return None;
    }
    let mut out: Vec<char> = Vec::new();
    let mut i: usize = 0;
    while i < v.len()
        invariant
            0 <= i <= v@.len(),
            out@ == crate::text::ascii_chars(v@.take(i as int)),
        decreases v@.len() - i,
    {
        out.push(v[i] as char);
        i = i + 1;
        assert(out@ =~= crate::text::ascii_chars(v@.take(i as int)));
    }
    assert(v@.take(v@.len() as int) == v@);
    Some(crate::text::string_from_chars(out.as_slice()))
}

/// The text of the first value of header `name`, if it reads as text.
pub fn header_text(m: &HeaderMap, name: &str) -> (r: Option<String>)
    requires
        is_lower_header_name(name@),
    ensures
        match first_value(header_map_values(*m), name@) {
            Some(v) => match r {
                Some(s) => is_visible_value(v) && s@ == crate::text::ascii_chars(v),
                None => !is_visible_value(v),
            },
            None => r is None,
        },
{
    match header_first(m, name) {
        Some(v) => value_text(v.as_slice()),
        None => None,
    }
}

} // verus!
