//! Range requests, conditional requests and validators for static files.
use vstd::prelude::*;
use hyper::header::HeaderMap;
use crate::text::{
    chars_of, string_from_chars, sub_chars, append_chars, trim_chars, find_char, split_chars,
    decimal, decimal_chars, index_of, trim, split_on, ascii_chars, starts_with, lemma_index_of_found,
};
use crate::headers::{header_map_values, header_first, header_text, first_value, is_visible_value};

verus! {

broadcast use vstd::seq_lib::group_seq_properties;

// ---------------------------------------------------------------------------
// Decimal numbers
// ---------------------------------------------------------------------------

/// Every char is an ASCII digit.
pub open spec fn all_digits(d: Seq<char>) -> bool {
    forall|i: int| 0 <= i < d.len() ==> 48 <= #[trigger] (d[i] as u32) <= 57
}

/// The number that a string of ASCII digits spells.
pub open spec fn digits_value(d: Seq<char>) -> int
    decreases d.len(),
{
    if d.len() == 0 {
        0
    } else {
        digits_value(d.drop_last()) * 10 + ((d.last() as u32) as int - 48)
    }
}

/// The value of a non-empty string of ASCII digits, if it fits a `u64`.
pub open spec fn digits_u64(d: Seq<char>) -> Option<u64> {
    if d.len() > 0 && all_digits(d) && digits_value(d) <= u64::MAX {
        Some(digits_value(d) as u64)
    } else {
        None
    }
}

/// `u64::from_str`: an optional `+`, then one or more ASCII digits whose
/// value fits in a `u64`.
pub open spec fn parse_u64_spec(s: Seq<char>) -> Option<u64> {
    if s.len() > 0 && s[0] == '+' {
        digits_u64(s.drop_first())
    } else {
        digits_u64(s)
    }
}

/// The value of a digit string extends the value of its prefixes digit by digit.
proof fn lemma_digits_value_prefix(d: Seq<char>, i: int)
    requires
        all_digits(d),
        0 <= i <= d.len(),
    ensures
        digits_value(d.take(i)) <= digits_value(d),
    decreases d.len(),
{
    if i < d.len() {
        assert(all_digits(d.drop_last()));
        assert(d.drop_last().take(i) == d.take(i));
        lemma_digits_value_prefix(d.drop_last(), i);
        lemma_digits_value_nonneg(d.drop_last());
        assert(d.last() == d[d.len() - 1]);
    } else {
        assert(d.take(i) == d);
    }
}

/// A digit string has a non-negative value.
proof fn lemma_digits_value_nonneg(d: Seq<char>)
    requires
        all_digits(d),
    ensures
        digits_value(d) >= 0,
    decreases d.len(),
{
    if d.len() > 0 {
        assert(all_digits(d.drop_last()));
        lemma_digits_value_nonneg(d.drop_last());
        assert(d.last() == d[d.len() - 1]);
    }
}

/// Reading one more digit multiplies the value so far by ten and adds the digit.
proof fn lemma_digits_step(d: Seq<char>, j: int)
    requires
        0 <= j < d.len(),
    ensures
        digits_value(d.take(j + 1)) == digits_value(d.take(j)) * 10 + ((d[j] as u32) as int - 48),
{
    assert(d.take(j + 1).drop_last() == d.take(j));
}

fn parse_digits_u64(d: &[char]) -> (r: Option<u64>)
    ensures
        r == digits_u64(d@),
{
    let n = d.len();
    if n == 0 {
        return None;
    }
    let mut i: usize = 0;
    while i < n
        invariant
            0 <= i <= n == d@.len(),
            forall|k: int| 0 <= k < i ==> 48 <= #[trigger] (d@[k] as u32) <= 57,
        decreases n - i,
    {
        let c = d[i] as u32;
        if !(48 <= c && c <= 57) {
            assert(!all_digits(d@));
            return None;
        }
        i = i + 1;
    }
    assert(all_digits(d@));
    let mut v: u64 = 0;
    i = 0;
    while i < n
        invariant
            0 <= i <= n == d@.len(),
            all_digits(d@),
            v == digits_value(d@.take(i as int)),
        decreases n - i,
    {
        proof {
            lemma_digits_step(d@, i as int);
        }
        let dig = ((d[i] as u32) - 48) as u64;
        let t = match v.checked_mul(10) {
            Some(t) => t,
            None => {
                proof {
                    lemma_digits_value_prefix(d@, i + 1);
                }
                return None;
            },
        };
        v = match t.checked_add(dig) {
            Some(u) => u,
            None => {
                proof {
                    lemma_digits_value_prefix(d@, i + 1);
                }
                return None;
            },
        };
        i = i + 1;
    }
    assert(d@.take(n as int) == d@);
    Some(v)
}

/// Parses a `u64` as `u64::from_str` does.
pub fn parse_u64(s: &[char]) -> (r: Option<u64>)
    ensures
        r == parse_u64_spec(s@),
{
    if s.len() > 0 && s[0] == '+' {
        let d = sub_chars(s, 1, s.len());
        assert(d@ == s@.drop_first());
        parse_digits_u64(d.as_slice())
    } else {
        parse_digits_u64(s)
    }
}

// ---------------------------------------------------------------------------
// Ranges
// ---------------------------------------------------------------------------

/// The inclusive byte range that one range spec (`a-b`, `a-`, `-n`) selects
/// in a file of `len` bytes, if it selects any.
pub open spec fn range_spec_bounds(spec: Seq<char>, len: u64) -> Option<(u64, u64)> {
    match index_of(spec, '-') {
        None => None,
        Some(i) => {
            let s = trim(spec.take(i));
            let e = trim(spec.skip(i + 1));
            if s.len() == 0 && e.len() == 0 {
                None
            } else if s.len() == 0 {
                match parse_u64_spec(e) {
                    Some(n) => if n == 0 || len == 0 {
                        None
                    } else {
                        Some((if n >= len { 0u64 } else { (len - n) as u64 }, (len - 1) as u64))
                    },
                    None => None,
                }
            } else if e.len() == 0 {
                match parse_u64_spec(s) {
                    Some(start) => if start >= len {
                        None
                    } else {
                        Some((start, (len - 1) as u64))
                    },
                    None => None,
                }
            } else {
                match (parse_u64_spec(s), parse_u64_spec(e)) {
                    (Some(start), Some(end)) => if start > end || start >= len {
                        None
                    } else {
                        Some((start, if end <= len - 1 { end } else { (len - 1) as u64 }))
                    },
                    _ => None,
                }
            }
        },
    }
}

/// Parses one range spec against a file of `file_len` bytes.
pub fn parse_range_spec(spec: &str, file_len: u64) -> (r: Option<(u64, u64)>)
    ensures
        r == range_spec_bounds(spec@, file_len),
        r matches Some((s, e)) ==> s <= e < file_len,
{
    let v = chars_of(spec);
    let n = v.len();
    let i = match find_char(v.as_slice(), '-') {
        Some(i) => i,
        None => {
            return None;
        },
    };
    let s = trim_chars(sub_chars(v.as_slice(), 0, i).as_slice());
    let e = trim_chars(sub_chars(v.as_slice(), i + 1, n).as_slice());
    if s.len() == 0 && e.len() == 0 {
        None
    } else if s.len() == 0 {
        match parse_u64(e.as_slice()) {
            Some(k) => {
                if k == 0 || file_len == 0 {
                    None
                } else {
                    Some((file_len.saturating_sub(k), file_len - 1))
                }
            },
            None => None,
        }
    } else if e.len() == 0 {
        match parse_u64(s.as_slice()) {
            Some(start) => {
                if start >= file_len {
                    None
                } else {
                    Some((start, file_len - 1))
                }
            },
            None => None,
        }
    } else {
        match (parse_u64(s.as_slice()), parse_u64(e.as_slice())) {
            (Some(start), Some(end)) => {
                if start > end || start >= file_len {
                    None
                } else {
                    Some((start, if end <= file_len - 1 { end } else { file_len - 1 }))
                }
            },
            _ => None,
        }
    }
}

/// What the `Range` header asks of a file.
pub enum RangeOutcome {
    /// No usable `Range` header: serve the whole file.
    Whole,
    /// Serve the inclusive byte range.
    Satisfiable(u64, u64),
    /// The range cannot be served.
    Unsatisfiable,
}

/// What the `Range` header text `h` asks of a file of `len` bytes.
pub open spec fn range_outcome_of_text(h: Seq<char>, len: u64) -> RangeOutcome {
    if !starts_with(h, seq!['b', 'y', 't', 'e', 's', '=']) {
        RangeOutcome::Whole
    } else if h.skip(6).contains(',') {
        RangeOutcome::Unsatisfiable
    } else {
        match range_spec_bounds(h.skip(6), len) {
            Some((s, e)) => RangeOutcome::Satisfiable(s, e),
            None => RangeOutcome::Unsatisfiable,
        }
    }
}

/// What the request's `Range` header asks of a file of `len` bytes.
pub open spec fn range_outcome(hv: Map<Seq<char>, Seq<Seq<u8>>>, len: u64) -> RangeOutcome {
    match first_value(hv, "range"@) {
        Some(v) => if is_visible_value(v) {
            range_outcome_of_text(ascii_chars(v), len)
        } else {
            RangeOutcome::Whole
        },
        None => RangeOutcome::Whole,
    }
}

/// Reads the `Range` header for a file of `file_len` bytes. Only a single
/// `bytes=` range is supported; a list of ranges is unsatisfiable.
pub fn parse_range(headers: &HeaderMap, file_len: u64) -> (r: RangeOutcome)
    ensures
        r == range_outcome(header_map_values(*headers), file_len),
        r matches RangeOutcome::Satisfiable(s, e) ==> s <= e < file_len,
{
    proof {
        reveal_strlit("range");
    }
    let ghost hv = header_map_values(*headers);
    let text = match header_text(headers, "range") {
        Some(t) => t,
        None => {
            return RangeOutcome::Whole;
        },
    };
    let h = chars_of(text.as_str());
    if h.len() < 6 {
        return RangeOutcome::Whole;
    }
    let ghost pre = seq!['b', 'y', 't', 'e', 's', '='];
    if !(h[0] == 'b' && h[1] == 'y' && h[2] == 't' && h[3] == 'e' && h[4] == 's' && h[5] == '=') {
        assert(h@.take(6) != pre) by {
            if h@.take(6) == pre {
                assert(h@.take(6)[0] == h@[0]);
                assert(h@.take(6)[1] == h@[1]);
                assert(h@.take(6)[2] == h@[2]);
                assert(h@.take(6)[3] == h@[3]);
                assert(h@.take(6)[4] == h@[4]);
                assert(h@.take(6)[5] == h@[5]);
            }
        }
        return RangeOutcome::Whole;
    }
    assert(h@.take(6) =~= pre);
    let spec = sub_chars(h.as_slice(), 6, h.len());
    assert(spec@ == h@.skip(6));
    if crate::text::has_char(spec.as_slice(), ',') {
        return RangeOutcome::Unsatisfiable;
    }
    let spec_str = string_from_chars(spec.as_slice());
    match parse_range_spec(spec_str.as_str(), file_len) {
        Some((s, e)) => RangeOutcome::Satisfiable(s, e),
        None => RangeOutcome::Unsatisfiable,
    }
}

// ---------------------------------------------------------------------------
// Validators
// ---------------------------------------------------------------------------

/// `s` without a leading `W/`.
pub open spec fn strip_weak(s: Seq<char>) -> Seq<char> {
    if starts_with(s, "W/"@) {
        s.skip(2)
    } else {
        s
    }
}

/// Two entity tags match weakly: equal once trimmed and stripped of `W/`.
pub open spec fn weak_match(a: Seq<char>, b: Seq<char>) -> bool {
    strip_weak(trim(a)) == strip_weak(trim(b))
}

fn strip_weak_chars(v: &[char]) -> (r: Vec<char>)
    ensures
        r@ == strip_weak(v@),
{
    proof {
        reveal_strlit("W/");
    }
    if v.len() >= 2 && v[0] == 'W' && v[1] == '/' {
        assert(v@.take(2) =~= "W/"@);
        sub_chars(v, 2, v.len())
    } else {
        proof {
            if v@.len() >= 2 {
                assert(v@.take(2)[0] == v@[0]);
                assert(v@.take(2)[1] == v@[1]);
                assert(v@.take(2) != "W/"@) by {
                    if v@.take(2) == "W/"@ {
                        assert("W/"@[0] == 'W');
                    }
                }
            }
        }
        sub_chars(v, 0, v.len())
    }
}

fn chars_equal(a: &[char], b: &[char]) -> (r: bool)
    ensures
        r == (a@ == b@),
{
    if a.len() != b.len() {
        return false;
    }
    let mut i: usize = 0;
    while i < a.len()
        invariant
            0 <= i <= a@.len() == b@.len(),
            forall|k: int| 0 <= k < i ==> a@[k] == b@[k],
        decreases a@.len() - i,
    {
        if a[i] != b[i] {
            return false;
        }
        i = i + 1;
    }
    assert(a@ =~= b@);
    true
}

/// Whether two entity tags match weakly.
pub fn weak_eq(a: &str, b: &str) -> (r: bool)
    ensures
        r == weak_match(a@, b@),
{
    let ac = chars_of(a);
    let bc = chars_of(b);
    let at = trim_chars(ac.as_slice());
    let bt = trim_chars(bc.as_slice());
    let aw = strip_weak_chars(at.as_slice());
    let bw = strip_weak_chars(bt.as_slice());
    chars_equal(aw.as_slice(), bw.as_slice())
}

/// The seconds since the Unix epoch of an HTTP date, as
/// `httpdate::parse_http_date` reads it.
pub uninterp spec fn http_date_seconds(s: Seq<char>) -> Option<u64>;

/// `httpdate::parse_http_date`, as whole seconds since the Unix epoch.
#[verifier::external_body]
fn parse_http_date_secs(s: &str) -> (r: Option<u64>)
    ensures
        r == http_date_seconds(s@),
{
    match httpdate::parse_http_date(s) {
        Ok(t) => match t.duration_since(std::time::UNIX_EPOCH) {
            Ok(d) => Some(d.as_secs()),
            Err(_) => None,
        },
        Err(_) => None,
    }
}

/// The IMF-fixdate text of a time, as `httpdate::fmt_http_date` writes it.
pub uninterp spec fn http_date_text(secs: u64) -> Seq<char>;

/// The first second of the year 10000, where HTTP dates end.
pub const HTTP_DATE_LIMIT: u64 = 253402300800u64;

/// `httpdate::fmt_http_date` for a time given in seconds since the Unix
/// epoch.
#[verifier::external_body]
pub(crate) fn fmt_http_date_secs(secs: u64) -> (r: String)
    requires
        secs < HTTP_DATE_LIMIT,
    ensures
        r@ == http_date_text(secs),
{
    httpdate::fmt_http_date(std::time::UNIX_EPOCH + std::time::Duration::from_secs(secs))
}

/// Some entry of the comma-separated list `t` matches `etag` weakly.
pub open spec fn some_tag_matches(t: Seq<char>, etag: Seq<char>) -> bool {
    exists|k: int| 0 <= k < split_on(t, ',').len() && weak_match(#[trigger] split_on(t, ',')[k], etag)
}

/// Whether a conditional request can be answered `304 Not Modified`:
/// `If-None-Match` decides when present (`*`, or any listed tag matching
/// `etag` weakly); otherwise `If-Modified-Since` when it holds a date not
/// before `mtime`.
pub open spec fn not_modified(hv: Map<Seq<char>, Seq<Seq<u8>>>, etag: Seq<char>, mtime: u64) -> bool {
    match first_value(hv, "if-none-match"@) {
        Some(v) => {
            let t = if is_visible_value(v) {
                ascii_chars(v)
            } else {
                Seq::<char>::empty()
            };
            t == "*"@ || some_tag_matches(t, etag)
        },
        None => match first_value(hv, "if-modified-since"@) {
            Some(v) => is_visible_value(v) && match http_date_seconds(ascii_chars(v)) {
                Some(t) => mtime <= t,
                None => false,
            },
            None => false,
        },
    }
}

/// A listed tag that matches weakly makes the request not-modified.
proof fn lemma_not_modified_by_tag(
    hv: Map<Seq<char>, Seq<Seq<u8>>>,
    etag: Seq<char>,
    mtime: u64,
    raw: Seq<u8>,
    k: int,
)
    requires
        first_value(hv, "if-none-match"@) == Some(raw),
        ({
            let t = if is_visible_value(raw) {
                ascii_chars(raw)
            } else {
                Seq::<char>::empty()
            };
            0 <= k < split_on(t, ',').len() && weak_match(split_on(t, ',')[k], etag)
        }),
    ensures
        not_modified(hv, etag, mtime),
{
    let t = if is_visible_value(raw) {
        ascii_chars(raw)
    } else {
        Seq::<char>::empty()
    };
    assert(some_tag_matches(t, etag));
}

/// Whether the request's validators let the server answer `304`.
pub fn is_not_modified(headers: &HeaderMap, etag: &str, mtime: u64) -> (r: bool)
    ensures
        r == not_modified(header_map_values(*headers), etag@, mtime),
{
    proof {
        reveal_strlit("if-none-match");
        reveal_strlit("if-modified-since");
    }
    let ghost hv = header_map_values(*headers);
    match header_first(headers, "if-none-match") {
        Some(raw) => {
            let t = match crate::headers::value_text(raw.as_slice()) {
                Some(t) => t,
                None => String::new(),
            };
            let tc = chars_of(t.as_str());
            assert(tc@ == (if is_visible_value(raw@) {
                ascii_chars(raw@)
            } else {
                Seq::<char>::empty()
            }));
            let star = chars_of("*");
            if chars_equal(tc.as_slice(), star.as_slice()) {
                return true;
            }
            let pieces = split_chars(tc.as_slice(), ',');
            let mut k: usize = 0;
            while k < pieces.len()
                invariant
                    tc@ == (if is_visible_value(raw@) {
                        ascii_chars(raw@)
                    } else {
                        Seq::<char>::empty()
                    }),
                    first_value(header_map_values(*headers), "if-none-match"@) == Some(raw@),
                    0 <= k <= pieces@.len() == split_on(tc@, ',').len(),
                    forall|q: int| 0 <= q < pieces@.len() ==> #[trigger] pieces@[q]@ == split_on(tc@, ',')[q],
                    forall|q: int| 0 <= q < k ==> !weak_match(#[trigger] split_on(tc@, ',')[q], etag@),
                decreases pieces@.len() - k,
            {
                let piece = string_from_chars(pieces[k].as_slice());
                if weak_eq(piece.as_str(), etag) {
                    proof {
                        lemma_not_modified_by_tag(
                            header_map_values(*headers),
                            etag@,
                            mtime,
                            raw@,
                            k as int,
                        );
                    }
                    return true;
                }
                k = k + 1;
            }
            false
        },
        None => {
            match header_text(headers, "if-modified-since") {
                Some(t) => match parse_http_date_secs(t.as_str()) {
                    Some(secs) => mtime <= secs,
                    None => false,
                },
                None => {
                    proof {
                        if first_value(hv, "if-modified-since"@) is Some {
                            assert(!is_visible_value(first_value(hv, "if-modified-since"@).unwrap()));
                        }
                    }
                    false
                },
            }
        },
    }
}

/// The weak entity tag of a file: `W/"<mtime>-<len>"`.
pub open spec fn etag_of(mtime: u64, len: u64) -> Seq<char> {
    "W/\""@ + decimal(mtime as nat) + "-"@ + decimal(len as nat) + "\""@
}

/// The weak entity tag of a file with modification time `mtime` (seconds)
/// and length `len`.
pub fn etag_for(mtime: u64, len: u64) -> (r: String)
    ensures
        r@ == etag_of(mtime, len),
{
    let mut out = chars_of("W/\"");
    let m = decimal_chars(mtime);
    append_chars(&mut out, m.as_slice());
    let dash = chars_of("-");
    append_chars(&mut out, dash.as_slice());
    let l = decimal_chars(len);
    append_chars(&mut out, l.as_slice());
    let q = chars_of("\"");
    append_chars(&mut out, q.as_slice());
    string_from_chars(out.as_slice())
}

/// A string of ASCII digits has no whitespace at either end.
proof fn lemma_digits_trimmed(d: Seq<char>)
    requires
        all_digits(d),
    ensures
        trim(d) == d,
{
    if d.len() > 0 {
        assert(48 <= (d[0] as u32) <= 57);
        assert(48 <= (d.last() as u32) <= 57);
    }
}

/// The first `-` of `a-b`, with `a` made of digits, follows `a`.
proof fn lemma_dash_after_digits(a: Seq<char>, b: Seq<char>)
    requires
        all_digits(a),
    ensures
        index_of(a + seq!['-'] + b, '-') == Some(a.len() as int),
{
    let s = a + seq!['-'] + b;
    assert forall|j: int| 0 <= j < a.len() implies s[j] != '-' by {
        assert(s[j] == a[j]);
        assert(48 <= (a[j] as u32) <= 57);
    }
    lemma_index_of_found(s, '-', a.len() as int);
}

/// The range spec `a-b`, both written in decimal digits with `a <= b` and
/// `a` inside a file of `len` bytes, selects the bytes from `a` to `b`,
/// cut at the file's last byte; so a single byte `a-a` inside the file is
/// always satisfiable.
pub proof fn lemma_first_last_range(a_txt: Seq<char>, b_txt: Seq<char>, len: u64)
    requires
        digits_u64(a_txt) is Some,
        digits_u64(b_txt) is Some,
        digits_u64(a_txt).unwrap() <= digits_u64(b_txt).unwrap(),
        digits_u64(a_txt).unwrap() < len,
    ensures
        range_spec_bounds(a_txt + seq!['-'] + b_txt, len) == Some(
            (
                digits_u64(a_txt).unwrap(),
                if digits_u64(b_txt).unwrap() < len {
                    digits_u64(b_txt).unwrap()
                } else {
                    (len - 1) as u64
                },
            ),
        ),
{
    let s = a_txt + seq!['-'] + b_txt;
    lemma_dash_after_digits(a_txt, b_txt);
    let i = a_txt.len() as int;
    assert(s.take(i) =~= a_txt);
    assert(s.skip(i + 1) =~= b_txt);
    lemma_digits_trimmed(a_txt);
    lemma_digits_trimmed(b_txt);
    assert(48 <= (a_txt[0] as u32) <= 57);
    assert(48 <= (b_txt[0] as u32) <= 57);
    assert(parse_u64_spec(a_txt) == digits_u64(a_txt));
    assert(parse_u64_spec(b_txt) == digits_u64(b_txt));
}

/// Without `If-None-Match`, a readable `If-Modified-Since` date `t` makes
/// the request not-modified exactly when the file was last modified at or
/// before `t`: any date from the modification time on gives `304`.
pub proof fn lemma_modified_since(
    hv: Map<Seq<char>, Seq<Seq<u8>>>,
    etag: Seq<char>,
    mtime: u64,
    raw: Seq<u8>,
    t: u64,
)
    requires
        first_value(hv, "if-none-match"@) is None,
        first_value(hv, "if-modified-since"@) == Some(raw),
        is_visible_value(raw),
        http_date_seconds(ascii_chars(raw)) == Some(t),
    ensures
        not_modified(hv, etag, mtime) <==> mtime <= t,
{
}

/// A file modified earlier is not-modified whenever a later one is, for
/// the same request and tag.
pub proof fn lemma_not_modified_earlier(
    hv: Map<Seq<char>, Seq<Seq<u8>>>,
    etag: Seq<char>,
    earlier: u64,
    later: u64,
)
    requires
        earlier <= later,
        not_modified(hv, etag, later),
    ensures
        not_modified(hv, etag, earlier),
{
}

/// The range spec `a-`, with `a` written in decimal digits inside a file
/// of `len` bytes, selects the bytes from `a` to the file's end.
pub proof fn lemma_open_ended_range(a_txt: Seq<char>, len: u64)
    requires
        digits_u64(a_txt) is Some,
        digits_u64(a_txt).unwrap() < len,
    ensures
        range_spec_bounds(a_txt + seq!['-'], len) == Some((digits_u64(a_txt).unwrap(), (len - 1) as u64)),
{
    let s = a_txt + seq!['-'];
    lemma_dash_after_digits(a_txt, Seq::<char>::empty());
    assert(a_txt + seq!['-'] + Seq::<char>::empty() =~= s);
    let i = a_txt.len() as int;
    assert(s.take(i) =~= a_txt);
    assert(s.skip(i + 1) =~= Seq::<char>::empty());
    lemma_digits_trimmed(a_txt);
    assert(trim(Seq::<char>::empty()) =~= Seq::<char>::empty());
    assert(48 <= (a_txt[0] as u32) <= 57);
    assert(parse_u64_spec(a_txt) == digits_u64(a_txt));
}

/// The range spec `-n`, with `n > 0` written in decimal digits, selects the
/// last `n` bytes of a non-empty file, or all of it when it is shorter.
pub proof fn lemma_suffix_range(n_txt: Seq<char>, len: u64)
    requires
        digits_u64(n_txt) is Some,
        digits_u64(n_txt).unwrap() > 0,
        len > 0,
    ensures
        range_spec_bounds(seq!['-'] + n_txt, len) == Some(
            (
                if digits_u64(n_txt).unwrap() >= len {
                    0u64
                } else {
                    (len - digits_u64(n_txt).unwrap()) as u64
                },
                (len - 1) as u64,
            ),
        ),
{
    let s = seq!['-'] + n_txt;
    lemma_index_of_found(s, '-', 0);
    assert(s.take(0) =~= Seq::<char>::empty());
    assert(s.skip(1) =~= n_txt);
    lemma_digits_trimmed(n_txt);
    assert(trim(Seq::<char>::empty()) =~= Seq::<char>::empty());
    assert(48 <= (n_txt[0] as u32) <= 57);
    assert(parse_u64_spec(n_txt) == digits_u64(n_txt));
}

/// A present `If-None-Match` decides alone: `*` or a listed tag that
/// matches the file's tag weakly gives `304`; otherwise the file is sent,
/// whatever `If-Modified-Since` says.
pub proof fn lemma_none_match_decides(
    hv: Map<Seq<char>, Seq<Seq<u8>>>,
    etag: Seq<char>,
    mtime: u64,
    raw: Seq<u8>,
)
    requires
        first_value(hv, "if-none-match"@) == Some(raw),
        is_visible_value(raw),
    ensures
        not_modified(hv, etag, mtime) <==> (ascii_chars(raw) == "*"@ || exists|k: int|
            0 <= k < split_on(ascii_chars(raw), ',').len() && weak_match(
                #[trigger] split_on(ascii_chars(raw), ',')[k],
                etag,
            )),
{
}
/// A quoted entity tag matches its weak form `W/<tag>` both ways, so a
/// client holding either form gets `304` for the file.
pub proof fn lemma_weak_form_matches(t: Seq<char>)
    requires
        t.len() >= 2,
        t[0] == '"',
        t.last() == '"',
    ensures
        weak_match("W/"@ + t, t),
        weak_match(t, "W/"@ + t),
{
    reveal_strlit("W/");
    let w = "W/"@ + t;
    assert(w[0] == 'W');
    assert(w.last() == '"');
    assert(trim(t) == t);
    assert(trim(w) == w);
    assert(w.take(2) =~= "W/"@);
    assert(w.skip(2) =~= t);
    assert(t.take(2)[0] == '"');
}
} // verus!
