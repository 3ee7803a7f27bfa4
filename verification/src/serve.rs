//! The application server's own values and answers: errors, shared state,
//! body limits, JSON error bodies, server-sent-event frames, request
//! dispatch and route groups.
use vstd::prelude::*;
use std::sync::Arc;
use vstd::string::StringSliceAdditionalSpecFns;
use crate::text::{decimal, decimal_chars, chars_of, string_from_chars, append_chars, split_on};
use crate::router::{Method, Router, lemma_matched_path_is_known};
use crate::params::{PathParams, QueryParams, parse_query, query_map};
use crate::files::trim_leading_slashes;
use crate::headers::{header_map_values, header_text, first_value, is_visible_value};
use crate::conditional::{parse_u64, parse_u64_spec};
use crate::text::ascii_chars;
use hyper::header::HeaderMap;

verus! {

broadcast use vstd::seq_lib::group_seq_properties;

// ---------------------------------------------------------------------------
// Errors
// ---------------------------------------------------------------------------

/// An error a handler returns: an HTTP status code and a message for the
/// client.
#[derive(Debug)]
pub struct ServeError {
    pub code: u16,
    pub message: String,
}

impl ServeError {
    /// An error with the given status code and message.
    pub fn new(code: u16, message: &str) -> (e: ServeError)
        ensures
            e.code == code,
            e.message@ == message@,
    {
        ServeError { code, message: message.to_owned() }
    }

    /// The error as text: `<code>: <message>`.
    pub fn to_string(&self) -> (s: String)
        ensures
            s@ == decimal(self.code as nat) + ": "@ + self.message@,
    {
        let mut out = decimal_chars(self.code as u64);
        let sep = chars_of(": ");
        append_chars(&mut out, sep.as_slice());
        let msg = chars_of(self.message.as_str());
        append_chars(&mut out, msg.as_slice());
        string_from_chars(out.as_slice())
    }
}

// ---------------------------------------------------------------------------
// Shared state and body limits
// ---------------------------------------------------------------------------

/// The default limit on the size of a request body: 2 MiB.
pub const DEFAULT_MAX_BODY_SIZE: usize = 2097152usize;

/// The limit on the size of a request body that the router hands to the
/// body readers.
#[derive(Clone, Copy, Debug)]
pub struct MaxBodySize(pub usize);

/// Application state shared by all handlers.
#[derive(Clone)]
pub struct State<S>(Arc<S>);

impl<S> State<S> {
    /// The value the state holds.
    pub closed spec fn value(self) -> S {
        *self.0
    }

    /// Shares `state`.
    pub fn new(state: S) -> (r: State<S>)
        ensures
            r.value() == state,
    {
        State(Arc::new(state))
    }

    /// A clone of the held value.
    pub fn inner(&self) -> (r: S)
        where
            S: Clone,
        ensures
            cloned(self.value(), r),
    {
        let v: &S = &self.0;
        v.clone()
    }

    /// The held value.
    pub fn get(&self) -> (r: &S)
        ensures
            *r == self.value(),
    {
        &self.0
    }

    /// Another handle on the same value.
    pub fn share(&self) -> (r: State<S>)
        ensures
            r.value() == self.value(),
    {
        State(Arc::clone(&self.0))
    }
}

impl<S> core::ops::Deref for State<S> {
    type Target = S;

    fn deref(&self) -> (r: &S)
        ensures
            *r == self.value(),
    {
        &self.0
    }
}

// ---------------------------------------------------------------------------
// JSON error bodies
// ---------------------------------------------------------------------------

/// The lower-case hexadecimal digit for `d < 16`.
pub open spec fn hex_lower(d: nat) -> char {
    if d < 10 {
        (('0' as u32) + d) as char
    } else {
        (('a' as u32) + (d - 10)) as char
    }
}

/// How a JSON string writes the char `c`: `"` and `\` after a backslash,
/// the short escapes for backspace, tab, line feed, form feed and carriage
/// return, `\u00XX` (lower-case hex) for the other chars below U+0020, and
/// every other char as it is.
pub open spec fn json_escape_char(c: char) -> Seq<char> {
    let u = c as u32;
    if c == '"' {
        seq!['\\', '"']
    } else if c == '\\' {
        seq!['\\', '\\']
    } else if u == 8 {
        seq!['\\', 'b']
    } else if u == 9 {
        seq!['\\', 't']
    } else if u == 10 {
        seq!['\\', 'n']
    } else if u == 12 {
        seq!['\\', 'f']
    } else if u == 13 {
        seq!['\\', 'r']
    } else if u < 32 {
        seq!['\\', 'u', '0', '0', hex_lower((u / 16) as nat), hex_lower((u % 16) as nat)]
    } else {
        seq![c]
    }
}

/// The contents of a JSON string holding `s`.
pub open spec fn json_escaped(s: Seq<char>) -> Seq<char>
    decreases s.len(),
{
    if s.len() == 0 {
        Seq::<char>::empty()
    } else {
        json_escaped(s.drop_last()) + json_escape_char(s.last())
    }
}

/// The JSON string literal that holds `s`.
pub open spec fn json_string(s: Seq<char>) -> Seq<char> {
    seq!['"'] + json_escaped(s) + seq!['"']
}

/// `serde_json::to_string` of a string slice: the string in double quotes,
/// escaped as serde_json's compact writer escapes it (`"`, `\\`, and the
/// chars below U+0020; nothing else). Serialising a `str` cannot fail.
#[verifier::external_body]
pub(crate) fn json_string_literal(s: &str) -> (r: String)
    ensures
        r@ == json_string(s@),
{
    serde_json::to_string(s).unwrap_or_default()
}

/// The JSON body of an error answer: `{"message":<message>}`.
pub open spec fn error_body_of(message: Seq<char>) -> Seq<char> {
    "{\"message\":"@ + json_string(message) + "}"@
}

/// The JSON body of an error answer carrying `message`.
pub fn error_body(message: &str) -> (r: String)
    ensures
        r@ == error_body_of(message@),
{
    let mut out = chars_of("{\"message\":");
    let lit = json_string_literal(message);
    let lit_chars = chars_of(lit.as_str());
    append_chars(&mut out, lit_chars.as_slice());
    let close = chars_of("}");
    append_chars(&mut out, close.as_slice());
    string_from_chars(out.as_slice())
}

/// The status an error answer carries for an error code: the code itself
/// when it is a valid HTTP status (100 to 999, `StatusCode::from_u16`),
/// else 500.
pub open spec fn status_or_internal(code: u16) -> u16 {
    if 100 <= code && code <= 999 {
        code
    } else {
        500
    }
}

/// The status an error answer carries for the error code `code`.
pub fn error_status(code: u16) -> (r: u16)
    ensures
        r == status_or_internal(code),
{
    if 100 <= code && code <= 999 {
        code
    } else {
        500
    }
}

/// How loudly a request is logged.
#[derive(Clone, Copy, Debug, PartialEq, Eq)]
pub enum LogLevel {
    Error,
    Warn,
    Info,
}

/// The level a request is logged at for its status: server errors
/// (`500` and up) as errors, client errors (`400` to `499`) as warnings,
/// the rest as information.
pub fn level_for_status(code: u16) -> (l: LogLevel)
    ensures
        l == (if code >= 500 {
            LogLevel::Error
        } else if code >= 400 {
            LogLevel::Warn
        } else {
            LogLevel::Info
        }),
{
    if code >= 500 {
        LogLevel::Error
    } else if code >= 400 {
        LogLevel::Warn
    } else {
        LogLevel::Info
    }
}

// ---------------------------------------------------------------------------
// Server-sent events
// ---------------------------------------------------------------------------

/// `l` without one trailing carriage return.
pub open spec fn strip_cr(l: Seq<char>) -> Seq<char> {
    if l.len() > 0 && l.last() == '\r' {
        l.drop_last()
    } else {
        l
    }
}

/// Each of `ls` without one trailing carriage return.
pub open spec fn stripped(ls: Seq<Seq<char>>) -> Seq<Seq<char>>
    decreases ls.len(),
{
    if ls.len() == 0 {
        Seq::<Seq<char>>::empty()
    } else {
        stripped(ls.drop_last()).push(strip_cr(ls.last()))
    }
}

/// The lines of `s` as `str::lines` yields them: split at line feeds, a
/// carriage return before a line feed dropped, and no empty last line after
/// a final line feed.
pub open spec fn text_lines(s: Seq<char>) -> Seq<Seq<char>> {
    let parts = split_on(s, '\n');
    let ended = stripped(parts.drop_last());
    if parts.last().len() == 0 {
        ended
    } else {
        ended.push(parts.last())
    }
}

/// Each line of `lines` as a `data: ` field, one after another.
pub open spec fn data_fields(lines: Seq<Seq<char>>) -> Seq<char>
    decreases lines.len(),
{
    if lines.len() == 0 {
        Seq::<char>::empty()
    } else {
        data_fields(lines.drop_last()) + "data: "@ + lines.last() + "\n"@
    }
}

/// The server-sent-event frame that carries `s`: a `data:` field per line
/// and a blank line after them.
pub open spec fn sse_frame_of(s: Seq<char>) -> Seq<char> {
    data_fields(text_lines(s)) + "\n"@
}

/// The payload lines behind `data: `.
pub open spec fn data_lines(ls: Seq<Seq<char>>) -> Seq<Seq<char>>
    decreases ls.len(),
{
    if ls.len() == 0 {
        Seq::<Seq<char>>::empty()
    } else {
        data_lines(ls.drop_last()).push("data: "@ + ls.last())
    }
}

/// Splitting `a + b` where `b` holds no `d` extends the last piece of `a`.
proof fn lemma_split_append_plain(a: Seq<char>, b: Seq<char>, d: char)
    requires
        !b.contains(d),
    ensures
        split_on(a + b, d) == split_on(a, d).update(
            split_on(a, d).len() - 1,
            split_on(a, d).last() + b,
        ),
    decreases b.len(),
{
    crate::text::lemma_split_nonempty(a, d);
    if b.len() == 0 {
        assert(a + b == a);
        assert(split_on(a, d).last() + b == split_on(a, d).last());
        assert(split_on(a, d).update(split_on(a, d).len() - 1, split_on(a, d).last())
            =~= split_on(a, d));
    } else {
        let b0 = b.drop_last();
        assert(!b0.contains(d)) by {
            if b0.contains(d) {
                let k = choose|k: int| 0 <= k < b0.len() && b0[k] == d;
                assert(b[k] == d);
            }
        }
        lemma_split_append_plain(a, b0, d);
        assert((a + b).drop_last() == a + b0);
        assert((a + b).last() == b.last());
        assert(b.last() != d) by {
            assert(b[b.len() - 1] == b.last());
        }
        let sa = split_on(a, d);
        let r0 = split_on(a + b0, d);
        assert(r0.len() == sa.len());
        assert(r0.last() == sa.last() + b0);
        assert(split_on(a + b, d) == r0.update(r0.len() - 1, r0.last().push(b.last())));
        assert(sa.last() + b0 + seq![b.last()] =~= sa.last() + b);
        assert(r0.last().push(b.last()) =~= sa.last() + b);
        assert(r0.update(r0.len() - 1, r0.last().push(b.last())) =~= sa.update(
            sa.len() - 1,
            sa.last() + b,
        ));
    }
}

/// No piece of a split holds the separator.
proof fn lemma_split_pieces_plain(s: Seq<char>, d: char, k: int)
    requires
        0 <= k < split_on(s, d).len(),
    ensures
        !split_on(s, d)[k].contains(d),
    decreases s.len(),
{
    if s.len() > 0 {
        let rest = split_on(s.drop_last(), d);
        crate::text::lemma_split_nonempty(s.drop_last(), d);
        if s.last() == d {
            if k < rest.len() {
                lemma_split_pieces_plain(s.drop_last(), d, k);
            }
        } else {
            lemma_split_pieces_plain(s.drop_last(), d, if k < rest.len() { k } else { rest.len() - 1 });
            if k == rest.len() - 1 {
                let piece = rest.last().push(s.last());
                assert forall|j: int| 0 <= j < piece.len() implies piece[j] != d by {
                    if j < rest.last().len() {
                        assert(rest.last()[j] == rest[rest.len() - 1][j]);
                    }
                }
            }
        }
    }
}

/// The lines of a text hold no line feed.
proof fn lemma_text_lines_plain(s: Seq<char>, k: int)
    requires
        0 <= k < text_lines(s).len(),
    ensures
        !text_lines(s)[k].contains('\n'),
{
    let parts = split_on(s, '\n');
    crate::text::lemma_split_nonempty(s, '\n');
    let ended = stripped(parts.drop_last());
    if k < parts.len() - 1 {
        lemma_stripped_index(parts.drop_last(), k);
        lemma_split_pieces_plain(s, '\n', k);
        assert(parts.drop_last()[k] == parts[k]);
        assert(text_lines(s)[k] == ended[k]);
        let l = parts[k];
        assert(!l.contains('\n'));
        if l.len() > 0 && l.last() == '\r' {
            assert forall|j: int| 0 <= j < l.drop_last().len() implies l.drop_last()[j] != '\n' by {
                assert(l.drop_last()[j] == l[j]);
            }
        }
        assert(ended[k] == strip_cr(l));
    } else {
        if parts.len() > 1 {
            lemma_stripped_index(parts.drop_last(), 0);
        }
        assert(ended.len() == parts.len() - 1);
        assert(text_lines(s)[k] == parts.last());
        lemma_split_pieces_plain(s, '\n', parts.len() - 1);
    }
}

/// The `k`-th stripped line is the `k`-th line stripped.
proof fn lemma_stripped_index(ls: Seq<Seq<char>>, k: int)
    requires
        0 <= k < ls.len(),
    ensures
        stripped(ls).len() == ls.len(),
        stripped(ls)[k] == strip_cr(ls[k]),
    decreases ls.len(),
{
    if k < ls.len() - 1 {
        lemma_stripped_index(ls.drop_last(), k);
    } else if ls.len() > 1 {
        lemma_stripped_index(ls.drop_last(), 0);
    } else {
        assert(stripped(ls.drop_last()) == Seq::<Seq<char>>::empty());
    }
}

/// Split at line feeds, the `data:` fields of lines free of line feeds
/// are those lines behind `data: `, then an empty piece.
proof fn lemma_data_fields_split(ls: Seq<Seq<char>>)
    requires
        forall|k: int| 0 <= k < ls.len() ==> !(#[trigger] ls[k]).contains('\n'),
    ensures
        split_on(data_fields(ls), '\n') == data_lines(ls).push(Seq::<char>::empty()),
    decreases ls.len(),
{
    reveal_strlit("data: ");
    reveal_strlit("\n");
    if ls.len() > 0 {
        let init = ls.drop_last();
        assert forall|k: int| 0 <= k < init.len() implies !(#[trigger] init[k]).contains('\n') by {
            assert(init[k] == ls[k]);
        }
        lemma_data_fields_split(init);
        let l = ls.last();
        assert(!l.contains('\n')) by {
            assert(ls[ls.len() - 1] == l);
        }
        let head = "data: "@ + l;
        assert(!head.contains('\n')) by {
            assert forall|j: int| 0 <= j < head.len() implies head[j] != '\n' by {
                if j >= 6 {
                    assert(head[j] == l[j - 6]);
                }
            }
        }
        let d0 = data_fields(init);
        lemma_split_append_plain(d0, head, '\n');
        assert(data_fields(ls) == d0 + head + seq!['\n']);
        assert((d0 + head + seq!['\n']).drop_last() == d0 + head);
        assert(split_on(d0 + head, '\n') =~= data_lines(init).push(head));
    }
}

/// Split at line feeds, the frame for `s` is each line of `s` behind
/// `data: `, then two empty pieces: no line of the payload can start a
/// field of its own, and the event ends with a blank line.
pub proof fn lemma_sse_frame_lines(s: Seq<char>)
    ensures
        split_on(sse_frame_of(s), '\n') == data_lines(text_lines(s)).push(Seq::<char>::empty()).push(
            Seq::<char>::empty(),
        ),
{
    reveal_strlit("\n");
    let ls = text_lines(s);
    assert forall|k: int| 0 <= k < ls.len() implies !(#[trigger] ls[k]).contains('\n') by {
        lemma_text_lines_plain(s, k);
    }
    lemma_data_fields_split(ls);
    let f = data_fields(ls);
    assert(sse_frame_of(s) == f + seq!['\n']);
    assert((f + seq!['\n']).drop_last() == f);
}

/// Appends `data: <line>\n` to `out`.
fn push_data_field(out: &mut Vec<char>, line: &[char])
    ensures
        final(out)@ == old(out)@ + "data: "@ + line@ + "\n"@,
{
    let head = chars_of("data: ");
    append_chars(out, head.as_slice());
    append_chars(out, line);
    out.push('\n');
    proof {
        reveal_strlit("data: ");
        reveal_strlit("\n");
    }
    assert(out@ =~= old(out)@ + "data: "@ + line@ + "\n"@);
}

/// The frame that sends `s` as one server-sent event: every line of `s`
/// behind `data: `, then a blank line, so that a line of `s` can never
/// start a field of its own.
pub fn sse_frame(s: &str) -> (r: String)
    ensures
        r@ == sse_frame_of(s@),
{
    let v = chars_of(s);
    let mut out: Vec<char> = Vec::new();
    let mut cur: Vec<char> = Vec::new();
    let mut i: usize = 0;
    while i < v.len()
        invariant
            0 <= i <= v@.len(),
            v@ == s@,
            out@ == data_fields(stripped(split_on(v@.take(i as int), '\n').drop_last())),
            cur@ == split_on(v@.take(i as int), '\n').last(),
        decreases v@.len() - i,
    {
        let ghost pre = v@.take(i as int);
        let ghost parts = split_on(pre, '\n');
        proof {
            crate::text::lemma_split_nonempty(pre, '\n');
        }
        assert(v@.take(i + 1).drop_last() == pre);
        if v[i] == '\n' {
            let n = cur.len();
            if n > 0 && cur[n - 1] == '\r' {
                let line = crate::text::sub_chars(cur.as_slice(), 0, n - 1);
                assert(line@ == strip_cr(cur@));
                push_data_field(&mut out, line.as_slice());
            } else {
                assert(cur@ == strip_cr(cur@));
                push_data_field(&mut out, cur.as_slice());
            }
            proof {
                let next = split_on(v@.take(i + 1), '\n');
                assert(next == parts.push(Seq::<char>::empty()));
                assert(next.drop_last() == parts);
                assert(parts == parts.drop_last().push(parts.last()));
                let sp = stripped(parts);
                assert(sp == stripped(parts.drop_last()).push(strip_cr(parts.last())));
                assert(sp.drop_last() == stripped(parts.drop_last()));
                assert(data_fields(sp) == data_fields(stripped(parts.drop_last())) + "data: "@
                    + strip_cr(parts.last()) + "\n"@);
                assert(stripped(next.drop_last()) == sp);
            }
            cur = Vec::new();
        } else {
            proof {
                let next = split_on(v@.take(i + 1), '\n');
                assert(next == parts.update(parts.len() - 1, parts.last().push(v@[i as int])));
                assert(next.drop_last() =~= parts.drop_last());
                assert(next.last() == parts.last().push(v@[i as int]));
            }
            cur.push(v[i]);
        }
        i = i + 1;
    }
    assert(v@.take(v@.len() as int) == v@);
    proof {
        crate::text::lemma_split_nonempty(v@, '\n');
    }
    let ghost parts = split_on(v@, '\n');
    let ghost ended = stripped(parts.drop_last());
    if cur.len() > 0 {
        push_data_field(&mut out, cur.as_slice());
        assert(ended.push(parts.last()).drop_last() == ended);
        assert(data_fields(ended.push(parts.last())) == data_fields(ended) + "data: "@
            + parts.last() + "\n"@);
    }
    assert(out@ == data_fields(text_lines(s@)));
    out.push('\n');
    proof {
        reveal_strlit("\n");
    }
    string_from_chars(out.as_slice())
}

// ---------------------------------------------------------------------------
// Dispatch
// ---------------------------------------------------------------------------

/// The longest request path, in bytes, that the server routes.
pub const MAX_PATH_LEN: usize = 8192usize;

/// The longest query string, in bytes, that the server routes.
pub const MAX_QUERY_LEN: usize = 4096usize;

/// What the server does with a request before any handler runs.
pub enum Dispatch<'a, H> {
    /// Answer `400` with this message, before routing and without CORS
    /// headers.
    TooLong(&'static str),
    /// Answer the CORS preflight.
    Preflight,
    /// Answer with this error status and message.
    Refuse(u16, &'static str),
    /// Run `handler` with the captured path parameters and the query
    /// parameters. With `head_only` set, a `HEAD` request is served by the
    /// `GET` handler and answered with the status and headers of its answer,
    /// unchanged, and no body.
    Call { handler: &'a H, params: PathParams, query: QueryParams, head_only: bool },
}

/// The length in bytes of an optional query string.
pub open spec fn query_bytes(query: Option<&str>) -> nat {
    match query {
        Some(q) => q.spec_bytes().len(),
        None => 0,
    }
}

/// The view of an optional query string.
pub open spec fn query_view(query: Option<&str>) -> Option<Seq<char>> {
    match query {
        Some(q) => Some(q@),
        None => None,
    }
}

/// The handler that serves `method` on `path`, with the captured
/// parameters, and whether it is the `GET` handler standing in for `HEAD`.
pub open spec fn served_by<H>(router: Router<H>, method: Method, path: Seq<char>) -> Option<
    (H, Map<Seq<char>, Seq<char>>, bool),
> {
    match router.route(method, path) {
        Some((h, ps)) => Some((h, ps, false)),
        None => if method.name() == "HEAD"@ {
            match router.route(Method::Get, path) {
                Some((h, ps)) => Some((h, ps, true)),
                None => None,
            }
        } else {
            None
        },
    }
}

/// Decides how to answer a request for `method`, `path` and `query`, given
/// whether CORS is configured and whether the request names an origin.
/// Over-long paths (more than 8192 bytes) and query strings (more than 4096
/// bytes) are refused first; then a preflight (`OPTIONS` with an origin,
/// CORS configured) is answered; then the route is matched, a `HEAD`
/// request falling back to the `GET` handler. A path that no route serves
/// is `404 not found`, or `405 method not allowed` when another method is
/// registered for it and the request is not `HEAD`.
pub fn dispatch<'a, H>(
    router: &'a Router<H>,
    method: &Method,
    path: &str,
    query: Option<&str>,
    cors: bool,
    has_origin: bool,
) -> (d: Dispatch<'a, H>)
    requires
        path.spec_bytes().len() <= usize::MAX,
        query_bytes(query) <= usize::MAX,
    ensures
        path.spec_bytes().len() > MAX_PATH_LEN ==> (d matches Dispatch::TooLong(m) && m@
            == "path too long"@),
        path.spec_bytes().len() <= MAX_PATH_LEN && query_bytes(query) > MAX_QUERY_LEN ==> (
        d matches Dispatch::TooLong(m) && m@ == "query string too long"@),
        path.spec_bytes().len() <= MAX_PATH_LEN && query_bytes(query) <= MAX_QUERY_LEN ==> (
        if cors && has_origin && method.name() == "OPTIONS"@ {
            d is Preflight
        } else {
            match served_by(*router, *method, path@) {
                Some((h, ps, head)) => d matches Dispatch::Call { handler, params, query: q, head_only }
                    && *handler == h && params.0@ == ps && q.0@ == query_map(query_view(query))
                    && head_only == head,
                None => d matches Dispatch::Refuse(status, msg) && if router.knows_path(path@)
                    && method.name() != "HEAD"@ {
                    status == 405 && msg@ == "method not allowed"@
                } else {
                    status == 404 && msg@ == "not found"@
                },
            }
        }),
{
    proof {
        reveal_strlit("path too long");
        reveal_strlit("query string too long");
        reveal_strlit("method not allowed");
        reveal_strlit("not found");
        reveal_strlit("OPTIONS");
        reveal_strlit("HEAD");
    }
    if path.len() > MAX_PATH_LEN {
        return Dispatch::TooLong("path too long");
    }
    let qlen: usize = match query {
        Some(q) => q.len(),
        None => 0,
    };
    if qlen > MAX_QUERY_LEN {
        return Dispatch::TooLong("query string too long");
    }
    if cors && has_origin && method.same(&Method::Options) {
        return Dispatch::Preflight;
    }
    let path_exists = router.has_path(path);
    match router.match_route(method, path) {
        Some((handler, params)) => {
            Dispatch::Call { handler, params, query: parse_query(query), head_only: false }
        },
        None => {
            if method.same(&Method::Head) {
                proof {
                    lemma_matched_path_is_known(*router, Method::Get, path@);
                }
                if path_exists {
                    match router.match_route(&Method::Get, path) {
                        Some((handler, params)) => Dispatch::Call {
                            handler,
                            params,
                            query: parse_query(query),
                            head_only: true,
                        },
                        None => Dispatch::Refuse(404, "not found"),
                    }
                } else {
                    Dispatch::Refuse(404, "not found")
                }
            } else if path_exists {
                Dispatch::Refuse(405, "method not allowed")
            } else {
                Dispatch::Refuse(404, "not found")
            }
        },
    }
}

// ---------------------------------------------------------------------------
// Route groups
// ---------------------------------------------------------------------------

/// `s` with trailing `/` removed.
pub open spec fn trim_trailing_slashes(s: Seq<char>) -> Seq<char>
    decreases s.len(),
{
    if s.len() > 0 && s.last() == '/' {
        trim_trailing_slashes(s.drop_last())
    } else {
        s
    }
}

/// The full path of a route registered as `path` in a group under
/// `prefix`: both stripped of their outer slashes and joined under `/`.
pub open spec fn group_path_of(prefix: Seq<char>, path: Seq<char>) -> Seq<char> {
    let p = trim_trailing_slashes(trim_leading_slashes(prefix));
    let rest = trim_leading_slashes(path);
    if p.len() == 0 {
        seq!['/'] + rest
    } else {
        seq!['/'] + p + seq!['/'] + rest
    }
}

/// The full path of the route `path` in the group `prefix`.
pub fn group_path(prefix: &str, path: &str) -> (r: String)
    ensures
        r@ == group_path_of(prefix@, path@),
{
    let pv = chars_of(prefix);
    let mut a: usize = 0;
    while a < pv.len() && pv[a] == '/'
        invariant
            0 <= a <= pv@.len(),
            trim_leading_slashes(pv@) == trim_leading_slashes(pv@.skip(a as int)),
        decreases pv@.len() - a,
    {
        assert(pv@.skip(a as int).drop_first() == pv@.skip(a + 1));
        a = a + 1;
    }
    assert(trim_leading_slashes(pv@.skip(a as int)) == pv@.skip(a as int));
    let mut b: usize = pv.len();
    while b > a && pv[b - 1] == '/'
        invariant
            0 <= a <= b <= pv@.len(),
            trim_trailing_slashes(pv@.skip(a as int)) == trim_trailing_slashes(
                pv@.subrange(a as int, b as int),
            ),
        decreases b - a,
    {
        assert(pv@.subrange(a as int, b as int).drop_last() == pv@.subrange(a as int, b - 1));
        b = b - 1;
    }
    assert(pv@.skip(a as int) == pv@.subrange(a as int, pv@.len() as int));
    let p = crate::text::sub_chars(pv.as_slice(), a, b);
    let rv = chars_of(path);
    let mut c: usize = 0;
    while c < rv.len() && rv[c] == '/'
        invariant
            0 <= c <= rv@.len(),
            trim_leading_slashes(rv@) == trim_leading_slashes(rv@.skip(c as int)),
        decreases rv@.len() - c,
    {
        assert(rv@.skip(c as int).drop_first() == rv@.skip(c + 1));
        c = c + 1;
    }
    let rest = crate::text::sub_chars(rv.as_slice(), c, rv.len());
    assert(rest@ == rv@.skip(c as int));
    let mut out: Vec<char> = Vec::new();
    out.push('/');
    if p.len() > 0 {
        append_chars(&mut out, p.as_slice());
        out.push('/');
    }
    append_chars(&mut out, rest.as_slice());
    string_from_chars(out.as_slice())
}

// ---------------------------------------------------------------------------
// Request bodies
// ---------------------------------------------------------------------------

/// Why a JSON request body could not be used.
#[derive(Clone, Copy, Debug)]
pub enum BodyFailure {
    /// The body is larger than the limit.
    TooLarge,
    /// The body could not be read.
    Unreadable,
    /// The body is not JSON of the expected shape.
    InvalidJson,
}

impl BodyFailure {
    /// The error a handler answers with.
    pub fn to_error(&self) -> (e: ServeError)
        ensures
            match self {
                BodyFailure::TooLarge => e.code == 413 && e.message@ == "request body too large"@,
                BodyFailure::Unreadable => e.code == 400 && e.message@
                    == "failed to read request body"@,
                BodyFailure::InvalidJson => e.code == 400 && e.message@ == "invalid json body"@,
            },
    {
        match self {
            BodyFailure::TooLarge => ServeError::new(413, "request body too large"),
            BodyFailure::Unreadable => ServeError::new(400, "failed to read request body"),
            BodyFailure::InvalidJson => ServeError::new(400, "invalid json body"),
        }
    }
}

/// The length a request declares in `Content-Length`, when the header
/// reads as a decimal number.
pub open spec fn declared_length(hv: Map<Seq<char>, Seq<Seq<u8>>>) -> Option<u64> {
    match first_value(hv, "content-length"@) {
        Some(v) => if is_visible_value(v) {
            parse_u64_spec(ascii_chars(v))
        } else {
            None
        },
        None => None,
    }
}

/// The body limit in force: the one the router set, else the default.
pub open spec fn limit_of(configured: Option<MaxBodySize>) -> usize {
    match configured {
        Some(m) => m.0,
        None => DEFAULT_MAX_BODY_SIZE,
    }
}

/// The limit for a request body, or the refusal of a body that declares
/// itself larger than the limit before any byte of it is read.
pub fn body_limit(headers: &HeaderMap, configured: Option<MaxBodySize>) -> (r: Result<
    usize,
    ServeError,
>)
    ensures
        match declared_length(header_map_values(*headers)) {
            Some(n) => if n <= usize::MAX && n > limit_of(configured) {
                r matches Err(e) && e.code == 413 && e.message@ == "request body too large"@
            } else {
                r == Ok::<usize, ServeError>(limit_of(configured))
            },
            None => r == Ok::<usize, ServeError>(limit_of(configured)),
        },
{
    proof {
        reveal_strlit("content-length");
    }
    let max = match configured {
        Some(m) => m.0,
        None => DEFAULT_MAX_BODY_SIZE,
    };
    match header_text(headers, "content-length") {
        Some(t) => {
            let v = chars_of(t.as_str());
            match parse_u64(v.as_slice()) {
                Some(n) => {
                    if n <= usize::MAX as u64 && n > max as u64 {
                        Err(BodyFailure::TooLarge.to_error())
                    } else {
                        Ok(max)
                    }
                },
                None => Ok(max),
            }
        },
        None => Ok(max),
    }
}

} // verus!
