//! The answer to a request for a static file, decided from the request's
//! headers and the file's metadata: status, headers and how the body is
//! produced.
use vstd::prelude::*;
use hyper::header::HeaderMap;
use crate::text::{
    chars_of, string_from_chars, append_chars, decimal, decimal_chars, starts_with,
};
use crate::headers::header_map_values;
use crate::cors::{HeaderPair, pair_views};
use crate::conditional::{
    RangeOutcome, range_outcome, not_modified, etag_of, etag_for, parse_range, is_not_modified,
    http_date_text, fmt_http_date_secs, HTTP_DATE_LIMIT,
};
use crate::files::StaticError;
use crate::serve::{error_body, error_body_of};

verus! {

broadcast use vstd::seq_lib::group_seq_properties;

/// How the body of a static-file answer is produced.
#[derive(Clone, Copy, Debug)]
pub enum BodyPlan {
    /// No body.
    Empty,
    /// `length` bytes of the file from byte `start` on, streamed.
    Range { start: u64, length: u64 },
    /// The whole file, streamed.
    Stream,
    /// The whole file read into memory and passed through the transform,
    /// if one is set; with `inject` set, the live-reload script is then
    /// inserted into the page.
    Buffered { inject: bool },
}

/// The status, headers and body of a static-file answer.
#[derive(Debug)]
pub struct FilePlan {
    pub status: u16,
    pub headers: Vec<(String, String)>,
    pub body: BodyPlan,
}

/// Whether the file must be read into memory: a transform is set, or live
/// reload is on and the file is an HTML page.
pub open spec fn needs_buffer(mime: Seq<char>, transform: bool, live_reload: bool) -> bool {
    transform || (live_reload && starts_with(mime, "text/html"@))
}

/// The validator headers of a file with modification time `mtime` and
/// length `len`.
pub open spec fn cache_pairs(mtime: u64, len: u64) -> Seq<HeaderPair> {
    seq![
        ("etag"@, etag_of(mtime, len)),
        ("last-modified"@, http_date_text(mtime)),
        ("cache-control"@, "no-cache"@),
    ]
}

/// The `200` answer that sends the whole file, with the validator headers
/// `cache` when the metadata was read.
pub open spec fn whole_file_plan(
    mime: Seq<char>,
    cache: Seq<HeaderPair>,
    buffer: bool,
    live_reload: bool,
) -> (u16, Seq<HeaderPair>, BodyPlan) {
    if buffer && live_reload {
        (200, seq![("content-type"@, mime)], BodyPlan::Buffered { inject: starts_with(mime, "text/html"@) })
    } else if buffer {
        (
            200,
            seq![("content-type"@, mime), ("accept-ranges"@, "bytes"@)] + cache,
            BodyPlan::Buffered { inject: false },
        )
    } else {
        (200, seq![("content-type"@, mime), ("accept-ranges"@, "bytes"@)] + cache, BodyPlan::Stream)
    }
}

/// The answer to a request with headers `hv` for a file of type `mime`
/// whose metadata, when it could be read, is `(mtime, len)`:
/// `304` when the validators match, `416` for an unsatisfiable range,
/// `206` for a satisfiable one (unless the body must be buffered), and the
/// whole file otherwise.
pub open spec fn file_plan_of(
    hv: Map<Seq<char>, Seq<Seq<u8>>>,
    mime: Seq<char>,
    meta: Option<(u64, u64)>,
    transform: bool,
    live_reload: bool,
) -> (u16, Seq<HeaderPair>, BodyPlan) {
    let buffer = needs_buffer(mime, transform, live_reload);
    match meta {
        Some((mtime, len)) => {
            let etag = etag_of(mtime, len);
            if not_modified(hv, etag, mtime) {
                (304, seq![("etag"@, etag), ("cache-control"@, "no-cache"@)], BodyPlan::Empty)
            } else {
                match range_outcome(hv, len) {
                    RangeOutcome::Unsatisfiable => (
                        416,
                        seq![("content-range"@, "bytes */"@ + decimal(len as nat))],
                        BodyPlan::Empty,
                    ),
                    RangeOutcome::Satisfiable(s, e) => if !buffer {
                        (
                            206,
                            seq![
                                ("content-type"@, mime),
                                (
                                    "content-range"@,
                                    "bytes "@ + decimal(s as nat) + "-"@ + decimal(e as nat) + "/"@
                                        + decimal(len as nat),
                                ),
                                ("content-length"@, decimal((e - s + 1) as nat)),
                                ("accept-ranges"@, "bytes"@),
                            ] + cache_pairs(mtime, len),
                            BodyPlan::Range { start: s, length: (e - s + 1) as u64 },
                        )
                    } else {
                        whole_file_plan(mime, cache_pairs(mtime, len), buffer, live_reload)
                    },
                    RangeOutcome::Whole => whole_file_plan(
                        mime,
                        cache_pairs(mtime, len),
                        buffer,
                        live_reload,
                    ),
                }
            }
        },
        None => whole_file_plan(mime, Seq::empty(), buffer, live_reload),
    }
}

/// A header pair from a name and a value.
fn pair(name: &str, value: &[char]) -> (r: (String, String))
    ensures
        r.0@ == name@,
        r.1@ == value@,
{
    (name.to_owned(), string_from_chars(value))
}

/// `text` followed by the decimal digits of `n`.
fn with_decimal(text: &str, n: u64) -> (r: Vec<char>)
    ensures
        r@ == text@ + decimal(n as nat),
{
    let mut out = chars_of(text);
    let d = decimal_chars(n);
    append_chars(&mut out, d.as_slice());
    out
}

/// Whether `mime` names an HTML page.
fn is_html(mime: &str) -> (r: bool)
    ensures
        r == starts_with(mime@, "text/html"@),
{
    proof {
        reveal_strlit("text/html");
    }
    let m = chars_of(mime);
    let h = chars_of("text/html");
    if m.len() < h.len() {
        return false;
    }
    let mut i: usize = 0;
    while i < h.len()
        invariant
            0 <= i <= h@.len() <= m@.len(),
            m@ == mime@,
            h@ == "text/html"@,
            forall|j: int| 0 <= j < i ==> m@[j] == h@[j],
        decreases h@.len() - i,
    {
        if m[i] != h[i] {
            assert(m@.take(h@.len() as int)[i as int] != h@[i as int]);
            return false;
        }
        i = i + 1;
    }
    assert(m@.take(h@.len() as int) =~= h@);
    true
}

/// Appends the validator headers of a file to `headers`.
fn push_cache_pairs(headers: &mut Vec<(String, String)>, mtime: u64, len: u64)
    requires
        mtime < HTTP_DATE_LIMIT,
    ensures
        pair_views(final(headers)@) == pair_views(old(headers)@) + cache_pairs(mtime, len),
{
    let etag = etag_for(mtime, len);
    let lm = fmt_http_date_secs(mtime);
    let ghost before = pair_views(headers@);
    headers.push(("etag".to_owned(), etag));
    headers.push(("last-modified".to_owned(), lm));
    headers.push(("cache-control".to_owned(), "no-cache".to_owned()));
    proof {
        reveal_strlit("etag");
        reveal_strlit("last-modified");
        reveal_strlit("cache-control");
        reveal_strlit("no-cache");
    }
    assert(pair_views(headers@) =~= before + cache_pairs(mtime, len));
}

/// The `200` answer for the whole file.
fn whole_file(
    mime: &str,
    meta: Option<(u64, u64)>,
    buffer: bool,
    live_reload: bool,
) -> (p: FilePlan)
    requires
        meta matches Some((m, _)) ==> m < HTTP_DATE_LIMIT,
    ensures
        (p.status, pair_views(p.headers@), p.body) == whole_file_plan(
            mime@,
            match meta {
                Some((m, l)) => cache_pairs(m, l),
                None => Seq::empty(),
            },
            buffer,
            live_reload,
        ),
{
    proof {
        reveal_strlit("content-type");
        reveal_strlit("accept-ranges");
        reveal_strlit("bytes");
    }
    let mut headers: Vec<(String, String)> = Vec::new();
    headers.push(("content-type".to_owned(), mime.to_owned()));
    if buffer && live_reload {
        let inject = is_html(mime);
        assert(pair_views(headers@) =~= seq![("content-type"@, mime@)]);
        return FilePlan { status: 200, headers, body: BodyPlan::Buffered { inject } };
    }
    headers.push(("accept-ranges".to_owned(), "bytes".to_owned()));
    assert(pair_views(headers@) =~= seq![("content-type"@, mime@), ("accept-ranges"@, "bytes"@)]);
    match meta {
        Some((mtime, len)) => {
            push_cache_pairs(&mut headers, mtime, len);
        },
        None => {
            assert(pair_views(headers@) =~= pair_views(headers@) + Seq::<HeaderPair>::empty());
        },
    }
    if buffer {
        FilePlan { status: 200, headers, body: BodyPlan::Buffered { inject: false } }
    } else {
        FilePlan { status: 200, headers, body: BodyPlan::Stream }
    }
}

/// Decides the answer to a request with `headers` for a file of type
/// `mime`. `meta` is the file's modification time in whole seconds since
/// the Unix epoch and its length, when they could be read; `transform`
/// says a transform is set and `live_reload` that pages get the live-reload
/// script.
#[verifier::rlimit(30)]
pub fn plan_file(
    headers: &HeaderMap,
    mime: &str,
    meta: Option<(u64, u64)>,
    transform: bool,
    live_reload: bool,
) -> (p: FilePlan)
    requires
        meta matches Some((m, _)) ==> m < HTTP_DATE_LIMIT,
    ensures
        (p.status, pair_views(p.headers@), p.body) == file_plan_of(
            header_map_values(*headers),
            mime@,
            meta,
            transform,
            live_reload,
        ),
{
    let buffer = transform || (live_reload && is_html(mime));
    match meta {
        None => whole_file(mime, None, buffer, live_reload),
        Some((mtime, len)) => {
            let etag = etag_for(mtime, len);
            if is_not_modified(headers, etag.as_str(), mtime) {
                let mut hs: Vec<(String, String)> = Vec::new();
                hs.push(("etag".to_owned(), etag));
                hs.push(("cache-control".to_owned(), "no-cache".to_owned()));
                proof {
                    reveal_strlit("etag");
                    reveal_strlit("cache-control");
                    reveal_strlit("no-cache");
                }
                assert(pair_views(hs@) =~= seq![
                    ("etag"@, etag_of(mtime, len)),
                    ("cache-control"@, "no-cache"@),
                ]);
                return FilePlan { status: 304, headers: hs, body: BodyPlan::Empty };
            }
            match parse_range(headers, len) {
                RangeOutcome::Unsatisfiable => {
                    let v = with_decimal("bytes */", len);
                    let mut hs: Vec<(String, String)> = Vec::new();
                    hs.push(pair("content-range", v.as_slice()));
                    proof {
                        reveal_strlit("content-range");
                        reveal_strlit("bytes */");
                    }
                    assert(pair_views(hs@) =~= seq![
                        ("content-range"@, "bytes */"@ + decimal(len as nat)),
                    ]);
                    FilePlan { status: 416, headers: hs, body: BodyPlan::Empty }
                },
                RangeOutcome::Satisfiable(s, e) => {
                    if buffer {
                        whole_file(mime, Some((mtime, len)), buffer, live_reload)
                    } else {
                        let length = e - s + 1;
                        let mut range = with_decimal("bytes ", s);
                        let dash = chars_of("-");
                        append_chars(&mut range, dash.as_slice());
                        let ev = decimal_chars(e);
                        append_chars(&mut range, ev.as_slice());
                        let slash = chars_of("/");
                        append_chars(&mut range, slash.as_slice());
                        let lv = decimal_chars(len);
                        append_chars(&mut range, lv.as_slice());
                        let clen = decimal_chars(length);
                        let mut hs: Vec<(String, String)> = Vec::new();
                        hs.push(("content-type".to_owned(), mime.to_owned()));
                        hs.push(pair("content-range", range.as_slice()));
                        hs.push(pair("content-length", clen.as_slice()));
                        hs.push(("accept-ranges".to_owned(), "bytes".to_owned()));
                        proof {
                            reveal_strlit("content-type");
                            reveal_strlit("content-range");
                            reveal_strlit("content-length");
                            reveal_strlit("accept-ranges");
                            reveal_strlit("bytes");
                            reveal_strlit("bytes ");
                            reveal_strlit("-");
                            reveal_strlit("/");
                        }
                        assert(pair_views(hs@) =~= seq![
                            ("content-type"@, mime@),
                            (
                                "content-range"@,
                                "bytes "@ + decimal(s as nat) + "-"@ + decimal(e as nat) + "/"@
                                    + decimal(len as nat),
                            ),
                            ("content-length"@, decimal((e - s + 1) as nat)),
                            ("accept-ranges"@, "bytes"@),
                        ]);
                        push_cache_pairs(&mut hs, mtime, len);
                        FilePlan {
                            status: 206,
                            headers: hs,
                            body: BodyPlan::Range { start: s, length },
                        }
                    }
                },
                RangeOutcome::Whole => whole_file(mime, Some((mtime, len)), buffer, live_reload),
            }
        },
    }
}

/// The content type of the answer to a request the resolver refused.
pub const ERROR_CONTENT_TYPE: &'static str = "application/json";

/// The status and JSON body of the answer to a request the resolver
/// refused: `404`, `403` or `500`, with a message that names no path.
pub fn error_answer(e: &StaticError) -> (r: (u16, String))
    ensures
        r.0 == match e {
            StaticError::NotFound(_) => 404u16,
            StaticError::Traversal(_) => 403u16,
            StaticError::Io(_) => 500u16,
        },
        r.1@ == error_body_of(
            match e {
                StaticError::NotFound(_) => "not found"@,
                StaticError::Traversal(_) => "path traversal denied"@,
                StaticError::Io(_) => "internal server error"@,
            },
        ),
{
    let msg = e.user_message();
    (e.status_code(), error_body(msg.as_str()))
}

/// A partial answer sends a non-empty run of bytes that lies inside the
/// file: its start plus its length never pass the file's end.
pub proof fn lemma_partial_answer_within_file(
    hv: Map<Seq<char>, Seq<Seq<u8>>>,
    mime: Seq<char>,
    meta: Option<(u64, u64)>,
    transform: bool,
    live_reload: bool,
)
    ensures
        file_plan_of(hv, mime, meta, transform, live_reload).2 matches BodyPlan::Range {
            start,
            length,
        } ==> meta matches Some((_, len)) && 1 <= length && start + length <= len && file_plan_of(
            hv,
            mime,
            meta,
            transform,
            live_reload,
        ).0 == 206,
{
    match meta {
        Some((mtime, len)) => {
            match range_outcome(hv, len) {
                RangeOutcome::Satisfiable(s, e) => {
                    lemma_range_outcome_bounds(hv, len);
                },
                _ => {},
            }
        },
        None => {},
    }
}

/// A satisfiable range lies inside the file.
proof fn lemma_range_outcome_bounds(hv: Map<Seq<char>, Seq<Seq<u8>>>, len: u64)
    ensures
        range_outcome(hv, len) matches RangeOutcome::Satisfiable(s, e) ==> s <= e < len,
{
}

/// A `304 Not Modified` answer has no body and carries the file's entity
/// tag.
pub proof fn lemma_not_modified_answer(
    hv: Map<Seq<char>, Seq<Seq<u8>>>,
    mime: Seq<char>,
    mtime: u64,
    len: u64,
    transform: bool,
    live_reload: bool,
)
    requires
        not_modified(hv, etag_of(mtime, len), mtime),
    ensures
        file_plan_of(hv, mime, Some((mtime, len)), transform, live_reload).0 == 304,
        file_plan_of(hv, mime, Some((mtime, len)), transform, live_reload).2 is Empty,
        file_plan_of(hv, mime, Some((mtime, len)), transform, live_reload).1.contains(
            ("etag"@, etag_of(mtime, len)),
        ),
{
    assert(file_plan_of(hv, mime, Some((mtime, len)), transform, live_reload).1[0] == (
    "etag"@, etag_of(mtime, len)));
}

} // verus!
