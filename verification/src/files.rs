//! Static files: errors, percent-decoding of request paths, resolution of
//! a request path under a root directory, content types, and the kind of
//! a changed file.
use vstd::prelude::*;
use std::path::Path;
use crate::text::{chars_of, string_from_chars, sub_chars, append_chars, occurs_at, contains_seq};

verus! {

broadcast use vstd::seq_lib::group_seq_properties;

#[verifier::external_type_specification]
#[verifier::external_body]
pub struct ExIoError(std::io::Error);

#[verifier::external_type_specification]
#[verifier::external_body]
pub struct ExPath(std::path::Path);

#[verifier::external_type_specification]
#[verifier::external_body]
pub struct ExPathBuf(std::path::PathBuf);

/// Why a static file could not be served.
#[derive(Debug)]
#[non_exhaustive]
pub enum StaticError {
    NotFound(String),
    Traversal(String),
    Io(std::io::Error),
}

/// The text of an I/O error (`Display`).
#[verifier::external_body]
fn io_error_text(e: &std::io::Error) -> (s: String) {
    e.to_string()
}

impl StaticError {
    /// A message for clients that names no internal path or OS detail.
    pub fn user_message(&self) -> (s: String)
        ensures
            s@ == match self {
                StaticError::NotFound(_) => "not found"@,
                StaticError::Traversal(_) => "path traversal denied"@,
                StaticError::Io(_) => "internal server error"@,
            },
    {
        match self {
            StaticError::NotFound(_) => "not found".to_owned(),
            StaticError::Traversal(_) => "path traversal denied".to_owned(),
            StaticError::Io(_) => "internal server error".to_owned(),
        }
    }

    /// The HTTP status of the error.
    pub fn status_code(&self) -> (code: u16)
        ensures
            code == match self {
                StaticError::NotFound(_) => 404u16,
                StaticError::Traversal(_) => 403u16,
                StaticError::Io(_) => 500u16,
            },
    {
        match self {
            StaticError::NotFound(_) => 404,
            StaticError::Traversal(_) => 403,
            StaticError::Io(_) => 500,
        }
    }

    /// The error as text: `not found: <path>`, `path traversal denied:
    /// <path>` or `io error: <cause>`.
    pub fn to_string(&self) -> (s: String)
        ensures
            match self {
                StaticError::NotFound(p) => s@ == "not found: "@ + p@,
                StaticError::Traversal(p) => s@ == "path traversal denied: "@ + p@,
                StaticError::Io(_) => exists|cause: Seq<char>| s@ == "io error: "@ + cause,
            },
    {
        let (prefix, rest) = match self {
            StaticError::NotFound(p) => ("not found: ", p.clone()),
            StaticError::Traversal(p) => ("path traversal denied: ", p.clone()),
            StaticError::Io(e) => ("io error: ", io_error_text(e)),
        };
        let mut out = chars_of(prefix);
        let r = chars_of(rest.as_str());
        append_chars(&mut out, r.as_slice());
        string_from_chars(out.as_slice())
    }
}

// ---------------------------------------------------------------------------
// Percent-decoding
// ---------------------------------------------------------------------------

/// Value of a hexadecimal digit.
pub open spec fn hex_digit_value(c: char) -> Option<nat> {
    if '0' <= c <= '9' {
        Some((c as nat - '0' as nat) as nat)
    } else if 'a' <= c <= 'f' {
        Some((c as nat - 'a' as nat + 10) as nat)
    } else if 'A' <= c <= 'F' {
        Some((c as nat - 'A' as nat + 10) as nat)
    } else {
        None
    }
}

/// `u8::from_str_radix(h, 16)` for a string of at most two chars: an
/// optional `+`, then one or more hexadecimal digits.
pub open spec fn hex_byte(h: Seq<char>) -> Option<u8> {
    let d = if h.len() > 0 && h[0] == '+' {
        h.drop_first()
    } else {
        h
    };
    if d.len() == 1 {
        match hex_digit_value(d[0]) {
            Some(a) => Some(a as u8),
            None => None,
        }
    } else if d.len() == 2 {
        match (hex_digit_value(d[0]), hex_digit_value(d[1])) {
            (Some(a), Some(b)) => Some((a * 16 + b) as u8),
            _ => None,
        }
    } else {
        None
    }
}

/// Percent-decoding as the file server does it: `%` and the next (at
/// most) two chars become the byte they spell, taken as a char; when they
/// spell no byte they are kept as they are.
pub open spec fn percent_decoded(s: Seq<char>) -> Seq<char>
    decreases s.len(),
{
    if s.len() == 0 {
        Seq::<char>::empty()
    } else if s[0] == '%' {
        let end = if s.len() >= 3 {
            3int
        } else {
            s.len() as int
        };
        let h = s.subrange(1, end);
        match hex_byte(h) {
            Some(b) => seq![b as char] + percent_decoded(s.skip(end)),
            None => seq!['%'] + h + percent_decoded(s.skip(end)),
        }
    } else {
        seq![s[0]] + percent_decoded(s.drop_first())
    }
}

fn hex_value(c: char) -> (r: Option<u8>)
    ensures
        match hex_digit_value(c) {
            Some(v) => r == Some(v as u8) && v < 16,
            None => r is None,
        },
{
    if '0' <= c && c <= '9' {
        Some(((c as u32) - 48) as u8)
    } else if 'a' <= c && c <= 'f' {
        Some(((c as u32) - 87) as u8)
    } else if 'A' <= c && c <= 'F' {
        Some(((c as u32) - 55) as u8)
    } else {
        None
    }
}

fn parse_hex_byte(h: &[char]) -> (r: Option<u8>)
    requires
        h@.len() <= 2,
    ensures
        r == hex_byte(h@),
{
    let start: usize = if h.len() > 0 && h[0] == '+' { 1 } else { 0 };
    let n = h.len() - start;
    assert(start == 1 ==> h@.drop_first() == h@.subrange(1, h@.len() as int));
    if n == 1 {
        match hex_value(h[start]) {
            Some(a) => Some(a),
            None => None,
        }
    } else if n == 2 {
        match (hex_value(h[0]), hex_value(h[1])) {
            (Some(a), Some(b)) => Some(a * 16 + b),
            _ => None,
        }
    } else {
        None
    }
}

/// Decodes `%XX` sequences of a request path, each to the char with that
/// byte's value.
#[verifier::rlimit(30)]
pub fn percent_decode(s: &str) -> (r: String)
    ensures
        r@ == percent_decoded(s@),
{
    let v = chars_of(s);
    let n = v.len();
    let mut out: Vec<char> = Vec::new();
    let mut i: usize = 0;
    while i < n
        invariant
            0 <= i <= n == v@.len(),
            v@ == s@,
            out@ + percent_decoded(v@.skip(i as int)) == percent_decoded(v@),
        decreases n - i,
    {
        let ghost rest = v@.skip(i as int);
        if v[i] == '%' {
            let end = if n - i >= 3 { i + 3 } else { n };
            let h = sub_chars(v.as_slice(), i + 1, end);
            assert(h@ == rest.subrange(1, (end - i) as int));
            assert(rest.skip((end - i) as int) == v@.skip(end as int));
            match parse_hex_byte(h.as_slice()) {
                Some(b) => {
                    out.push(b as char);
                    assert(out@ + percent_decoded(v@.skip(end as int)) =~= percent_decoded(v@));
                },
                None => {
                    let ghost before = out@;
                    out.push('%');
                    append_chars(&mut out, h.as_slice());
                    assert(out@ == before + (seq!['%'] + h@));
                    assert(out@ + percent_decoded(v@.skip(end as int)) =~= percent_decoded(v@));
                },
            }
            i = end;
        } else {
            assert(rest.drop_first() == v@.skip(i + 1));
            out.push(v[i]);
            assert(out@ + percent_decoded(v@.skip(i + 1)) =~= percent_decoded(v@));
            i = i + 1;
        }
    }
    assert(v@.skip(n as int) =~= Seq::<char>::empty());
    string_from_chars(out.as_slice())
}

// ---------------------------------------------------------------------------
// Resolving request paths
// ---------------------------------------------------------------------------

/// `s` with leading `/` removed.
pub open spec fn trim_leading_slashes(s: Seq<char>) -> Seq<char>
    decreases s.len(),
{
    if s.len() > 0 && s[0] == '/' {
        trim_leading_slashes(s.drop_first())
    } else {
        s
    }
}

/// A request path the resolver rejects before touching the file system: it
/// holds a NUL char, or its percent-decoded form holds `..`.
pub open spec fn is_traversal_attempt(path: Seq<char>) -> bool {
    path.contains('\0') || contains_seq(percent_decoded(path), seq!['.', '.'])
}

fn contains_dotdot(v: &[char]) -> (r: bool)
    ensures
        r == contains_seq(v@, seq!['.', '.']),
{
    let ghost dd = seq!['.', '.'];
    assert(dd.len() == 2 && dd[0] == '.' && dd[1] == '.');
    let mut i: usize = 0;
    while i < v.len()
        invariant
            0 <= i <= v@.len(),
            dd == seq!['.', '.'],
            dd.len() == 2 && dd[0] == '.' && dd[1] == '.',
            forall|j: int| 0 <= j < i ==> !occurs_at(v@, dd, j),
        decreases v@.len() - i,
    {
        if i + 1 < v.len() && v[i] == '.' && v[i + 1] == '.' {
            assert(v@.subrange(i as int, i + 2)[0] == '.');
            assert(v@.subrange(i as int, i + 2)[1] == '.');
            assert(v@.subrange(i as int, i + 2) =~= dd);
            assert(occurs_at(v@, dd, i as int));
            return true;
        }
        if i + 1 < v.len() {
            assert(v@.subrange(i as int, i + 2)[0] == v@[i as int]);
            assert(v@.subrange(i as int, i + 2)[1] == v@[i + 1]);
        }
        i = i + 1;
    }
    false
}

/// The path relative to the root that a request path names: rejected as a
/// traversal attempt, or percent-decoded with leading slashes removed.
pub fn relative_request_path(request_path: &str) -> (r: Result<String, StaticError>)
    ensures
        is_traversal_attempt(request_path@) ==> (r matches Err(StaticError::Traversal(p)) && p@
            == request_path@),
        !is_traversal_attempt(request_path@) ==> (r matches Ok(rel) && rel@ == trim_leading_slashes(
            percent_decoded(request_path@),
        )),
{
    let v = chars_of(request_path);
    let mut i: usize = 0;
    while i < v.len()
        invariant
            0 <= i <= v@.len(),
            v@ == request_path@,
            forall|j: int| 0 <= j < i ==> v@[j] != '\0',
        decreases v@.len() - i,
    {
        if v[i] == '\0' {
            assert(request_path@.contains('\0'));
            return Err(StaticError::Traversal(request_path.to_owned()));
        }
        i = i + 1;
    }
    let decoded = percent_decode(request_path);
    let d = chars_of(decoded.as_str());
    if contains_dotdot(d.as_slice()) {
        return Err(StaticError::Traversal(request_path.to_owned()));
    }
    let mut a: usize = 0;
    while a < d.len() && d[a] == '/'
        invariant
            0 <= a <= d@.len(),
            trim_leading_slashes(d@) == trim_leading_slashes(d@.skip(a as int)),
        decreases d@.len() - a,
    {
        assert(d@.skip(a as int).drop_first() == d@.skip(a + 1));
        a = a + 1;
    }
    let rel = sub_chars(d.as_slice(), a, d.len());
    assert(rel@ == d@.skip(a as int));
    Ok(string_from_chars(rel.as_slice()))
}

/// `Path::new`: the path written `s`.
#[verifier::external_body]
fn path_of(s: &str) -> (r: &Path) {
    Path::new(s)
}

/// `Path::canonicalize`: the absolute path with links resolved, if it
/// exists, as text; `None` when that path is not UTF-8. It depends on the
/// disk, so nothing is said of it.
#[verifier::external_body]
fn canonicalize(p: &Path) -> (r: Result<Option<String>, std::io::Error>) {
    match p.canonicalize() {
        Ok(c) => Ok(c.into_os_string().into_string().ok()),
        Err(e) => Err(e),
    }
}

/// What `Path::join` gives for the paths written `base` and `rel`, as text.
pub uninterp spec fn path_join_text(base: Seq<char>, rel: Seq<char>) -> Seq<char>;

/// `Path::join` of the paths written `base` and `rel`. Joining two UTF-8
/// paths gives a UTF-8 path, handed back whole.
#[verifier::external_body]
fn join_path(base: &str, rel: &str) -> (r: String)
    ensures
        r@ == path_join_text(base@, rel@),
{
    match Path::new(base).join(rel).into_os_string().into_string() {
        Ok(s) => s,
        Err(_) => String::new(),
    }
}

/// What `Path::starts_with` answers for the paths written `p` and `base`:
/// whether `base` is a prefix of `p`, whole component by whole component.
pub uninterp spec fn path_text_starts_with(p: Seq<char>, base: Seq<char>) -> bool;

/// `Path::starts_with` of the paths written `p` and `base`.
#[verifier::external_body]
fn path_starts_with(p: &str, base: &str) -> (r: bool)
    ensures
        r == path_text_starts_with(p@, base@),
{
    Path::new(p).starts_with(base)
}

/// `Path::is_dir`: whether `p` names a directory on disk.
#[verifier::external_body]
fn path_is_dir(p: &Path) -> (r: bool) {
    p.is_dir()
}

/// A file that the resolver found, with the paths it was decided on, as
/// text.
#[derive(Debug)]
pub struct Resolved {
    /// The canonical root.
    pub root: String,
    /// The canonical root joined with the request's relative path.
    pub joined: String,
    /// The canonical form of `joined`.
    pub canonical: String,
    /// The file to serve: `canonical`, or for a directory its `index.html`.
    pub file: String,
    /// The canonical form of `file`.
    pub file_canonical: String,
}

/// What the resolver answers once the file system has been asked about a
/// request path that passed the textual checks.
#[derive(Clone, Copy, Debug, PartialEq, Eq)]
pub enum Resolution {
    /// Serve the canonical path itself.
    File,
    /// Serve the directory's `index.html`.
    Index,
    /// Nothing to serve: `404`.
    Missing,
    /// The canonical path leaves the root: `403`.
    Outside,
}

/// The decision that [`resolution`] makes.
pub open spec fn resolution_of(
    found: bool,
    under_root: bool,
    is_dir: bool,
    index_found: bool,
    index_under_root: bool,
) -> Resolution {
    if !found {
        Resolution::Missing
    } else if !under_root {
        Resolution::Outside
    } else if !is_dir {
        Resolution::File
    } else if !index_found {
        Resolution::Missing
    } else if !index_under_root {
        Resolution::Outside
    } else {
        Resolution::Index
    }
}

/// `r` is what the resolver answers for the decision `d` on the request
/// path `req`: the canonical file for `File`, the directory's index for
/// `Index`, `NotFound(req)` for `Missing` and `Traversal(req)` for
/// `Outside`.
pub open spec fn is_outcome(
    r: Result<Resolved, StaticError>,
    d: Resolution,
    req: Seq<char>,
    file: Resolved,
    index: Resolved,
) -> bool {
    match d {
        Resolution::File => r == Ok::<Resolved, StaticError>(file),
        Resolution::Index => r == Ok::<Resolved, StaticError>(index),
        Resolution::Missing => r matches Err(StaticError::NotFound(p)) && p@ == req,
        Resolution::Outside => r matches Err(StaticError::Traversal(p)) && p@ == req,
    }
}

/// The resolver's answer for the decision `d` on `request_path`, given the
/// canonical file `file` and the directory index `index`.
pub fn outcome(d: Resolution, request_path: &str, file: Resolved, index: Resolved) -> (r: Result<
    Resolved,
    StaticError,
>)
    ensures
        is_outcome(r, d, request_path@, file, index),
{
    match d {
        Resolution::File => Ok(file),
        Resolution::Index => Ok(index),
        Resolution::Missing => Err(StaticError::NotFound(request_path.to_owned())),
        Resolution::Outside => Err(StaticError::Traversal(request_path.to_owned())),
    }
}

/// The resolver's decision from the file system's answers: whether the
/// joined path could be canonicalized (`found`), whether its canonical
/// form lies under the canonical root (`under_root`), whether it is a
/// directory, and, for a directory, whether its `index.html` could be
/// canonicalized (`index_found`) and lies under the root
/// (`index_under_root`).
pub fn resolution(
    found: bool,
    under_root: bool,
    is_dir: bool,
    index_found: bool,
    index_under_root: bool,
) -> (r: Resolution)
    ensures
        r == resolution_of(found, under_root, is_dir, index_found, index_under_root),
{
    if !found {
        Resolution::Missing
    } else if !under_root {
        Resolution::Outside
    } else if !is_dir {
        Resolution::File
    } else if !index_found {
        Resolution::Missing
    } else if !index_under_root {
        Resolution::Outside
    } else {
        Resolution::Index
    }
}

/// Resolves a request path to a file under `root`. A NUL char or `..` in
/// the decoded path is refused before the file system is asked. Then the
/// root is canonicalized (an I/O error when that fails), the decoded path
/// is joined to it, and the joined path must canonicalize (else
/// `NotFound`) and lie under the canonical root by `Path::starts_with`
/// (else `Traversal`); a directory resolves to its `index.html`, which
/// must canonicalize too (else `NotFound`) and lie under the root (else
/// `Traversal`). The decision is [`resolution`], the answer [`outcome`].
/// A path whose canonical form is not UTF-8 counts as missing.
pub fn resolve(root: &Path, request_path: &str) -> (r: Result<Resolved, StaticError>)
    ensures
        is_traversal_attempt(request_path@) ==> (r matches Err(StaticError::Traversal(p)) && p@
            == request_path@),
        r matches Ok(x) ==> {
            &&& !is_traversal_attempt(request_path@)
            &&& x.joined@ == path_join_text(
                x.root@,
                trim_leading_slashes(percent_decoded(request_path@)),
            )
            &&& path_text_starts_with(x.canonical@, x.root@)
            &&& path_text_starts_with(x.file_canonical@, x.root@)
            &&& ((x.file@ == x.canonical@ && x.file_canonical@ == x.canonical@) || x.file@
                == path_join_text(x.canonical@, "index.html"@))
        },
        r matches Err(StaticError::NotFound(p)) ==> p@ == request_path@ && !is_traversal_attempt(
            request_path@,
        ),
        r matches Err(StaticError::Traversal(p)) ==> p@ == request_path@,
        r matches Err(StaticError::Io(_)) ==> !is_traversal_attempt(request_path@),
{
    let rel = match relative_request_path(request_path) {
        Ok(rel) => rel,
        Err(e) => {
            return Err(e);
        },
    };
    let root_canon = match canonicalize(root) {
        Ok(Some(c)) => c,
        Ok(None) => {
            return Err(StaticError::NotFound(request_path.to_owned()));
        },
        Err(e) => {
            return Err(StaticError::Io(e));
        },
    };
    let joined = join_path(root_canon.as_str(), rel.as_str());
    let (found, canon) = match canonicalize(path_of(joined.as_str())) {
        Ok(Some(c)) => (true, c),
        _ => (false, String::new()),
    };
    let under_root = found && path_starts_with(canon.as_str(), root_canon.as_str());
    let is_dir = found && under_root && path_is_dir(path_of(canon.as_str()));
    let index = join_path(canon.as_str(), "index.html");
    let (index_found, index_canon) = if is_dir {
        match canonicalize(path_of(index.as_str())) {
            Ok(Some(ic)) => (true, ic),
            _ => (false, String::new()),
        }
    } else {
        (false, String::new())
    };
    let index_under_root = index_found && path_starts_with(
        index_canon.as_str(),
        root_canon.as_str(),
    );
    let d = resolution(found, under_root, is_dir, index_found, index_under_root);
    let file = Resolved {
        root: root_canon.clone(),
        joined: joined.clone(),
        canonical: canon.clone(),
        file: canon.clone(),
        file_canonical: canon.clone(),
    };
    let index_file = Resolved {
        root: root_canon,
        joined,
        canonical: canon,
        file: index,
        file_canonical: index_canon,
    };
    outcome(d, request_path, file, index_file)
}

// ---------------------------------------------------------------------------
// File kinds
// ---------------------------------------------------------------------------

/// What `Path::extension` gives for the path written `path`, as text.
pub uninterp spec fn path_extension_of(path: Seq<char>) -> Option<Seq<char>>;

/// `Path::extension` of the path written `p`. The extension of a path
/// given as text is a piece of that text, so it is handed back whole.
#[verifier::external_body]
fn path_extension(p: &str) -> (r: Option<String>)
    ensures
        match r {
            Some(e) => path_extension_of(p@) == Some(e@),
            None => path_extension_of(p@) is None,
        },
{
    match Path::new(p).extension() {
        Some(e) => match e.to_str() {
            Some(s) => Some(s.to_owned()),
            None => None,
        },
        None => None,
    }
}

/// Whether `s` is the literal `lit`.
fn text_is(s: &String, lit: &str) -> (r: bool)
    ensures
        r == (s@ == lit@),
{
    *s == lit.to_owned()
}

/// The content type served for a file extension.
pub open spec fn mime_of(ext: Option<Seq<char>>) -> Seq<char> {
    match ext {
        Some(e) => if e == "html"@ || e == "htm"@ {
            "text/html"@
        } else if e == "css"@ {
            "text/css"@
        } else if e == "js"@ || e == "mjs"@ {
            "text/javascript"@
        } else if e == "json"@ {
            "application/json"@
        } else if e == "txt"@ {
            "text/plain"@
        } else if e == "png"@ {
            "image/png"@
        } else if e == "jpg"@ || e == "jpeg"@ {
            "image/jpeg"@
        } else if e == "gif"@ {
            "image/gif"@
        } else if e == "svg"@ {
            "image/svg+xml"@
        } else if e == "ico"@ {
            "image/x-icon"@
        } else if e == "woff"@ {
            "font/woff"@
        } else if e == "woff2"@ {
            "font/woff2"@
        } else if e == "wasm"@ {
            "application/wasm"@
        } else {
            "application/octet-stream"@
        },
        None => "application/octet-stream"@,
    }
}

/// The content type served for a file extension.
pub fn mime_for_extension(ext: Option<&String>) -> (m: &'static str)
    ensures
        m@ == mime_of(
            match ext {
                Some(e) => Some(e@),
                None => None,
            },
        ),
{
    match ext {
        Some(e) => if text_is(e, "html") || text_is(e, "htm") {
            "text/html"
        } else if text_is(e, "css") {
            "text/css"
        } else if text_is(e, "js") || text_is(e, "mjs") {
            "text/javascript"
        } else if text_is(e, "json") {
            "application/json"
        } else if text_is(e, "txt") {
            "text/plain"
        } else if text_is(e, "png") {
            "image/png"
        } else if text_is(e, "jpg") || text_is(e, "jpeg") {
            "image/jpeg"
        } else if text_is(e, "gif") {
            "image/gif"
        } else if text_is(e, "svg") {
            "image/svg+xml"
        } else if text_is(e, "ico") {
            "image/x-icon"
        } else if text_is(e, "woff") {
            "font/woff"
        } else if text_is(e, "woff2") {
            "font/woff2"
        } else if text_is(e, "wasm") {
            "application/wasm"
        } else {
            "application/octet-stream"
        },
        None => "application/octet-stream",
    }
}

/// The content type served for the file at `path` (the path as text),
/// by its extension.
pub fn mime_type(path: &str) -> (m: &'static str)
    ensures
        m@ == mime_of(path_extension_of(path@)),
{
    let ext = path_extension(path);
    match &ext {
        Some(e) => mime_for_extension(Some(e)),
        None => mime_for_extension(None),
    }
}

/// What kind of file changed, as live reload reports it.
#[derive(Clone, Copy, Debug)]
pub enum ChangeType {
    Css,
    Script,
    Html,
    Other,
}

/// The kind of a changed file with the given extension.
pub open spec fn change_type_of(ext: Option<Seq<char>>) -> ChangeType {
    match ext {
        Some(e) => if e == "css"@ {
            ChangeType::Css
        } else if e == "js"@ || e == "mjs"@ {
            ChangeType::Script
        } else if e == "html"@ || e == "htm"@ {
            ChangeType::Html
        } else {
            ChangeType::Other
        },
        None => ChangeType::Other,
    }
}

impl ChangeType {
    /// The kind of a changed file with the given extension.
    pub fn from_extension(ext: Option<&String>) -> (t: ChangeType)
        ensures
            t == change_type_of(
                match ext {
                    Some(e) => Some(e@),
                    None => None,
                },
            ),
    {
        match ext {
            Some(e) => if text_is(e, "css") {
                ChangeType::Css
            } else if text_is(e, "js") || text_is(e, "mjs") {
                ChangeType::Script
            } else if text_is(e, "html") || text_is(e, "htm") {
                ChangeType::Html
            } else {
                ChangeType::Other
            },
            None => ChangeType::Other,
        }
    }

    /// The kind of the changed file at `path` (the path as text), by its
    /// extension, compared exactly: `STYLE.CSS` is no stylesheet.
    pub fn from_path(path: &str) -> (t: ChangeType)
        ensures
            t == change_type_of(path_extension_of(path@)),
    {
        let ext = path_extension(path);
        match &ext {
            Some(e) => ChangeType::from_extension(Some(e)),
            None => ChangeType::from_extension(None),
        }
    }

    /// The event name of this kind.
    pub fn as_str(&self) -> (s: &'static str)
        ensures
            s@ == match self {
                ChangeType::Css => "css"@,
                ChangeType::Script => "script"@,
                ChangeType::Html => "html"@,
                ChangeType::Other => "other"@,
            },
    {
        match self {
            ChangeType::Css => "css",
            ChangeType::Script => "script",
            ChangeType::Html => "html",
            ChangeType::Other => "other",
        }
    }
}

/// A change that live reload announces.
#[derive(Clone, Debug)]
pub struct ReloadEvent {
    pub change_type: ChangeType,
}

/// The method and path of a request, as custom handlers see it.
pub struct RequestInfo {
    pub method: String,
    pub path: String,
}

/// Which custom handler a request is shown to next, or none: the handlers
/// are asked in the order they were added, and the first one that answers
/// ends the request with its answer.
pub enum HandlerTurn {
    /// Ask the handler at this index.
    Ask(usize),
    /// Some handler answered: send its answer.
    Answered,
    /// No handler answered: serve the file under the root.
    ServeFile,
}

/// The first turn for a request when `count` custom handlers are set up.
pub fn first_turn(count: usize) -> (t: HandlerTurn)
    ensures
        t == (if count > 0 {
            HandlerTurn::Ask(0)
        } else {
            HandlerTurn::ServeFile
        }),
{
    if count > 0 {
        HandlerTurn::Ask(0)
    } else {
        HandlerTurn::ServeFile
    }
}

/// The turn after the handler at `index`, of `count`, was asked and
/// `answered` or not.
pub fn next_turn(index: usize, count: usize, answered: bool) -> (t: HandlerTurn)
    requires
        index < count,
    ensures
        t == (if answered {
            HandlerTurn::Answered
        } else if index + 1 < count {
            HandlerTurn::Ask((index + 1) as usize)
        } else {
            HandlerTurn::ServeFile
        }),
{
    if answered {
        HandlerTurn::Answered
    } else if index + 1 < count {
        HandlerTurn::Ask(index + 1)
    } else {
        HandlerTurn::ServeFile
    }
}

// ---------------------------------------------------------------------------
// Live-reload script injection
// ---------------------------------------------------------------------------

/// The script that subscribes a page to live reload.
pub const LIVERELOAD_SCRIPT: &'static str = "<script>\n(function(){var e=new EventSource('/__mini_reload');e.addEventListener('css',function(){var t=document.querySelectorAll('link[rel=\"stylesheet\"]');for(var n=0;n<t.length;n++){var r=new URL(t[n].href);r.searchParams.set('_',Date.now()),t[n].href=r.toString()}});['html','script','other'].forEach(function(t){e.addEventListener(t,function(){location.reload()})})})();\n</script>";

/// The first position at or after `i` where `pat` occurs in `b`.
pub open spec fn find_bytes_from(b: Seq<u8>, pat: Seq<u8>, i: int) -> Option<int>
    decreases b.len() + 1 - i,
{
    if i < 0 || i + pat.len() > b.len() {
        None
    } else if b.subrange(i, i + pat.len()) == pat {
        Some(i)
    } else {
        find_bytes_from(b, pat, i + 1)
    }
}

/// `b` with the live-reload script inserted before the first `</body>`,
/// or else before the first `</html>`; nothing when `b` is not UTF-8 text
/// or holds neither tag.
pub open spec fn injected(b: Seq<u8>) -> Option<Seq<u8>> {
    let script = vstd::utf8::encode_utf8(LIVERELOAD_SCRIPT@);
    if !vstd::utf8::valid_utf8(b) {
        None
    } else {
        match find_bytes_from(b, vstd::utf8::encode_utf8("</body>"@), 0) {
            Some(p) => Some(b.take(p) + script + b.skip(p)),
            None => match find_bytes_from(b, vstd::utf8::encode_utf8("</html>"@), 0) {
                Some(p) => Some(b.take(p) + script + b.skip(p)),
                None => None,
            },
        }
    }
}

/// `std::str::from_utf8(b).is_ok()`: whether `b` is valid UTF-8.
#[verifier::external_body]
fn is_utf8(b: &[u8]) -> (r: bool)
    ensures
        r == vstd::utf8::valid_utf8(b@),
{
    std::str::from_utf8(b).is_ok()
}

fn find_bytes(b: &[u8], pat: &[u8]) -> (r: Option<usize>)
    ensures
        match find_bytes_from(b@, pat@, 0) {
            Some(p) => 0 <= p && r == Some(p as usize) && p + pat@.len() <= b@.len(),
            None => r is None,
        },
{
    let n = b.len();
    let m = pat.len();
    if m > n {
        return None;
    }
    let mut i: usize = 0;
    while i <= n - m
        invariant
            0 <= i <= n - m + 1,
            m <= n,
            n == b@.len(),
            m == pat@.len(),
            find_bytes_from(b@, pat@, 0) == find_bytes_from(b@, pat@, i as int),
        decreases n - m + 1 - i,
    {
        let mut j: usize = 0;
        let mut same = true;
        while j < m
            invariant
                0 <= j <= m,
                m == pat@.len(),
                i + m <= n == b@.len(),
                same == (forall|k: int| 0 <= k < j ==> b@[i + k] == pat@[k]),
            decreases m - j,
        {
            if b[i + j] != pat[j] {
                same = false;
            }
            j = j + 1;
        }
        if same {
            assert(b@.subrange(i as int, i + m) =~= pat@);
            return Some(i);
        }
        assert(b@.subrange(i as int, i + m) != pat@) by {
            let k = choose|k: int| 0 <= k < m && b@[i + k] != pat@[k];
            assert(b@.subrange(i as int, i + m)[k] == b@[i + k]);
        }
        i = i + 1;
    }
    None
}

/// Inserts the live-reload script into an HTML page, before `</body>` or
/// else before `</html>`.
pub fn inject_livereload_script(bytes: &[u8]) -> (r: Option<Vec<u8>>)
    ensures
        match injected(bytes@) {
            Some(x) => r matches Some(v) && v@ == x,
            None => r is None,
        },
{
    if !is_utf8(bytes) {
        return None;
    }
    let p = match find_bytes(bytes, "</body>".as_bytes()) {
        Some(p) => p,
        None => match find_bytes(bytes, "</html>".as_bytes()) {
            Some(p) => p,
            None => {
                return None;
            },
        },
    };
    let script = LIVERELOAD_SCRIPT.as_bytes();
    let mut out: Vec<u8> = Vec::new();
    let mut i: usize = 0;
    while i < p
        invariant
            0 <= i <= p <= bytes@.len(),
            out@ == bytes@.take(i as int),
        decreases p - i,
    {
        out.push(bytes[i]);
        i = i + 1;
    }
    let mut j: usize = 0;
    while j < script.len()
        invariant
            0 <= j <= script@.len(),
            out@ == bytes@.take(p as int) + script@.take(j as int),
        decreases script@.len() - j,
    {
        out.push(script[j]);
        j = j + 1;
    }
    assert(script@.take(script@.len() as int) == script@);
    let mut k: usize = p;
    while k < bytes.len()
        invariant
            p <= k <= bytes@.len(),
            out@ == bytes@.take(p as int) + script@ + bytes@.subrange(p as int, k as int),
        decreases bytes@.len() - k,
    {
        out.push(bytes[k]);
        k = k + 1;
    }
    assert(bytes@.subrange(p as int, bytes@.len() as int) == bytes@.skip(p as int));
    Some(out)
}

} // verus!
