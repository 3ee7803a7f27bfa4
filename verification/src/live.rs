//! Live reload: which requests subscribe, what an event sends, which files
//! the poller reports as changed, and how a file read ends.
use vstd::prelude::*;
use crate::text::{chars_of, string_from_chars, append_chars};
use crate::files::{ChangeType, ReloadEvent, RequestInfo};
use crate::serve::{json_string, json_string_literal};

verus! {

broadcast use vstd::seq_lib::group_seq_properties;

/// The path that live-reload pages subscribe to.
pub const RELOAD_PATH: &'static str = "/__mini_reload";

/// Whether two strings hold the same chars.
fn same_text(a: &str, b: &str) -> (r: bool)
    ensures
        r == (a@ == b@),
{
    let x = chars_of(a);
    let y = chars_of(b);
    if x.len() != y.len() {
        return false;
    }
    let mut i: usize = 0;
    while i < x.len()
        invariant
            0 <= i <= x@.len() == y@.len(),
            x@ == a@,
            y@ == b@,
            forall|j: int| 0 <= j < i ==> x@[j] == y@[j],
        decreases x@.len() - i,
    {
        if x[i] != y[i] {
            assert(a@[i as int] != b@[i as int]);
            return false;
        }
        i = i + 1;
    }
    assert(x@ =~= y@);
    true
}

impl RequestInfo {
    /// Whether the request subscribes to live reload: `GET /__mini_reload`.
    pub fn is_reload_request(&self) -> (r: bool)
        ensures
            r == (self.method@ == "GET"@ && self.path@ == "/__mini_reload"@),
    {
        same_text(self.method.as_str(), "GET") && same_text(self.path.as_str(), RELOAD_PATH)
    }
}

/// The event name of a kind of change.
pub open spec fn change_name(t: ChangeType) -> Seq<char> {
    match t {
        ChangeType::Css => "css"@,
        ChangeType::Script => "script"@,
        ChangeType::Html => "html"@,
        ChangeType::Other => "other"@,
    }
}

/// The server-sent event that announces a change of kind `t`: the event
/// name, and `{"type":<name>}` as its data.
pub open spec fn reload_message_of(t: ChangeType) -> Seq<char> {
    "event: "@ + change_name(t) + "\ndata: {\"type\":"@ + json_string(change_name(t)) + "}\n\n"@
}

impl ReloadEvent {
    /// The server-sent event that announces this change.
    pub fn message(&self) -> (r: String)
        ensures
            r@ == reload_message_of(self.change_type),
    {
        let name = self.change_type.as_str();
        let mut out = chars_of("event: ");
        let n = chars_of(name);
        append_chars(&mut out, n.as_slice());
        let mid = chars_of("\ndata: {\"type\":");
        append_chars(&mut out, mid.as_slice());
        let lit = json_string_literal(name);
        let l = chars_of(lit.as_str());
        append_chars(&mut out, l.as_slice());
        let tail = chars_of("}\n\n");
        append_chars(&mut out, tail.as_slice());
        string_from_chars(out.as_slice())
    }
}

// ---------------------------------------------------------------------------
// Change detection
// ---------------------------------------------------------------------------

/// The modification times of a listing, by path; a later entry for the
/// same path wins.
pub open spec fn stamp_map(s: Seq<(Vec<u8>, i128)>) -> Map<Seq<u8>, i128>
    decreases s.len(),
{
    if s.len() == 0 {
        Map::empty()
    } else {
        stamp_map(s.drop_last()).insert(s.last().0@, s.last().1)
    }
}

/// The file `e` is new or has another modification time than in `prev`.
pub open spec fn is_changed(prev: Map<Seq<u8>, i128>, e: (Vec<u8>, i128)) -> bool {
    !prev.contains_key(e.0@) || prev[e.0@] != e.1
}

/// The positions among the first `n` entries of `cur` of the files that
/// are new or changed against `prev`, in increasing order.
pub open spec fn changed_upto(prev: Map<Seq<u8>, i128>, cur: Seq<(Vec<u8>, i128)>, n: int) -> Seq<
    usize,
>
    decreases n,
{
    if n <= 0 {
        Seq::empty()
    } else {
        let r = changed_upto(prev, cur, n - 1);
        if is_changed(prev, cur[n - 1]) {
            r.push((n - 1) as usize)
        } else {
            r
        }
    }
}

/// Whether two byte strings are equal.
fn same_bytes(a: &[u8], b: &[u8]) -> (r: bool)
    ensures
        r == (a@ == b@),
{
    if a.len() != b.len() {
        return false;
    }
    let mut i: usize = 0;
    while i < a.len()
        invariant
            0 <= i <= a@.len() == b@.len(),
            forall|j: int| 0 <= j < i ==> a@[j] == b@[j],
        decreases a@.len() - i,
    {
        if a[i] != b[i] {
            assert(a@[i as int] != b@[i as int]);
            return false;
        }
        i = i + 1;
    }
    assert(a@ =~= b@);
    true
}

/// The modification time that `listing` records for `path`.
fn recorded_time(listing: &Vec<(Vec<u8>, i128)>, path: &Vec<u8>) -> (r: Option<i128>)
    ensures
        match r {
            Some(t) => stamp_map(listing@).contains_key(path@) && stamp_map(listing@)[path@] == t,
            None => !stamp_map(listing@).contains_key(path@),
        },
{
    let mut i: usize = listing.len();
    while i > 0
        invariant
            0 <= i <= listing@.len(),
            forall|j: int| i <= j < listing@.len() ==> #[trigger] listing@[j].0@ != path@,
            stamp_map(listing@).contains_key(path@) == stamp_map(listing@.take(i as int)).contains_key(path@),
            stamp_map(listing@).contains_key(path@) ==> stamp_map(listing@)[path@] == stamp_map(
                listing@.take(i as int),
            )[path@],
        decreases i,
    {
        let ghost pre = listing@.take(i as int);
        assert(pre.drop_last() == listing@.take(i - 1));
        assert(pre.last() == listing@[i - 1]);
        if same_bytes(listing[i - 1].0.as_slice(), path.as_slice()) {
            return Some(listing[i - 1].1);
        }
        i = i - 1;
    }
    assert(listing@.take(0) =~= Seq::<(Vec<u8>, i128)>::empty());
    None
}

/// The positions in `current` of the files the poller reports: none on
/// the first pass, else those that are new or whose modification time
/// differs from `previous`.
pub fn changed_entries(
    previous: &Vec<(Vec<u8>, i128)>,
    current: &Vec<(Vec<u8>, i128)>,
    first_pass: bool,
) -> (r: Vec<usize>)
    ensures
        first_pass ==> r@.len() == 0,
        !first_pass ==> r@ == changed_upto(stamp_map(previous@), current@, current@.len() as int),
{
    let mut out: Vec<usize> = Vec::new();
    if first_pass {
        return out;
    }
    let ghost prev = stamp_map(previous@);
    let mut i: usize = 0;
    while i < current.len()
        invariant
            0 <= i <= current@.len(),
            prev == stamp_map(previous@),
            out@ == changed_upto(prev, current@, i as int),
        decreases current@.len() - i,
    {
        let changed = match recorded_time(previous, &current[i].0) {
            Some(t) => t != current[i].1,
            None => true,
        };
        if changed {
            out.push(i);
        }
        i = i + 1;
    }
    out
}

/// How a read into the buffer ended: `"error"` when it failed, `"eof"`
/// when it read nothing, `"chunk"` when it read `n > 0` bytes.
pub fn read_classification(result: &Result<(), std::io::Error>, n: usize) -> (r: &'static str)
    ensures
        r@ == (if result is Err {
            "error"@
        } else if n == 0 {
            "eof"@
        } else {
            "chunk"@
        }),
{
    match result {
        Err(_) => "error",
        Ok(()) => if n == 0 {
            "eof"
        } else {
            "chunk"
        },
    }
}

/// Among the first `n` entries, the positions reported are those of the
/// new or changed files, and only positions below `n`.
proof fn lemma_changed_upto(prev: Map<Seq<u8>, i128>, cur: Seq<(Vec<u8>, i128)>, n: int)
    requires
        0 <= n <= cur.len(),
        n <= usize::MAX,
    ensures
        forall|j: int|
            0 <= j < n ==> (changed_upto(prev, cur, n).contains(j as usize) <==> is_changed(
                prev,
                #[trigger] cur[j],
            )),
        forall|x: usize| #[trigger] changed_upto(prev, cur, n).contains(x) ==> x < n,
    decreases n,
{
    if n > 0 {
        lemma_changed_upto(prev, cur, n - 1);
        let r = changed_upto(prev, cur, n - 1);
        if is_changed(prev, cur[n - 1]) {
            let last = (n - 1) as usize;
            let rp = r.push(last);
            assert(rp.last() == last);
            assert forall|x: usize| #[trigger] rp.contains(x) implies x < n by {
                let q = choose|q: int| 0 <= q < rp.len() && rp[q] == x;
                if q < r.len() {
                    assert(r.contains(r[q]));
                }
            }
            assert forall|j: int| 0 <= j < n implies (rp.contains(j as usize) <==> is_changed(
                prev,
                #[trigger] cur[j],
            )) by {
                if j < n - 1 {
                    if rp.contains(j as usize) {
                        let q = choose|q: int| 0 <= q < rp.len() && rp[q] == j as usize;
                        if q < r.len() {
                            assert(r.contains(r[q]));
                        }
                    }
                    if r.contains(j as usize) {
                        let q = choose|q: int| 0 <= q < r.len() && r[q] == j as usize;
                        assert(rp[q] == j as usize);
                    }
                } else {
                    assert(rp[r.len() as int] == j as usize);
                }
            }
        } else {
            assert forall|j: int| 0 <= j < n implies (r.contains(j as usize) <==> is_changed(
                prev,
                #[trigger] cur[j],
            )) by {
                if j == n - 1 && r.contains(j as usize) {
                    assert((j as usize) < n - 1);
                }
            }
        }
    }
}

/// On a later pass, an entry of the current listing is reported exactly
/// when the previous listing does not record its path, or records it with
/// another modification time, earlier or later.
pub proof fn lemma_changed_reported(
    previous: Seq<(Vec<u8>, i128)>,
    current: Seq<(Vec<u8>, i128)>,
    j: int,
)
    requires
        0 <= j < current.len(),
        current.len() <= usize::MAX,
    ensures
        changed_upto(stamp_map(previous), current, current.len() as int).contains(j as usize) <==> (
        !stamp_map(previous).contains_key(current[j].0@) || stamp_map(previous)[current[j].0@]
            != current[j].1),
{
    lemma_changed_upto(stamp_map(previous), current, current.len() as int);
    assert(is_changed(stamp_map(previous), current[j]) == (!stamp_map(previous).contains_key(
        current[j].0@,
    ) || stamp_map(previous)[current[j].0@] != current[j].1));
}

/// In a listing whose paths are distinct, each entry's time is the one
/// recorded for its path.
proof fn lemma_stamp_of_entry(l: Seq<(Vec<u8>, i128)>, j: int)
    requires
        0 <= j < l.len(),
        forall|a: int, b: int| 0 <= a < b < l.len() ==> #[trigger] l[a].0@ != #[trigger] l[b].0@,
    ensures
        stamp_map(l).contains_key(l[j].0@),
        stamp_map(l)[l[j].0@] == l[j].1,
    decreases l.len(),
{
    let n = l.len() - 1;
    if j < n {
        let front = l.drop_last();
        assert forall|a: int, b: int| 0 <= a < b < front.len() implies #[trigger] front[a].0@
            != #[trigger] front[b].0@ by {
            assert(front[a] == l[a] && front[b] == l[b]);
        }
        lemma_stamp_of_entry(front, j);
        assert(l[j].0@ != l[n].0@);
        assert(front[j] == l[j]);
    }
}

/// A listing whose paths are distinct, compared with itself on a later
/// pass, reports no file.
pub proof fn lemma_unchanged_listing_reports_nothing(listing: Seq<(Vec<u8>, i128)>)
    requires
        listing.len() <= usize::MAX,
        forall|a: int, b: int|
            0 <= a < b < listing.len() ==> #[trigger] listing[a].0@ != #[trigger] listing[b].0@,
    ensures
        changed_upto(stamp_map(listing), listing, listing.len() as int).len() == 0,
{
    let r = changed_upto(stamp_map(listing), listing, listing.len() as int);
    lemma_changed_upto(stamp_map(listing), listing, listing.len() as int);
    if r.len() > 0 {
        let x = r[0];
        assert(r.contains(x));
        lemma_stamp_of_entry(listing, x as int);
    }
}

} // verus!
