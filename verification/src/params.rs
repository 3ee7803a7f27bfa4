//! String-keyed parameter maps, and the parsers that fill them: query
//! strings, `Cookie` headers, and the query string built from path
//! parameters.
use vstd::prelude::*;
use crate::text::{views_of, join_chars, split_chars, trim_chars, find_char, sub_chars, string_from_chars, chars_of, append_chars, split_on, index_of, trim, join};

verus! {

broadcast use vstd::seq_lib::group_seq_properties;

/// The map that a list of pairs describes when later pairs overwrite
/// earlier ones.
pub open spec fn pairs_map(s: Seq<(String, String)>) -> Map<Seq<char>, Seq<char>>
    decreases s.len(),
{
    if s.len() == 0 {
        Map::empty()
    } else {
        pairs_map(s.drop_last()).insert(s.last().0@, s.last().1@)
    }
}

/// No key occurs twice.
pub open spec fn keys_distinct(s: Seq<(String, String)>) -> bool {
    forall|i: int, j: int| 0 <= i < j < s.len() ==> #[trigger] s[i].0@ != #[trigger] s[j].0@
}

/// A key is in the map of a pair list exactly when some pair has it.
pub proof fn lemma_pairs_map_dom(s: Seq<(String, String)>, k: Seq<char>)
    ensures
        pairs_map(s).contains_key(k) <==> exists|i: int| 0 <= i < s.len() && #[trigger] s[i].0@ == k,
    decreases s.len(),
{
    if s.len() > 0 {
        lemma_pairs_map_dom(s.drop_last(), k);
        if pairs_map(s.drop_last()).contains_key(k) {
            let i = choose|i: int| 0 <= i < s.drop_last().len() && #[trigger] s.drop_last()[i].0@ == k;
            assert(s[i].0@ == k);
        }
        if exists|i: int| 0 <= i < s.len() && #[trigger] s[i].0@ == k {
            let i = choose|i: int| 0 <= i < s.len() && #[trigger] s[i].0@ == k;
            if i < s.len() - 1 {
                assert(s.drop_last()[i].0@ == k);
            }
        }
    }
}

/// With distinct keys, each pair gives its key's value in the map.
pub proof fn lemma_pairs_map_value(s: Seq<(String, String)>, i: int)
    requires
        keys_distinct(s),
        0 <= i < s.len(),
    ensures
        pairs_map(s).contains_key(s[i].0@),
        pairs_map(s)[s[i].0@] == s[i].1@,
    decreases s.len(),
{
    if i < s.len() - 1 {
        assert(s.drop_last()[i] == s[i]);
        lemma_pairs_map_value(s.drop_last(), i);
        assert(s[i].0@ != s.last().0@);
    }
}

/// The map of a pair list is finite, with one key per pair when the keys
/// are distinct.
pub proof fn lemma_pairs_map_finite(s: Seq<(String, String)>)
    ensures
        pairs_map(s).dom().finite(),
        keys_distinct(s) ==> pairs_map(s).dom().len() == s.len(),
    decreases s.len(),
{
    if s.len() > 0 {
        lemma_pairs_map_finite(s.drop_last());
        if keys_distinct(s) {
            lemma_pairs_map_dom(s.drop_last(), s.last().0@);
            if pairs_map(s.drop_last()).contains_key(s.last().0@) {
                let i = choose|i: int|
                    0 <= i < s.drop_last().len() && #[trigger] s.drop_last()[i].0@ == s.last().0@;
                assert(s[i].0@ == s[s.len() - 1].0@);
            }
        }
    }
}

/// Replacing the pair at `i` by a pair with the same key updates that key.
pub proof fn lemma_pairs_map_update(s: Seq<(String, String)>, i: int, p: (String, String))
    requires
        keys_distinct(s),
        0 <= i < s.len(),
        p.0@ == s[i].0@,
    ensures
        pairs_map(s.update(i, p)) == pairs_map(s).insert(p.0@, p.1@),
        keys_distinct(s.update(i, p)),
    decreases s.len(),
{
    let t = s.update(i, p);
    if i == s.len() - 1 {
        assert(t.drop_last() == s.drop_last());
        assert(pairs_map(s).insert(p.0@, p.1@) =~= pairs_map(s.drop_last()).insert(p.0@, p.1@));
    } else {
        assert(t.drop_last() == s.drop_last().update(i, p));
        lemma_pairs_map_update(s.drop_last(), i, p);
        assert(s[i].0@ != s.last().0@);
        assert(pairs_map(t) =~= pairs_map(s).insert(p.0@, p.1@));
    }
}

/// A map from parameter names to values, kept as a list of pairs with
/// distinct names.
#[derive(Debug)]
pub struct ParamMap {
    entries: Vec<(String, String)>,
}

impl View for ParamMap {
    type V = Map<Seq<char>, Seq<char>>;

    closed spec fn view(&self) -> Map<Seq<char>, Seq<char>> {
        pairs_map(self.entries@)
    }
}

impl ParamMap {
    #[verifier::type_invariant]
    closed spec fn inv(self) -> bool {
        keys_distinct(self.entries@)
    }

    /// The pairs in the order they were first inserted.
    pub closed spec fn pair_seq(&self) -> Seq<(String, String)> {
        self.entries@
    }

    /// An empty map.
    pub fn new() -> (m: ParamMap)
        ensures
            m@ == Map::<Seq<char>, Seq<char>>::empty(),
            m.pair_seq().len() == 0,
    {
        ParamMap { entries: Vec::new() }
    }

    proof fn lemma_view_props(&self)
        requires
            keys_distinct(self.entries@),
        ensures
            self@.dom().finite(),
            self@.len() == self.pair_seq().len(),
            forall|i: int|
                0 <= i < self.pair_seq().len() ==> #[trigger] self@.contains_key(
                    self.pair_seq()[i].0@,
                ) && self@[self.pair_seq()[i].0@] == self.pair_seq()[i].1@,
            forall|k: Seq<char>|
                #[trigger] self@.contains_key(k) ==> exists|i: int|
                    0 <= i < self.pair_seq().len() && #[trigger] self.pair_seq()[i].0@ == k,
    {
        lemma_pairs_map_finite(self.entries@);
        assert forall|i: int| 0 <= i < self.pair_seq().len() implies #[trigger] self@.contains_key(
            self.pair_seq()[i].0@,
        ) && self@[self.pair_seq()[i].0@] == self.pair_seq()[i].1@ by {
            lemma_pairs_map_value(self.entries@, i);
        }
        assert forall|k: Seq<char>| #[trigger] self@.contains_key(k) implies exists|i: int|
            0 <= i < self.pair_seq().len() && #[trigger] self.pair_seq()[i].0@ == k by {
            lemma_pairs_map_dom(self.entries@, k);
            let i = choose|i: int| 0 <= i < self.entries@.len() && #[trigger] self.entries@[i].0@ == k;
            assert(self.pair_seq()[i].0@ == k);
        }
    }

    /// Position of `key` among the pairs.
    fn position(&self, key: &String) -> (r: Option<usize>)
        ensures
            r matches Some(i) ==> i < self.entries@.len() && self.entries@[i as int].0@ == key@,
            r is None ==> !self@.contains_key(key@),
    {
        let mut i: usize = 0;
        while i < self.entries.len()
            invariant
                0 <= i <= self.entries@.len(),
                forall|j: int| 0 <= j < i ==> self.entries@[j].0@ != key@,
            decreases self.entries@.len() - i,
        {
            if self.entries[i].0 == *key {
                return Some(i);
            }
            i = i + 1;
        }
        proof {
            lemma_pairs_map_dom(self.entries@, key@);
        }
        None
    }

    /// Sets `key` to `value`, replacing an earlier value of `key` in its
    /// place; a new key goes after the others.
    pub fn insert(&mut self, key: String, value: String)
        ensures
            final(self)@ == old(self)@.insert(key@, value@),
            old(self)@.contains_key(key@) ==> exists|i: int|
                0 <= i < old(self).pair_seq().len() && #[trigger] old(self).pair_seq()[i].0@ == key@
                    && final(self).pair_seq() == old(self).pair_seq().update(i, (key, value)),
            !old(self)@.contains_key(key@) ==> final(self).pair_seq() == old(self).pair_seq().push(
                (key, value),
            ),
    {
        proof {
            use_type_invariant(&*self);
        }
        let pos = self.position(&key);
        let ghost old_entries = self.entries@;
        let ghost pair = (key, value);
        let mut entries: Vec<(String, String)> = Vec::new();
        std::mem::swap(&mut entries, &mut self.entries);
        match pos {
            Some(i) => {
                proof {
                    lemma_pairs_map_update(old_entries, i as int, pair);
                    lemma_pairs_map_dom(old_entries, key@);
                    assert(old_entries[i as int].0@ == key@);
                }
                entries.set(i, (key, value));
                assert(entries@ == old_entries.update(i as int, pair));
            },
            None => {
                proof {
                    assert forall|j: int| 0 <= j < old_entries.len() implies #[trigger] old_entries[j].0@
                        != key@ by {
                        lemma_pairs_map_dom(old_entries, key@);
                    }
                }
                entries.push((key, value));
                assert(entries@.drop_last() == old_entries);
            },
        }
        self.entries = entries;
        proof {
            if let Some(i) = pos {
                assert(old(self).pair_seq()[i as int].0@ == key@);
                assert(self.pair_seq() == old(self).pair_seq().update(i as int, pair));
            }
        }
    }

    /// The value stored under `key`.
    pub fn get(&self, key: &str) -> (r: Option<&String>)
        ensures
            r matches Some(v) ==> self@.contains_key(key@) && v@ == self@[key@],
            r is None ==> !self@.contains_key(key@),
    {
        proof {
            use_type_invariant(self);
        }
        let k = key.to_owned();
        match self.position(&k) {
            Some(i) => {
                proof {
                    lemma_pairs_map_value(self.entries@, i as int);
                }
                Some(&self.entries[i].1)
            },
            None => None,
        }
    }

    /// Number of keys.
    pub fn len(&self) -> (n: usize)
        ensures
            n == self@.len(),
    {
        proof {
            use_type_invariant(self);
            self.lemma_view_props();
        }
        self.entries.len()
    }

    /// Whether there are no keys.
    pub fn is_empty(&self) -> (b: bool)
        ensures
            b == (self@.len() == 0),
    {
        proof {
            use_type_invariant(self);
            self.lemma_view_props();
        }
        self.entries.len() == 0
    }

    /// The pairs, each key once.
    pub fn pairs(&self) -> (r: &[(String, String)])
        ensures
            r@ == self.pair_seq(),
            r@.len() == self@.len(),
            forall|i: int|
                0 <= i < r@.len() ==> #[trigger] self@.contains_key(r@[i].0@) && self@[r@[i].0@]
                    == r@[i].1@,
            forall|k: Seq<char>|
                #[trigger] self@.contains_key(k) ==> exists|i: int|
                    0 <= i < r@.len() && #[trigger] r@[i].0@ == k,
    {
        proof {
            use_type_invariant(self);
            self.lemma_view_props();
        }
        self.entries.as_slice()
    }
}

/// Two lists of pairs with the same views describe the same map.
proof fn lemma_pairs_map_same_views(a: Seq<(String, String)>, b: Seq<(String, String)>)
    requires
        a.len() == b.len(),
        forall|j: int| 0 <= j < a.len() ==> #[trigger] a[j].0@ == b[j].0@ && a[j].1@ == b[j].1@,
    ensures
        pairs_map(a) == pairs_map(b),
    decreases a.len(),
{
    if a.len() > 0 {
        assert forall|j: int| 0 <= j < a.drop_last().len() implies #[trigger] a.drop_last()[j].0@
            == b.drop_last()[j].0@ && a.drop_last()[j].1@ == b.drop_last()[j].1@ by {
            assert(a.drop_last()[j] == a[j]);
            assert(b.drop_last()[j] == b[j]);
        }
        lemma_pairs_map_same_views(a.drop_last(), b.drop_last());
        assert(a.last() == a[a.len() - 1]);
        assert(b.last() == b[b.len() - 1]);
    }
}

impl Clone for ParamMap {
    /// A copy with the same pairs in the same order.
    fn clone(&self) -> (r: Self)
        ensures
            r@ == self@,
            r.pair_seq().len() == self.pair_seq().len(),
            forall|j: int|
                0 <= j < self.pair_seq().len() ==> #[trigger] r.pair_seq()[j].0@ == self.pair_seq()[j].0@
                    && r.pair_seq()[j].1@ == self.pair_seq()[j].1@,
    {
        proof {
            use_type_invariant(self);
        }
        let mut entries: Vec<(String, String)> = Vec::new();
        let mut i: usize = 0;
        while i < self.entries.len()
            invariant
                0 <= i <= self.entries@.len(),
                entries@.len() == i,
                keys_distinct(self.entries@),
                forall|j: int|
                    0 <= j < i ==> #[trigger] entries@[j].0@ == self.entries@[j].0@ && entries@[j].1@
                        == self.entries@[j].1@,
            decreases self.entries@.len() - i,
        {
            let k = self.entries[i].0.clone();
            let v = self.entries[i].1.clone();
            entries.push((k, v));
            i = i + 1;
        }
        proof {
            lemma_pairs_map_same_views(entries@, self.entries@);
            assert forall|a: int, b: int| 0 <= a < b < entries@.len() implies #[trigger] entries@[a].0@
                != #[trigger] entries@[b].0@ by {
                assert(self.entries@[a].0@ != self.entries@[b].0@);
            }
        }
        ParamMap { entries }
    }
}

impl Default for ParamMap {
    /// An empty map.
    fn default() -> (m: ParamMap)
        ensures
            m@ == Map::<Seq<char>, Seq<char>>::empty(),
            m.pair_seq().len() == 0,
    {
        ParamMap::new()
    }
}

/// Path parameters captured by the router, by parameter name.
#[derive(Clone, Debug)]
pub struct PathParams(pub ParamMap);

/// Query parameters of a request, by key.
#[derive(Clone, Debug)]
pub struct QueryParams(pub ParamMap);

// ---------------------------------------------------------------------------
// Query strings
// ---------------------------------------------------------------------------

/// The map described by the `&`-separated pieces of a query string: empty
/// pieces are skipped, a piece splits at its first `=` (no `=`: empty
/// value), later keys overwrite earlier ones.
pub open spec fn query_pieces_map(pieces: Seq<Seq<char>>) -> Map<Seq<char>, Seq<char>>
    decreases pieces.len(),
{
    if pieces.len() == 0 {
        Map::empty()
    } else {
        let m = query_pieces_map(pieces.drop_last());
        let p = pieces.last();
        if p.len() == 0 {
            m
        } else {
            match index_of(p, '=') {
                Some(i) => m.insert(p.take(i), p.skip(i + 1)),
                None => m.insert(p, Seq::<char>::empty()),
            }
        }
    }
}

/// The parameters of an optional query string.
pub open spec fn query_map(query: Option<Seq<char>>) -> Map<Seq<char>, Seq<char>> {
    match query {
        Some(q) => query_pieces_map(split_on(q, '&')),
        None => Map::empty(),
    }
}

/// Splits `piece` at its first `=`; without one, the value is empty.
fn split_pair(piece: &[char]) -> (r: (String, String))
    ensures
        match index_of(piece@, '=') {
            Some(i) => r.0@ == piece@.take(i) && r.1@ == piece@.skip(i + 1),
            None => r.0@ == piece@ && r.1@ == Seq::<char>::empty(),
        },
{
    let n = piece.len();
    match find_char(piece, '=') {
        Some(i) => {
            proof {
                crate::text::lemma_index_of_props(piece@, '=');
            }
            let k = sub_chars(piece, 0, i);
            let v = sub_chars(piece, i + 1, n);
            (string_from_chars(k.as_slice()), string_from_chars(v.as_slice()))
        },
        None => (string_from_chars(piece), String::new()),
    }
}

/// Splitting at a separator that stands between two texts splits each of
/// them.
proof fn lemma_split_concat(a: Seq<char>, b: Seq<char>, d: char)
    ensures
        split_on(a + seq![d] + b, d) == split_on(a, d) + split_on(b, d),
    decreases b.len(),
{
    let ad = a + seq![d];
    if b.len() == 0 {
        assert(ad + b == ad);
        assert(ad.drop_last() == a);
        assert(split_on(b, d) == seq![Seq::<char>::empty()]);
        assert(split_on(a, d).push(Seq::<char>::empty()) =~= split_on(a, d) + seq![
            Seq::<char>::empty(),
        ]);
    } else {
        let b0 = b.drop_last();
        let c = b.last();
        lemma_split_concat(a, b0, d);
        crate::text::lemma_split_nonempty(b0, d);
        assert((ad + b).drop_last() == ad + b0);
        assert((ad + b).last() == c);
        let x = split_on(a, d);
        let y = split_on(b0, d);
        if c == d {
            assert((x + y).push(Seq::<char>::empty()) =~= x + y.push(Seq::<char>::empty()));
        } else {
            assert((x + y).last() == y.last());
            assert((x + y).update((x + y).len() - 1, (x + y).last().push(c)) =~= x + y.update(
                y.len() - 1,
                y.last().push(c),
            ));
        }
    }
}

/// The parameters of a list of pieces followed by more pieces: the later
/// pieces override the earlier ones.
proof fn lemma_query_pieces_concat(p: Seq<Seq<char>>, q: Seq<Seq<char>>)
    ensures
        query_pieces_map(p + q) == query_pieces_map(p).union_prefer_right(query_pieces_map(q)),
    decreases q.len(),
{
    if q.len() == 0 {
        assert(p + q == p);
        assert(query_pieces_map(p).union_prefer_right(Map::empty()) =~= query_pieces_map(p));
    } else {
        let q0 = q.drop_last();
        lemma_query_pieces_concat(p, q0);
        assert((p + q).drop_last() == p + q0);
        assert((p + q).last() == q.last());
        let m1 = query_pieces_map(p);
        let m2 = query_pieces_map(q0);
        let last = q.last();
        if last.len() > 0 {
            match index_of(last, '=') {
                Some(i) => {
                    assert(m1.union_prefer_right(m2).insert(last.take(i), last.skip(i + 1))
                        =~= m1.union_prefer_right(m2.insert(last.take(i), last.skip(i + 1))));
                },
                None => {
                    assert(m1.union_prefer_right(m2).insert(last, Seq::<char>::empty())
                        =~= m1.union_prefer_right(m2.insert(last, Seq::<char>::empty())));
                },
            }
        }
    }
}

/// A later key wins: the parameters of the query string `a&b` are those of
/// `a`, overridden by those of `b`.
pub proof fn lemma_query_later_key_wins(a: Seq<char>, b: Seq<char>)
    ensures
        query_map(Some(a + seq!['&'] + b)) == query_map(Some(a)).union_prefer_right(
            query_map(Some(b)),
        ),
{
    lemma_split_concat(a, b, '&');
    lemma_query_pieces_concat(split_on(a, '&'), split_on(b, '&'));
}

/// Parses a query string into its parameters: pairs separated by `&`,
/// keys and values separated by the first `=`, values kept as written
/// (no percent-decoding); a later key overwrites an earlier one.
pub fn parse_query(query: Option<&str>) -> (r: QueryParams)
    ensures
        r.0@ == query_map(
            match query {
                Some(q) => Some(q@),
                None => None,
            },
        ),
{
    let mut map = ParamMap::new();
    match query {
        None => {},
        Some(q) => {
            let chars = chars_of(q);
            let pieces = split_chars(chars.as_slice(), '&');
            let ghost pv = split_on(q@, '&');
            let mut i: usize = 0;
            while i < pieces.len()
                invariant
                    0 <= i <= pieces@.len() == pv.len(),
                    forall|k: int| 0 <= k < pieces@.len() ==> #[trigger] pieces@[k]@ == pv[k],
                    map@ == query_pieces_map(pv.take(i as int)),
                decreases pieces@.len() - i,
            {
                assert(pv.take(i + 1).drop_last() == pv.take(i as int));
                if pieces[i].len() > 0 {
                    let (k, v) = split_pair(pieces[i].as_slice());
                    map.insert(k, v);
                }
                i = i + 1;
            }
            assert(pv.take(pv.len() as int) == pv);
        },
    }
    QueryParams(map)
}

// ---------------------------------------------------------------------------
// Cookies
// ---------------------------------------------------------------------------

/// The map described by the `;`-separated pieces of a `Cookie` header:
/// empty pieces are skipped, each piece is trimmed and split at its first
/// `=`, pieces without `=` are ignored, key and value are trimmed, later
/// keys overwrite earlier ones.
pub open spec fn cookie_pieces_map(pieces: Seq<Seq<char>>) -> Map<Seq<char>, Seq<char>>
    decreases pieces.len(),
{
    if pieces.len() == 0 {
        Map::empty()
    } else {
        let m = cookie_pieces_map(pieces.drop_last());
        let p = trim(pieces.last());
        if pieces.last().len() == 0 {
            m
        } else {
            match index_of(p, '=') {
                Some(i) => m.insert(trim(p.take(i)), trim(p.skip(i + 1))),
                None => m,
            }
        }
    }
}

/// The cookies of a `Cookie` header value.
pub open spec fn cookie_map(value: Seq<char>) -> Map<Seq<char>, Seq<char>> {
    cookie_pieces_map(split_on(value, ';'))
}

/// The trimmed name and value of one cookie piece, if it holds a `=`.
fn cookie_pair(piece: &[char]) -> (r: Option<(String, String)>)
    ensures
        match index_of(trim(piece@), '=') {
            Some(i) => r matches Some((k, v)) && k@ == trim(trim(piece@).take(i)) && v@ == trim(
                trim(piece@).skip(i + 1),
            ),
            None => r is None,
        },
{
    let pair = trim_chars(piece);
    let n = pair.len();
    match find_char(pair.as_slice(), '=') {
        Some(e) => {
            let k = sub_chars(pair.as_slice(), 0, e);
            let v = sub_chars(pair.as_slice(), e + 1, n);
            let k = trim_chars(k.as_slice());
            let v = trim_chars(v.as_slice());
            Some((string_from_chars(k.as_slice()), string_from_chars(v.as_slice())))
        },
        None => None,
    }
}

/// Parses the value of a `Cookie` header into name/value pairs.
pub fn parse_cookie_header(value: &str) -> (r: ParamMap)
    ensures
        r@ == cookie_map(value@),
{
    let mut map = ParamMap::new();
    let chars = chars_of(value);
    let pieces = split_chars(chars.as_slice(), ';');
    let ghost pv = split_on(value@, ';');
    let mut i: usize = 0;
    while i < pieces.len()
        invariant
            0 <= i <= pieces@.len() == pv.len(),
            forall|k: int| 0 <= k < pieces@.len() ==> #[trigger] pieces@[k]@ == pv[k],
            map@ == cookie_pieces_map(pv.take(i as int)),
        decreases pieces@.len() - i,
    {
        assert(pv.take(i + 1).drop_last() == pv.take(i as int));
        if pieces[i].len() > 0 {
            match cookie_pair(pieces[i].as_slice()) {
                Some((k, v)) => map.insert(k, v),
                None => {},
            }
        }
        i = i + 1;
    }
    assert(pv.take(pv.len() as int) == pv);
    map
}

} // verus!

verus! {

// ---------------------------------------------------------------------------
// Percent-encoding and the query string of path parameters
// ---------------------------------------------------------------------------

/// Upper-case hexadecimal digit for `d < 16`.
pub open spec fn hex_upper(d: nat) -> char {
    if d < 10 {
        ((d + 48) as u8) as char
    } else {
        ((d + 55) as u8) as char
    }
}

/// Bytes that stay as they are in percent-encoding.
pub open spec fn is_unreserved(b: u8) -> bool {
    (65 <= b <= 90) || (97 <= b <= 122) || (48 <= b <= 57) || b == 45 || b == 95 || b == 46
        || b == 126
}

/// A byte percent-encoded: unreserved bytes as themselves, others as `%XX`.
pub open spec fn encode_byte(b: u8) -> Seq<char> {
    if is_unreserved(b) {
        seq![b as char]
    } else {
        seq!['%', hex_upper((b / 16) as nat), hex_upper((b % 16) as nat)]
    }
}

/// A byte string percent-encoded.
pub open spec fn url_encode_bytes(bs: Seq<u8>) -> Seq<char>
    decreases bs.len(),
{
    if bs.len() == 0 {
        Seq::<char>::empty()
    } else {
        url_encode_bytes(bs.drop_last()) + encode_byte(bs.last())
    }
}

/// Percent-encoding leaves no `&` and no `=` in its output, so an encoded
/// key or value can never add a pair to a query string or split one.
pub proof fn lemma_encoded_has_no_separators(bs: Seq<u8>)
    ensures
        !url_encode_bytes(bs).contains('&'),
        !url_encode_bytes(bs).contains('='),
    decreases bs.len(),
{
    if bs.len() > 0 {
        lemma_encoded_has_no_separators(bs.drop_last());
        let a = url_encode_bytes(bs.drop_last());
        let e = encode_byte(bs.last());
        assert forall|i: int| 0 <= i < (a + e).len() implies (a + e)[i] != '&' && (a + e)[i]
            != '=' by {
            if i < a.len() {
                assert((a + e)[i] == a[i]);
            } else {
                assert((a + e)[i] == e[i - a.len()]);
            }
        }
        assert(url_encode_bytes(bs) == a + e);
    }
}

fn hex_digit(d: u8) -> (c: char)
    requires
        d < 16,
    ensures
        c == hex_upper(d as nat),
{
    if d < 10 {
        (d + 48) as char
    } else {
        (d + 55) as char
    }
}

/// Percent-encodes the UTF-8 bytes of `s`, keeping `A-Z a-z 0-9 - _ . ~`.
pub fn url_encode(s: &str) -> (r: String)
    ensures
        r@ == url_encode_bytes(vstd::utf8::encode_utf8(s@)),
{
    let bytes = s.as_bytes();
    let mut out: Vec<char> = Vec::new();
    let mut i: usize = 0;
    while i < bytes.len()
        invariant
            0 <= i <= bytes@.len(),
            bytes@ == vstd::utf8::encode_utf8(s@),
            out@ == url_encode_bytes(bytes@.take(i as int)),
        decreases bytes@.len() - i,
    {
        let b = bytes[i];
        assert(bytes@.take(i + 1).drop_last() == bytes@.take(i as int));
        if (65 <= b && b <= 90) || (97 <= b && b <= 122) || (48 <= b && b <= 57) || b == 45 || b
            == 95 || b == 46 || b == 126 {
            out.push(b as char);
        } else {
            out.push('%');
            out.push(hex_digit(b / 16));
            out.push(hex_digit(b % 16));
        }
        i = i + 1;
    }
    assert(bytes@.take(bytes@.len() as int) == bytes@);
    string_from_chars(out.as_slice())
}

/// Lexicographic order on character sequences (the order of `String`).
pub open spec fn lex_le(a: Seq<char>, b: Seq<char>) -> bool
    decreases a.len(),
{
    if a.len() == 0 {
        true
    } else if b.len() == 0 {
        false
    } else if a[0] != b[0] {
        a[0] < b[0]
    } else {
        lex_le(a.drop_first(), b.drop_first())
    }
}

/// Any two strings are ordered one way or the other.
pub proof fn lemma_lex_total(a: Seq<char>, b: Seq<char>)
    ensures
        lex_le(a, b) || lex_le(b, a),
    decreases a.len(),
{
    if a.len() > 0 && b.len() > 0 {
        if a[0] == b[0] {
            lemma_lex_total(a.drop_first(), b.drop_first());
        }
    }
}

/// The string order is transitive.
pub proof fn lemma_lex_trans(a: Seq<char>, b: Seq<char>, c: Seq<char>)
    requires
        lex_le(a, b),
        lex_le(b, c),
    ensures
        lex_le(a, c),
    decreases a.len(),
{
    if a.len() > 0 && b.len() > 0 && c.len() > 0 && a[0] == b[0] && b[0] == c[0] {
        lemma_lex_trans(a.drop_first(), b.drop_first(), c.drop_first());
    }
}

/// The elements of `s` are in non-decreasing order.
pub open spec fn lex_sorted(s: Seq<Seq<char>>) -> bool {
    forall|i: int, j: int| 0 <= i < j < s.len() ==> lex_le(#[trigger] s[i], #[trigger] s[j])
}

fn lex_le_chars(a: &[char], b: &[char]) -> (r: bool)
    ensures
        r == lex_le(a@, b@),
{
    let mut i: usize = 0;
    while i < a.len() && i < b.len() && a[i] == b[i]
        invariant
            0 <= i <= a@.len(),
            i <= b@.len(),
            lex_le(a@, b@) == lex_le(a@.skip(i as int), b@.skip(i as int)),
        decreases a@.len() - i,
    {
        assert(a@.skip(i as int).drop_first() == a@.skip(i + 1));
        assert(b@.skip(i as int).drop_first() == b@.skip(i + 1));
        i = i + 1;
    }
    if i == a.len() {
        true
    } else if i == b.len() {
        false
    } else {
        a[i] < b[i]
    }
}

/// `items` in lexicographic order.
fn sort_lex(items: Vec<Vec<char>>) -> (r: Vec<Vec<char>>)
    ensures
        lex_sorted(views_of(r@)),
        views_of(r@).to_multiset() == views_of(items@).to_multiset(),
{
    let mut sorted: Vec<Vec<char>> = Vec::new();
    let mut rest = items;
    let ghost all = views_of(rest@);
    while rest.len() > 0
        invariant
            lex_sorted(views_of(sorted@)),
            views_of(sorted@).to_multiset().add(views_of(rest@).to_multiset()) == all.to_multiset(),
        decreases rest@.len(),
    {
        let ghost rest_old = rest@;
        let x = rest.pop().unwrap();
        assert(rest_old == rest@.push(x));
        let ghost rest_before = views_of(rest@.push(x));
        assert(views_of(rest@.push(x)) == views_of(rest@).push(x@));
        proof {
            vstd::seq_lib::to_multiset_build(views_of(rest@), x@);
        }
        let mut p: usize = 0;
        while p < sorted.len() && lex_le_chars(sorted[p].as_slice(), x.as_slice())
            invariant
                0 <= p <= sorted@.len(),
                forall|q: int| 0 <= q < p ==> lex_le(#[trigger] views_of(sorted@)[q], x@),
            decreases sorted@.len() - p,
        {
            p = p + 1;
        }
        let ghost before = views_of(sorted@);
        proof {
            if p < sorted@.len() {
                lemma_lex_total(before[p as int], x@);
            }
        }
        sorted.insert(p, x);
        assert(views_of(sorted@) == before.insert(p as int, x@));
        proof {
            before.insert_ensures(p as int, x@);
            let after = views_of(sorted@);
            assert forall|i: int, j: int| 0 <= i < j < after.len() implies lex_le(
                #[trigger] after[i],
                #[trigger] after[j],
            ) by {
                if j < p {
                    assert(after[i] == before[i] && after[j] == before[j]);
                } else if j == p {
                    assert(after[i] == before[i]);
                } else if i == p {
                    assert(after[j] == before[j - 1]);
                    if j - 1 > p {
                        lemma_lex_trans(x@, before[p as int], before[j - 1]);
                    }
                } else if i < p {
                    assert(after[i] == before[i] && after[j] == before[j - 1]);
                } else {
                    assert(after[i] == before[i - 1] && after[j] == before[j - 1]);
                }
            }
        }
        proof {
            broadcast use vstd::multiset::group_multiset_axioms;
            let after = views_of(sorted@);
            assert(after.remove(p as int) =~= before);
            after.to_multiset_ensures();
            assert(after.contains(x@)) by {
                assert(after[p as int] == x@);
            }
            assert(after.to_multiset() =~= before.to_multiset().insert(x@));
            assert(after.to_multiset().add(views_of(rest@).to_multiset()) =~= before.to_multiset().add(
                rest_before.to_multiset(),
            ));
        }
    }
    sorted
}

/// The pieces `key=value` of a pair list, both sides percent-encoded.
pub open spec fn encoded_pairs(ps: Seq<(String, String)>) -> Seq<Seq<char>> {
    ps.map_values(
        |p: (String, String)|
            url_encode_bytes(vstd::utf8::encode_utf8(p.0@)) + seq!['='] + url_encode_bytes(
                vstd::utf8::encode_utf8(p.1@),
            ),
    )
}

/// The query string `k1=v1&k2=v2...` of the parameters, keys and values
/// percent-encoded, pieces in lexicographic order. A value can hold `&` or
/// `=` without adding a pair, since both are encoded.
#[verifier::rlimit(40)]
pub fn path_params_query(params: &ParamMap) -> (r: String)
    ensures
        exists|sorted: Seq<Seq<char>>|
            lex_sorted(sorted) && sorted.to_multiset() == encoded_pairs(
                params.pair_seq(),
            ).to_multiset() && r@ == join(sorted, seq!['&']),
{
    let pairs = params.pairs();
    let ghost want = encoded_pairs(pairs@);
    let mut items: Vec<Vec<char>> = Vec::new();
    let mut i: usize = 0;
    while i < pairs.len()
        invariant
            0 <= i <= pairs@.len(),
            want == encoded_pairs(pairs@),
            views_of(items@) == want.take(i as int),
        decreases pairs@.len() - i,
    {
        let item = encoded_pair(&pairs[i].0, &pairs[i].1);
        assert(item@ == want[i as int]);
        items.push(item);
        assert(views_of(items@) == views_of(items@.drop_last()).push(item@));
        assert(want.take(i + 1) == want.take(i as int).push(want[i as int]));
        i = i + 1;
    }
    assert(want.take(pairs@.len() as int) == want);
    let sorted = sort_lex(items);
    let amp = vec!['&'];
    assert(amp@ == seq!['&']);
    let joined = join_chars(&sorted, 0, amp.as_slice());
    assert(views_of(sorted@).skip(0) == views_of(sorted@));
    let r = string_from_chars(joined.as_slice());
    assert(lex_sorted(views_of(sorted@)) && views_of(sorted@).to_multiset() == encoded_pairs(
        params.pair_seq(),
    ).to_multiset() && r@ == join(views_of(sorted@), seq!['&']));
    r
}

/// `k=v` with both sides percent-encoded.
fn encoded_pair(k: &String, v: &String) -> (r: Vec<char>)
    ensures
        r@ == url_encode_bytes(vstd::utf8::encode_utf8(k@)) + seq!['='] + url_encode_bytes(
            vstd::utf8::encode_utf8(v@),
        ),
{
    let ke = url_encode(k.as_str());
    let ve = url_encode(v.as_str());
    let mut item = chars_of(ke.as_str());
    item.push('=');
    let vc = chars_of(ve.as_str());
    append_chars(&mut item, vc.as_slice());
    item
}

impl Default for PathParams {
    /// No parameters.
    fn default() -> (p: PathParams)
        ensures
            p.0@ == Map::<Seq<char>, Seq<char>>::empty(),
    {
        PathParams(ParamMap::new())
    }
}

impl Default for QueryParams {
    /// No parameters.
    fn default() -> (p: QueryParams)
        ensures
            p.0@ == Map::<Seq<char>, Seq<char>>::empty(),
    {
        QueryParams(ParamMap::new())
    }
}

/// The name that the cookie piece `p` sets, if it holds a `=`: the
/// trimmed text before its first `=`.
pub open spec fn cookie_piece_name(p: Seq<char>) -> Option<Seq<char>> {
    match index_of(trim(p), '=') {
        Some(i) => Some(trim(trim(p).take(i))),
        None => None,
    }
}

/// The value that the cookie piece `p` sets: the trimmed text after its
/// first `=`, which may be empty.
pub open spec fn cookie_piece_value(p: Seq<char>) -> Seq<char> {
    match index_of(trim(p), '=') {
        Some(i) => trim(trim(p).skip(i + 1)),
        None => Seq::empty(),
    }
}

/// A piece that holds a `=` sets its name to its value in the map of the
/// pieces, unless a later piece sets the same name.
proof fn lemma_cookie_pieces_set(pieces: Seq<Seq<char>>, k: int)
    requires
        0 <= k < pieces.len(),
        cookie_piece_name(pieces[k]) is Some,
        forall|k2: int|
            k < k2 < pieces.len() ==> cookie_piece_name(#[trigger] pieces[k2]) != cookie_piece_name(
                pieces[k],
            ),
    ensures
        cookie_pieces_map(pieces).contains_key(cookie_piece_name(pieces[k]).unwrap()),
        cookie_pieces_map(pieces)[cookie_piece_name(pieces[k]).unwrap()] == cookie_piece_value(
            pieces[k],
        ),
    decreases pieces.len(),
{
    let n = pieces.len() - 1;
    let last = pieces[n];
    if last.len() == 0 {
        assert(trim(last) =~= Seq::<char>::empty());
    }
    if k < n {
        let front = pieces.drop_last();
        assert forall|k2: int| k < k2 < front.len() implies cookie_piece_name(#[trigger] front[k2])
            != cookie_piece_name(front[k]) by {
            assert(front[k2] == pieces[k2]);
        }
        lemma_cookie_pieces_set(front, k);
        assert(cookie_piece_name(last) != cookie_piece_name(pieces[k]));
    }
}

/// Every `;`-piece of a `Cookie` header that holds a `=` puts its trimmed
/// name in the cookies with its trimmed value, even an empty one, unless a
/// later piece sets the same name.
pub proof fn lemma_cookie_piece_kept(value: Seq<char>, k: int)
    requires
        0 <= k < split_on(value, ';').len(),
        cookie_piece_name(split_on(value, ';')[k]) is Some,
        forall|k2: int|
            k < k2 < split_on(value, ';').len() ==> cookie_piece_name(
                #[trigger] split_on(value, ';')[k2],
            ) != cookie_piece_name(split_on(value, ';')[k]),
    ensures
        cookie_map(value).contains_key(cookie_piece_name(split_on(value, ';')[k]).unwrap()),
        cookie_map(value)[cookie_piece_name(split_on(value, ';')[k]).unwrap()]
            == cookie_piece_value(split_on(value, ';')[k]),
{
    lemma_cookie_pieces_set(split_on(value, ';'), k);
}

/// Every name in the map of cookie pieces is the name that some piece
/// sets: a piece without `=` adds nothing.
proof fn lemma_cookie_pieces_named(pieces: Seq<Seq<char>>, name: Seq<char>)
    requires
        cookie_pieces_map(pieces).contains_key(name),
    ensures
        exists|k: int| 0 <= k < pieces.len() && cookie_piece_name(#[trigger] pieces[k]) == Some(name),
    decreases pieces.len(),
{
    let n = pieces.len() - 1;
    let last = pieces[n];
    if last.len() == 0 {
        assert(trim(last) =~= Seq::<char>::empty());
    }
    if cookie_piece_name(last) == Some(name) {
        assert(cookie_piece_name(pieces[n]) == Some(name));
    } else {
        let front = pieces.drop_last();
        lemma_cookie_pieces_named(front, name);
        let k = choose|k: int| 0 <= k < front.len() && cookie_piece_name(#[trigger] front[k]) == Some(name);
        assert(pieces[k] == front[k]);
    }
}

/// Every cookie parsed from a `Cookie` header is named by one of its
/// `;`-pieces that holds a `=`.
pub proof fn lemma_cookie_named_by_piece(value: Seq<char>, name: Seq<char>)
    requires
        cookie_map(value).contains_key(name),
    ensures
        exists|k: int|
            0 <= k < split_on(value, ';').len() && cookie_piece_name(
                #[trigger] split_on(value, ';')[k],
            ) == Some(name),
{
    lemma_cookie_pieces_named(split_on(value, ';'), name);
}
} // verus!
