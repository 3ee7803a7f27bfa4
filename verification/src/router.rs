//! A segment trie that maps (method, path pattern) to handlers.
//!
//! A pattern segment is static (`users`), a named parameter (`:id`) or a
//! wildcard (`*`). Matching is greedy per segment: an exact child first,
//! then the first parameter child, then a wildcard child, which captures
//! all remaining segments.
use vstd::prelude::*;
use crate::text::{
    split_on, split_chars, join, join_chars, views_of, first_index, lemma_first_index_found,
    lemma_first_index_absent, lemma_first_index_props, string_from_chars, sub_chars,
    lemma_first_index_update, lemma_first_index_push,
};
use crate::params::{ParamMap, PathParams};

verus! {

broadcast use vstd::seq_lib::group_seq_properties;

/// An HTTP request method.
pub enum Method {
    Get,
    Head,
    Post,
    Put,
    Delete,
    Connect,
    Options,
    Trace,
    Patch,
    /// Any other method token.
    Extension(String),
}

impl Method {
    /// The method's token, as it appears on the request line.
    pub open spec fn name(&self) -> Seq<char> {
        match self {
            Method::Get => "GET"@,
            Method::Head => "HEAD"@,
            Method::Post => "POST"@,
            Method::Put => "PUT"@,
            Method::Delete => "DELETE"@,
            Method::Connect => "CONNECT"@,
            Method::Options => "OPTIONS"@,
            Method::Trace => "TRACE"@,
            Method::Patch => "PATCH"@,
            Method::Extension(s) => s@,
        }
    }

    /// The method's token.
    pub fn as_str(&self) -> (r: &str)
        ensures
            r@ == self.name(),
    {
        match self {
            Method::Get => "GET",
            Method::Head => "HEAD",
            Method::Post => "POST",
            Method::Put => "PUT",
            Method::Delete => "DELETE",
            Method::Connect => "CONNECT",
            Method::Options => "OPTIONS",
            Method::Trace => "TRACE",
            Method::Patch => "PATCH",
            Method::Extension(s) => s.as_str(),
        }
    }

    /// Whether two methods have the same token.
    pub fn same(&self, other: &Method) -> (r: bool)
        ensures
            r == (self.name() == other.name()),
    {
        let a = self.as_str().to_owned();
        let b = other.as_str().to_owned();
        a == b
    }

    /// A copy of this method.
    pub fn duplicate(&self) -> (r: Method)
        ensures
            r.name() == self.name(),
    {
        match self {
            Method::Get => Method::Get,
            Method::Head => Method::Head,
            Method::Post => Method::Post,
            Method::Put => Method::Put,
            Method::Delete => Method::Delete,
            Method::Connect => Method::Connect,
            Method::Options => Method::Options,
            Method::Trace => Method::Trace,
            Method::Patch => Method::Patch,
            Method::Extension(s) => Method::Extension(s.clone()),
        }
    }
}

// ---------------------------------------------------------------------------
// Paths
// ---------------------------------------------------------------------------

/// The non-empty pieces of `s`, in order.
pub open spec fn nonempty_pieces(s: Seq<Seq<char>>) -> Seq<Seq<char>>
    decreases s.len(),
{
    if s.len() == 0 {
        Seq::<Seq<char>>::empty()
    } else if s.last().len() == 0 {
        nonempty_pieces(s.drop_last())
    } else {
        nonempty_pieces(s.drop_last()).push(s.last())
    }
}

/// The segments of a request path: the non-empty pieces between slashes.
pub open spec fn path_segments(path: Seq<char>) -> Seq<Seq<char>> {
    nonempty_pieces(split_on(path, '/'))
}

/// The segments of `path`, as character vectors.
fn segment_chars(path: &str) -> (r: Vec<Vec<char>>)
    ensures
        views_of(r@) == path_segments(path@),
{
    let chars = crate::text::chars_of(path);
    let pieces = split_chars(chars.as_slice(), '/');
    let ghost pv = split_on(path@, '/');
    let mut r: Vec<Vec<char>> = Vec::new();
    let mut i: usize = 0;
    while i < pieces.len()
        invariant
            0 <= i <= pieces@.len() == pv.len(),
            forall|k: int| 0 <= k < pieces@.len() ==> #[trigger] pieces@[k]@ == pv[k],
            views_of(r@) == nonempty_pieces(pv.take(i as int)),
        decreases pieces@.len() - i,
    {
        assert(pv.take(i + 1).drop_last() == pv.take(i as int));
        if pieces[i].len() > 0 {
            let piece = sub_chars(pieces[i].as_slice(), 0, pieces[i].len());
            r.push(piece);
            assert(views_of(r@) == views_of(r@.drop_last()).push(piece@));
        }
        i = i + 1;
    }
    assert(pv.take(pv.len() as int) == pv);
    r
}

/// The segments of `path`: the non-empty pieces between slashes.
pub fn split_path(path: &str) -> (r: Vec<String>)
    ensures
        crate::cors::string_views(r@) == path_segments(path@),
{
    let segs = segment_chars(path);
    let mut r: Vec<String> = Vec::new();
    let mut i: usize = 0;
    while i < segs.len()
        invariant
            0 <= i <= segs@.len(),
            r@.len() == i,
            views_of(segs@) == path_segments(path@),
            crate::cors::string_views(r@) == views_of(segs@).take(i as int),
        decreases segs@.len() - i,
    {
        let ghost before = r@;
        let seg = string_from_chars(segs[i].as_slice());
        assert(seg@ == views_of(segs@)[i as int]);
        r.push(seg);
        assert(r@ == before.push(seg));
        i = i + 1;
        assert forall|k: int| 0 <= k < i implies #[trigger] crate::cors::string_views(r@)[k]
            == views_of(segs@).take(i as int)[k] by {
            if k < i - 1 {
                assert(r@[k] == before[k]);
                assert(crate::cors::string_views(before)[k] == before[k]@);
            }
        }
        assert(crate::cors::string_views(r@) =~= views_of(segs@).take(i as int));
    }
    assert(views_of(segs@).take(segs@.len() as int) == views_of(segs@));
    r
}

/// A segment that names a parameter (`:name`).
pub open spec fn is_param_segment(s: Seq<char>) -> bool {
    s.len() > 0 && s[0] == ':'
}

/// The wildcard segment (`*`).
pub open spec fn is_wild_segment(s: Seq<char>) -> bool {
    s == seq!['*']
}

// ---------------------------------------------------------------------------
// The trie
// ---------------------------------------------------------------------------

/// A node of the route trie.
pub struct Node<H> {
    segment: String,
    param_name: String,
    is_wildcard: bool,
    handlers: Vec<(Method, H)>,
    children: Vec<Node<H>>,
}

/// Index of the handler registered for a method with `m`'s token.
pub open spec fn handler_index<H>(hs: Seq<(Method, H)>, m: Method) -> Option<int> {
    first_index(hs, |e: (Method, H)| e.0.name() == m.name())
}

impl<H> Node<H> {
    /// A childless node with no handlers.
    fn leaf(segment: String, param_name: String, is_wildcard: bool) -> (n: Node<H>)
        ensures
            n.segment == segment,
            n.param_name == param_name,
            n.is_wildcard == is_wildcard,
            n.handlers@.len() == 0,
            n.children@.len() == 0,
    {
        Node { segment, param_name, is_wildcard, handlers: Vec::new(), children: Vec::new() }
    }

    /// The node's kind agrees with its segment: wildcard nodes hold `*`,
    /// parameter nodes hold `:` followed by their name, static nodes neither.
    closed spec fn kind_ok(self) -> bool {
        if self.is_wildcard {
            is_wild_segment(self.segment@) && self.param_name@.len() == 0
        } else if is_param_segment(self.segment@) {
            self.param_name@ == self.segment@.drop_first()
        } else {
            !is_wild_segment(self.segment@) && self.param_name@.len() == 0
        }
    }

    /// Children have distinct segments, kinds agree with segments, a method
    /// has at most one handler, and all of this holds below.
    closed spec fn wf(self) -> bool
        decreases self,
    {
        &&& forall|i: int, j: int|
            0 <= i < j < self.children@.len() ==> #[trigger] self.children@[i].segment@
                != #[trigger] self.children@[j].segment@
        &&& forall|i: int, j: int|
            0 <= i < j < self.handlers@.len() ==> #[trigger] self.handlers@[i].0.name()
                != #[trigger] self.handlers@[j].0.name()
        &&& forall|i: int|
            0 <= i < self.children@.len() ==> (#[trigger] self.children@[i]).kind_ok()
                && self.children@[i].wf()
    }

    /// The child reached by following only exact segment matches.
    closed spec fn exact_walk(self, segs: Seq<Seq<char>>, i: int) -> Option<Node<H>>
        decreases segs.len() - i,
    {
        if i >= segs.len() {
            Some(self)
        } else {
            match first_index(self.children@, |c: Node<H>| c.segment@ == segs[i]) {
                Some(k) => self.children@[k].exact_walk(segs, i + 1),
                None => None,
            }
        }
    }

    /// Greedy matching of `segs[i..]` from this node, collecting parameters
    /// into `ps`. The flag tells whether a wildcard ended the walk.
    closed spec fn walk(
        self,
        segs: Seq<Seq<char>>,
        i: int,
        ps: Map<Seq<char>, Seq<char>>,
    ) -> Option<(Node<H>, Map<Seq<char>, Seq<char>>, bool)>
        decreases segs.len() - i,
    {
        if i >= segs.len() {
            Some((self, ps, false))
        } else {
            let cs = self.children@;
            match first_index(cs, |c: Node<H>| c.segment@ == segs[i]) {
                Some(k) => cs[k].walk(segs, i + 1, ps),
                None => match first_index(cs, |c: Node<H>| c.param_name@.len() > 0) {
                    Some(k) => cs[k].walk(segs, i + 1, ps.insert(cs[k].param_name@, segs[i])),
                    None => match first_index(cs, |c: Node<H>| c.is_wildcard) {
                        Some(k) => Some(
                            (cs[k], ps.insert(seq!['*'], join(segs.skip(i), seq!['/'])), true),
                        ),
                        None => None,
                    },
                },
            }
        }
    }

    proof fn lemma_exact_walk_is_walk(
        self,
        segs: Seq<Seq<char>>,
        i: int,
        ps: Map<Seq<char>, Seq<char>>,
    )
        requires
            0 <= i <= segs.len(),
            self.exact_walk(segs, i) is Some,
        ensures
            self.walk(segs, i, ps) == Some((self.exact_walk(segs, i).unwrap(), ps, false)),
        decreases segs.len() - i,
    {
        if i < segs.len() {
            let k = first_index(self.children@, |c: Node<H>| c.segment@ == segs[i]).unwrap();
            self.children@[k].lemma_exact_walk_is_walk(segs, i + 1, ps);
        }
    }

    /// Finds the handler for `method` in this node.
    fn find_handler(&self, method: &Method) -> (r: Option<usize>)
        ensures
            r matches Some(j) ==> j < self.handlers@.len() && handler_index(self.handlers@, *method)
                == Some(j as int),
            r is None ==> handler_index(self.handlers@, *method) is None,
    {
        let ghost p = |e: (Method, H)| e.0.name() == method.name();
        let mut j: usize = 0;
        while j < self.handlers.len()
            invariant
                0 <= j <= self.handlers@.len(),
                p == (|e: (Method, H)| e.0.name() == method.name()),
                forall|q: int| 0 <= q < j ==> !p(#[trigger] self.handlers@[q]),
            decreases self.handlers@.len() - j,
        {
            if self.handlers[j].0.same(method) {
                proof {
                    lemma_first_index_found(self.handlers@, p, j as int);
                }
                return Some(j);
            }
            j = j + 1;
        }
        proof {
            lemma_first_index_absent(self.handlers@, p);
        }
        None
    }

    /// Index of the first child whose segment is `seg`.
    fn child_with_segment(&self, seg: &String) -> (r: Option<usize>)
        ensures
            r matches Some(k) ==> k < self.children@.len() && first_index(
                self.children@,
                |c: Node<H>| c.segment@ == seg@,
            ) == Some(k as int),
            r is None ==> first_index(self.children@, |c: Node<H>| c.segment@ == seg@) is None,
    {
        let ghost p = |c: Node<H>| c.segment@ == seg@;
        let mut k: usize = 0;
        while k < self.children.len()
            invariant
                0 <= k <= self.children@.len(),
                p == (|c: Node<H>| c.segment@ == seg@),
                forall|q: int| 0 <= q < k ==> !p(#[trigger] self.children@[q]),
            decreases self.children@.len() - k,
        {
            if self.children[k].segment == *seg {
                proof {
                    lemma_first_index_found(self.children@, p, k as int);
                }
                return Some(k);
            }
            k = k + 1;
        }
        proof {
            lemma_first_index_absent(self.children@, p);
        }
        None
    }

    /// Index of the first child with a non-empty parameter name.
    fn param_child(&self) -> (r: Option<usize>)
        ensures
            r matches Some(k) ==> k < self.children@.len() && first_index(
                self.children@,
                |c: Node<H>| c.param_name@.len() > 0,
            ) == Some(k as int),
            r is None ==> first_index(self.children@, |c: Node<H>| c.param_name@.len() > 0) is None,
    {
        let ghost p = |c: Node<H>| c.param_name@.len() > 0;
        let mut k: usize = 0;
        while k < self.children.len()
            invariant
                0 <= k <= self.children@.len(),
                p == (|c: Node<H>| c.param_name@.len() > 0),
                forall|q: int| 0 <= q < k ==> !p(#[trigger] self.children@[q]),
            decreases self.children@.len() - k,
        {
            if !self.children[k].param_name.as_str().is_empty() {
                proof {
                    lemma_first_index_found(self.children@, p, k as int);
                }
                return Some(k);
            }
            k = k + 1;
        }
        proof {
            lemma_first_index_absent(self.children@, p);
        }
        None
    }

    /// Index of the first wildcard child.
    fn wildcard_child(&self) -> (r: Option<usize>)
        ensures
            r matches Some(k) ==> k < self.children@.len() && first_index(
                self.children@,
                |c: Node<H>| c.is_wildcard,
            ) == Some(k as int),
            r is None ==> first_index(self.children@, |c: Node<H>| c.is_wildcard) is None,
    {
        let ghost p = |c: Node<H>| c.is_wildcard;
        let mut k: usize = 0;
        while k < self.children.len()
            invariant
                0 <= k <= self.children@.len(),
                p == (|c: Node<H>| c.is_wildcard),
                forall|q: int| 0 <= q < k ==> !p(#[trigger] self.children@[q]),
            decreases self.children@.len() - k,
        {
            if self.children[k].is_wildcard {
                proof {
                    lemma_first_index_found(self.children@, p, k as int);
                }
                return Some(k);
            }
            k = k + 1;
        }
        proof {
            lemma_first_index_absent(self.children@, p);
        }
        None
    }

    /// Index of the first child whose parameter name is `name`.
    fn child_with_param_name(&self, name: &String) -> (r: Option<usize>)
        ensures
            r matches Some(k) ==> k < self.children@.len() && first_index(
                self.children@,
                |c: Node<H>| c.param_name@ == name@,
            ) == Some(k as int),
            r is None ==> first_index(self.children@, |c: Node<H>| c.param_name@ == name@) is None,
    {
        let ghost p = |c: Node<H>| c.param_name@ == name@;
        let mut k: usize = 0;
        while k < self.children.len()
            invariant
                0 <= k <= self.children@.len(),
                p == (|c: Node<H>| c.param_name@ == name@),
                forall|q: int| 0 <= q < k ==> !p(#[trigger] self.children@[q]),
            decreases self.children@.len() - k,
        {
            if self.children[k].param_name == *name {
                proof {
                    lemma_first_index_found(self.children@, p, k as int);
                }
                return Some(k);
            }
            k = k + 1;
        }
        proof {
            lemma_first_index_absent(self.children@, p);
        }
        None
    }

    /// The child that registering a route descends into for the segment
    /// `seg`: the first wildcard child for `*`, the first child with the
    /// same parameter name for `:name`, else the first child holding `seg`.
    closed spec fn chosen_child(self, seg: Seq<char>) -> Option<int> {
        if is_wild_segment(seg) {
            first_index(self.children@, |c: Node<H>| c.is_wildcard)
        } else if is_param_segment(seg) {
            first_index(self.children@, |c: Node<H>| c.param_name@ == seg.drop_first())
        } else {
            first_index(self.children@, |c: Node<H>| c.segment@ == seg)
        }
    }

    /// A new childless node without handlers for the segment `seg`.
    closed spec fn is_fresh(self, seg: Seq<char>) -> bool {
        &&& self.segment@ == seg
        &&& self.is_wildcard == is_wild_segment(seg)
        &&& self.param_name@ == (if !is_wild_segment(seg) && is_param_segment(seg) {
            seg.drop_first()
        } else {
            Seq::<char>::empty()
        })
        &&& self.handlers@.len() == 0
        &&& self.children@.len() == 0
    }

    /// `new` is this node after registering `(m, h)` under `sv[i..]`: the
    /// chosen child is descended into, or a fresh one appended when there
    /// is none, and at the end of the pattern the handler of `m` is
    /// replaced in place or appended. Nothing else changes.
    closed spec fn inserted(self, new: Node<H>, sv: Seq<Seq<char>>, i: int, m: Method, h: H) -> bool
        decreases sv.len() - i,
    {
        &&& new.segment@ == self.segment@
        &&& new.param_name@ == self.param_name@
        &&& new.is_wildcard == self.is_wildcard
        &&& if i >= sv.len() {
            &&& new.children@ == self.children@
            &&& match handler_index(self.handlers@, m) {
                Some(j) => new.handlers@ == self.handlers@.update(j, (m, h)),
                None => new.handlers@ == self.handlers@.push((m, h)),
            }
        } else {
            &&& new.handlers@ == self.handlers@
            &&& match self.chosen_child(sv[i]) {
                Some(k) => {
                    &&& new.children@.len() == self.children@.len()
                    &&& forall|q: int|
                        0 <= q < self.children@.len() && q != k ==> #[trigger] new.children@[q]
                            == self.children@[q]
                    &&& 0 <= k < self.children@.len()
                    &&& self.children@[k].inserted(new.children@[k], sv, i + 1, m, h)
                },
                None => {
                    &&& new.children@.len() == self.children@.len() + 1
                    &&& forall|q: int|
                        0 <= q < self.children@.len() ==> #[trigger] new.children@[q]
                            == self.children@[q]
                    &&& exists|f: Node<H>|
                        #[trigger] f.is_fresh(sv[i]) && f.inserted(
                            new.children@[self.children@.len() as int],
                            sv,
                            i + 1,
                            m,
                            h,
                        )
                },
            }
        }
    }

    /// Registers `handler` for `method` under `segs[i..]` below this node,
    /// creating the nodes that are missing.
    fn insert_at(&mut self, segs: &Vec<Vec<char>>, i: usize, method: Method, handler: H)
        requires
            old(self).wf(),
            i <= segs@.len(),
        ensures
            final(self).wf(),
            final(self).segment == old(self).segment,
            final(self).param_name == old(self).param_name,
            final(self).is_wildcard == old(self).is_wildcard,
            old(self).inserted(*final(self), views_of(segs@), i as int, method, handler),
        decreases segs@.len() - i,
    {
        let ghost sv = views_of(segs@);
        let ghost old_self = *self;
        if i == segs.len() {
            let ghost p = |e: (Method, H)| e.0.name() == method.name();
            match self.find_handler(&method) {
                Some(j) => {
                    proof {
                        lemma_first_index_props(self.handlers@, p);
                    }
                    self.handlers.set(j, (method, handler));
                    proof {
                        lemma_first_index_found(self.handlers@, p, j as int);
                    }
                },
                None => {
                    proof {
                        lemma_first_index_props(self.handlers@, p);
                    }
                    self.handlers.push((method, handler));
                    proof {
                        lemma_first_index_found(self.handlers@, p, self.handlers@.len() - 1);
                    }
                },
            }
            proof {
                assert(old_self.inserted(*self, sv, i as int, method, handler));
            }
            return;
        }
        let seg = &segs[i];
        let seg_string = string_from_chars(seg.as_slice());
        let ghost exact = |c: Node<H>| c.segment@ == sv[i as int];
        assert(seg_string@ == sv[i as int]);
        let is_wild = seg.len() == 1 && seg[0] == '*';
        let is_param = seg.len() > 0 && seg[0] == ':';
        assert(sv[i as int] == seg@);
        if is_wild {
            assert(seg@ =~= seq!['*']);
        }
        assert(is_wild_segment(sv[i as int]) ==> is_wild);
        assert(is_param == is_param_segment(sv[i as int]));
        let found: Option<usize>;
        let mut fresh: Node<H>;
        if is_wild {
            found = self.wildcard_child();
            proof {
                lemma_first_index_props(self.children@, |c: Node<H>| c.is_wildcard);
            }
            fresh = Node::leaf(seg_string, String::new(), true);
        } else if is_param {
            let name = string_from_chars(sub_chars(seg.as_slice(), 1, seg.len()).as_slice());
            assert(name@ == sv[i as int].drop_first());
            found = self.child_with_param_name(&name);
            proof {
                lemma_first_index_props(self.children@, |c: Node<H>| c.param_name@ == name@);
            }
            fresh = Node::leaf(seg_string, name, false);
        } else {
            found = self.child_with_segment(&seg_string);
            proof {
                lemma_first_index_props(self.children@, exact);
            }
            fresh = Node::leaf(seg_string, String::new(), false);
        }
        let ghost old_children = self.children@;
        assert(self.chosen_child(sv[i as int]) == match found {
            Some(k) => Some(k as int),
            None => None::<int>,
        }) by {
            if !is_wild && is_param {
                let name_now = sv[i as int].drop_first();
                assert((|c: Node<H>| c.param_name@ == fresh.param_name@) =~= (|c: Node<H>|
                    c.param_name@ == name_now));
            }
            if !is_wild && !is_param {
                assert((|c: Node<H>| c.segment@ == fresh.segment@) =~= exact);
            }
        }
        match found {
            Some(k) => {
                let mut child = self.children.remove(k);
                assert(child == old_children[k as int]);
                let ghost child0 = child;
                child.insert_at(segs, i + 1, method, handler);
                self.children.insert(k, child);
                assert(self.children@ == old_children.update(k as int, child));
                assert(old_self.inserted(*self, sv, i as int, method, handler)) by {
                    assert(child0.inserted(child, sv, i + 1, method, handler));
                }
                proof {
                    assert forall|q: int| 0 <= q < self.children@.len() implies (
                    #[trigger] self.children@[q]).kind_ok() && self.children@[q].wf() by {
                        if q != k {
                            assert(self.children@[q] == old_children[q]);
                        }
                    }
                }
            },
            None => {
                proof {
                    assert forall|q: int| 0 <= q < old_children.len() implies #[trigger] old_children[q].segment@
                        != fresh.segment@ by {
                        let c = old_children[q];
                        assert(c.kind_ok());
                        if is_param {
                            assert(c.param_name@ != fresh.param_name@);
                        }
                    }
                }
                let ghost fresh0 = fresh;
                assert(fresh0.is_fresh(sv[i as int]));
                fresh.insert_at(segs, i + 1, method, handler);
                self.children.push(fresh);
                assert(old_self.inserted(*self, sv, i as int, method, handler)) by {
                    assert(self.children@[old_children.len() as int] == fresh);
                    assert(fresh0.inserted(fresh, sv, i + 1, method, handler));
                    assert(forall|q: int|
                        0 <= q < old_children.len() ==> #[trigger] self.children@[q] == old_children[q]);
                }
                proof {
                    let n = self.children@.len() - 1;
                    assert(self.children@[n] == fresh);
                    assert forall|q: int| 0 <= q < self.children@.len() implies (
                    #[trigger] self.children@[q]).kind_ok() && self.children@[q].wf() by {
                        if q < n {
                            assert(self.children@[q] == old_children[q]);
                        } else {
                            assert(fresh.kind_ok());
                        }
                    }
                    assert forall|a: int, b: int|
                        0 <= a < b < self.children@.len() implies #[trigger] self.children@[a].segment@
                        != #[trigger] self.children@[b].segment@ by {
                        if b < n {
                            assert(self.children@[a] == old_children[a]);
                            assert(self.children@[b] == old_children[b]);
                        } else {
                            assert(self.children@[a] == old_children[a]);
                        }
                    }
                }
            },
        }
    }
}

/// Every exact walk in `a` that does not spell `sv[i..]` exists in `b` too
/// and ends at a node with the same handlers.
closed spec fn walks_framed<H>(a: Node<H>, b: Node<H>, sv: Seq<Seq<char>>, i: int) -> bool {
    forall|qs: Seq<Seq<char>>, j: int|
        #![trigger a.exact_walk(qs, j)]
        0 <= j <= qs.len() && a.exact_walk(qs, j) is Some && sv.subrange(i, sv.len() as int)
            != qs.subrange(j, qs.len() as int) ==> b.exact_walk(qs, j) is Some && b.exact_walk(
            qs,
            j,
        ).unwrap().handlers@ == a.exact_walk(qs, j).unwrap().handlers@
}

/// When `a` spells `sv[i..]`, so does `b`, and the node reached keeps the
/// handlers of every method other than `m`.
closed spec fn others_kept<H>(a: Node<H>, b: Node<H>, sv: Seq<Seq<char>>, i: int, m: Method) -> bool {
    a.exact_walk(sv, i) is Some ==> {
        &&& b.exact_walk(sv, i) is Some
        &&& forall|m2: Method|
            #![trigger handler_index(a.exact_walk(sv, i).unwrap().handlers@, m2)]
            m2.name() != m.name() ==> handler_index(b.exact_walk(sv, i).unwrap().handlers@, m2)
                == handler_index(a.exact_walk(sv, i).unwrap().handlers@, m2) && match handler_index(
                a.exact_walk(sv, i).unwrap().handlers@,
                m2,
            ) {
                Some(h) => b.exact_walk(sv, i).unwrap().handlers@[h] == a.exact_walk(
                    sv,
                    i,
                ).unwrap().handlers@[h],
                None => true,
            }
    }
}

/// The handlers of `b` are those of `a` with the handler of `m` set or
/// added: the handlers of other methods stay.
proof fn lemma_handlers_kept<H>(a: Seq<(Method, H)>, b: Seq<(Method, H)>, m: Method, x: (Method, H), m2: Method)
    requires
        x.0.name() == m.name(),
        m2.name() != m.name(),
        match handler_index(a, m) {
            Some(j) => 0 <= j < a.len() && b == a.update(j, x),
            None => b == a.push(x),
        },
    ensures
        handler_index(b, m2) == handler_index(a, m2),
        handler_index(a, m2) matches Some(h) ==> b[h] == a[h],
{
    let p = |e: (Method, H)| e.0.name() == m2.name();
    let pm = |e: (Method, H)| e.0.name() == m.name();
    lemma_first_index_props(a, p);
    lemma_first_index_props(a, pm);
    match handler_index(a, m) {
        Some(j) => {
            lemma_first_index_update(a, p, j, x);
        },
        None => {
            lemma_first_index_push(a, p, x);
        },
    }
}

/// A node whose children did not change keeps every exact walk that
/// goes on into its children, and its pattern was `sv` itself.
proof fn lemma_framed_here<H>(a: Node<H>, b: Node<H>, sv: Seq<Seq<char>>, i: int)
    requires
        i == sv.len(),
        b.children@ == a.children@,
    ensures
        walks_framed(a, b, sv, i),
{
    assert forall|qs: Seq<Seq<char>>, j: int|
        #![trigger a.exact_walk(qs, j)]
        0 <= j <= qs.len() && a.exact_walk(qs, j) is Some && sv.subrange(i, sv.len() as int)
            != qs.subrange(j, qs.len() as int) implies b.exact_walk(qs, j) is Some && b.exact_walk(
        qs,
        j,
    ).unwrap().handlers@ == a.exact_walk(qs, j).unwrap().handlers@ by {
        assert(sv.subrange(i, sv.len() as int) =~= Seq::<Seq<char>>::empty());
        if j == qs.len() {
            assert(qs.subrange(j, qs.len() as int) =~= Seq::<Seq<char>>::empty());
        }
        assert(b.exact_walk(qs, j) == a.exact_walk(qs, j));
    }
}

/// Replacing the child `k`, the one that spells `sv[i]`, by a child that
/// keeps the walks not spelling `sv[i + 1..]` keeps the walks of the node
/// that do not spell `sv[i..]`.
proof fn lemma_framed_update<H>(a: Node<H>, b: Node<H>, k: int, sv: Seq<Seq<char>>, i: int)
    requires
        0 <= i < sv.len(),
        0 <= k < a.children@.len(),
        b.handlers@ == a.handlers@,
        b.children@ == a.children@.update(k, b.children@[k]),
        b.children@[k].segment@ == a.children@[k].segment@,
        a.children@[k].segment@ == sv[i],
        walks_framed(a.children@[k], b.children@[k], sv, i + 1),
    ensures
        walks_framed(a, b, sv, i),
{
    assert forall|qs: Seq<Seq<char>>, j: int|
        #![trigger a.exact_walk(qs, j)]
        0 <= j <= qs.len() && a.exact_walk(qs, j) is Some && sv.subrange(i, sv.len() as int)
            != qs.subrange(j, qs.len() as int) implies b.exact_walk(qs, j) is Some && b.exact_walk(
        qs,
        j,
    ).unwrap().handlers@ == a.exact_walk(qs, j).unwrap().handlers@ by {
        if j < qs.len() {
            let p = |c: Node<H>| c.segment@ == qs[j];
            lemma_first_index_update(a.children@, p, k, b.children@[k]);
            let e = first_index(a.children@, p).unwrap();
            lemma_first_index_props(a.children@, p);
            if e == k {
                assert(qs[j] == sv[i]);
                assert(sv.subrange(i, sv.len() as int) == seq![sv[i]] + sv.subrange(i + 1, sv.len() as int));
                assert(qs.subrange(j, qs.len() as int) == seq![qs[j]] + qs.subrange(j + 1, qs.len() as int));
                assert(sv.subrange(i + 1, sv.len() as int) != qs.subrange(j + 1, qs.len() as int));
                assert(a.children@[k].exact_walk(qs, j + 1) == a.exact_walk(qs, j));
            } else {
                assert(b.children@[e] == a.children@[e]);
            }
        }
    }
}

/// Adding a child keeps every exact walk of the node.
proof fn lemma_framed_push<H>(a: Node<H>, b: Node<H>, sv: Seq<Seq<char>>, i: int)
    requires
        b.handlers@ == a.handlers@,
        b.children@.len() == a.children@.len() + 1,
        b.children@ == a.children@.push(b.children@[a.children@.len() as int]),
    ensures
        walks_framed(a, b, sv, i),
{
    assert forall|qs: Seq<Seq<char>>, j: int|
        #![trigger a.exact_walk(qs, j)]
        0 <= j <= qs.len() && a.exact_walk(qs, j) is Some && sv.subrange(i, sv.len() as int)
            != qs.subrange(j, qs.len() as int) implies b.exact_walk(qs, j) is Some && b.exact_walk(
        qs,
        j,
    ).unwrap().handlers@ == a.exact_walk(qs, j).unwrap().handlers@ by {
        if j < qs.len() {
            let p = |c: Node<H>| c.segment@ == qs[j];
            lemma_first_index_push(a.children@, p, b.children@[a.children@.len() as int]);
            let e = first_index(a.children@, p).unwrap();
            lemma_first_index_props(a.children@, p);
            assert(b.children@[e] == a.children@[e]);
        }
    }
}

/// Replacing the child `k`, the only one that spells `sv[i]`, by a child
/// that keeps the other methods of `sv[i + 1..]` keeps them at this node.
proof fn lemma_kept_update<H>(a: Node<H>, b: Node<H>, k: int, sv: Seq<Seq<char>>, i: int, m: Method)
    requires
        0 <= i < sv.len(),
        0 <= k < a.children@.len(),
        b.children@ == a.children@.update(k, b.children@[k]),
        b.children@[k].segment@ == a.children@[k].segment@,
        first_index(a.children@, |c: Node<H>| c.segment@ == sv[i]) == Some(k),
        others_kept(a.children@[k], b.children@[k], sv, i + 1, m),
    ensures
        others_kept(a, b, sv, i, m),
{
    let p = |c: Node<H>| c.segment@ == sv[i];
    lemma_first_index_update(a.children@, p, k, b.children@[k]);
}

/// The handlers of the node that `sv` ends at change for `m` only.
proof fn lemma_kept_here<H>(a: Node<H>, b: Node<H>, sv: Seq<Seq<char>>, i: int, m: Method, x: (Method, H))
    requires
        i == sv.len(),
        x.0.name() == m.name(),
        match handler_index(a.handlers@, m) {
            Some(j) => 0 <= j < a.handlers@.len() && b.handlers@ == a.handlers@.update(j, x),
            None => b.handlers@ == a.handlers@.push(x),
        },
    ensures
        others_kept(a, b, sv, i, m),
{
    assert forall|m2: Method|
        #![trigger handler_index(a.exact_walk(sv, i).unwrap().handlers@, m2)]
        m2.name() != m.name() implies handler_index(b.exact_walk(sv, i).unwrap().handlers@, m2)
            == handler_index(a.exact_walk(sv, i).unwrap().handlers@, m2) && match handler_index(
            a.exact_walk(sv, i).unwrap().handlers@,
            m2,
        ) {
            Some(h) => b.exact_walk(sv, i).unwrap().handlers@[h] == a.exact_walk(
                sv,
                i,
            ).unwrap().handlers@[h],
            None => true,
        } by {
        lemma_handlers_kept(a.handlers@, b.handlers@, m, x, m2);
    }
}

impl<H> Node<H> {
    /// Registering keeps a node's segment, parameter name and kind.
    proof fn lemma_inserted_keeps_kind(self, new: Node<H>, sv: Seq<Seq<char>>, i: int, m: Method, h: H)
        requires
            self.inserted(new, sv, i, m, h),
        ensures
            new.segment@ == self.segment@,
            new.param_name@ == self.param_name@,
            new.is_wildcard == self.is_wildcard,
    {
    }

    /// What registering `(m, h)` under `sv[i..]` does to the exact walks:
    /// the pattern is spelled out down to a node holding `h` for `m`, the
    /// other walks keep their handlers, and the other methods of the
    /// pattern keep theirs.
    proof fn lemma_inserted_walks(self, new: Node<H>, sv: Seq<Seq<char>>, i: int, m: Method, h: H)
        requires
            self.wf(),
            0 <= i <= sv.len(),
            self.inserted(new, sv, i, m, h),
            forall|j: int| i <= j < sv.len() ==> #[trigger] sv[j] != seq![':'],
        ensures
            new.exact_walk(sv, i) matches Some(t) && handler_index(t.handlers@, m) matches Some(
                x,
            ) && 0 <= x < t.handlers@.len() && t.handlers@[x].1 == h,
            new.segment@ == self.segment@,
            walks_framed(self, new, sv, i),
            others_kept(self, new, sv, i, m),
        decreases sv.len() - i,
    {
        if i >= sv.len() {
            let p = |e: (Method, H)| e.0.name() == m.name();
            lemma_first_index_props(self.handlers@, p);
            match handler_index(self.handlers@, m) {
                Some(j) => {
                    assert forall|q: int| 0 <= q < j implies !p(#[trigger] new.handlers@[q]) by {
                        assert(new.handlers@[q] == self.handlers@[q]);
                    }
                    lemma_first_index_found(new.handlers@, p, j);
                },
                None => {
                    let n = self.handlers@.len() as int;
                    assert forall|q: int| 0 <= q < n implies !p(#[trigger] new.handlers@[q]) by {
                        assert(new.handlers@[q] == self.handlers@[q]);
                    }
                    lemma_first_index_found(new.handlers@, p, n);
                },
            }
            lemma_framed_here(self, new, sv, i);
            lemma_kept_here(self, new, sv, i, m, (m, h));
        } else {
            let seg = sv[i];
            let exact = |c: Node<H>| c.segment@ == sv[i];
            assert(exact =~= (|c: Node<H>| c.segment@ == seg));
            let cs = self.children@;
            let ncs = new.children@;
            assert(is_param_segment(seg) ==> seg =~= seq![':'] + seg.drop_first());
            assert(is_param_segment(seg) ==> seg.len() > 1) by {
                if is_param_segment(seg) && seg.len() == 1 {
                    assert(seg =~= seq![':']);
                }
            }
            match self.chosen_child(seg) {
                Some(k) => {
                    if is_wild_segment(seg) {
                        lemma_first_index_props(cs, |c: Node<H>| c.is_wildcard);
                    } else if is_param_segment(seg) {
                        lemma_first_index_props(cs, |c: Node<H>| c.param_name@ == seg.drop_first());
                    } else {
                        lemma_first_index_props(cs, exact);
                    }
                    assert(cs[k].kind_ok());
                    if is_wild_segment(seg) {
                        assert(cs[k].is_wildcard);
                        assert(cs[k].segment@ == seg);
                    } else if is_param_segment(seg) {
                        assert(cs[k].param_name@ == seg.drop_first());
                        assert(cs[k].param_name@.len() > 0);
                        assert(!cs[k].is_wildcard);
                        assert(is_param_segment(cs[k].segment@));
                        assert(cs[k].segment@ =~= seq![':'] + cs[k].param_name@);
                        assert(cs[k].segment@ == seg);
                    }
                    assert(exact(cs[k]));
                    assert forall|q: int| 0 <= q < k implies !exact(#[trigger] cs[q]) by {
                        assert(cs[q].segment@ != cs[k].segment@);
                    }
                    lemma_first_index_found(cs, exact, k);
                    assert(ncs =~= cs.update(k, ncs[k]));
                    cs[k].lemma_inserted_walks(ncs[k], sv, i + 1, m, h);
                    lemma_first_index_update(cs, exact, k, ncs[k]);
                    lemma_framed_update(self, new, k, sv, i);
                    lemma_kept_update(self, new, k, sv, i, m);
                },
                None => {
                    let n = cs.len() as int;
                    let f = choose|f: Node<H>|
                        #[trigger] f.is_fresh(seg) && f.inserted(ncs[n], sv, i + 1, m, h);
                    assert(f.wf());
                    f.lemma_inserted_walks(ncs[n], sv, i + 1, m, h);
                    if is_wild_segment(seg) {
                        lemma_first_index_props(cs, |c: Node<H>| c.is_wildcard);
                    } else if is_param_segment(seg) {
                        lemma_first_index_props(cs, |c: Node<H>| c.param_name@ == seg.drop_first());
                    } else {
                        lemma_first_index_props(cs, exact);
                    }
                    assert forall|q: int| 0 <= q < n implies !exact(#[trigger] cs[q]) by {
                        assert(cs[q].kind_ok());
                        if exact(cs[q]) {
                            assert(cs[q].segment@ == seg);
                            if is_wild_segment(seg) {
                                assert(!cs[q].is_wildcard);
                                assert(!is_param_segment(seg));
                            } else if is_param_segment(seg) {
                                assert(!cs[q].is_wildcard);
                                assert(cs[q].param_name@ == seg.drop_first());
                            }
                        }
                    }
                    lemma_first_index_absent(cs, exact);
                    assert(ncs =~= cs.push(ncs[n]));
                    lemma_first_index_push(cs, exact, ncs[n]);
                    lemma_framed_push(self, new, sv, i);
                },
            }
        }
    }
}

/// No segment of `path` is a bare `:`, a parameter without a name.
pub open spec fn no_bare_colon(path: Seq<char>) -> bool {
    forall|j: int| 0 <= j < path_segments(path).len() ==> #[trigger] path_segments(path)[j] != seq![':']
}

/// Routes requests by method and path to values of type `H`.
pub struct Router<H> {
    root: Node<H>,
}

impl<H> Router<H> {
    /// The trie is well formed.
    pub closed spec fn wf(self) -> bool {
        self.root.wf()
    }

    /// What matching `method` and `path` yields: the handler and the
    /// captured parameters, or nothing.
    pub closed spec fn route(self, method: Method, path: Seq<char>) -> Option<
        (H, Map<Seq<char>, Seq<char>>),
    > {
        match self.root.walk(path_segments(path), 0, Map::empty()) {
            Some((n, ps, _)) => match handler_index(n.handlers@, method) {
                Some(j) => Some((n.handlers@[j].1, ps)),
                None => None,
            },
            None => None,
        }
    }

    /// The trie holds a node for every segment of `path` as written, one
    /// below the other: `path` is spelled out, segment by segment.
    pub closed spec fn spells(self, path: Seq<char>) -> bool {
        self.root.exact_walk(path_segments(path), 0) is Some
    }

    /// Whether any route is registered for `path`, whatever its method:
    /// some registered pattern matches it segment by segment.
    pub closed spec fn knows_path(self, path: Seq<char>) -> bool {
        reaches(self.root, path_segments(path), 0)
    }

    /// Some route registered so far starts with the segment `seg`: the
    /// root has a child for it.
    pub closed spec fn has_branch(self, seg: Seq<char>) -> bool {
        exists|k: int| 0 <= k < self.root.children@.len() && #[trigger] self.root.children@[k].segment@ == seg
    }

    /// No route is registered: the trie is a bare root.
    pub closed spec fn is_empty(self) -> bool {
        self.root.children@.len() == 0 && self.root.handlers@.len() == 0
    }

    /// An empty router.
    pub fn new() -> (r: Router<H>)
        ensures
            r.wf(),
            r.is_empty(),
            forall|seg: Seq<char>| !r.has_branch(seg),
            forall|m: Method, p: Seq<char>| r.route(m, p) is None,
            forall|p: Seq<char>| !r.knows_path(p),
    {
        let r = Router { root: Node::leaf(String::new(), String::new(), false) };
        assert forall|m: Method, p: Seq<char>| r.route(m, p) is None by {
            let segs = path_segments(p);
            if segs.len() > 0 {
                lemma_first_index_absent(r.root.children@, |c: Node<H>| c.segment@ == segs[0]);
                lemma_first_index_absent(r.root.children@, |c: Node<H>| c.param_name@.len() > 0);
                lemma_first_index_absent(r.root.children@, |c: Node<H>| c.is_wildcard);
            }
        }
        assert forall|p: Seq<char>| !r.knows_path(p) by {
            let segs = path_segments(p);
            if segs.len() > 0 {
                lemma_first_index_absent(r.root.children@, |c: Node<H>| c.segment@ == segs[0]);
                lemma_first_index_absent(r.root.children@, |c: Node<H>| c.param_name@.len() > 0);
                lemma_first_index_absent(r.root.children@, |c: Node<H>| c.is_wildcard);
            }
        }
        r
    }

    /// `new` is this router after registering `handler` for `method` and
    /// the pattern `path`: the trie is walked segment by segment as the
    /// pattern is written, missing nodes are appended, and the handler of
    /// `method` at the last node is replaced or appended. The rest of the
    /// trie stays as it was.
    pub closed spec fn inserts_into(self, new: Router<H>, method: Method, path: Seq<char>, handler: H) -> bool {
        self.root.inserted(new.root, path_segments(path), 0, method, handler)
    }

    /// What registering a route does to the routes. The pattern itself
    /// then routes `method` to the new handler with no parameters, is
    /// spelled out, and is a known path. Every other pattern that was spelled out stays spelled
    /// out and keeps its routes for every method, and the other methods of
    /// the pattern keep theirs. (A pattern with a bare `:` segment is left
    /// out: such a segment is taken for any static segment.)
    pub proof fn lemma_insert_routes(self, new: Router<H>, method: Method, path: Seq<char>, handler: H)
        requires
            self.wf(),
            self.inserts_into(new, method, path, handler),
            no_bare_colon(path),
        ensures
            new.route(method, path) == Some((handler, Map::<Seq<char>, Seq<char>>::empty())),
            new.spells(path),
            new.knows_path(path),
            forall|q: Seq<char>|
                #![trigger new.spells(q)]
                self.spells(q) && path_segments(q) != path_segments(path) ==> new.spells(q) && forall|m2: Method|
                    #[trigger] new.route(m2, q) == self.route(m2, q),
            self.spells(path) ==> forall|m2: Method|
                m2.name() != method.name() ==> #[trigger] new.route(m2, path) == self.route(m2, path),
    {
        let sv = path_segments(path);
        self.root.lemma_inserted_walks(new.root, sv, 0, method, handler);
        new.root.lemma_exact_walk_is_walk(sv, 0, Map::empty());
        assert(sv.subrange(0, sv.len() as int) == sv);
        lemma_matched_path_is_known(new, method, path);
        assert forall|q: Seq<char>|
            #![trigger new.spells(q)]
            self.spells(q) && path_segments(q) != sv implies new.spells(q) && forall|m2: Method|
                #[trigger] new.route(m2, q) == self.route(m2, q) by {
            let qs = path_segments(q);
            assert(qs.subrange(0, qs.len() as int) == qs);
            assert(self.root.exact_walk(qs, 0) is Some);
            self.root.lemma_exact_walk_is_walk(qs, 0, Map::empty());
            new.root.lemma_exact_walk_is_walk(qs, 0, Map::empty());
        }
        if self.spells(path) {
            self.root.lemma_exact_walk_is_walk(sv, 0, Map::empty());
            assert forall|m2: Method| m2.name() != method.name() implies #[trigger] new.route(
                m2,
                path,
            ) == self.route(m2, path) by {
                assert(handler_index(self.root.exact_walk(sv, 0).unwrap().handlers@, m2)
                    == handler_index(self.root.exact_walk(sv, 0).unwrap().handlers@, m2));
            }
        }
    }

    /// Registers `handler` for `method` and the path pattern `path`,
    /// replacing the handler that was registered for the same pair, as
    /// [`inserts_into`](Router::inserts_into) describes; what that does to
    /// the routes is stated by
    /// [`lemma_insert_routes`](Router::lemma_insert_routes).
    pub fn insert(&mut self, method: Method, path: &str, handler: H)
        requires
            old(self).wf(),
        ensures
            final(self).wf(),
            old(self).inserts_into(*final(self), method, path@, handler),
    {
        let segs = segment_chars(path);
        self.root.insert_at(&segs, 0, method, handler);
    }

    /// Whether any route is registered for `path`, ignoring the method:
    /// some registered pattern matches `path`, each static segment equal to
    /// the path's segment, a parameter taking any segment, a wildcard the
    /// rest. Every path that [`match_route`](Router::match_route) matches
    /// for some method is one of them.
    pub fn has_path(&self, path: &str) -> (r: bool)
        ensures
            r == self.knows_path(path@),
    {
        let segs = segment_chars(path);
        self.root.reaches_from(&segs, 0)
    }

    /// Matches `method` and `path`: the handler and the captured
    /// parameters, or `None`.
    #[verifier::rlimit(40)]
    pub fn match_route(&self, method: &Method, path: &str) -> (r: Option<(&H, PathParams)>)
        ensures
            match r {
                Some((h, ps)) => self.route(*method, path@) == Some((*h, ps.0@)),
                None => self.route(*method, path@) is None,
            },
    {
        let segs = segment_chars(path);
        let ghost sv = views_of(segs@);
        let mut params = ParamMap::new();
        let mut node: &Node<H> = &self.root;
        let mut i: usize = 0;
        let mut wild = false;
        while i < segs.len()
            invariant
                0 <= i <= segs@.len(),
                sv == views_of(segs@),
                sv == path_segments(path@),
                wild ==> i == segs@.len(),
                wild ==> self.root.walk(sv, 0, Map::empty()) == Some((*node, params@, true)),
                !wild ==> self.root.walk(sv, 0, Map::empty()) == node.walk(sv, i as int, params@),
            decreases segs@.len() - i,
        {
            let seg_string = string_from_chars(segs[i].as_slice());
            assert(seg_string@ == sv[i as int]);
            let ghost pre = *node;
            let ghost pre_ps = params@;
            match node.child_with_segment(&seg_string) {
                Some(k) => {
                    assert(pre.walk(sv, i as int, pre_ps) == pre.children@[k as int].walk(
                        sv,
                        i + 1,
                        pre_ps,
                    ));
                    node = &node.children[k];
                    i = i + 1;
                },
                None => match node.param_child() {
                    Some(k) => {
                        assert(pre.walk(sv, i as int, pre_ps) == pre.children@[k as int].walk(
                            sv,
                            i + 1,
                            pre_ps.insert(pre.children@[k as int].param_name@, sv[i as int]),
                        ));
                        let name = node.children[k].param_name.clone();
                        params.insert(name, seg_string);
                        node = &node.children[k];
                        i = i + 1;
                    },
                    None => match node.wildcard_child() {
                        Some(k) => {
                            let slash = vec!['/'];
                            assert(slash@ == seq!['/']);
                            let rest = join_chars(&segs, i, slash.as_slice());
                            let star = "*".to_owned();
                            proof {
                                reveal_strlit("*");
                            }
                            assert(star@ == seq!['*']);
                            params.insert(star, string_from_chars(rest.as_slice()));
                            node = &node.children[k];
                            i = segs.len();
                            wild = true;
                        },
                        None => {
                            return None;
                        },
                    },
                },
            }
        }
        match node.find_handler(method) {
            Some(j) => Some((&node.handlers[j].1, PathParams(params))),
            None => None,
        }
    }
}

/// What the lone route of pattern `p` gives for the path `q`, from segment
/// `i` on, with the parameters `ps` captured so far. A segment written as
/// in the pattern is followed as it is; else a `:name` segment captures
/// the path's segment under `name`, and a final `*` captures the rest of
/// the path, its segments joined by `/`, under `*`. The path must end
/// where the pattern ends.
pub open spec fn lone_match(
    p: Seq<Seq<char>>,
    q: Seq<Seq<char>>,
    i: int,
    ps: Map<Seq<char>, Seq<char>>,
) -> Option<Map<Seq<char>, Seq<char>>>
    decreases q.len() - i,
{
    if i >= q.len() {
        if i == p.len() {
            Some(ps)
        } else {
            None
        }
    } else if i >= p.len() {
        None
    } else if q[i] == p[i] {
        lone_match(p, q, i + 1, ps)
    } else if p[i].len() > 1 && p[i][0] == ':' {
        lone_match(p, q, i + 1, ps.insert(p[i].drop_first(), q[i]))
    } else if p[i] == seq!['*'] {
        if i + 1 == p.len() {
            Some(ps.insert(seq!['*'], join(q.skip(i), seq!['/'])))
        } else {
            None
        }
    } else {
        None
    }
}

/// The pattern `p` covers the path `q` from segment `i` on, as
/// [`has_path`](Router::has_path) counts it: each segment is written as
/// in the pattern or taken by a `:name` segment, and the path ends where
/// the pattern ends, unless a `*` in the pattern takes the rest.
pub open spec fn covers(p: Seq<Seq<char>>, q: Seq<Seq<char>>, i: int) -> bool
    decreases q.len() - i,
{
    if i >= q.len() {
        i == p.len()
    } else if i >= p.len() {
        false
    } else if p[i] == seq!['*'] {
        true
    } else if q[i] == p[i] || (p[i].len() > 1 && p[i][0] == ':') {
        covers(p, q, i + 1)
    } else {
        false
    }
}

impl<H> Node<H> {
    /// Below a node built by registering one route into a bare node,
    /// matching gives that route's handler with [`lone_match`]'s
    /// parameters, for its method only.
    proof fn lemma_lone_route(
        self,
        new: Node<H>,
        p: Seq<Seq<char>>,
        m: Method,
        h: H,
        q: Seq<Seq<char>>,
        i: int,
        ps: Map<Seq<char>, Seq<char>>,
        m2: Method,
    )
        requires
            0 <= i <= p.len(),
            self.children@.len() == 0,
            self.handlers@.len() == 0,
            self.inserted(new, p, i, m, h),
        ensures
            (match new.walk(q, i, ps) {
                Some((t, ps2, _)) => match handler_index(t.handlers@, m2) {
                    Some(j) => Some((t.handlers@[j].1, ps2)),
                    None => None,
                },
                None => None,
            }) == (if m2.name() == m.name() {
                match lone_match(p, q, i, ps) {
                    Some(ps2) => Some((h, ps2)),
                    None => None,
                }
            } else {
                None
            }),
        decreases q.len() - i,
    {
        let pm = |e: (Method, H)| e.0.name() == m2.name();
        if i >= p.len() {
            assert(new.handlers@ =~= seq![(m, h)]);
            assert(new.children@.len() == 0);
            lemma_first_index_props(new.handlers@, pm);
            if m2.name() == m.name() {
                lemma_first_index_found(new.handlers@, pm, 0);
            } else {
                lemma_first_index_absent(new.handlers@, pm);
            }
            if i < q.len() {
                lemma_first_index_absent(new.children@, |c: Node<H>| c.segment@ == q[i]);
                lemma_first_index_absent(new.children@, |c: Node<H>| c.param_name@.len() > 0);
                lemma_first_index_absent(new.children@, |c: Node<H>| c.is_wildcard);
            }
        } else {
            assert(new.handlers@.len() == 0);
            lemma_first_index_absent(new.handlers@, pm);
            assert(self.chosen_child(p[i]) is None) by {
                lemma_first_index_absent(self.children@, |c: Node<H>| c.is_wildcard);
                lemma_first_index_absent(
                    self.children@,
                    |c: Node<H>| c.param_name@ == p[i].drop_first(),
                );
                lemma_first_index_absent(self.children@, |c: Node<H>| c.segment@ == p[i]);
            }
            assert(new.children@.len() == 1);
            let c = new.children@[0];
            let f = choose|f: Node<H>| #[trigger] f.is_fresh(p[i]) && f.inserted(c, p, i + 1, m, h);
            assert(c.segment@ == p[i] && c.is_wildcard == is_wild_segment(p[i]));
            assert(c.param_name@ == f.param_name@);
            if i < q.len() {
                let exact = |x: Node<H>| x.segment@ == q[i];
                let param = |x: Node<H>| x.param_name@.len() > 0;
                let wild = |x: Node<H>| x.is_wildcard;
                if q[i] == p[i] {
                    lemma_first_index_found(new.children@, exact, 0);
                    f.lemma_lone_route(c, p, m, h, q, i + 1, ps, m2);
                } else {
                    lemma_first_index_absent(new.children@, exact);
                    if p[i].len() > 1 && p[i][0] == ':' {
                        assert(!is_wild_segment(p[i]));
                        assert(c.param_name@ == p[i].drop_first());
                        lemma_first_index_found(new.children@, param, 0);
                        f.lemma_lone_route(c, p, m, h, q, i + 1, ps.insert(p[i].drop_first(), q[i]), m2);
                    } else {
                        assert(c.param_name@.len() == 0) by {
                            if !is_wild_segment(p[i]) && is_param_segment(p[i]) {
                                assert(p[i].len() == 1);
                            }
                        }
                        lemma_first_index_absent(new.children@, param);
                        if p[i] == seq!['*'] {
                            lemma_first_index_found(new.children@, wild, 0);
                            let ph = |e: (Method, H)| e.0.name() == m2.name();
                            if i + 1 == p.len() {
                                assert(c.handlers@ =~= seq![(m, h)]);
                                if m2.name() == m.name() {
                                    lemma_first_index_found(c.handlers@, ph, 0);
                                } else {
                                    lemma_first_index_absent(c.handlers@, ph);
                                }
                            } else {
                                assert(c.handlers@.len() == 0);
                                lemma_first_index_absent(c.handlers@, ph);
                            }
                        } else {
                            lemma_first_index_absent(new.children@, wild);
                        }
                    }
                }
            }
        }
    }

    /// A node that spells `p[i..]` down to a node holding a handler is
    /// reached by every path that `p` covers from `i` on.
    proof fn lemma_covers_reaches(self, p: Seq<Seq<char>>, q: Seq<Seq<char>>, i: int)
        requires
            0 <= i,
            self.wf(),
            self.exact_walk(p, i) matches Some(t) && t.handlers@.len() > 0,
            covers(p, q, i),
        ensures
            reaches(self, q, i),
        decreases q.len() - i,
    {
        if i < q.len() {
            let exact = |c: Node<H>| c.segment@ == p[i];
            lemma_first_index_props(self.children@, exact);
            let k = first_index(self.children@, exact).unwrap();
            let c = self.children@[k];
            assert(c.kind_ok());
            if p[i] == seq!['*'] {
                assert(c.is_wildcard);
                assert(accepts(c, q, i));
            } else {
                c.lemma_covers_reaches(p, q, i + 1);
                if q[i] != p[i] {
                    assert(p[i] =~= seq![':'] + p[i].drop_first());
                    assert(!c.is_wildcard);
                    assert(c.param_name@ == p[i].drop_first());
                }
                assert(accepts(c, q, i));
            }
        }
    }
}

/// A router holding a single route, registered into an empty one: the
/// route's method matches a path exactly as [`lone_match`] says, with the
/// captured `:name` and `*` parameters, and no other method matches.
pub proof fn lemma_lone_route<H>(
    r0: Router<H>,
    r1: Router<H>,
    m: Method,
    p: Seq<char>,
    h: H,
    m2: Method,
    q: Seq<char>,
)
    requires
        r0.is_empty(),
        r0.inserts_into(r1, m, p, h),
    ensures
        r1.route(m2, q) == (if m2.name() == m.name() {
            match lone_match(path_segments(p), path_segments(q), 0, Map::empty()) {
                Some(ps) => Some((h, ps)),
                None => None,
            }
        } else {
            None
        }),
{
    r0.root.lemma_lone_route(
        r1.root,
        path_segments(p),
        m,
        h,
        path_segments(q),
        0,
        Map::empty(),
        m2,
    );
}

/// Every path that a registered pattern covers is a known path, whatever
/// else is registered: [`has_path`](Router::has_path) tries a parameter
/// route where a static segment leads nowhere.
pub proof fn lemma_covered_path_is_known<H>(
    r0: Router<H>,
    r1: Router<H>,
    m: Method,
    p: Seq<char>,
    h: H,
    q: Seq<char>,
)
    requires
        r0.wf(),
        r1.wf(),
        no_bare_colon(p),
        r0.inserts_into(r1, m, p, h),
        covers(path_segments(p), path_segments(q), 0),
    ensures
        r1.knows_path(q),
{
    r0.root.lemma_inserted_walks(r1.root, path_segments(p), 0, m, h);
    r1.root.lemma_covers_reaches(path_segments(p), path_segments(q), 0);
}

/// Routing looks at a method only through its name: two methods with the
/// same name (one a [`duplicate`](Method::duplicate) of the other) are
/// routed alike.
pub proof fn lemma_route_by_name<H>(r: Router<H>, m1: Method, m2: Method, path: Seq<char>)
    requires
        m1.name() == m2.name(),
    ensures
        r.route(m1, path) == r.route(m2, path),
{
    assert((|e: (Method, H)| e.0.name() == m1.name()) =~= (|e: (Method, H)| e.0.name()
        == m2.name()));
}

/// A pattern segment written as it is: not `*` and not a parameter.
pub open spec fn is_static_segment(s: Seq<char>) -> bool {
    !is_wild_segment(s) && !is_param_segment(s)
}

/// The pattern `p` and the path `q` part at the root: `p` is the root
/// pattern and `q` is not, or `p` starts with a static segment that `q`
/// does not start with.
pub open spec fn apart_at_root(p: Seq<Seq<char>>, q: Seq<Seq<char>>) -> bool {
    ||| p.len() == 0 && q.len() > 0
    ||| p.len() > 0 && is_static_segment(p[0]) && (q.len() == 0 || q[0] != p[0])
}

/// Registering a route gives no new branch at the root but the one of
/// its first segment.
pub proof fn lemma_insert_branches<H>(
    r0: Router<H>,
    r1: Router<H>,
    m: Method,
    p: Seq<char>,
    h: H,
    seg: Seq<char>,
)
    requires
        r0.inserts_into(r1, m, p, h),
    ensures
        r1.has_branch(seg) ==> r0.has_branch(seg) || (path_segments(p).len() > 0 && seg
            == path_segments(p)[0]),
{
    let sv = path_segments(p);
    let a = r0.root;
    let b = r1.root;
    if r1.has_branch(seg) {
        let k = choose|k: int| 0 <= k < b.children@.len() && #[trigger] b.children@[k].segment@ == seg;
        if sv.len() > 0 {
            match a.chosen_child(sv[0]) {
                Some(c) => {
                    if k != c {
                        assert(a.children@[k].segment@ == seg);
                    } else {
                        a.children@[c].lemma_inserted_keeps_kind(b.children@[c], sv, 1, m, h);
                        assert(a.children@[c].segment@ == seg);
                    }
                },
                None => {
                    if k < a.children@.len() {
                        assert(a.children@[k].segment@ == seg);
                    } else {
                        let f = choose|f: Node<H>|
                            #[trigger] f.is_fresh(sv[0]) && f.inserted(b.children@[k], sv, 1, m, h);
                        f.lemma_inserted_keeps_kind(b.children@[k], sv, 1, m, h);
                    }
                },
            }
        } else {
            assert(a.children@[k].segment@ == seg);
        }
    }
}

/// Registering a route leaves the route of every path that parts from its
/// pattern at the root as it was.
pub proof fn lemma_insert_keeps_other_branch<H>(
    r0: Router<H>,
    r1: Router<H>,
    m: Method,
    p: Seq<char>,
    h: H,
    m2: Method,
    q: Seq<char>,
)
    requires
        r0.wf(),
        r0.inserts_into(r1, m, p, h),
        apart_at_root(path_segments(p), path_segments(q)),
    ensures
        r1.route(m2, q) == r0.route(m2, q),
{
    let sv = path_segments(p);
    let qs = path_segments(q);
    let a = r0.root;
    let b = r1.root;
    let ps = Map::<Seq<char>, Seq<char>>::empty();
    if sv.len() > 0 && qs.len() > 0 {
        let cs = a.children@;
        let ncs = b.children@;
        let pe = |c: Node<H>| c.segment@ == qs[0];
        let pp = |c: Node<H>| c.param_name@.len() > 0;
        let pw = |c: Node<H>| c.is_wildcard;
        assert((|c: Node<H>| c.segment@ == sv[0]) =~= (|c: Node<H>| c.segment@ == sv[0]));
        match a.chosen_child(sv[0]) {
            Some(k) => {
                lemma_first_index_props(cs, |c: Node<H>| c.segment@ == sv[0]);
                assert(cs[k].kind_ok());
                cs[k].lemma_inserted_keeps_kind(ncs[k], sv, 1, m, h);
                assert(ncs =~= cs.update(k, ncs[k]));
                lemma_first_index_update(cs, pe, k, ncs[k]);
                lemma_first_index_update(cs, pp, k, ncs[k]);
                lemma_first_index_update(cs, pw, k, ncs[k]);
                lemma_first_index_props(cs, pe);
                lemma_first_index_props(cs, pp);
                lemma_first_index_props(cs, pw);
            },
            None => {
                let n = cs.len() as int;
                let f = choose|f: Node<H>| #[trigger] f.is_fresh(sv[0]) && f.inserted(ncs[n], sv, 1, m, h);
                f.lemma_inserted_keeps_kind(ncs[n], sv, 1, m, h);
                assert(ncs[n].segment@ == sv[0] && !ncs[n].is_wildcard);
                assert(ncs[n].param_name@.len() == 0);
                assert(ncs =~= cs.push(ncs[n]));
                lemma_first_index_push(cs, pe, ncs[n]);
                lemma_first_index_push(cs, pp, ncs[n]);
                lemma_first_index_push(cs, pw, ncs[n]);
                lemma_first_index_props(cs, pe);
                lemma_first_index_props(cs, pp);
                lemma_first_index_props(cs, pw);
            },
        }
        assert(a.walk(qs, 0, ps) == b.walk(qs, 0, ps));
    } else if sv.len() == 0 {
        assert(a.children@ == b.children@);
        assert(a.walk(qs, 0, ps) == b.walk(qs, 0, ps));
    }
}

/// Registering a route whose first segment is static and new at the root
/// makes every path that starts with that segment match that route alone,
/// as [`lone_match`] says, whatever else is registered.
pub proof fn lemma_insert_new_branch<H>(
    r0: Router<H>,
    r1: Router<H>,
    m: Method,
    p: Seq<char>,
    h: H,
    m2: Method,
    q: Seq<char>,
)
    requires
        r0.inserts_into(r1, m, p, h),
        path_segments(p).len() > 0,
        is_static_segment(path_segments(p)[0]),
        !r0.has_branch(path_segments(p)[0]),
        path_segments(q).len() > 0,
        path_segments(q)[0] == path_segments(p)[0],
    ensures
        r1.route(m2, q) == (if m2.name() == m.name() {
            match lone_match(path_segments(p), path_segments(q), 0, Map::empty()) {
                Some(ps) => Some((h, ps)),
                None => None,
            }
        } else {
            None
        }),
{
    let sv = path_segments(p);
    let qs = path_segments(q);
    let a = r0.root;
    let b = r1.root;
    let cs = a.children@;
    let ncs = b.children@;
    let exact = |c: Node<H>| c.segment@ == sv[0];
    assert forall|k: int| 0 <= k < cs.len() implies !exact(#[trigger] cs[k]) by {
        if exact(cs[k]) {
            assert(r0.has_branch(sv[0]));
        }
    }
    lemma_first_index_absent(cs, exact);
    assert(a.chosen_child(sv[0]) is None);
    let n = cs.len() as int;
    let f = choose|f: Node<H>| #[trigger] f.is_fresh(sv[0]) && f.inserted(ncs[n], sv, 1, m, h);
    f.lemma_inserted_keeps_kind(ncs[n], sv, 1, m, h);
    assert(ncs =~= cs.push(ncs[n]));
    assert(ncs[n].segment@ == sv[0]);
    lemma_first_index_push(cs, exact, ncs[n]);
    assert((|c: Node<H>| c.segment@ == qs[0]) =~= exact);
    f.lemma_lone_route(ncs[n], sv, m, h, qs, 1, Map::empty(), m2);
}

/// A pattern keeps its own route whatever is registered after it under
/// another pattern: after registering `hs` for `(m, s)` and `hp` for
/// `(m2, p)`, in either order, `s` routes `m` to `hs` with no parameters.
/// So a static route wins over a parameter route at the same place,
/// whichever of the two was registered first.
pub proof fn lemma_own_pattern_wins<H>(
    r0: Router<H>,
    r1: Router<H>,
    r2: Router<H>,
    m: Method,
    s: Seq<char>,
    hs: H,
    m2: Method,
    p: Seq<char>,
    hp: H,
)
    requires
        r0.wf(),
        r1.wf(),
        no_bare_colon(s),
        no_bare_colon(p),
        path_segments(s) != path_segments(p),
        (r0.inserts_into(r1, m, s, hs) && r1.inserts_into(r2, m2, p, hp)) || (r0.inserts_into(
            r1,
            m2,
            p,
            hp,
        ) && r1.inserts_into(r2, m, s, hs)),
    ensures
        r2.route(m, s) == Some((hs, Map::<Seq<char>, Seq<char>>::empty())),
{
    if r0.inserts_into(r1, m, s, hs) && r1.inserts_into(r2, m2, p, hp) {
        r0.lemma_insert_routes(r1, m, s, hs);
        r1.lemma_insert_routes(r2, m2, p, hp);
        assert(r2.spells(s));
    } else {
        r1.lemma_insert_routes(r2, m, s, hs);
    }
}

/// Some route registered below `n` matches `segs[i..]`: at the end of
/// the path the node holds a handler; before it, some child accepts the
/// segment: a wildcard takes the rest of the path, and a child holding the
/// segment, or naming a parameter, leads on to a match of the rest.
pub closed spec fn reaches<H>(n: Node<H>, segs: Seq<Seq<char>>, i: int) -> bool
    decreases segs.len() - i,
{
    if i >= segs.len() {
        n.handlers@.len() > 0
    } else {
        exists|k: int|
            0 <= k < n.children@.len() && (#[trigger] n.children@[k].is_wildcard || ((
            n.children@[k].segment@ == segs[i] || n.children@[k].param_name@.len() > 0) && reaches(
                n.children@[k],
                segs,
                i + 1,
            )))
    }
}

/// The child `c` accepts `segs[i]` and the rest of the path.
pub closed spec fn accepts<H>(c: Node<H>, segs: Seq<Seq<char>>, i: int) -> bool {
    c.is_wildcard || ((c.segment@ == segs[i] || c.param_name@.len() > 0) && reaches(c, segs, i + 1))
}

impl<H> Node<H> {
    /// Whether some route below this node matches `segs[i..]`.
    fn reaches_from(&self, segs: &Vec<Vec<char>>, i: usize) -> (r: bool)
        requires
            i <= segs@.len(),
        ensures
            r == reaches(*self, views_of(segs@), i as int),
        decreases segs@.len() - i,
    {
        let ghost sv = views_of(segs@);
        if i == segs.len() {
            return self.handlers.len() > 0;
        }
        let seg_string = string_from_chars(segs[i].as_slice());
        assert(seg_string@ == sv[i as int]);
        let next = i + 1;
        let mut k: usize = 0;
        while k < self.children.len()
            invariant
                0 <= k <= self.children@.len(),
                i < segs@.len(),
                sv == views_of(segs@),
                seg_string@ == sv[i as int],
                next == i + 1,
                forall|q: int| 0 <= q < k ==> !accepts(#[trigger] self.children@[q], sv, i as int),
            decreases self.children@.len() - k,
        {
            let c = &self.children[k];
            if c.is_wildcard {
                assert(accepts(self.children@[k as int], sv, i as int));
                return true;
            }
            if c.segment == seg_string || !c.param_name.as_str().is_empty() {
                if c.reaches_from(segs, next) {
                    assert(accepts(self.children@[k as int], sv, i as int));
                    return true;
                }
            }
            assert(!accepts(self.children@[k as int], sv, i as int));
            k = k + 1;
        }
        false
    }
}

/// Greedy matching that ends at a node holding a handler, or at a
/// wildcard, follows a route that [`reaches`] counts.
proof fn lemma_walk_reaches<H>(n: Node<H>, segs: Seq<Seq<char>>, i: int, ps: Map<Seq<char>, Seq<char>>)
    requires
        0 <= i <= segs.len(),
        n.walk(segs, i, ps) matches Some((t, _, w)) && (w || t.handlers@.len() > 0),
    ensures
        reaches(n, segs, i),
    decreases segs.len() - i,
{
    if i < segs.len() {
        let cs = n.children@;
        lemma_first_index_props(cs, |c: Node<H>| c.segment@ == segs[i]);
        lemma_first_index_props(cs, |c: Node<H>| c.param_name@.len() > 0);
        lemma_first_index_props(cs, |c: Node<H>| c.is_wildcard);
        match first_index(cs, |c: Node<H>| c.segment@ == segs[i]) {
            Some(k) => {
                lemma_walk_reaches(cs[k], segs, i + 1, ps);
                assert(accepts(cs[k], segs, i));
            },
            None => match first_index(cs, |c: Node<H>| c.param_name@.len() > 0) {
                Some(k) => {
                    lemma_walk_reaches(cs[k], segs, i + 1, ps.insert(cs[k].param_name@, segs[i]));
                    assert(accepts(cs[k], segs, i));
                },
                None => {
                    let k = first_index(cs, |c: Node<H>| c.is_wildcard).unwrap();
                    assert(accepts(cs[k], segs, i));
                },
            },
        }
    }
}

/// A request that matches a route names a path the router knows: every
/// method and path for which `route` yields a handler also satisfies
/// `knows_path`.
pub proof fn lemma_matched_path_is_known<H>(r: Router<H>, method: Method, path: Seq<char>)
    ensures
        r.route(method, path) is Some ==> r.knows_path(path),
{
    let segs = path_segments(path);
    match r.root.walk(segs, 0, Map::empty()) {
        Some((n, ps, w)) => {
            lemma_first_index_props(n.handlers@, |e: (Method, H)| e.0.name() == method.name());
            if r.route(method, path) is Some {
                lemma_walk_reaches(r.root, segs, 0, Map::empty());
            }
        },
        None => {},
    }
}

impl<H> Default for Router<H> {
    /// An empty router.
    fn default() -> (r: Router<H>)
        ensures
            r.wf(),
            r.is_empty(),
            forall|seg: Seq<char>| !r.has_branch(seg),
            forall|m: Method, p: Seq<char>| r.route(m, p) is None,
            forall|p: Seq<char>| !r.knows_path(p),
    {
        Router::new()
    }
}

} // verus!
