//! Cross-origin resource sharing: which headers a response and a preflight
//! answer carry, and how they are written into a header map.
use vstd::prelude::*;
use hyper::header::HeaderMap;
use crate::text::{join, decimal, decimal_chars, chars_of, string_from_chars, append_chars};
use crate::router::Method;
use crate::headers::{
    header_map_values, header_first, header_set, header_key, is_valid_value, HeaderWrite,
    is_vary_name, is_lower_header_name, MAP_FULL_AT,
    is_visible_value, valid_value, visible_value, first_value,
};

verus! {

broadcast use vstd::seq_lib::group_seq_properties;

/// The settings of a CORS policy, as values.
#[verifier::ext_equal]
pub struct CorsSpec {
    pub allow_origins: Seq<Seq<char>>,
    pub allow_all_origins: bool,
    pub allow_methods: Seq<Seq<char>>,
    pub allow_headers: Seq<Seq<char>>,
    pub expose_headers: Seq<Seq<char>>,
    pub max_age_secs: Option<usize>,
    pub credentials: bool,
}

/// A header as a (name, value) pair of character sequences.
pub type HeaderPair = (Seq<char>, Seq<char>);

/// The views of a list of strings.
pub open spec fn string_views(v: Seq<String>) -> Seq<Seq<char>> {
    v.map_values(|s: String| s@)
}

/// The views of a list of header pairs.
pub open spec fn pair_views(v: Seq<(String, String)>) -> Seq<HeaderPair> {
    v.map_values(|p: (String, String)| (p.0@, p.1@))
}

/// The tokens of a list of methods.
pub open spec fn method_names(v: Seq<Method>) -> Seq<Seq<char>> {
    v.map_values(|m: Method| m.name())
}

/// The `Access-Control-Allow-Origin` value for a request origin, if the
/// policy grants one.
pub open spec fn granted_origin(c: CorsSpec, req_origin: Option<Seq<char>>) -> Option<Seq<char>> {
    if c.credentials && c.allow_all_origins {
        match req_origin {
            Some(o) => Some(o),
            None => Some("*"@),
        }
    } else if c.allow_origins.contains("*"@) {
        Some("*"@)
    } else {
        match req_origin {
            Some(o) => if c.allow_origins.contains(o) {
                Some(o)
            } else {
                None
            },
            None => None,
        }
    }
}

/// The CORS headers of a response to a request from `req_origin`.
pub open spec fn cors_headers(c: CorsSpec, req_origin: Option<Seq<char>>) -> Seq<HeaderPair> {
    match granted_origin(c, req_origin) {
        None => Seq::empty(),
        Some(origin) => {
            let h1 = seq![("access-control-allow-origin"@, origin)];
            let h2 = if origin != "*"@ {
                h1.push(("vary"@, "origin"@))
            } else {
                h1
            };
            let h3 = if c.credentials {
                h2.push(("access-control-allow-credentials"@, "true"@))
            } else {
                h2
            };
            if c.expose_headers.len() > 0 {
                h3.push(("access-control-expose-headers"@, join(c.expose_headers, ", "@)))
            } else {
                h3
            }
        },
    }
}

/// The headers that a preflight answer adds, given the request's
/// `Access-Control-Request-Headers`.
pub open spec fn preflight_only_headers(c: CorsSpec, req_headers: Option<Seq<char>>) -> Seq<
    HeaderPair,
> {
    let h1 = if c.allow_methods.len() > 0 {
        seq![("access-control-allow-methods"@, join(c.allow_methods, ", "@))]
    } else {
        Seq::empty()
    };
    let h2 = if c.allow_headers.contains("*"@) {
        h1.push(
            (
                "access-control-allow-headers"@,
                match req_headers {
                    Some(h) => h,
                    None => "*"@,
                },
            ),
        )
    } else if c.allow_headers.len() > 0 {
        h1.push(("access-control-allow-headers"@, join(c.allow_headers, ", "@)))
    } else {
        h1
    };
    match c.max_age_secs {
        Some(secs) => h2.push(("access-control-max-age"@, decimal(secs as nat))),
        None => h2,
    }
}

/// A CORS policy.
pub struct CorsConfig {
    allow_origins: Vec<String>,
    allow_all_origins: bool,
    allow_methods: Vec<Method>,
    allow_headers: Vec<String>,
    expose_headers: Vec<String>,
    max_age_secs: Option<usize>,
    credentials: bool,
}

impl View for CorsConfig {
    type V = CorsSpec;

    closed spec fn view(&self) -> CorsSpec {
        CorsSpec {
            allow_origins: string_views(self.allow_origins@),
            allow_all_origins: self.allow_all_origins,
            allow_methods: method_names(self.allow_methods@),
            allow_headers: string_views(self.allow_headers@),
            expose_headers: string_views(self.expose_headers@),
            max_age_secs: self.max_age_secs,
            credentials: self.credentials,
        }
    }
}

/// Builds a [`CorsConfig`].
pub struct CorsConfigBuilder {
    allow_origins: Vec<String>,
    allow_methods: Vec<Method>,
    allow_headers: Vec<String>,
    expose_headers: Vec<String>,
    max_age_secs: Option<usize>,
    credentials: bool,
}

impl View for CorsConfigBuilder {
    type V = CorsSpec;

    closed spec fn view(&self) -> CorsSpec {
        CorsSpec {
            allow_origins: string_views(self.allow_origins@),
            allow_all_origins: false,
            allow_methods: method_names(self.allow_methods@),
            allow_headers: string_views(self.allow_headers@),
            expose_headers: string_views(self.expose_headers@),
            max_age_secs: self.max_age_secs,
            credentials: self.credentials,
        }
    }
}

/// The origin list is the single wildcard `*`.
pub open spec fn is_wildcard_only(origins: Seq<Seq<char>>) -> bool {
    origins.len() == 1 && origins[0] == "*"@
}

impl Default for CorsConfig {
    fn default() -> (c: CorsConfig)
        ensures
            c@ == (CorsSpec {
                allow_origins: Seq::empty(),
                allow_all_origins: false,
                allow_methods: Seq::empty(),
                allow_headers: Seq::empty(),
                expose_headers: Seq::empty(),
                max_age_secs: None,
                credentials: false,
            }),
    {
        CorsConfig {
            allow_origins: Vec::new(),
            allow_all_origins: false,
            allow_methods: Vec::new(),
            allow_headers: Vec::new(),
            expose_headers: Vec::new(),
            max_age_secs: None,
            credentials: false,
        }
    }
}

impl CorsConfig {
    /// A builder with nothing allowed.
    pub fn builder() -> (b: CorsConfigBuilder)
        ensures
            b@ == (CorsSpec {
                allow_origins: Seq::empty(),
                allow_all_origins: false,
                allow_methods: Seq::empty(),
                allow_headers: Seq::empty(),
                expose_headers: Seq::empty(),
                max_age_secs: None,
                credentials: false,
            }),
    {
        CorsConfigBuilder {
            allow_origins: Vec::new(),
            allow_methods: Vec::new(),
            allow_headers: Vec::new(),
            expose_headers: Vec::new(),
            max_age_secs: None,
            credentials: false,
        }
    }

    /// Whether `s` is in `v`.
    fn list_contains(v: &Vec<String>, s: &String) -> (r: bool)
        ensures
            r == string_views(v@).contains(s@),
    {
        let mut i: usize = 0;
        while i < v.len()
            invariant
                0 <= i <= v@.len(),
                forall|j: int| 0 <= j < i ==> v@[j]@ != s@,
            decreases v@.len() - i,
        {
            if v[i] == *s {
                assert(string_views(v@)[i as int] == s@);
                return true;
            }
            i = i + 1;
        }
        assert forall|j: int| 0 <= j < string_views(v@).len() implies string_views(v@)[j] != s@ by {
            assert(string_views(v@)[j] == v@[j]@);
        }
        false
    }

    /// `v` joined with `", "`.
    fn join_list(v: &Vec<String>) -> (r: String)
        ensures
            r@ == join(string_views(v@), ", "@),
    {
        let ghost views = string_views(v@);
        let mut out: Vec<char> = Vec::new();
        let mut i: usize = 0;
        let sep = chars_of(", ");
        while i < v.len()
            invariant
                0 <= i <= v@.len(),
                views == string_views(v@),
                sep@ == ", "@,
                out@ == join(views.take(i as int), ", "@),
            decreases v@.len() - i,
        {
            assert(views.take(i + 1).drop_last() == views.take(i as int));
            if i > 0 {
                append_chars(&mut out, sep.as_slice());
            }
            let item = chars_of(v[i].as_str());
            append_chars(&mut out, item.as_slice());
            i = i + 1;
        }
        assert(views.take(v@.len() as int) == views);
        string_from_chars(out.as_slice())
    }

    /// The method tokens joined with `", "`.
    fn join_methods(v: &Vec<Method>) -> (r: String)
        ensures
            r@ == join(method_names(v@), ", "@),
    {
        let ghost views = method_names(v@);
        let mut out: Vec<char> = Vec::new();
        let mut i: usize = 0;
        let sep = chars_of(", ");
        while i < v.len()
            invariant
                0 <= i <= v@.len(),
                views == method_names(v@),
                sep@ == ", "@,
                out@ == join(views.take(i as int), ", "@),
            decreases v@.len() - i,
        {
            assert(views.take(i + 1).drop_last() == views.take(i as int));
            if i > 0 {
                append_chars(&mut out, sep.as_slice());
            }
            let item = chars_of(v[i].as_str());
            append_chars(&mut out, item.as_slice());
            i = i + 1;
        }
        assert(views.take(v@.len() as int) == views);
        string_from_chars(out.as_slice())
    }

    /// The CORS headers for a response to a request from `req_origin`.
    pub fn build_cors_headers(&self, req_origin: Option<&str>) -> (r: Vec<(String, String)>)
        ensures
            pair_views(r@) == cors_headers(
                self@,
                match req_origin {
                    Some(o) => Some(o@),
                    None => None,
                },
            ),
    {
        let ghost ro = match req_origin {
            Some(o) => Some(o@),
            None => None::<Seq<char>>,
        };
        let star = "*".to_owned();
        let origin: String;
        if self.credentials && self.allow_all_origins {
            origin = match req_origin {
                Some(o) => o.to_owned(),
                None => "*".to_owned(),
            };
        } else if Self::list_contains(&self.allow_origins, &star) {
            origin = star.clone();
        } else {
            match req_origin {
                Some(o) => {
                    let os = o.to_owned();
                    if Self::list_contains(&self.allow_origins, &os) {
                        origin = os;
                    } else {
                        return Vec::new();
                    }
                },
                None => {
                    return Vec::new();
                },
            }
        }
        assert(granted_origin(self@, ro) == Some(origin@));
        let mut headers: Vec<(String, String)> = Vec::new();
        let is_star = origin == star;
        headers.push(("access-control-allow-origin".to_owned(), origin));
        if !is_star {
            headers.push(("vary".to_owned(), "origin".to_owned()));
        }
        if self.credentials {
            headers.push(("access-control-allow-credentials".to_owned(), "true".to_owned()));
        }
        if self.expose_headers.len() > 0 {
            headers.push(
                ("access-control-expose-headers".to_owned(), Self::join_list(&self.expose_headers)),
            );
        }
        assert(pair_views(headers@) =~= cors_headers(self@, ro));
        headers
    }

    /// The headers that a preflight answer adds to the CORS headers.
    pub fn build_preflight_headers(&self, req_headers: Option<&str>) -> (r: Vec<(String, String)>)
        ensures
            pair_views(r@) == preflight_only_headers(
                self@,
                match req_headers {
                    Some(h) => Some(h@),
                    None => None,
                },
            ),
    {
        let ghost rh = match req_headers {
            Some(h) => Some(h@),
            None => None::<Seq<char>>,
        };
        let mut headers: Vec<(String, String)> = Vec::new();
        if self.allow_methods.len() > 0 {
            headers.push(
                ("access-control-allow-methods".to_owned(), Self::join_methods(&self.allow_methods)),
            );
        }
        let star = "*".to_owned();
        if Self::list_contains(&self.allow_headers, &star) {
            let v = match req_headers {
                Some(h) => h.to_owned(),
                None => "*".to_owned(),
            };
            headers.push(("access-control-allow-headers".to_owned(), v));
        } else if self.allow_headers.len() > 0 {
            headers.push(
                ("access-control-allow-headers".to_owned(), Self::join_list(&self.allow_headers)),
            );
        }
        match self.max_age_secs {
            Some(secs) => {
                let d = decimal_chars(secs as u64);
                headers.push(("access-control-max-age".to_owned(), string_from_chars(d.as_slice())));
            },
            None => {},
        }
        assert(pair_views(headers@) =~= preflight_only_headers(self@, rh));
        headers
    }

    /// All headers of a preflight answer: the CORS headers, then the
    /// preflight headers.
    pub fn preflight_headers(&self, req_origin: Option<&str>, req_headers: Option<&str>) -> (r: Vec<
        (String, String),
    >)
        ensures
            pair_views(r@) == cors_headers(
                self@,
                match req_origin {
                    Some(o) => Some(o@),
                    None => None,
                },
            ) + preflight_only_headers(
                self@,
                match req_headers {
                    Some(h) => Some(h@),
                    None => None,
                },
            ),
    {
        let mut a = self.build_cors_headers(req_origin);
        let mut b = self.build_preflight_headers(req_headers);
        let ghost av = a@;
        let ghost bv = b@;
        a.append(&mut b);
        assert(pair_views(a@) =~= pair_views(av) + pair_views(bv));
        a
    }
}

impl CorsConfigBuilder {
    /// Allows requests from `origin` (`*` allows every origin).
    pub fn allow_origin(self, origin: &str) -> (b: CorsConfigBuilder)
        ensures
            b@ == (CorsSpec { allow_origins: self@.allow_origins.push(origin@), ..self@ }),
    {
        let mut s = self;
        s.allow_origins.push(origin.to_owned());
        assert(string_views(s.allow_origins@) =~= string_views(self.allow_origins@).push(origin@));
        s
    }

    /// Allows `method` in preflight answers.
    pub fn allow_method(self, method: Method) -> (b: CorsConfigBuilder)
        ensures
            b@ == (CorsSpec { allow_methods: self@.allow_methods.push(method.name()), ..self@ }),
    {
        let mut s = self;
        s.allow_methods.push(method);
        assert(method_names(s.allow_methods@) =~= method_names(self.allow_methods@).push(
            method.name(),
        ));
        s
    }

    /// Allows the request header `header` (`*` allows whatever is asked).
    pub fn allow_header(self, header: &str) -> (b: CorsConfigBuilder)
        ensures
            b@ == (CorsSpec { allow_headers: self@.allow_headers.push(header@), ..self@ }),
    {
        let mut s = self;
        s.allow_headers.push(header.to_owned());
        assert(string_views(s.allow_headers@) =~= string_views(self.allow_headers@).push(header@));
        s
    }

    /// Exposes the response header `header` to scripts.
    pub fn expose_header(self, header: &str) -> (b: CorsConfigBuilder)
        ensures
            b@ == (CorsSpec { expose_headers: self@.expose_headers.push(header@), ..self@ }),
    {
        let mut s = self;
        s.expose_headers.push(header.to_owned());
        assert(string_views(s.expose_headers@) =~= string_views(self.expose_headers@).push(
            header@,
        ));
        s
    }

    /// Lets browsers cache a preflight answer for `secs` seconds.
    pub fn max_age_secs(self, secs: usize) -> (b: CorsConfigBuilder)
        ensures
            b@ == (CorsSpec { max_age_secs: Some(secs), ..self@ }),
    {
        let mut s = self;
        s.max_age_secs = Some(secs);
        s
    }

    /// Whether credentialed requests are allowed.
    pub fn allow_credentials(self, yes: bool) -> (b: CorsConfigBuilder)
        ensures
            b@ == (CorsSpec { credentials: yes, ..self@ }),
    {
        let mut s = self;
        s.credentials = yes;
        s
    }

    /// Whether the builder allows credentials for the wildcard origin alone,
    /// which [`build`](Self::build) refuses.
    pub fn is_credentialed_wildcard(&self) -> (r: bool)
        ensures
            r == (self@.credentials && is_wildcard_only(self@.allow_origins)),
    {
        let wildcard = self.allow_origins.len() == 1 && self.allow_origins[0].as_str().to_owned()
            == "*".to_owned();
        proof {
            if self.allow_origins@.len() == 1 {
                assert(string_views(self.allow_origins@)[0] == self.allow_origins@[0]@);
            }
        }
        self.credentials && wildcard
    }

    /// The policy. A wildcard origin together with credentials would grant
    /// credentialed access to every origin, and is refused.
    pub fn build(self) -> (c: CorsConfig)
        requires
            !(self@.credentials && is_wildcard_only(self@.allow_origins)),
        ensures
            c@ == (CorsSpec {
                allow_all_origins: is_wildcard_only(self@.allow_origins),
                ..self@
            }),
    {
        let allow_all_origins = self.allow_origins.len() == 1 && self.allow_origins[0].as_str()
            .to_owned() == "*".to_owned();
        proof {
            if self.allow_origins@.len() == 1 {
                assert(string_views(self.allow_origins@)[0] == self.allow_origins@[0]@);
            }
        }
        CorsConfig {
            allow_origins: self.allow_origins,
            allow_all_origins,
            allow_methods: self.allow_methods,
            allow_headers: self.allow_headers,
            expose_headers: self.expose_headers,
            max_age_secs: self.max_age_secs,
            credentials: self.credentials,
        }
    }
}

/// The header values after writing `hs` in order. A pair whose name is
/// not a header name, or whose value cannot stand in a header, is skipped.
/// Each pair replaces the values of its header (stored under the name in
/// lower case), except `vary`: a readable value already there is kept and
/// the new one appended after `", "`.
pub open spec fn applied(m: Map<Seq<char>, Seq<Seq<u8>>>, hs: Seq<HeaderPair>) -> Map<
    Seq<char>,
    Seq<Seq<u8>>,
>
    decreases hs.len(),
{
    if hs.len() == 0 {
        m
    } else {
        let m0 = applied(m, hs.drop_last());
        let vb = vstd::utf8::encode_utf8(hs.last().1);
        match header_key(hs.last().0) {
            None => m0,
            Some(k) => if !is_valid_value(vb) {
                m0
            } else if k == "vary"@ && first_value(m0, k) is Some && is_visible_value(
                first_value(m0, k).unwrap(),
            ) {
                m0.insert(k, seq![first_value(m0, k).unwrap() + seq![44u8, 32u8] + vb])
            } else {
                m0.insert(k, seq![vb])
            },
        }
    }
}

/// The view of an optional string slice.
pub open spec fn opt_view(o: Option<&str>) -> Option<Seq<char>> {
    match o {
        Some(s) => Some(s@),
        None => None,
    }
}

/// Writes `headers` into `map` as [`applied`] describes and answers
/// `true`. When the map reaches its size limit, the writing stops there:
/// the answer is `false` and the map holds the headers before that one.
/// That cannot happen while the map holds fewer than [`MAP_FULL_AT`]
/// headers counting those to be written.
pub fn apply_headers(map: &mut HeaderMap, headers: &Vec<(String, String)>) -> (r: bool)
    ensures
        header_map_values(*old(map)).dom().len() + headers@.len() < MAP_FULL_AT ==> r,
        r ==> header_map_values(*final(map)) == applied(header_map_values(*old(map)), pair_views(headers@)),
        !r ==> exists|k: int|
            0 <= k < headers@.len() && header_map_values(*final(map)) == applied(
                header_map_values(*old(map)),
                pair_views(headers@).take(k),
            ),
{
    let ghost hv = pair_views(headers@);
    proof {
        reveal_strlit("vary");
        assert(is_lower_header_name("vary"@));
    }
    let mut i: usize = 0;
    while i < headers.len()
        invariant
            0 <= i <= headers@.len(),
            is_lower_header_name("vary"@),
            hv == pair_views(headers@),
            header_map_values(*map) == applied(header_map_values(*old(map)), hv.take(i as int)),
            header_map_values(*old(map)).dom().finite() ==> header_map_values(*map).dom().finite()
                && header_map_values(*map).dom().len() <= header_map_values(*old(map)).dom().len()
                + i,
            !header_map_values(*old(map)).dom().finite() ==> header_map_values(*map)
                == header_map_values(*old(map)),
        decreases headers@.len() - i,
    {
        assert(hv.take(i + 1).drop_last() == hv.take(i as int));
        assert(hv[i as int] == (headers@[i as int].0@, headers@[i as int].1@));
        let name = headers[i].0.as_str();
        let value = headers[i].1.as_str();
        let vb = value.as_bytes();
        if valid_value(vb) {
            let mut done = false;
            if is_vary_name(name) {
                match header_first(map, "vary") {
                    Some(existing) => {
                        if visible_value(existing.as_slice()) {
                            let mut merged = existing;
                            let ghost e = merged@;
                            merged.push(44u8);
                            merged.push(32u8);
                            let mut j: usize = 0;
                            while j < vb.len()
                                invariant
                                    0 <= j <= vb@.len(),
                                    merged@ == e + seq![44u8, 32u8] + vb@.take(j as int),
                                decreases vb@.len() - j,
                            {
                                merged.push(vb[j]);
                                j = j + 1;
                                assert(merged@ =~= e + seq![44u8, 32u8] + vb@.take(j as int));
                            }
                            assert(vb@.take(vb@.len() as int) == vb@);
                            assert(is_valid_value(merged@)) by {
                                assert forall|k: int| 0 <= k < merged@.len() implies crate::headers::is_value_byte(
                                    #[trigger] merged@[k],
                                ) by {
                                    if k < e.len() {
                                        assert(merged@[k] == e[k]);
                                    } else if k >= e.len() + 2 {
                                        assert(merged@[k] == vb@[k - e.len() - 2]);
                                    }
                                }
                            }
                            match header_set(map, name, merged.as_slice()) {
                                HeaderWrite::Full => {
                                    return false;
                                },
                                _ => {},
                            }
                            done = true;
                        }
                    },
                    None => {},
                }
            }
            if !done {
                match header_set(map, name, vb) {
                    HeaderWrite::Full => {
                        return false;
                    },
                    _ => {},
                }
            }
        }
        i = i + 1;
    }
    assert(hv.take(headers@.len() as int) == hv);
    true
}

impl CorsConfig {
    /// Writes the CORS headers for a request from `req_origin` into the
    /// headers of a response and answers `true`. Answers `false` when the header map reached its size limit before
    /// all were written, as [`apply_headers`] describes.
    pub fn apply_to_response(&self, headers: &mut HeaderMap, req_origin: Option<&str>) -> (r: bool)
        ensures
            header_map_values(*old(headers)).dom().len() + cors_headers(
                self@,
                opt_view(req_origin),
            ).len() < MAP_FULL_AT ==> r,
            r ==> header_map_values(*final(headers)) == applied(
                header_map_values(*old(headers)),
                cors_headers(
                    self@,
                    match req_origin {
                        Some(o) => Some(o@),
                        None => None,
                    },
                ),
            ),
            !r ==> exists|k: int|
                0 <= k < cors_headers(self@, opt_view(req_origin)).len() && header_map_values(
                    *final(headers),
                ) == applied(
                    header_map_values(*old(headers)),
                    #[trigger] cors_headers(self@, opt_view(req_origin)).take(k),
                ),
    {
        let hs = self.build_cors_headers(req_origin);
        apply_headers(headers, &hs)
    }
}

impl CorsConfig {
    /// Writes the headers of a preflight answer to a request from
    /// `req_origin` asking for `req_headers` into `headers` and answers
    /// `true`; answers `false` when the header map reached its size limit
    /// before all were written, as [`apply_headers`] describes.
    pub fn apply_preflight(
        &self,
        headers: &mut HeaderMap,
        req_origin: Option<&str>,
        req_headers: Option<&str>,
    ) -> (r: bool)
        ensures
            header_map_values(*old(headers)).dom().len() + cors_headers(
                self@,
                opt_view(req_origin),
            ).len() + preflight_only_headers(self@, opt_view(req_headers)).len() < MAP_FULL_AT
                ==> r,
            r ==> header_map_values(*final(headers)) == applied(
                header_map_values(*old(headers)),
                cors_headers(
                    self@,
                    match req_origin {
                        Some(o) => Some(o@),
                        None => None,
                    },
                ) + preflight_only_headers(
                    self@,
                    match req_headers {
                        Some(h) => Some(h@),
                        None => None,
                    },
                ),
            ),
            !r ==> exists|k: int|
                0 <= k < (cors_headers(self@, opt_view(req_origin)) + preflight_only_headers(
                    self@,
                    opt_view(req_headers),
                )).len() && header_map_values(*final(headers)) == applied(
                    header_map_values(*old(headers)),
                    #[trigger] (cors_headers(self@, opt_view(req_origin)) + preflight_only_headers(
                        self@,
                        opt_view(req_headers),
                    )).take(k),
                ),
    {
        let hs = self.preflight_headers(req_origin, req_headers);
        apply_headers(headers, &hs)
    }
}

// ---------------------------------------------------------------------------
// Laws of the policy
// ---------------------------------------------------------------------------

/// A policy as the builder makes it: "all origins" exactly when the
/// origin list is the single wildcard, and never together with
/// credentials.
pub open spec fn cors_spec_valid(c: CorsSpec) -> bool {
    c.allow_all_origins == is_wildcard_only(c.allow_origins) && !(c.credentials
        && c.allow_all_origins)
}

/// The origin a response grants is the wildcard or the requesting origin
/// itself, never another origin of the list.
pub proof fn lemma_granted_origin_is_wildcard_or_own(c: CorsSpec, o: Option<Seq<char>>)
    ensures
        granted_origin(c, o) matches Some(g) ==> g == "*"@ || o == Some(g),
{
}

/// A request from an origin that the policy does not list, when the list
/// holds no wildcard, gets no CORS header at all; so does a request that
/// names no origin.
pub proof fn lemma_unlisted_origin_gets_nothing(c: CorsSpec, o: Option<Seq<char>>)
    requires
        cors_spec_valid(c),
        !c.allow_origins.contains("*"@),
        o matches Some(x) ==> !c.allow_origins.contains(x),
    ensures
        cors_headers(c, o).len() == 0,
{
    if c.allow_all_origins {
        assert(c.allow_origins[0] == "*"@);
        assert(c.allow_origins.contains("*"@));
    }
}

/// `Vary: origin` accompanies every granted origin except the wildcard,
/// so that caches keep the answers to different origins apart.
pub proof fn lemma_vary_iff_specific_origin(c: CorsSpec, o: Option<Seq<char>>)
    ensures
        granted_origin(c, o) matches Some(g) ==> (cors_headers(c, o).contains(("vary"@, "origin"@))
            <==> g != "*"@),
{
    reveal_strlit("access-control-allow-origin");
    reveal_strlit("vary");
    reveal_strlit("access-control-allow-credentials");
    reveal_strlit("access-control-expose-headers");
    match granted_origin(c, o) {
        Some(g) => {
            let hs = cors_headers(c, o);
            if g != "*"@ {
                assert(hs[1] == ("vary"@, "origin"@));
            } else {
                assert forall|i: int| 0 <= i < hs.len() implies hs[i].0 != "vary"@ by {
                    assert(hs[i].0.len() != 4);
                }
            }
        },
        None => {},
    }
}

/// `Access-Control-Allow-Credentials: true` is sent exactly when the
/// policy allows credentials and grants the request's origin.
pub proof fn lemma_credentials_header(c: CorsSpec, o: Option<Seq<char>>)
    ensures
        cors_headers(c, o).contains(("access-control-allow-credentials"@, "true"@)) <==> (
        c.credentials && granted_origin(c, o) is Some),
{
    reveal_strlit("access-control-allow-origin");
    reveal_strlit("vary");
    reveal_strlit("access-control-allow-credentials");
    reveal_strlit("access-control-expose-headers");
    let hs = cors_headers(c, o);
    let cred = ("access-control-allow-credentials"@, "true"@);
    if c.credentials && granted_origin(c, o) is Some {
        let g = granted_origin(c, o).unwrap();
        if g != "*"@ {
            assert(hs[2] == cred);
        } else {
            assert(hs[1] == cred);
        }
    } else {
        assert forall|i: int| 0 <= i < hs.len() implies hs[i] != cred by {
            assert(hs[i].0.len() != 32);
        }
    }
}

/// A response that grants an origin names the exposed headers, joined by
/// `", "`, whenever the policy exposes any, with or without credentials.
pub proof fn lemma_expose_headers_listed(c: CorsSpec, o: Option<Seq<char>>)
    requires
        granted_origin(c, o) is Some,
        c.expose_headers.len() > 0,
    ensures
        cors_headers(c, o).contains(("access-control-expose-headers"@, join(c.expose_headers, ", "@))),
{
    let hs = cors_headers(c, o);
    assert(hs[hs.len() - 1] == ("access-control-expose-headers"@, join(c.expose_headers, ", "@)));
}

} // verus!
