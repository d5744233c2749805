//! Routes with fixed paths and with path patterns, and the router that
//! picks the first route that matches a request.

use crate::http::{HttpMethod, HttpRequestMessage, HttpResponseMessage};
use crate::strmap::StringMap;
use crate::text::{
    bytes_eq, lemma_ascii_boundary, lemma_lit_colon, lemma_lit_slash, lit, split, split_str,
    str_slice, utf8,
};
use vstd::prelude::*;
use vstd::string::*;
use vstd::utf8::*;

verus! {

/// One segment of a path pattern: text that the path must repeat, or a
/// variable that takes whatever the path holds there.
#[derive(Debug, PartialEq, Eq)]
pub enum UrlSegment {
    Literal(String),
    Variable(String),
}

/// A segment of a path pattern, its text as bytes.
pub enum SegmentModel {
    Literal(Seq<u8>),
    Variable(Seq<u8>),
}

impl View for UrlSegment {
    type V = SegmentModel;

    open spec fn view(&self) -> SegmentModel {
        match *self {
            UrlSegment::Literal(s) => SegmentModel::Literal(utf8(s@)),
            UrlSegment::Variable(s) => SegmentModel::Variable(utf8(s@)),
        }
    }
}

/// The segment that a piece of a template stands for: a piece that begins
/// with a colon is the variable named by what follows the colon.
pub open spec fn segment_of(piece: Seq<u8>) -> SegmentModel {
    if lit(":").is_prefix_of(piece) {
        SegmentModel::Variable(piece.subrange(lit(":").len() as int, piece.len() as int))
    } else {
        SegmentModel::Literal(piece)
    }
}

/// The pattern that a template stands for: its pieces between slashes, each
/// as a segment. The empty template stands for none.
pub open spec fn compile(template: Seq<u8>) -> Option<Seq<SegmentModel>> {
    if template.len() == 0 {
        None
    } else {
        let pieces = split(template, lit("/"));
        Some(Seq::new(pieces.len(), |i: int| segment_of(pieces[i])))
    }
}

/// The variables that the pieces of a path give to a pattern: as many pieces
/// as segments, each literal segment equal to its piece, each variable bound
/// to its piece, a later binding of a name in place of an earlier one.
pub open spec fn match_segments(pattern: Seq<SegmentModel>, pieces: Seq<Seq<u8>>) -> Option<
    Map<Seq<u8>, Seq<u8>>,
>
    decreases pattern.len(),
{
    if pattern.len() != pieces.len() {
        None
    } else if pattern.len() == 0 {
        Some(Map::empty())
    } else {
        match match_segments(pattern.drop_last(), pieces.drop_last()) {
            None => None,
            Some(vars) => match pattern.last() {
                SegmentModel::Literal(text) => if text == pieces.last() {
                    Some(vars)
                } else {
                    None
                },
                SegmentModel::Variable(name) => Some(vars.insert(name, pieces.last())),
            },
        }
    }
}

/// The variables that a path gives to a pattern.
pub open spec fn match_path(pattern: Seq<SegmentModel>, path: Seq<u8>) -> Option<
    Map<Seq<u8>, Seq<u8>>,
> {
    match_segments(pattern, split(path, lit("/")))
}

/// A path pattern such as `/test/:id/`.
#[derive(Debug, PartialEq, Eq)]
pub struct DynamicUrl {
    pub segments: Vec<UrlSegment>,
}

impl View for DynamicUrl {
    type V = Seq<SegmentModel>;

    open spec fn view(&self) -> Seq<SegmentModel> {
        Seq::new(self.segments@.len(), |i: int| self.segments@[i]@)
    }
}

impl DynamicUrl {
    /// The pattern that `template` stands for; `None` for the empty template.
    pub fn parse_str(template: &str) -> (r: Option<DynamicUrl>)
        ensures
            match compile(template.spec_bytes()) {
                Some(pattern) => r matches Some(url) && url@ == pattern,
                None => r is None,
            },
    {
        if template.as_bytes().len() == 0 {
            return None;
        }
        proof {
            lemma_lit_slash();
        }
        let pieces = split_str(template, "/");
        let ghost parts = split(template.spec_bytes(), lit("/"));
        let mut segments: Vec<UrlSegment> = Vec::new();
        let mut i: usize = 0;
        while i < pieces.len()
            invariant
                0 <= i <= pieces@.len(),
                pieces@.len() == parts.len(),
                forall|j: int| 0 <= j < pieces@.len() ==> (#[trigger] pieces@[j]).spec_bytes() == parts[j],
                segments@.len() == i,
                forall|j: int| 0 <= j < i ==> (#[trigger] segments@[j])@ == segment_of(parts[j]),
            decreases pieces@.len() - i,
        {
            let piece: &str = pieces[i];
            let bytes = piece.as_bytes();
            if bytes.len() > 0 && bytes[0] == 0x3a {
                proof {
                    lemma_lit_colon();
                    encode_utf8_valid_utf8(piece@);
                    lemma_ascii_boundary(bytes@, 0);
                    is_char_boundary_start_end_of_seq(bytes@);
                    assert(bytes@.subrange(0, 1) =~= lit(":"));
                }
                let name = str_slice(piece, 1, bytes.len());
                segments.push(UrlSegment::Variable(name.to_owned()));
            } else {
                proof {
                    lemma_lit_colon();
                    if lit(":").is_prefix_of(bytes@) {
                        assert(bytes@[0] == bytes@.subrange(0, 1)[0]);
                    }
                }
                segments.push(UrlSegment::Literal(piece.to_owned()));
            }
            i += 1;
        }
        let url = DynamicUrl { segments: segments };
        proof {
            assert(url@ =~= compile(template.spec_bytes())->0);
        }
        Some(url)
    }

    /// The variables that `path` gives to the pattern, where it matches.
    pub fn matches(&self, path: &str) -> (r: Option<StringMap>)
        ensures
            match match_path(self@, path.spec_bytes()) {
                Some(vars) => r matches Some(m) && m@ == vars,
                None => r is None,
            },
    {
        proof {
            lemma_lit_slash();
        }
        let pieces = split_str(path, "/");
        let ghost parts = split(path.spec_bytes(), lit("/"));
        if pieces.len() != self.segments.len() {
            return None;
        }
        let mut vars = StringMap::new();
        let mut i: usize = 0;
        proof {
            assert(self@.subrange(0, 0) =~= Seq::<SegmentModel>::empty());
        }
        while i < pieces.len()
            invariant
                0 <= i <= pieces@.len(),
                pieces@.len() == parts.len(),
                pieces@.len() == self@.len(),
                self@.len() == self.segments@.len(),
                parts == split(path.spec_bytes(), lit("/")),
                forall|j: int| 0 <= j < pieces@.len() ==> (#[trigger] pieces@[j]).spec_bytes() == parts[j],
                match_segments(self@.subrange(0, i as int), parts.subrange(0, i as int)) == Some(
                    vars@,
                ),
            decreases pieces@.len() - i,
        {
            let piece: &str = pieces[i];
            proof {
                let segs = self@.subrange(0, i + 1);
                let parts_so_far = parts.subrange(0, i + 1);
                assert(segs.drop_last() =~= self@.subrange(0, i as int));
                assert(parts_so_far.drop_last() =~= parts.subrange(0, i as int));
                assert(segs.last() == self.segments@[i as int]@);
                assert(parts_so_far.last() == parts[i as int]);
            }
            match &self.segments[i] {
                UrlSegment::Literal(text) => {
                    if !bytes_eq(text.as_str().as_bytes(), piece.as_bytes()) {
                        proof {
                            assert(match_segments(
                                self@.subrange(0, i + 1),
                                parts.subrange(0, i + 1),
                            ) is None);
                            lemma_match_prefix_fails(self@, parts, i + 1);
                            assert(self@.subrange(0, self@.len() as int) =~= self@);
                            assert(parts.subrange(0, parts.len() as int) =~= parts);
                        }
                        return None;
                    }
                },
                UrlSegment::Variable(name) => {
                    vars.insert(name.clone(), piece.to_owned());
                },
            }
            i += 1;
        }
        proof {
            assert(self@.subrange(0, self@.len() as int) =~= self@);
            assert(parts.subrange(0, parts.len() as int) =~= parts);
        }
        Some(vars)
    }
}

/// A pattern matches only paths with as many pieces as it has segments.
pub proof fn lemma_match_needs_equal_counts(pattern: Seq<SegmentModel>, path: Seq<u8>)
    requires
        pattern.len() != split(path, lit("/")).len(),
    ensures
        match_path(pattern, path) is None,
{
}

/// A pattern whose first `k` segments do not match the first `k` pieces
/// does not match.
pub proof fn lemma_match_prefix_fails(pattern: Seq<SegmentModel>, pieces: Seq<Seq<u8>>, k: int)
    requires
        0 <= k <= pattern.len(),
        pattern.len() == pieces.len(),
        match_segments(pattern.subrange(0, k), pieces.subrange(0, k)) is None,
    ensures
        match_segments(pattern, pieces) is None,
    decreases pattern.len() - k,
{
    if k == pattern.len() {
        assert(pattern.subrange(0, k) =~= pattern);
        assert(pieces.subrange(0, k) =~= pieces);
    } else {
        let segs = pattern.subrange(0, k + 1);
        let parts_so_far = pieces.subrange(0, k + 1);
        assert(segs.drop_last() =~= pattern.subrange(0, k));
        assert(parts_so_far.drop_last() =~= pieces.subrange(0, k));
        lemma_match_prefix_fails(pattern, pieces, k + 1);
    }
}

/// Why a request got no response.
#[derive(Debug, PartialEq, Eq)]
pub enum HttpRouterError {
    /// No route matches the request.
    NoRouteFound,
    /// The handler of the route that matches failed.
    HandlerError,
}

/// What a route hands on of what its handler returned: a response as it is,
/// any failure as `HandlerError`.
pub open spec fn surfaced(out: Result<HttpResponseMessage, HttpRouterError>) -> Result<
    HttpResponseMessage,
    HttpRouterError,
> {
    match out {
        Ok(response) => Ok(response),
        Err(_) => Err(HttpRouterError::HandlerError),
    }
}

/// Hands on what a handler returned: a response as it is, any failure as
/// `HandlerError`.
pub fn surface(out: Result<HttpResponseMessage, HttpRouterError>) -> (r: Result<
    HttpResponseMessage,
    HttpRouterError,
>)
    ensures
        r == surfaced(out),
{
    match out {
        Ok(response) => Ok(response),
        Err(_) => Err(HttpRouterError::HandlerError),
    }
}

/// What a route can do: tell whether it matches a method and a path, and
/// answer a request.
pub trait HttpRoute {
    /// The variables that the route takes from the path, where it matches
    /// the method and the path.
    spec fn route_vars(&self, method: HttpMethod, path: Seq<u8>) -> Option<Map<Seq<u8>, Seq<u8>>>;

    /// Whether the route's handler accepts the request.
    spec fn accepts(&self, request: &HttpRequestMessage) -> bool;

    /// Whether `result` is an answer of the route to the request.
    spec fn answers(
        &self,
        request: &HttpRequestMessage,
        result: Result<HttpResponseMessage, HttpRouterError>,
    ) -> bool;

    /// The variables that the route takes from the path, where it matches.
    fn matches(&self, method: HttpMethod, path: &str) -> (r: Option<StringMap>)
        ensures
            match self.route_vars(method, path.spec_bytes()) {
                Some(vars) => r matches Some(m) && m@ == vars,
                None => r is None,
            },
    ;

    /// Answers the request with the route's handler.
    fn execute(&self, request: &HttpRequestMessage) -> (r: Result<
        HttpResponseMessage,
        HttpRouterError,
    >)
        requires
            self.accepts(request),
        ensures
            self.answers(request, r),
    ;
}

/// The texts of `urls` as bytes.
pub open spec fn url_bytes(urls: Seq<String>) -> Seq<Seq<u8>> {
    Seq::new(urls.len(), |i: int| utf8(urls[i]@))
}

/// A route for fixed paths: it matches a request whose method is one of
/// `methods` and whose path is one of `urls`. Its handler answers whatever
/// request it is given.
pub struct HttpRouteStaticUrl<F> {
    pub urls: Vec<String>,
    pub methods: Vec<HttpMethod>,
    pub action: F,
}

impl<F: Fn(&HttpRequestMessage) -> Result<HttpResponseMessage, HttpRouterError>> HttpRouteStaticUrl<
    F,
> {
    /// A route for GET requests to `url`.
    pub fn new_get(url: &str, action: F) -> (r: HttpRouteStaticUrl<F>)
        ensures
            url_bytes(r.urls@) == seq![url.spec_bytes()],
            r.methods@ == seq![HttpMethod::Get],
            r.action == action,
    {
        let mut urls: Vec<String> = Vec::new();
        urls.push(url.to_owned());
        let mut methods: Vec<HttpMethod> = Vec::new();
        methods.push(HttpMethod::Get);
        proof {
            assert(url_bytes(urls@) =~= seq![url.spec_bytes()]);
        }
        HttpRouteStaticUrl { urls: urls, methods: methods, action: action }
    }
}

impl<F: Fn(&HttpRequestMessage) -> Result<HttpResponseMessage, HttpRouterError>> HttpRoute for HttpRouteStaticUrl<
    F,
> {
    open spec fn route_vars(&self, method: HttpMethod, path: Seq<u8>) -> Option<
        Map<Seq<u8>, Seq<u8>>,
    > {
        if self.methods@.contains(method) && url_bytes(self.urls@).contains(path) {
            Some(Map::empty())
        } else {
            None
        }
    }

    open spec fn accepts(&self, request: &HttpRequestMessage) -> bool {
        call_requires(self.action, (request,))
    }

    open spec fn answers(
        &self,
        request: &HttpRequestMessage,
        result: Result<HttpResponseMessage, HttpRouterError>,
    ) -> bool {
        exists|out: Result<HttpResponseMessage, HttpRouterError>|
            call_ensures(self.action, (request,), out) && result == surfaced(out)
    }

    fn matches(&self, method: HttpMethod, path: &str) -> (r: Option<StringMap>) {
        let mut known: bool = false;
        let mut i: usize = 0;
        while i < self.methods.len() && !known
            invariant
                0 <= i <= self.methods@.len(),
                known ==> self.methods@.contains(method),
                !known ==> forall|j: int| 0 <= j < i ==> self.methods@[j] != method,
            decreases self.methods@.len() - i + (if known { 0int } else { 1int }),
        {
            if self.methods[i] == method {
                known = true;
            } else {
                i += 1;
            }
        }
        if !known {
            return None;
        }
        let ghost urls = url_bytes(self.urls@);
        let mut k: usize = 0;
        while k < self.urls.len()
            invariant
                0 <= k <= self.urls@.len(),
                urls == url_bytes(self.urls@),
                self.methods@.contains(method),
                forall|j: int| 0 <= j < k ==> urls[j] != path.spec_bytes(),
            decreases self.urls@.len() - k,
        {
            if bytes_eq(self.urls[k].as_str().as_bytes(), path.as_bytes()) {
                proof {
                    assert(urls[k as int] == path.spec_bytes());
                    assert(urls.contains(path.spec_bytes()));
                }
                return Some(StringMap::new());
            }
            k += 1;
        }
        None
    }

    fn execute(&self, request: &HttpRequestMessage) -> (r: Result<
        HttpResponseMessage,
        HttpRouterError,
    >) {
        let out = (self.action)(request);
        proof {
            assert(call_ensures(self.action, (request,), out));
        }
        surface(out)
    }
}

/// A route for a path pattern: it matches a request whose method is `method`
/// and whose path matches `url`, and hands the variables to its handler. To
/// answer a request it matches the request again; a request that does not
/// match is answered with `NoRouteFound`.
pub struct HttpRouteDynamicUrl<F> {
    pub url: DynamicUrl,
    pub method: HttpMethod,
    pub action: F,
}

impl<
    F: Fn(&HttpRequestMessage, &StringMap) -> Result<HttpResponseMessage, HttpRouterError>,
> HttpRouteDynamicUrl<F> {
    /// A route for requests with `method` to paths that match `url`.
    pub fn new(url: DynamicUrl, method: HttpMethod, action: F) -> (r: HttpRouteDynamicUrl<F>)
        ensures
            r.url == url,
            r.method == method,
            r.action == action,
    {
        HttpRouteDynamicUrl { url: url, method: method, action: action }
    }
}

impl<
    F: Fn(&HttpRequestMessage, &StringMap) -> Result<HttpResponseMessage, HttpRouterError>,
> HttpRoute for HttpRouteDynamicUrl<F> {
    open spec fn route_vars(&self, method: HttpMethod, path: Seq<u8>) -> Option<
        Map<Seq<u8>, Seq<u8>>,
    > {
        if method == self.method {
            match_path(self.url@, path)
        } else {
            None
        }
    }

    open spec fn accepts(&self, request: &HttpRequestMessage) -> bool {
        forall|vars: &StringMap|
            Some(vars@) == self.route_vars(request.method, utf8(request.url@)) ==> call_requires(
                self.action,
                (request, vars),
            )
    }

    open spec fn answers(
        &self,
        request: &HttpRequestMessage,
        result: Result<HttpResponseMessage, HttpRouterError>,
    ) -> bool {
        match self.route_vars(request.method, utf8(request.url@)) {
            Some(bound) => exists|vars: &StringMap, out: Result<HttpResponseMessage, HttpRouterError>|
                vars@ == bound && call_ensures(self.action, (request, vars), out) && result
                    == surfaced(out),
            None => result == Err::<HttpResponseMessage, HttpRouterError>(
                HttpRouterError::NoRouteFound,
            ),
        }
    }

    fn matches(&self, method: HttpMethod, path: &str) -> (r: Option<StringMap>) {
        if method == self.method {
            self.url.matches(path)
        } else {
            None
        }
    }

    fn execute(&self, request: &HttpRequestMessage) -> (r: Result<
        HttpResponseMessage,
        HttpRouterError,
    >) {
        match self.matches(request.method, request.url.as_str()) {
            Some(vars) => {
                let out = (self.action)(request, &vars);
                proof {
                    assert(call_ensures(self.action, (request, &vars), out));
                }
                surface(out)
            },
            None => Err(HttpRouterError::NoRouteFound),
        }
    }
}

/// A route of either kind.
pub enum HttpRouteEntry<S, D> {
    Static(HttpRouteStaticUrl<S>),
    Dynamic(HttpRouteDynamicUrl<D>),
}

impl<
    S: Fn(&HttpRequestMessage) -> Result<HttpResponseMessage, HttpRouterError>,
    D: Fn(&HttpRequestMessage, &StringMap) -> Result<HttpResponseMessage, HttpRouterError>,
> HttpRoute for HttpRouteEntry<S, D> {
    open spec fn route_vars(&self, method: HttpMethod, path: Seq<u8>) -> Option<
        Map<Seq<u8>, Seq<u8>>,
    > {
        match self {
            HttpRouteEntry::Static(route) => route.route_vars(method, path),
            HttpRouteEntry::Dynamic(route) => route.route_vars(method, path),
        }
    }

    open spec fn accepts(&self, request: &HttpRequestMessage) -> bool {
        match self {
            HttpRouteEntry::Static(route) => route.accepts(request),
            HttpRouteEntry::Dynamic(route) => route.accepts(request),
        }
    }

    open spec fn answers(
        &self,
        request: &HttpRequestMessage,
        result: Result<HttpResponseMessage, HttpRouterError>,
    ) -> bool {
        match self {
            HttpRouteEntry::Static(route) => route.answers(request, result),
            HttpRouteEntry::Dynamic(route) => route.answers(request, result),
        }
    }

    fn matches(&self, method: HttpMethod, path: &str) -> (r: Option<StringMap>) {
        match self {
            HttpRouteEntry::Static(route) => route.matches(method, path),
            HttpRouteEntry::Dynamic(route) => route.matches(method, path),
        }
    }

    fn execute(&self, request: &HttpRequestMessage) -> (r: Result<
        HttpResponseMessage,
        HttpRouterError,
    >) {
        match self {
            HttpRouteEntry::Static(route) => route.execute(request),
            HttpRouteEntry::Dynamic(route) => route.execute(request),
        }
    }
}

/// The place of the first route at or after `from` that matches the method
/// and the path.
pub open spec fn first_match_from<R: HttpRoute>(
    routes: Seq<R>,
    method: HttpMethod,
    path: Seq<u8>,
    from: int,
) -> Option<int>
    decreases routes.len() - from,
{
    if from < 0 || from >= routes.len() {
        None
    } else if routes[from].route_vars(method, path) is Some {
        Some(from)
    } else {
        first_match_from(routes, method, path, from + 1)
    }
}

/// The place of the first route that matches the method and the path.
pub open spec fn first_match<R: HttpRoute>(routes: Seq<R>, method: HttpMethod, path: Seq<u8>) -> Option<
    int,
> {
    first_match_from(routes, method, path, 0)
}

/// Route precedence: the route that `first_match` gives matches, and no
/// route before it does; where it gives none, no route matches.
pub proof fn lemma_first_match_is_first<R: HttpRoute>(
    routes: Seq<R>,
    method: HttpMethod,
    path: Seq<u8>,
    from: int,
)
    requires
        0 <= from,
    ensures
        match first_match_from(routes, method, path, from) {
            Some(i) => from <= i < routes.len() && routes[i].route_vars(method, path) is Some
                && forall|j: int| from <= j < i ==> routes[j].route_vars(method, path) is None,
            None => forall|j: int|
                from <= j < routes.len() ==> routes[j].route_vars(method, path) is None,
        },
    decreases routes.len() - from,
{
    if from < routes.len() && routes[from].route_vars(method, path) is None {
        lemma_first_match_is_first(routes, method, path, from + 1);
    }
}

/// The first route, in the order of `routes`, that matches the request's
/// method and URL.
pub fn http_router<'a, R: HttpRoute>(routes: &'a Vec<R>, request: &HttpRequestMessage) -> (r: Result<
    &'a R,
    HttpRouterError,
>)
    ensures
        match first_match(routes@, request.method, utf8(request.url@)) {
            Some(i) => r matches Ok(route) && *route == routes@[i],
            None => r matches Err(e) && e == HttpRouterError::NoRouteFound,
        },
{
    let mut i: usize = 0;
    while i < routes.len()
        invariant
            0 <= i <= routes@.len(),
            first_match(routes@, request.method, utf8(request.url@)) == first_match_from(
                routes@,
                request.method,
                utf8(request.url@),
                i as int,
            ),
        decreases routes@.len() - i,
    {
        if routes[i].matches(request.method, request.url.as_str()).is_some() {
            return Ok(&routes[i]);
        }
        i += 1;
    }
    Err(HttpRouterError::NoRouteFound)
}

/// Answers the request with the first route that matches it.
pub fn dispatch<R: HttpRoute>(routes: &Vec<R>, request: &HttpRequestMessage) -> (r: Result<
    HttpResponseMessage,
    HttpRouterError,
>)
    requires
        forall|i: int|
            0 <= i < routes@.len() && first_match(routes@, request.method, utf8(request.url@))
                == Some(i) ==> (#[trigger] routes@[i]).accepts(request),
    ensures
        match first_match(routes@, request.method, utf8(request.url@)) {
            Some(i) => routes@[i].answers(request, r),
            None => r matches Err(e) && e == HttpRouterError::NoRouteFound,
        },
{
    proof {
        lemma_first_match_is_first(routes@, request.method, utf8(request.url@), 0);
    }
    match http_router(routes, request) {
        Ok(route) => route.execute(request),
        Err(e) => Err(e),
    }
}

} // verus!
