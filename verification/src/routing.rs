//! Routes and route resolution: pattern matching with `:name`
//! placeholders, first-match-wins scanning, and path-parameter
//! extraction.
use vstd::prelude::*;
use crate::common::HttpMethod;
use crate::request::Request;
use crate::response::HttpResponse;
use crate::strmap::StringMap;
use crate::strutil::{split_seq, split_chars, to_chars, chars_eq, chars_to_string, str_eq};

verus! {

/// An opaque failure returned by application code.
#[derive(Debug, Clone, Copy, PartialEq, Eq, Structural)]
pub struct HandlerError;

/// A route handler: application code invoked with the matched request.
/// A successful handler yields a response whose header entries are in
/// builder form (sorted), which every constructor of `HttpResponse`
/// maintains.
pub trait Handler: Sized {
    fn call(&self, req: &Request) -> (r: Result<HttpResponse, HandlerError>)
        ensures
            r matches Ok(resp) ==> resp.wf(),
    ;
}

/// A registered route.
#[derive(Debug)]
pub struct Route<H> {
    pub method: HttpMethod,
    pub path: String,
    pub handler: H,
}

/// Why resolution can fail.
#[derive(Debug, Clone, Copy, PartialEq, Eq, Structural)]
pub enum RouteError {
    NotFound,
    MethodNotAllowed,
    RouteAlreadyExists,
}

/// One pattern segment against one path segment: a `:name` placeholder
/// takes any nonempty segment, anything else must match literally.
pub open spec fn seg_matches(p: Seq<char>, s: Seq<char>) -> bool {
    if p.len() > 0 && p[0] == ':' {
        s.len() > 0
    } else {
        p == s
    }
}

/// Whole-pattern matching: both sides are split on `/`; the segment
/// counts must agree (trailing slashes change arity on purpose) and
/// every segment must match.
pub open spec fn spec_match_route(p: Seq<char>, s: Seq<char>) -> bool {
    let ps = split_seq(p, '/');
    let ss = split_seq(s, '/');
    ps.len() == ss.len() && forall|i: int| 0 <= i < ps.len() ==> seg_matches(
        #[trigger] ps[i],
        ss[i],
    )
}

/// Whether a route pattern matches an incoming path.
pub fn match_route(route: &str, incoming: &str) -> (r: bool)
    ensures
        r == spec_match_route(route@, incoming@),
{
    let pc = to_chars(route);
    let sc = to_chars(incoming);
    let ps = split_chars(&pc, '/');
    let ss = split_chars(&sc, '/');
    if ps.len() != ss.len() {
        return false;
    }
    let ghost psv = split_seq(route@, '/');
    let ghost ssv = split_seq(incoming@, '/');
    let mut i: usize = 0;
    while i < ps.len()
        invariant
            i <= ps@.len(),
            psv == split_seq(route@, '/'),
            ssv == split_seq(incoming@, '/'),
            ps.deep_view() == psv,
            ss.deep_view() == ssv,
            ps@.len() == psv.len(),
            ss@.len() == ssv.len(),
            psv.len() == ssv.len(),
            forall|j: int| 0 <= j < i ==> seg_matches(#[trigger] psv[j], ssv[j]),
        decreases ps@.len() - i,
    {
        let p = &ps[i];
        let s = &ss[i];
        proof {
            assert(p@ == psv[i as int]);
            assert(s@ == ssv[i as int]);
        }
        if p.len() > 0 && p[0] == ':' {
            if s.len() == 0 {
                proof {
                    assert(!seg_matches(psv[i as int], ssv[i as int]));
                }
                return false;
            }
        } else {
            if !chars_eq(p, s) {
                proof {
                    assert(!seg_matches(psv[i as int], ssv[i as int]));
                }
                return false;
            }
        }
        i += 1;
    }
    true
}

/// The view of a route table: method and pattern of each entry.
pub open spec fn route_views<H>(rs: Seq<Route<H>>) -> Seq<(HttpMethod, Seq<char>)> {
    rs.map(|i: int, r: Route<H>| (r.method, r.path@))
}

/// The scan spec: the first route matching path and method wins; a
/// path-only match seen anywhere turns a failed scan into
/// `MethodNotAllowed`, and a scan with no path match at all is
/// `NotFound`.
pub open spec fn spec_resolve(
    rs: Seq<(HttpMethod, Seq<char>)>,
    path: Seq<char>,
    m: HttpMethod,
) -> Result<int, RouteError>
    decreases rs.len(),
{
    if rs.len() == 0 {
        Err(RouteError::NotFound)
    } else if spec_match_route(rs[0].1, path) && rs[0].0 == m {
        Ok(0)
    } else {
        match spec_resolve(rs.skip(1), path, m) {
            Ok(i) => Ok(i + 1),
            Err(e) => if spec_match_route(rs[0].1, path) {
                Err(RouteError::MethodNotAllowed)
            } else {
                Err(e)
            },
        }
    }
}

fn resolve_from<'a, H>(
    routes: &'a Vec<Route<H>>,
    path: &str,
    method: HttpMethod,
    i: usize,
) -> (r: Result<usize, RouteError>)
    requires
        i <= routes@.len(),
    ensures
        match r {
            Ok(j) => i <= j < routes@.len() && spec_resolve(
                route_views(routes@).skip(i as int),
                path@,
                method,
            ) == Ok::<int, RouteError>(j - i),
            Err(e) => spec_resolve(route_views(routes@).skip(i as int), path@, method) == Err::<
                int,
                RouteError,
            >(e),
        },
    decreases routes@.len() - i,
{
    let ghost rv = route_views(routes@);
    if i == routes.len() {
        proof {
            assert(rv.skip(i as int).len() == 0);
        }
        return Err(RouteError::NotFound);
    }
    proof {
        assert(rv.skip(i as int)[0] == rv[i as int]);
        assert(rv[i as int] == (routes@[i as int].method, routes@[i as int].path@));
        assert(rv.skip(i as int).skip(1) =~= rv.skip(i + 1));
    }
    let m = match_route(routes[i].path.as_str(), path);
    if m && routes[i].method == method {
        return Ok(i);
    }
    match resolve_from(routes, path, method, i + 1) {
        Ok(j) => Ok(j),
        Err(e) => {
            if m {
                Err(RouteError::MethodNotAllowed)
            } else {
                Err(e)
            }
        },
    }
}

/// Scans the table in registration order for the first route whose
/// pattern and method both match.
pub fn resolve_routes<'a, H>(
    path: &str,
    method: HttpMethod,
    routes: &'a Vec<Route<H>>,
) -> (r: Result<&'a Route<H>, RouteError>)
    ensures
        ({
            let rr = spec_resolve(route_views(routes@), path@, method);
            match r {
                Ok(route) => rr matches Ok(j) && 0 <= j < routes@.len() && *route == routes@[j],
                Err(e) => rr == Err::<int, RouteError>(e),
            }
        }),
{
    proof {
        assert(route_views(routes@).skip(0) =~= route_views(routes@));
    }
    match resolve_from(routes, path, method, 0) {
        Ok(j) => Ok(&routes[j]),
        Err(e) => Err(e),
    }
}

/// Resolution over a route table.
pub trait RouteResolver {
    /// Scans the table in registration order for the first route whose
    /// pattern and method both match; a path-only match downgrades the
    /// failure to `MethodNotAllowed`.
    fn resolve<'a, H>(
        &self,
        path: &str,
        method: HttpMethod,
        routes: &'a Vec<Route<H>>,
    ) -> (r: Result<&'a Route<H>, RouteError>)
        ensures
            ({
                let rr = spec_resolve(route_views(routes@), path@, method);
                match r {
                    Ok(route) => rr matches Ok(j) && 0 <= j < routes@.len() && *route
                        == routes@.index(j),
                    Err(e) => rr == Err::<int, RouteError>(e),
                }
            }),
    {
        resolve_routes(path, method, routes)
    }
}

/// What each resolution outcome means: success exactly when some route
/// matches both path and method; `MethodNotAllowed` exactly when a
/// route matches the path but none also matches the method; `NotFound`
/// exactly when no route matches the path at all.
pub proof fn lemma_resolve_characterization(
    rs: Seq<(HttpMethod, Seq<char>)>,
    path: Seq<char>,
    m: HttpMethod,
)
    ensures
        (spec_resolve(rs, path, m) is Ok) <==> exists|i: int|
            0 <= i < rs.len() && spec_match_route((#[trigger] rs[i]).1, path) && rs[i].0 == m,
        spec_resolve(rs, path, m) == Err::<int, RouteError>(RouteError::MethodNotAllowed) <==> ((
        exists|i: int| 0 <= i < rs.len() && spec_match_route((#[trigger] rs[i]).1, path)) && !(
        exists|i: int|
            0 <= i < rs.len() && spec_match_route((#[trigger] rs[i]).1, path) && rs[i].0 == m)),
        spec_resolve(rs, path, m) == Err::<int, RouteError>(RouteError::NotFound) <==> !(exists|
            i: int,
        | 0 <= i < rs.len() && spec_match_route((#[trigger] rs[i]).1, path)),
    decreases rs.len(),
{
    if rs.len() == 0 {
    } else {
        lemma_resolve_characterization(rs.skip(1), path, m);
        assert forall|i: int|
            1 <= i < rs.len() implies rs.skip(1)[i - 1] == rs[i] by {}
        if spec_match_route(rs[0].1, path) && rs[0].0 == m {
        } else {
            if exists|i: int|
                0 <= i < rs.skip(1).len() && spec_match_route(
                    (#[trigger] rs.skip(1)[i]).1,
                    path,
                ) && rs.skip(1)[i].0 == m {
                let i = choose|i: int|
                    0 <= i < rs.skip(1).len() && spec_match_route(
                        (#[trigger] rs.skip(1)[i]).1,
                        path,
                    ) && rs.skip(1)[i].0 == m;
                assert(spec_match_route(rs[i + 1].1, path) && rs[i + 1].0 == m);
            }
            if exists|i: int|
                0 <= i < rs.len() && spec_match_route((#[trigger] rs[i]).1, path) && rs[i].0
                    == m {
                let i = choose|i: int|
                    0 <= i < rs.len() && spec_match_route((#[trigger] rs[i]).1, path) && rs[i].0
                        == m;
                assert(i >= 1);
                assert(spec_match_route((rs.skip(1)[i - 1]).1, path) && rs.skip(1)[i - 1].0
                    == m);
            }
            if exists|i: int|
                0 <= i < rs.skip(1).len() && spec_match_route((#[trigger] rs.skip(1)[i]).1, path) {
                let i = choose|i: int|
                    0 <= i < rs.skip(1).len() && spec_match_route(
                        (#[trigger] rs.skip(1)[i]).1,
                        path,
                    );
                assert(spec_match_route(rs[i + 1].1, path));
            }
            if (exists|i: int| 0 <= i < rs.len() && spec_match_route((#[trigger] rs[i]).1, path))
                && !spec_match_route(rs[0].1, path) {
                let i = choose|i: int|
                    0 <= i < rs.len() && spec_match_route((#[trigger] rs[i]).1, path);
                assert(i >= 1);
                assert(spec_match_route((rs.skip(1)[i - 1]).1, path));
            }
        }
    }
}

/// The parameter bindings of the first `n` segment pairs: each `:name`
/// pattern segment binds its name to the path segment it matched.
pub open spec fn spec_params_fold(
    ps: Seq<Seq<char>>,
    ss: Seq<Seq<char>>,
    n: int,
) -> Map<Seq<char>, Seq<char>>
    decreases n,
{
    if n <= 0 {
        Map::empty()
    } else {
        let m = spec_params_fold(ps, ss, n - 1);
        if 0 <= n - 1 < ps.len() && n - 1 < ss.len() && ps[n - 1].len() > 0 && ps[n - 1][0]
            == ':' {
            m.insert(ps[n - 1].skip(1), ss[n - 1])
        } else {
            m
        }
    }
}

/// The path parameters bound when `pattern` is laid over `path`.
pub open spec fn spec_params(pattern: Seq<char>, path: Seq<char>) -> Map<Seq<char>, Seq<char>> {
    let ps = split_seq(pattern, '/');
    let ss = split_seq(path, '/');
    spec_params_fold(ps, ss, if ps.len() <= ss.len() {
        ps.len() as int
    } else {
        ss.len() as int
    })
}

/// Extracts the `:name` bindings of a matched route; a separate pass
/// performed after a successful resolve.
pub fn extract_params(pattern: &str, path: &str) -> (r: StringMap)
    ensures
        r@ == spec_params(pattern@, path@),
        r.wf(),
{
    let pc = to_chars(pattern);
    let sc = to_chars(path);
    let ps = split_chars(&pc, '/');
    let ss = split_chars(&sc, '/');
    let ghost psv = split_seq(pattern@, '/');
    let ghost ssv = split_seq(path@, '/');
    let n = if ps.len() <= ss.len() {
        ps.len()
    } else {
        ss.len()
    };
    let mut m = StringMap::new();
    let mut i: usize = 0;
    while i < n
        invariant
            i <= n,
            ps.deep_view() == psv,
            ss.deep_view() == ssv,
            ps@.len() == psv.len(),
            ss@.len() == ssv.len(),
            n <= psv.len(),
            n <= ssv.len(),
            m@ == spec_params_fold(psv, ssv, i as int),
            m.wf(),
        decreases n - i,
    {
        let p = &ps[i];
        proof {
            assert(p@ == psv[i as int]);
            assert(ss@[i as int]@ == ssv[i as int]);
        }
        if p.len() > 0 && p[0] == ':' {
            let mut name: Vec<char> = Vec::new();
            let mut k: usize = 1;
            while k < p.len()
                invariant
                    1 <= k <= p@.len(),
                    name@ == p@.subrange(1, k as int),
                decreases p@.len() - k,
            {
                name.push(p[k]);
                k += 1;
                proof {
                    assert(name@ =~= p@.subrange(1, k as int));
                }
            }
            proof {
                assert(name@ =~= psv[i as int].skip(1));
            }
            m.insert(chars_to_string(&name), chars_to_string(&ss[i]));
        }
        i += 1;
    }
    m
}

/// The least index whose route was registered under exactly this
/// pattern and method, if any.
pub open spec fn route_idx(
    rs: Seq<(HttpMethod, Seq<char>)>,
    path: Seq<char>,
    m: HttpMethod,
) -> Option<int>
    decreases rs.len(),
{
    if rs.len() == 0 {
        None
    } else if rs[0].1 == path && rs[0].0 == m {
        Some(0)
    } else {
        match route_idx(rs.skip(1), path, m) {
            Some(i) => Some(i + 1),
            None => None,
        }
    }
}

/// What one registration does to a table: an entry under exactly the
/// same pattern and method is replaced in place by the given handler,
/// keeping its position, the table's length and every other entry as
/// a value; otherwise a route carrying the given handler is appended.
pub open spec fn registered<H>(
    rs0: Seq<Route<H>>,
    rs1: Seq<Route<H>>,
    path: Seq<char>,
    method: HttpMethod,
    handler: H,
) -> bool {
    match route_idx(route_views(rs0), path, method) {
        Some(i) => rs1.len() == rs0.len() && 0 <= i < rs1.len() && (forall|j: int|
            0 <= j < rs0.len() && j != i ==> rs1[j] == rs0[j]) && rs1[i].method == method
            && rs1[i].path@ == path && rs1[i].handler == handler,
        None => rs1.len() == rs0.len() + 1 && (forall|j: int|
            0 <= j < rs0.len() ==> rs1[j] == rs0[j]) && rs1.last().method == method
            && rs1.last().path@ == path && rs1.last().handler == handler,
    }
}

/// Registers a route in a table under the replace-or-append rule.
pub fn register_in<H>(routes: &mut Vec<Route<H>>, path: String, method: HttpMethod, handler: H)
    ensures
        registered(old(routes)@, final(routes)@, path@, method, handler),
{
    proof {
        lemma_route_idx_bounds(route_views(routes@), path@, method);
    }
    let ghost rs0 = routes@;
    let ghost rv = route_views(rs0);
    let n = routes.len();
    let mut i: usize = 0;
    proof {
        assert(rv.skip(0) =~= rv);
    }
    while i < n
        invariant
            i <= n,
            n == rs0.len(),
            routes@ == rs0,
            rs0 == old(routes)@,
            rv == route_views(rs0),
            rv.len() == n,
            forall|j: int| 0 <= j < i ==> !(rv[j].1 == path@ && rv[j].0 == method),
            route_idx(rv, path@, method) == match route_idx(rv.skip(i as int), path@, method) {
                Some(k) => Some(k + i),
                None => None::<int>,
            },
        decreases n - i,
    {
        proof {
            assert(rv.skip(i as int)[0] == rv[i as int]);
            assert(rv[i as int] == (rs0[i as int].method, rs0[i as int].path@));
            assert(rv.skip(i as int).skip(1) =~= rv.skip(i + 1));
        }
        if str_eq(routes[i].path.as_str(), path.as_str()) && routes[i].method == method {
            let _replaced = routes.remove(i);
            routes.insert(i, Route { method, path, handler });
            proof {
                assert(route_idx(rv.skip(i as int), path@, method) == Some(0int));
            }
            return ;
        }
        i += 1;
    }
    proof {
        assert(rv.skip(i as int).len() == 0);
        assert(route_idx(rv, path@, method) is None);
    }
    routes.push(Route { method, path, handler });
}

/// Whether a route under exactly this pattern and method is already
/// registered, so that a caller can warn before the overwrite.
pub fn route_exists<H>(routes: &Vec<Route<H>>, path: &str, method: HttpMethod) -> (r: bool)
    ensures
        r == (route_idx(route_views(routes@), path@, method) is Some),
{
    let ghost rv = route_views(routes@);
    let n = routes.len();
    let mut i: usize = 0;
    proof {
        assert(rv.skip(0) =~= rv);
    }
    while i < n
        invariant
            i <= n,
            n == routes@.len(),
            rv == route_views(routes@),
            rv.len() == n,
            route_idx(rv, path@, method) == match route_idx(rv.skip(i as int), path@, method) {
                Some(k) => Some(k + i),
                None => None::<int>,
            },
        decreases n - i,
    {
        proof {
            assert(rv.skip(i as int)[0] == rv[i as int]);
            assert(rv[i as int] == (routes@[i as int].method, routes@[i as int].path@));
            assert(rv.skip(i as int).skip(1) =~= rv.skip(i + 1));
        }
        if str_eq(routes[i].path.as_str(), path) && routes[i].method == method {
            proof {
                assert(route_idx(rv.skip(i as int), path@, method) == Some(0int));
            }
            return true;
        }
        i += 1;
    }
    proof {
        assert(rv.skip(i as int).len() == 0);
    }
    false
}

/// Registration surface shared by everything that owns a route table.
pub trait HTTPHandler<H>: Sized {
    type Error;

    /// The owned route table.
    spec fn entries(&self) -> Seq<Route<H>>;

    /// The pattern a path registers under, prefixes applied.
    spec fn reg_path(&self, path: Seq<char>) -> Seq<char>;

    /// Registers a handler: an entry under exactly the same pattern
    /// and method is replaced in place by this handler, otherwise a
    /// route carrying it is appended.
    fn register_route(&mut self, path: &str, method: HttpMethod, handler: H)
        ensures
            registered(
                old(self).entries(),
                final(self).entries(),
                old(self).reg_path(path@),
                method,
                handler,
            ),
    ;

    fn get(&mut self, path: &str, handler: H)
        ensures
            registered(
                old(self).entries(),
                final(self).entries(),
                old(self).reg_path(path@),
                HttpMethod::GET,
                handler,
            ),
    {
        self.register_route(path, HttpMethod::GET, handler)
    }

    fn post(&mut self, path: &str, handler: H)
        ensures
            registered(
                old(self).entries(),
                final(self).entries(),
                old(self).reg_path(path@),
                HttpMethod::POST,
                handler,
            ),
    {
        self.register_route(path, HttpMethod::POST, handler)
    }

    fn put(&mut self, path: &str, handler: H)
        ensures
            registered(
                old(self).entries(),
                final(self).entries(),
                old(self).reg_path(path@),
                HttpMethod::PUT,
                handler,
            ),
    {
        self.register_route(path, HttpMethod::PUT, handler)
    }

    fn patch(&mut self, path: &str, handler: H)
        ensures
            registered(
                old(self).entries(),
                final(self).entries(),
                old(self).reg_path(path@),
                HttpMethod::PATCH,
                handler,
            ),
    {
        self.register_route(path, HttpMethod::PATCH, handler)
    }

    fn delete(&mut self, path: &str, handler: H)
        ensures
            registered(
                old(self).entries(),
                final(self).entries(),
                old(self).reg_path(path@),
                HttpMethod::DELETE,
                handler,
            ),
    {
        self.register_route(path, HttpMethod::DELETE, handler)
    }

    fn head(&mut self, path: &str, handler: H)
        ensures
            registered(
                old(self).entries(),
                final(self).entries(),
                old(self).reg_path(path@),
                HttpMethod::HEAD,
                handler,
            ),
    {
        self.register_route(path, HttpMethod::HEAD, handler)
    }

    fn options(&mut self, path: &str, handler: H)
        ensures
            registered(
                old(self).entries(),
                final(self).entries(),
                old(self).reg_path(path@),
                HttpMethod::OPTIONS,
                handler,
            ),
    {
        self.register_route(path, HttpMethod::OPTIONS, handler)
    }

    fn add_route(&mut self, method: HttpMethod, path: &str, handler: H)
        ensures
            registered(
                old(self).entries(),
                final(self).entries(),
                old(self).reg_path(path@),
                method,
                handler,
            ),
    {
        self.register_route(path, method, handler)
    }
}

/// A minimal registration capability.
pub trait RouteBuilder<H> {
    type Error;

    fn register(&mut self, path: &str, method: HttpMethod, handler: H);
}

/// The table view after one registration: replace in place, or append.
pub open spec fn register_one_v(
    rs: Seq<(HttpMethod, Seq<char>)>,
    r: (HttpMethod, Seq<char>),
) -> Seq<(HttpMethod, Seq<char>)> {
    match route_idx(rs, r.1, r.0) {
        Some(i) => rs.update(i, r),
        None => rs.push(r),
    }
}

/// The table view after registering a whole group, in order.
pub open spec fn spec_mount_v(
    rs: Seq<(HttpMethod, Seq<char>)>,
    gs: Seq<(HttpMethod, Seq<char>)>,
) -> Seq<(HttpMethod, Seq<char>)>
    decreases gs.len(),
{
    if gs.len() == 0 {
        rs
    } else {
        spec_mount_v(register_one_v(rs, gs[0]), gs.skip(1))
    }
}

pub proof fn lemma_route_idx_bounds(
    rs: Seq<(HttpMethod, Seq<char>)>,
    path: Seq<char>,
    m: HttpMethod,
)
    ensures
        route_idx(rs, path, m) matches Some(i) ==> 0 <= i < rs.len(),
    decreases rs.len(),
{
    if rs.len() > 0 && !(rs[0].1 == path && rs[0].0 == m) {
        lemma_route_idx_bounds(rs.skip(1), path, m);
    }
}

/// What a registration does to the table, seen at the view level.
pub proof fn lemma_register_views<H>(
    rs0: Seq<Route<H>>,
    rs1: Seq<Route<H>>,
    path: Seq<char>,
    m: HttpMethod,
    handler: H,
)
    requires
        registered(rs0, rs1, path, m, handler),
    ensures
        route_views(rs1) == register_one_v(route_views(rs0), (m, path)),
{
    lemma_route_idx_bounds(route_views(rs0), path, m);
    match route_idx(route_views(rs0), path, m) {
        Some(i) => {
            assert(route_views(rs1) =~= route_views(rs0).update(i, (m, path)));
        },
        None => {
            assert(route_views(rs1) =~= route_views(rs0).push((m, path)));
        },
    }
}

/// The table after registering a whole group: a chain of tables, one
/// registration apart, leads from the old table to the new one, the
/// i-th step registering the group's i-th route with its own handler.
pub open spec fn mounted<H>(rs0: Seq<Route<H>>, rs1: Seq<Route<H>>, gs: Seq<Route<H>>) -> bool {
    exists|steps: Seq<Seq<Route<H>>>|
        #![trigger steps.len()]
        steps.len() == gs.len() + 1 && steps[0] == rs0 && steps[gs.len() as int] == rs1 && (forall|
            i: int,
        |
            0 <= i < gs.len() ==> #[trigger] registered(
                steps[i],
                steps[i + 1],
                gs[i].path@,
                gs[i].method,
                gs[i].handler,
            ))
}

/// Resolution never reports a duplicate registration: that condition
/// is handled at registration time, not at resolution time.
pub proof fn lemma_resolve_not_duplicate(
    rs: Seq<(HttpMethod, Seq<char>)>,
    path: Seq<char>,
    m: HttpMethod,
)
    ensures
        spec_resolve(rs, path, m) != Err::<int, RouteError>(RouteError::RouteAlreadyExists),
    decreases rs.len(),
{
    if rs.len() > 0 {
        lemma_resolve_not_duplicate(rs.skip(1), path, m);
    }
}

/// The first route whose method and pattern both fit the request, if
/// any; the scan the parameter-extraction pass uses.
pub open spec fn spec_first_match(
    rs: Seq<(HttpMethod, Seq<char>)>,
    m: HttpMethod,
    path: Seq<char>,
) -> Option<int>
    decreases rs.len(),
{
    if rs.len() == 0 {
        None
    } else if rs[0].0 == m && spec_match_route(rs[0].1, path) {
        Some(0)
    } else {
        match spec_first_match(rs.skip(1), m, path) {
            Some(i) => Some(i + 1),
            None => None,
        }
    }
}

} // verus!
