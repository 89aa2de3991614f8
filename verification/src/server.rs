//! The server value: bind address, worker-pool size, timeouts, the
//! route table, and the per-request decision logic that the
//! connection-handling loop drives.
use vstd::prelude::*;
use crate::common::{HttpMethod, join_path, spec_join_path};
use crate::request::{Request, RequestError};
use crate::response::{HttpResponse, is_fresh};
use crate::router::{RouteGroup, mount_routes};
use crate::routing::{
    Handler, HandlerError, Route, RouteError, RouteResolver, HTTPHandler, register_in, mounted,
    route_views, spec_mount_v, spec_first_match, spec_resolve, spec_params, extract_params,
    lemma_resolve_not_duplicate,
};
use crate::strmap::StringMap;

verus! {

/// A server: where to listen, how many workers, how long to wait on a
/// socket, and which routes to serve.  Timeouts are in milliseconds
/// and default to 100,000; the pool size defaults to the logical core
/// count when left unset.
pub struct Server<H> {
    pub ip_addr: String,
    pub port: u16,
    pub routes: Vec<Route<H>>,
    pub pool_size: Option<usize>,
    pub read_timeout_ms: Option<u64>,
    pub write_timeout_ms: Option<u64>,
}

/// A failure while answering a connection.
#[derive(Debug, Clone, Copy, PartialEq, Eq, Structural)]
pub enum ServerError {
    ResponseError,
}

impl<H> Server<H> {
    /// A server for `ip_addr:port` with no routes and the default
    /// timeouts.
    pub fn new(ip_addr: &str, port: u16, pool_size: Option<usize>) -> (r: Server<H>)
        ensures
            r.ip_addr@ == ip_addr@,
            r.port == port,
            r.routes@.len() == 0,
            r.pool_size == pool_size,
            r.read_timeout_ms == Some(100000u64),
            r.write_timeout_ms == Some(100000u64),
    {
        Server {
            ip_addr: String::from_str(ip_addr),
            port,
            routes: Vec::new(),
            pool_size,
            read_timeout_ms: Some(100000),
            write_timeout_ms: Some(100000),
        }
    }

    /// Sets the read timeout, in milliseconds.
    pub fn with_read_timeout(self, timeout_ms: u64) -> (r: Server<H>)
        ensures
            r.read_timeout_ms == Some(timeout_ms),
            r.write_timeout_ms == self.write_timeout_ms,
            r.ip_addr == self.ip_addr,
            r.port == self.port,
            r.routes == self.routes,
            r.pool_size == self.pool_size,
    {
        let mut server = self;
        server.read_timeout_ms = Some(timeout_ms);
        server
    }

    /// Sets the write timeout, in milliseconds.
    pub fn with_write_timeout(self, timeout_ms: u64) -> (r: Server<H>)
        ensures
            r.write_timeout_ms == Some(timeout_ms),
            r.read_timeout_ms == self.read_timeout_ms,
            r.ip_addr == self.ip_addr,
            r.port == self.port,
            r.routes == self.routes,
            r.pool_size == self.pool_size,
    {
        let mut server = self;
        server.write_timeout_ms = Some(timeout_ms);
        server
    }

    /// Sets both timeouts at once, in milliseconds.
    pub fn with_timeout(self, timeout_ms: u64) -> (r: Server<H>)
        ensures
            r.read_timeout_ms == Some(timeout_ms),
            r.write_timeout_ms == Some(timeout_ms),
            r.ip_addr == self.ip_addr,
            r.port == self.port,
            r.routes == self.routes,
            r.pool_size == self.pool_size,
    {
        let mut server = self;
        server.read_timeout_ms = Some(timeout_ms);
        server.write_timeout_ms = Some(timeout_ms);
        server
    }

    /// A group whose prefix hangs off the server root.
    pub fn group(&self, prefix: &str) -> (g: RouteGroup<H>)
        ensures
            g.prefix@ == spec_join_path("/"@, prefix@),
            g.routes@.len() == 0,
    {
        RouteGroup { prefix: join_path("/", prefix), routes: Vec::new() }
    }

    /// Registers every route of the group, in order, each under its
    /// own handler, with the usual replace-or-append rule.
    pub fn mount(&mut self, group: RouteGroup<H>)
        ensures
            mounted(old(self).routes@, final(self).routes@, group.routes@),
            route_views(final(self).routes@) == spec_mount_v(
                route_views(old(self).routes@),
                route_views(group.routes@),
            ),
            final(self).ip_addr == old(self).ip_addr,
            final(self).port == old(self).port,
            final(self).pool_size == old(self).pool_size,
            final(self).read_timeout_ms == old(self).read_timeout_ms,
            final(self).write_timeout_ms == old(self).write_timeout_ms,
    {
        mount_routes(&mut self.routes, group.routes);
    }

    /// The `:name` bindings of the first route fitting the request's
    /// method and path, or an empty mapping when none fits.
    pub fn get_route_params(&self, request: &Request) -> (r: StringMap)
        ensures
            ({
                let fm = spec_first_match(route_views(self.routes@), request.method, request.path@);
                match fm {
                    Some(i) => r@ == spec_params(route_views(self.routes@)[i].1, request.path@),
                    None => r@ == Map::<Seq<char>, Seq<char>>::empty(),
                }
            }),
            r.wf(),
    {
        let ghost rv = route_views(self.routes@);
        let n = self.routes.len();
        let mut i: usize = 0;
        proof {
            assert(rv.skip(0) =~= rv);
        }
        while i < n
            invariant
                i <= n,
                n == self.routes@.len(),
                rv == route_views(self.routes@),
                rv.len() == n,
                spec_first_match(rv, request.method, request.path@) == match spec_first_match(
                    rv.skip(i as int),
                    request.method,
                    request.path@,
                ) {
                    Some(k) => Some(k + i),
                    None => None::<int>,
                },
            decreases n - i,
        {
            proof {
                assert(rv.skip(i as int)[0] == rv[i as int]);
                assert(rv[i as int] == (
                    self.routes@.index(i as int).method,
                    self.routes@.index(i as int).path@,
                ));
                assert(rv.skip(i as int).skip(1) =~= rv.skip(i + 1));
            }
            if self.routes[i].method == request.method && crate::routing::match_route(
                self.routes[i].path.as_str(),
                request.path.as_str(),
            ) {
                proof {
                    assert(spec_first_match(rv.skip(i as int), request.method, request.path@)
                        == Some(0int));
                }
                return extract_params(self.routes[i].path.as_str(), request.path.as_str());
            }
            i += 1;
        }
        proof {
            assert(rv.skip(i as int).len() == 0);
        }
        StringMap::new()
    }
}

impl<H: Handler> Server<H> {
    /// The whole per-request decision: a read failure is answered with
    /// a 500, an oversized head with a 413, and a closed or timed-out
    /// connection silently dropped; a parsed request is resolved, a
    /// miss answered with 404, a method mismatch with 405, and a
    /// resolved handler invoked, its failure turning into a 500.
    pub fn handle_request(&self, parse_result: Result<Request, RequestError>) -> (r: Option<
        HttpResponse,
    >)
        ensures
            ({
                match parse_result {
                    Err(e) => match e {
                        RequestError::ReadError | RequestError::ParseError
                            | RequestError::InvalidRequest => r matches Some(resp) && is_fresh(
                            resp,
                            500,
                        ),
                        RequestError::RequestTooLarge => r matches Some(resp) && is_fresh(
                            resp,
                            413,
                        ),
                        RequestError::ConnectionClosed | RequestError::ConnectionTimedOut => r
                            is None,
                    },
                    Ok(req) => match spec_resolve(
                        route_views(self.routes@),
                        req.path@,
                        req.method,
                    ) {
                        Err(RouteError::NotFound) => r matches Some(resp) && is_fresh(resp, 404),
                        Err(RouteError::MethodNotAllowed) => r matches Some(resp) && is_fresh(
                            resp,
                            405,
                        ),
                        Err(RouteError::RouteAlreadyExists) => false,
                        // the resolved route's handler decides: its
                        // response is returned unchanged, its failure
                        // becomes a fresh 500
                        Ok(j) => 0 <= j < self.routes@.len() && (exists|
                            out: Result<HttpResponse, HandlerError>,
                        |
                            #[trigger] call_ensures(
                                H::call,
                                (&self.routes@[j].handler, &parse_result->Ok_0),
                                out,
                            ) && (match out {
                                Ok(resp) => r == Some(resp),
                                Err(_) => r matches Some(rr) && is_fresh(rr, 500),
                            })),
                    },
                }
            }),
            r matches Some(resp) ==> resp.wf(),
    {
        let request = match parse_result {
            Err(e) => {
                match e {
                    RequestError::ReadError | RequestError::ParseError
                        | RequestError::InvalidRequest => {
                        return Some(HttpResponse::internal_server_error());
                    },
                    RequestError::RequestTooLarge => {
                        return Some(HttpResponse::request_entity_too_large());
                    },
                    RequestError::ConnectionClosed | RequestError::ConnectionTimedOut => {
                        return None;
                    },
                }
            },
            Ok(req) => req,
        };
        proof {
            lemma_resolve_not_duplicate(route_views(self.routes@), request.path@, request.method);
        }
        let route = match self.resolve(request.path.as_str(), request.method, &self.routes) {
            Ok(route) => route,
            Err(RouteError::MethodNotAllowed) => {
                return Some(HttpResponse::method_not_allowed());
            },
            Err(RouteError::NotFound) => {
                return Some(HttpResponse::not_found());
            },
            // resolution never reports a duplicate registration
            Err(RouteError::RouteAlreadyExists) => {
                return Some(HttpResponse::not_found());
            },
        };
        match route.handler.call(&request) {
            Ok(response) => Some(response),
            Err(_) => Some(HttpResponse::internal_server_error()),
        }
    }
}

impl<H> RouteResolver for Server<H> {

}

impl<H> HTTPHandler<H> for Server<H> {
    type Error = RouteError;

    open spec fn entries(&self) -> Seq<Route<H>> {
        self.routes@
    }

    open spec fn reg_path(&self, path: Seq<char>) -> Seq<char> {
        path
    }

    fn register_route(&mut self, path: &str, method: HttpMethod, handler: H) {
        let p = String::from_str(path);
        register_in(&mut self.routes, p, method, handler);
    }
}

} // verus!
