use schnell::common::HttpMethod;
use schnell::request::Request;
use schnell::response::HttpResponse;
use schnell::router::Router;
use schnell::routing::{
    match_route, extract_params, route_exists, Handler, HandlerError, Route, RouteError,
    RouteResolver, HTTPHandler,
};
use schnell::server::Server;

#[derive(Debug)]
struct OkHandler;

impl Handler for OkHandler {
    fn call(&self, _req: &Request) -> Result<HttpResponse, HandlerError> {
        Ok(HttpResponse::ok())
    }
}

#[test]
fn routing_test_match_route() {
    assert!(match_route("/", "/"));
    assert!(match_route("/users", "/users"));
    assert!(match_route("/users/:id", "/users/123"));
    assert_eq!(
        match_route("/users/messages/:message_id", "/users/:userid"),
        false
    );
    assert_eq!(
        match_route(
            "/users/:user_id/messages/:message_id",
            "/users/123/messages/456"
        ),
        true
    );
    assert_eq!(
        match_route("/users/messages/:message_id", "/users/123/messages/456/"),
        false
    );
}

#[test]
fn test_route_resolver() {
    struct TestRouter {
        routes: Vec<Route<OkHandler>>,
    }

    impl RouteResolver for TestRouter {}

    let router = TestRouter {
        routes: vec![
            Route {
                method: HttpMethod::GET,
                path: "/users".to_string(),
                handler: OkHandler,
            },
            Route {
                method: HttpMethod::POST,
                path: "/users".to_string(),
                handler: OkHandler,
            },
            Route {
                method: HttpMethod::GET,
                path: "/users/:id".to_string(),
                handler: OkHandler,
            },
            Route {
                method: HttpMethod::GET,
                path: "/users/:id/messages/:message_id".to_string(),
                handler: OkHandler,
            },
        ],
    };

    let route = router.resolve("/users", HttpMethod::GET, &router.routes);
    assert!(route.is_ok());
    assert_eq!(route.unwrap().path, "/users");

    let route = router.resolve("/users/123", HttpMethod::GET, &router.routes);
    assert!(route.is_ok());
    assert_eq!(route.unwrap().path, "/users/:id");

    let route = router.resolve("/users/123/messages/456", HttpMethod::GET, &router.routes);
    assert!(route.is_ok());
    assert_eq!(route.unwrap().path, "/users/:id/messages/:message_id");

    let route = router.resolve("/users/123/messages/456", HttpMethod::POST, &router.routes);
    assert!(route.is_err());
    assert_eq!(route.unwrap_err(), RouteError::MethodNotAllowed);
}

#[test]
fn test_group() {
    let mut router: Router<OkHandler> = Router::new("/api");
    let mut group = router.group("/v1");
    group.get("/users", OkHandler);
    router.mount(group);

    assert_eq!(router.routes.len(), 1);
    assert_eq!(router.routes[0].method, HttpMethod::GET);
    assert_eq!(router.routes[0].path, "/api/v1/users");
}

#[test]
fn test_router_register_route() {
    let mut router: Router<OkHandler> = Router::new("/api");
    router.register_route("/users", HttpMethod::GET, OkHandler);

    assert_eq!(router.routes.len(), 1);
    assert_eq!(router.routes[0].method, HttpMethod::GET);
    assert_eq!(router.routes[0].path, "/api/users");
}

#[test]
fn test_router_http_verbs() {
    let mut router: Router<OkHandler> = Router::new("/api");
    router.get("/users", OkHandler);
    router.post("/users", OkHandler);
    router.put("/users", OkHandler);
    router.patch("/users", OkHandler);
    router.delete("/users", OkHandler);
    router.head("/users", OkHandler);
    router.options("/users", OkHandler);

    assert_eq!(router.routes.len(), 7);
    assert_eq!(router.routes[0].method, HttpMethod::GET);
    assert_eq!(router.routes[0].path, "/api/users");
    assert_eq!(router.routes[1].method, HttpMethod::POST);
    assert_eq!(router.routes[1].path, "/api/users");
    assert_eq!(router.routes[2].method, HttpMethod::PUT);
    assert_eq!(router.routes[2].path, "/api/users");
    assert_eq!(router.routes[3].method, HttpMethod::PATCH);
    assert_eq!(router.routes[3].path, "/api/users");
    assert_eq!(router.routes[4].method, HttpMethod::DELETE);
    assert_eq!(router.routes[4].path, "/api/users");
    assert_eq!(router.routes[5].method, HttpMethod::HEAD);
    assert_eq!(router.routes[5].path, "/api/users");
    assert_eq!(router.routes[6].method, HttpMethod::OPTIONS);
    assert_eq!(router.routes[6].path, "/api/users");
}

#[test]
fn test_server_group() {
    let mut server: Server<OkHandler> = Server::new("127.0.0.1", 8080, None);
    let mut group = server.group("/api");
    group.get("/users", OkHandler);
    server.mount(group);

    assert_eq!(server.routes.len(), 1);
    assert_eq!(server.routes[0].path, "/api/users");
    assert_eq!(server.routes[0].method, HttpMethod::GET);
}

#[test]
fn test_pattern_matches_single_segment_only() {
    // a placeholder takes exactly one nonempty segment
    assert!(match_route("/users/:id", "/users/123"));
    assert!(!match_route("/users/:id", "/users/123/"));
    assert!(!match_route("/users/:id", "/users"));
    assert!(!match_route("/users/:id", "/users/123/extra"));
    assert!(!match_route("/users/:id", "/users/"));
}

#[test]
fn test_extract_params_bindings() {
    let params = extract_params("/users/:id", "/users/123");
    assert_eq!(params.get("id"), Some(&"123".to_string()));

    let params = extract_params("/users/:uid/messages/:mid", "/users/7/messages/42");
    assert_eq!(params.get("uid"), Some(&"7".to_string()));
    assert_eq!(params.get("mid"), Some(&"42".to_string()));
    assert_eq!(params.get("other"), None);
}

#[test]
fn test_resolution_precedence() {
    struct Plain;
    impl RouteResolver for Plain {}
    let routes: Vec<Route<OkHandler>> = vec![
        Route {
            method: HttpMethod::GET,
            path: "/users".to_string(),
            handler: OkHandler,
        },
        Route {
            method: HttpMethod::POST,
            path: "/users".to_string(),
            handler: OkHandler,
        },
    ];
    let r = Plain;

    // an exact match later in the table beats an earlier path-only match
    let route = r.resolve("/users", HttpMethod::POST, &routes);
    assert_eq!(route.unwrap().method, HttpMethod::POST);

    // a path-only match downgrades the failure
    let route = r.resolve("/users", HttpMethod::DELETE, &routes);
    assert_eq!(route.unwrap_err(), RouteError::MethodNotAllowed);

    // no path match at all
    let route = r.resolve("/nope", HttpMethod::GET, &routes);
    assert_eq!(route.unwrap_err(), RouteError::NotFound);

    // the matching entry never reports MethodNotAllowed
    let route = r.resolve("/users", HttpMethod::GET, &routes);
    assert_eq!(route.unwrap().method, HttpMethod::GET);
}

#[test]
fn test_reregistration_keeps_count_and_position() {
    let mut server: Server<OkHandler> = Server::new("127.0.0.1", 8080, None);
    server.get("/users", OkHandler);
    server.post("/users", OkHandler);
    assert_eq!(server.routes.len(), 2);

    // same (method, pattern): replaced in place, count unchanged
    server.get("/users", OkHandler);
    assert_eq!(server.routes.len(), 2);
    assert_eq!(server.routes[0].method, HttpMethod::GET);
    assert_eq!(server.routes[0].path, "/users");
    assert_eq!(server.routes[1].method, HttpMethod::POST);
}

#[test]
fn test_get_route_params() {
    let mut server: Server<OkHandler> = Server::new("127.0.0.1", 8080, None);
    server.get("/users/:id", OkHandler);

    let request = Request::read("GET /users/99 HTTP/1.1\r\n\r\n".as_bytes()).unwrap();
    let params = server.get_route_params(&request);
    assert_eq!(params.get("id"), Some(&"99".to_string()));

    let request = Request::read("GET /other HTTP/1.1\r\n\r\n".as_bytes()).unwrap();
    let params = server.get_route_params(&request);
    assert_eq!(params.len(), 0);
}

#[test]
fn test_server_timeouts() {
    let server: Server<OkHandler> = Server::new("127.0.0.1", 8080, Some(4));
    assert_eq!(server.read_timeout_ms, Some(100_000));
    assert_eq!(server.write_timeout_ms, Some(100_000));
    assert_eq!(server.pool_size, Some(4));

    let server = server.with_read_timeout(5_000);
    assert_eq!(server.read_timeout_ms, Some(5_000));
    assert_eq!(server.write_timeout_ms, Some(100_000));

    let server = server.with_write_timeout(7_000);
    assert_eq!(server.write_timeout_ms, Some(7_000));

    let server = server.with_timeout(9_000);
    assert_eq!(server.read_timeout_ms, Some(9_000));
    assert_eq!(server.write_timeout_ms, Some(9_000));
}

#[test]
fn test_route_exists_reports_duplicates() {
    let mut server: Server<OkHandler> = Server::new("127.0.0.1", 8080, None);
    assert!(!route_exists(&server.routes, "/users", HttpMethod::GET));
    server.get("/users", OkHandler);
    assert!(route_exists(&server.routes, "/users", HttpMethod::GET));
    // a different method or pattern is not a duplicate
    assert!(!route_exists(&server.routes, "/users", HttpMethod::POST));
    assert!(!route_exists(&server.routes, "/users/:id", HttpMethod::GET));
}
