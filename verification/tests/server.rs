use schnell::request::{Request, RequestError};
use schnell::response::HttpResponse;
use schnell::routing::{Handler, HandlerError, HTTPHandler};
use schnell::server::Server;

#[derive(Debug)]
struct HomeHandler;

impl Handler for HomeHandler {
    fn call(&self, _req: &Request) -> Result<HttpResponse, HandlerError> {
        Ok(HttpResponse::ok().html("<h1>Hello, world!</h1>"))
    }
}

#[derive(Debug)]
struct AboutHandler;

impl Handler for AboutHandler {
    fn call(&self, _req: &Request) -> Result<HttpResponse, HandlerError> {
        Ok(HttpResponse::ok().html("<h1>About page</h1>"))
    }
}

#[derive(Debug)]
struct FailingHandler;

impl Handler for FailingHandler {
    fn call(&self, _req: &Request) -> Result<HttpResponse, HandlerError> {
        Err(HandlerError)
    }
}

enum PageHandler {
    Home(HomeHandler),
    About(AboutHandler),
    Failing(FailingHandler),
}

impl Handler for PageHandler {
    fn call(&self, req: &Request) -> Result<HttpResponse, HandlerError> {
        match self {
            PageHandler::Home(h) => h.call(req),
            PageHandler::About(h) => h.call(req),
            PageHandler::Failing(h) => h.call(req),
        }
    }
}

fn demo_server() -> Server<PageHandler> {
    let mut server: Server<PageHandler> = Server::new("127.0.0.1", 8080, None);
    server.get("/", PageHandler::Home(HomeHandler));
    server.get("/about", PageHandler::About(AboutHandler));
    server.get("/boom", PageHandler::Failing(FailingHandler));
    server
}

#[test]
fn test_end_to_end_about_page() {
    let server = demo_server();
    let parse_result = Request::read("GET /about HTTP/1.1\r\nHost: x\r\n\r\n".as_bytes());
    let response = server.handle_request(parse_result).unwrap();
    assert_eq!(
        response.to_string(),
        "HTTP/1.1 200 OK\r\nContent-Type: text/html\r\nContent-Length: 19\r\n\r\n<h1>About page</h1>"
    );
}

#[test]
fn test_dispatch_not_found() {
    let server = demo_server();
    let parse_result = Request::read("GET /missing HTTP/1.1\r\n\r\n".as_bytes());
    let response = server.handle_request(parse_result).unwrap();
    assert_eq!(response.status_code, 404);
}

#[test]
fn test_dispatch_method_not_allowed() {
    let server = demo_server();
    let parse_result = Request::read("POST /about HTTP/1.1\r\n\r\n".as_bytes());
    let response = server.handle_request(parse_result).unwrap();
    assert_eq!(response.status_code, 405);
}

#[test]
fn test_dispatch_handler_failure_is_500() {
    let server = demo_server();
    let parse_result = Request::read("GET /boom HTTP/1.1\r\n\r\n".as_bytes());
    let response = server.handle_request(parse_result).unwrap();
    assert_eq!(response.status_code, 500);
}

#[test]
fn test_dispatch_parse_failures() {
    let server = demo_server();

    let response = server.handle_request(Err(RequestError::ReadError)).unwrap();
    assert_eq!(response.status_code, 500);
    let response = server.handle_request(Err(RequestError::ParseError)).unwrap();
    assert_eq!(response.status_code, 500);
    let response = server
        .handle_request(Err(RequestError::InvalidRequest))
        .unwrap();
    assert_eq!(response.status_code, 500);
    let response = server
        .handle_request(Err(RequestError::RequestTooLarge))
        .unwrap();
    assert_eq!(response.status_code, 413);

    // closed or timed-out connections are dropped without a response
    assert!(server
        .handle_request(Err(RequestError::ConnectionClosed))
        .is_none());
    assert!(server
        .handle_request(Err(RequestError::ConnectionTimedOut))
        .is_none());
}

#[test]
fn test_dispatch_short_body_drops_connection() {
    let server = demo_server();
    let parse_result = Request::read("POST / HTTP/1.1\r\nContent-Length: 5\r\n\r\nab".as_bytes());
    assert!(server.handle_request(parse_result).is_none());
}
