use schnell::response::HttpResponse;

#[test]
fn test_new_response_defaults() {
    let response = HttpResponse::new(200);
    assert_eq!(response.status_code, 200);
    assert_eq!(response.content_type, "text/plain");
    assert_eq!(response.body, "");
}

#[test]
fn test_response_to_string_basic() {
    let response = HttpResponse::new(200).with_body("Hello, world!");
    let expected =
        "HTTP/1.1 200 OK\r\nContent-Type: text/plain\r\nContent-Length: 13\r\n\r\nHello, world!";
    assert_eq!(response.to_string(), expected);
}

#[test]
fn test_response_status_texts() {
    let status_code_text_pairs = [
        (200, "OK"),
        (201, "Created"),
        (204, "No Content"),
        (301, "Moved Permanently"),
        (302, "Found"),
        (400, "Bad Request"),
        (401, "Unauthorized"),
        (403, "Forbidden"),
        (404, "Not Found"),
        (405, "Method Not Allowed"),
        (413, "Payload Too Large"),
        (418, "I'm a teapot"),
        (500, "Internal Server Error"),
        (502, "Bad Gateway"),
        (999, "Unknown"),
    ];

    for (status_code, status_text) in status_code_text_pairs {
        let response = HttpResponse::new(status_code).with_body("Hello, world!");
        let expected = format!(
            "HTTP/1.1 {} {}\r\nContent-Type: text/plain\r\nContent-Length: 13\r\n\r\nHello, world!",
            status_code, status_text
        );
        assert_eq!(response.to_string(), expected);
    }
}

#[test]
fn test_headers_serialized_sorted() {
    let response = HttpResponse::new(200)
        .with_body("Hello, world!")
        .with_headers(vec![
            ("X-Custom-Header", "Custom Value"),
            ("X-Another-Header", "Another Value"),
        ]);

    let expected = "HTTP/1.1 200 OK\r\nContent-Type: text/plain\r\nContent-Length: 13\r\nX-Another-Header: Another Value\r\nX-Custom-Header: Custom Value\r\n\r\nHello, world!";
    assert_eq!(response.to_string(), expected);
}

#[test]
fn test_serialization_order_independent() {
    // the same headers added in opposite orders serialize identically
    let a = HttpResponse::new(200)
        .with_body("x")
        .with_header("B-Key", "2")
        .with_header("A-Key", "1");
    let b = HttpResponse::new(200)
        .with_body("x")
        .with_header("A-Key", "1")
        .with_header("B-Key", "2");
    assert_eq!(a.to_string(), b.to_string());
    let expected =
        "HTTP/1.1 200 OK\r\nContent-Type: text/plain\r\nContent-Length: 1\r\nA-Key: 1\r\nB-Key: 2\r\n\r\nx";
    assert_eq!(a.to_string(), expected);
}

#[test]
fn test_content_length_never_caller_supplied() {
    // a caller-set Content-Length is ignored; the body length wins
    let response = HttpResponse::new(200)
        .with_header("Content-Length", "999")
        .with_body("abc");
    let expected = "HTTP/1.1 200 OK\r\nContent-Type: text/plain\r\nContent-Length: 3\r\n\r\nabc";
    assert_eq!(response.to_string(), expected);
}

#[test]
fn test_header_keys_canonicalized_and_deduplicated() {
    // the same canonical key through two spellings: one line, last wins
    let response = HttpResponse::new(200)
        .with_header("x_powered_by", "one")
        .with_header("X-Powered-By", "two");
    let expected =
        "HTTP/1.1 200 OK\r\nContent-Type: text/plain\r\nContent-Length: 0\r\nX-Powered-By: two\r\n\r\n";
    assert_eq!(response.to_string(), expected);
}

#[test]
fn test_cookies_serialized_in_insertion_order() {
    let response = HttpResponse::new(200)
        .with_body("Hello, world!")
        .with_cookies(vec![
            "session_id=1234567890; path=/; HttpOnly",
            "theme=dark; path=/; HttpOnly",
        ]);

    let expected = "HTTP/1.1 200 OK\r\nContent-Type: text/plain\r\nContent-Length: 13\r\nSet-Cookie: session_id=1234567890; path=/; HttpOnly\r\nSet-Cookie: theme=dark; path=/; HttpOnly\r\n\r\nHello, world!";
    assert_eq!(response.to_string(), expected);
}

#[test]
fn test_set_cookie_full_form() {
    let response = HttpResponse::new(200).set_cookie(
        "sid",
        "abc",
        "Strict",
        true,
        true,
        Some(3600),
        Some("Wed, 01 Jan 2031 00:00:00 GMT"),
    );
    assert_eq!(response.cookies.len(), 1);
    assert_eq!(
        response.cookies[0],
        "sid=abc; SameSite=Strict; Max-Age=3600; Expires=Wed, 01 Jan 2031 00:00:00 GMT; HttpOnly; Secure"
    );
}

#[test]
fn test_set_cookie_invalid_samesite_omitted() {
    let response = HttpResponse::new(200).set_cookie(
        "sid",
        "abc",
        "Sideways",
        false,
        false,
        Some(60),
        Some("Wed, 01 Jan 2031 00:00:00 GMT"),
    );
    assert_eq!(
        response.cookies[0],
        "sid=abc; Max-Age=60; Expires=Wed, 01 Jan 2031 00:00:00 GMT"
    );
}

#[test]
fn test_set_cookie_defaults() {
    // Max-Age defaults to thirty days; Expires defaults to a clock-read
    // date and is merely present
    let response = HttpResponse::new(200).set_cookie("sid", "abc", "Lax", false, false, None, None);
    let cookie = &response.cookies[0];
    assert!(cookie.starts_with("sid=abc; SameSite=Lax; Max-Age=2592000; Expires="));
    assert!(cookie.contains("GMT"));
}

#[test]
fn test_redirect() {
    let response = HttpResponse::new(200).redirect("/login");
    assert_eq!(response.status_code, 302);
    let expected =
        "HTTP/1.1 302 Found\r\nContent-Type: text/plain\r\nContent-Length: 0\r\nLocation: /login\r\n\r\n";
    assert_eq!(response.to_string(), expected);
}

#[test]
fn test_named_constructors() {
    assert_eq!(HttpResponse::ok().status_code, 200);
    assert_eq!(HttpResponse::created().status_code, 201);
    assert_eq!(HttpResponse::not_found().status_code, 404);
    assert_eq!(HttpResponse::bad_request().status_code, 400);
    assert_eq!(HttpResponse::unauthorized().status_code, 401);
    assert_eq!(HttpResponse::forbidden().status_code, 403);
    assert_eq!(HttpResponse::method_not_allowed().status_code, 405);
    assert_eq!(HttpResponse::internal_server_error().status_code, 500);
    assert_eq!(HttpResponse::bad_gateway().status_code, 502);
    assert_eq!(HttpResponse::request_entity_too_large().status_code, 413);
}

#[test]
fn test_content_type_builders() {
    let response = HttpResponse::ok().text("plain text");
    assert_eq!(response.content_type, "text/plain");
    assert_eq!(response.body, "plain text");

    let response = HttpResponse::ok().html("<p>hi</p>");
    assert_eq!(response.content_type, "text/html");
    assert_eq!(response.body, "<p>hi</p>");

    let response = HttpResponse::ok().with_content_type("application/json");
    assert_eq!(response.content_type, "application/json");

    let response = HttpResponse::ok().content_type("image/png").body("img");
    assert_eq!(response.content_type, "image/png");
    assert_eq!(response.body, "img");

    let response = HttpResponse::ok().status(204);
    assert_eq!(response.status_code, 204);

    let response = HttpResponse::ok().with_status(418);
    assert_eq!(response.status_code, 418);
}

#[test]
fn test_body_length_counts_bytes() {
    // a multibyte body: Content-Length counts bytes, not characters
    let response = HttpResponse::ok().with_body("\u{e9}\u{e9}");
    let expected = "HTTP/1.1 200 OK\r\nContent-Type: text/plain\r\nContent-Length: 4\r\n\r\n\u{e9}\u{e9}";
    assert_eq!(response.to_string(), expected);
}
