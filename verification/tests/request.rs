use schnell::common::{HttpMethod, Version};
use schnell::request::{Request, RequestError, IoFailure, classify_io_failure};

#[test]
fn test_from_stream_get_request() {
    let request_data =
        "GET /index.html HTTP/1.1\r\nHost: localhost:8080\r\nUser-Agent: test-client/1.0\r\n\r\n";

    let result = Request::read(request_data.as_bytes());
    assert!(result.is_ok());

    let request = result.unwrap();
    assert_eq!(request.method, HttpMethod::GET);
    assert_eq!(request.path, "/index.html");
    assert_eq!(request.version, Version::HTTP1_1);
    assert_eq!(
        request.headers.get("host"),
        Some(&"localhost:8080".to_string())
    );
    assert_eq!(
        request.headers.get("user-agent"),
        Some(&"test-client/1.0".to_string())
    );
    assert_eq!(request.body, "");
}

#[test]
fn test_from_stream_post_request_with_body() {
    let body = "{\"name\": \"John Doe\"}";
    let content_length = body.len();
    let request_data = format!(
        "POST /api/users HTTP/1.1\r\nHost: localhost:8080\r\nContent-Type: application/json\r\nContent-Length: {}\r\n\r\n{}",
        content_length, body
    );

    let result = Request::read(request_data.as_bytes());
    assert!(result.is_ok());

    let request = result.unwrap();
    assert_eq!(request.method, HttpMethod::POST);
    assert_eq!(request.path, "/api/users");
    assert_eq!(request.version, Version::HTTP1_1);
    assert_eq!(
        request.headers.get("host"),
        Some(&"localhost:8080".to_string())
    );
    assert_eq!(
        request.headers.get("content-type"),
        Some(&"application/json".to_string())
    );
    assert_eq!(
        request.headers.get("content-length"),
        Some(&content_length.to_string())
    );
    assert_eq!(request.body, body);
}

#[test]
fn test_from_stream_multiple_headers() {
    let request_data = "GET /test HTTP/1.1\r\nHost: example.com\r\nUser-Agent: Mozilla/5.0\r\nAccept: text/html\r\nAccept-Language: en-US\r\n\r\n";

    let result = Request::read(request_data.as_bytes());
    assert!(result.is_ok());

    let request = result.unwrap();
    assert_eq!(request.method, HttpMethod::GET);
    assert_eq!(request.path, "/test");
    assert_eq!(request.headers.len(), 4);
    assert_eq!(
        request.headers.get("host"),
        Some(&"example.com".to_string())
    );
    assert_eq!(
        request.headers.get("user-agent"),
        Some(&"Mozilla/5.0".to_string())
    );
    assert_eq!(
        request.headers.get("accept"),
        Some(&"text/html".to_string())
    );
    assert_eq!(
        request.headers.get("accept-language"),
        Some(&"en-US".to_string())
    );
}

#[test]
fn test_from_stream_empty_request() {
    let request_data = "";

    let result = Request::read(request_data.as_bytes());
    assert!(result.is_err());
}

#[test]
fn test_from_stream_invalid_request_line() {
    let request_data = "INVALID REQUEST LINE\r\n\r\n";

    let result = Request::read(request_data.as_bytes());
    assert!(result.is_err());
}

#[test]
fn test_from_stream_invalid_method() {
    let request_data = "INVALID /test HTTP/1.1\r\nHost: localhost\r\n\r\n";

    let result = Request::read(request_data.as_bytes());
    assert!(result.is_err());
}

#[test]
fn test_from_stream_invalid_version() {
    let request_data = "GET /test HTTP/3.0\r\nHost: localhost\r\n\r\n";

    let result = Request::read(request_data.as_bytes());
    assert!(result.is_err());
}

#[test]
fn test_from_stream_headers_case_insensitive() {
    let request_data = "GET /test HTTP/1.1\r\nHOST: localhost\r\nContent-TYPE: text/plain\r\n\r\n";

    let result = Request::read(request_data.as_bytes());
    assert!(result.is_ok());

    let request = result.unwrap();
    assert_eq!(request.headers.get("host"), Some(&"localhost".to_string()));
    assert_eq!(
        request.headers.get("content-type"),
        Some(&"text/plain".to_string())
    );
}

#[test]
fn test_from_stream_body_with_zero_content_length() {
    let request_data = "POST /test HTTP/1.1\r\nHost: localhost\r\nContent-Length: 0\r\n\r\n";

    let result = Request::read(request_data.as_bytes());
    assert!(result.is_ok());

    let request = result.unwrap();
    assert_eq!(request.method, HttpMethod::POST);
    assert_eq!(request.body, "");
}

#[test]
fn test_from_stream_various_methods() {
    let methods = [
        (HttpMethod::GET, "GET"),
        (HttpMethod::POST, "POST"),
        (HttpMethod::PUT, "PUT"),
        (HttpMethod::DELETE, "DELETE"),
        (HttpMethod::HEAD, "HEAD"),
        (HttpMethod::OPTIONS, "OPTIONS"),
    ];

    for (expected_method, method_str) in methods {
        let request_data = format!("{} /test HTTP/1.1\r\nHost: localhost\r\n\r\n", method_str);

        let result = Request::read(request_data.as_bytes());
        assert!(result.is_ok());

        let request = result.unwrap();
        assert_eq!(request.method, expected_method);
        assert_eq!(request.path, "/test");
        assert_eq!(request.version, Version::HTTP1_1);
    }
}

#[test]
fn test_invalid_method_error_kind() {
    let result = Request::read("BREW /pot HTTP/1.1\r\n\r\n".as_bytes());
    assert_eq!(result.unwrap_err(), RequestError::ParseError);
}

#[test]
fn test_invalid_version_error_kind() {
    let result = Request::read("GET /test HTTP/9.9\r\n\r\n".as_bytes());
    assert_eq!(result.unwrap_err(), RequestError::InvalidRequest);
}

#[test]
fn test_empty_stream_is_connection_closed() {
    let result = Request::read("".as_bytes());
    assert_eq!(result.unwrap_err(), RequestError::ConnectionClosed);
}

#[test]
fn test_leading_blank_line_is_connection_closed() {
    let result = Request::read("\r\nGET / HTTP/1.1\r\n\r\n".as_bytes());
    assert_eq!(result.unwrap_err(), RequestError::ConnectionClosed);
}

#[test]
fn test_short_body_is_not_truncated() {
    // declares ten body bytes but only three arrive: no request value
    let data = "POST /x HTTP/1.1\r\nContent-Length: 10\r\n\r\nabc";
    let result = Request::read(data.as_bytes());
    assert_eq!(result.unwrap_err(), RequestError::ConnectionClosed);
}

#[test]
fn test_oversized_head_is_too_large() {
    let mut data = String::from("GET / HTTP/1.1\r\nX-Filler: ");
    data.push_str(&"a".repeat(11 * 1024 * 1024));
    data.push_str("\r\n\r\n");
    let result = Request::read(data.as_bytes());
    assert_eq!(result.unwrap_err(), RequestError::RequestTooLarge);
}

#[test]
fn test_invalid_utf8_head_is_read_error() {
    let mut data: Vec<u8> = Vec::new();
    data.extend_from_slice(b"GET /\xff HTTP/1.1\r\n\r\n");
    let result = Request::read(&data);
    assert_eq!(result.unwrap_err(), RequestError::ReadError);
}

#[test]
fn test_invalid_utf8_body_is_parse_error() {
    let mut data: Vec<u8> = Vec::new();
    data.extend_from_slice(b"POST /x HTTP/1.1\r\nContent-Length: 2\r\n\r\n\xff\xfe");
    let result = Request::read(&data);
    assert_eq!(result.unwrap_err(), RequestError::ParseError);
}

#[test]
fn test_multibyte_body_roundtrip() {
    let body = "h\u{e9}llo \u{4e16}\u{754c}";
    let data = format!(
        "POST /x HTTP/1.1\r\nContent-Length: {}\r\n\r\n{}",
        body.len(),
        body
    );
    let request = Request::read(data.as_bytes()).unwrap();
    assert_eq!(request.body, body);
}

#[test]
fn test_query_string_parsing() {
    let data = "GET /search?q=rust&lang=en&flag HTTP/1.1\r\nHost: x\r\n\r\n";
    let request = Request::read(data.as_bytes()).unwrap();
    assert_eq!(request.path, "/search");
    assert_eq!(request.query_param("q"), Some("rust"));
    assert_eq!(request.query_param("lang"), Some("en"));
    // a pair without `=` maps to the empty value
    assert_eq!(request.query_param("flag"), Some(""));
    assert_eq!(request.query_param("missing"), None);
    assert_eq!(request.query_param_or("missing", "fallback"), "fallback");
    assert_eq!(request.query_param_or("q", "fallback"), "rust");
}

#[test]
fn test_query_duplicate_key_last_wins() {
    let data = "GET /p?a=1&a=2 HTTP/1.1\r\n\r\n";
    let request = Request::read(data.as_bytes()).unwrap();
    assert_eq!(request.query_param("a"), Some("2"));
}

#[test]
fn test_duplicate_header_last_wins() {
    let data = "GET / HTTP/1.1\r\nX-Tag: one\r\nX-Tag: two\r\n\r\n";
    let request = Request::read(data.as_bytes()).unwrap();
    assert_eq!(request.headers.get("x-tag"), Some(&"two".to_string()));
}

#[test]
fn test_header_line_without_colon_is_skipped() {
    let data = "GET / HTTP/1.1\r\nHost: x\r\nnocolonhere\r\n\r\n";
    let request = Request::read(data.as_bytes()).unwrap();
    assert_eq!(request.headers.len(), 1);
    assert_eq!(request.headers.get("host"), Some(&"x".to_string()));
}

#[test]
fn test_content_length_with_leading_zeros() {
    let data = "POST /x HTTP/1.1\r\nContent-Length: 003\r\n\r\nabc";
    let request = Request::read(data.as_bytes()).unwrap();
    assert_eq!(request.body, "abc");
}

#[test]
fn test_content_length_with_leading_plus() {
    let data = "POST /x HTTP/1.1\r\nContent-Length: +3\r\n\r\nabc";
    let request = Request::read(data.as_bytes()).unwrap();
    assert_eq!(request.body, "abc");
}

#[test]
fn test_unparsable_content_length_reads_no_body() {
    let data = "POST /x HTTP/1.1\r\nContent-Length: ten\r\n\r\nabc";
    let request = Request::read(data.as_bytes()).unwrap();
    assert_eq!(request.body, "");
}

#[test]
fn test_params_empty_after_parse() {
    let data = "GET /users/123 HTTP/1.1\r\n\r\n";
    let request = Request::read(data.as_bytes()).unwrap();
    assert_eq!(request.params.len(), 0);
}

#[test]
fn test_classify_io_failure_mapping() {
    assert_eq!(
        classify_io_failure(IoFailure::UnexpectedEof),
        RequestError::ConnectionClosed
    );
    assert_eq!(
        classify_io_failure(IoFailure::TimedOut),
        RequestError::ConnectionTimedOut
    );
    assert_eq!(
        classify_io_failure(IoFailure::ConnectionReset),
        RequestError::ConnectionClosed
    );
    assert_eq!(
        classify_io_failure(IoFailure::ConnectionAborted),
        RequestError::ConnectionClosed
    );
    assert_eq!(
        classify_io_failure(IoFailure::BrokenPipe),
        RequestError::ConnectionClosed
    );
    assert_eq!(
        classify_io_failure(IoFailure::Other),
        RequestError::ReadError
    );
}

#[test]
fn test_method_parse_case_insensitive() {
    assert_eq!(HttpMethod::from_str("get"), Some(HttpMethod::GET));
    assert_eq!(HttpMethod::from_str("Post"), Some(HttpMethod::POST));
    assert_eq!(HttpMethod::from_str("TRACE"), Some(HttpMethod::TRACE));
    assert_eq!(HttpMethod::from_str("PATCH"), Some(HttpMethod::PATCH));
    assert_eq!(HttpMethod::from_str("BREW"), None);
}

#[test]
fn test_version_parse_exact() {
    assert_eq!(Version::from_str("HTTP/1.1"), Ok(Version::HTTP1_1));
    assert_eq!(Version::from_str("HTTP/2.0"), Ok(Version::HTTP2_0));
    assert_eq!(Version::from_str("http/1.1"), Err(()));
    assert_eq!(Version::from_str("HTTP/3.0"), Err(()));
}
