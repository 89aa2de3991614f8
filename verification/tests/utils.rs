use schnell::utils::{get_status_text, join_path, sanitize_header_key, to_title_case};

#[test]
fn test_sanitize_header_key() {
    assert_eq!(sanitize_header_key("Content-Type"), "Content-Type");
    assert_eq!(sanitize_header_key("Content_Type"), "Content-Type");
    assert_eq!(sanitize_header_key("content-type"), "Content-Type");
    assert_eq!(sanitize_header_key("content_type"), "Content-Type");
    assert_eq!(sanitize_header_key("content_type_"), "Content-Type");
    assert_eq!(sanitize_header_key("content_type_1"), "Content-Type-1");
    assert_eq!(sanitize_header_key("content  type"), "Content-Type");
    assert_eq!(sanitize_header_key("access $^&^&#$& TOKEN"), "Access-Token");
}

#[test]
fn common_test_join_path() {
    assert_eq!(join_path("/api", "/v1/users"), "/api/v1/users");
    assert_eq!(
        join_path("/api", &join_path("/v1", "/users")),
        "/api/v1/users"
    );
    assert_eq!(join_path("/api", "v1/users"), "/api/v1/users"); // path without leading slash
    assert_eq!(join_path("/api", "v1/users/"), "/api/v1/users/"); // path with trailing slash
    assert_eq!(join_path("api", "v1/users/"), "api/v1/users/");
}

#[test]
fn utils_test_join_path() {
    assert_eq!(join_path("/api", "/v1/users"), "/api/v1/users");
    assert_eq!(
        join_path("/api", &join_path("/v1", "/users")),
        "/api/v1/users"
    );
    assert_eq!(join_path("/api", "v1/users"), "/api/v1/users"); // path without leading slash
    assert_eq!(join_path("/api", "v1/users/"), "/api/v1/users/"); // path with trailing slash
    assert_eq!(join_path("api", "v1/users/"), "api/v1/users/");
}

#[test]
fn test_title_case() {
    assert_eq!(to_title_case("hello"), "Hello");
    assert_eq!(to_title_case("HELLO"), "Hello");
    assert_eq!(to_title_case(""), "");
    assert_eq!(to_title_case("x"), "X");
    assert_eq!(to_title_case("123abc"), "123abc");
}

#[test]
fn test_status_text_table() {
    assert_eq!(get_status_text(100), "Continue");
    assert_eq!(get_status_text(200), "OK");
    assert_eq!(get_status_text(302), "Found");
    assert_eq!(get_status_text(404), "Not Found");
    assert_eq!(get_status_text(418), "I'm a teapot");
    assert_eq!(get_status_text(500), "Internal Server Error");
    assert_eq!(get_status_text(511), "Network Authentication Required");
    assert_eq!(get_status_text(299), "Unknown");
}
