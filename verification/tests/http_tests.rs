use httpd::http::{HttpMethod, HttpRequest, HttpResponse, ParseError};
use httpd::server::is_safe_path;

fn parse_ok(input: &str) -> HttpRequest {
    HttpRequest::parse(input.as_bytes()).expect("request should parse")
}

#[test]
fn test_http_request_parse_simple_get() {
    let input = vec![
        "GET /index.html HTTP/1.1",
        "Host: 127.0.0.1:7878",
        "Connection: keep-alive",
        "",
        "",
    ]
    .join("\r\n");

    let result = HttpRequest::parse(input.as_bytes()).expect("Should successfully parse GET");

    assert!(matches!(result.method, HttpMethod::Get));
    assert_eq!(result.path, b"/index.html".to_vec());
    assert_eq!(result.version, b"HTTP/1.1".to_vec());
    assert_eq!(result.header(b"Host").unwrap(), &b"127.0.0.1:7878".to_vec());
    assert!(result.body.is_empty());
}

#[test]
fn test_http_request_parse_post_with_body() {
    let input = "POST /api/save HTTP/1.1\r\nContent-Type: text/plain\r\nContent-Length: 11\r\n\r\nhello world";

    let result = HttpRequest::parse(input.as_bytes()).expect("Should successfully parse POST");

    assert!(matches!(result.method, HttpMethod::Post));
    assert_eq!(result.path, b"/api/save".to_vec());
    assert_eq!(result.header(b"Content-Type").unwrap(), &b"text/plain".to_vec());
    assert_eq!(result.body, b"hello world".to_vec());
}

#[test]
fn test_http_request_parse_invalid_first_line() {
    let input = "NOT_A_METHOD /index HTTP/1.1\r\n\r\n";
    let result = HttpRequest::parse(input.as_bytes());
    assert!(result.is_err());
}

#[test]
fn test_parse_browser_get_request() {
    let input = vec![
        "GET / HTTP/1.1",
        "Host: 127.0.0.1:7878",
        "User-Agent: Mozilla/5.0 (Macintosh; Intel Mac OS X 10.15; rv:99.0) Gecko/20100101 Firefox/99.0",
        "Accept: text/html,application/xhtml+xml,application/xml;q=0.9,image/avif,image/webp,*/*;q=0.8",
        "Accept-Language: en-US,en;q=0.5",
        "Accept-Encoding: gzip, deflate, br",
        "DNT: 1",
        "Connection: keep-alive",
        "Upgrade-Insecure-Requests: 1",
        "Sec-Fetch-Dest: document",
        "Sec-Fetch-Mode: navigate",
        "Sec-Fetch-Site: none",
        "Sec-Fetch-User: ?1",
        "Cache-Control: max-age=0",
        "",
        "",
    ]
    .join("\r\n");

    let result = HttpRequest::parse(input.as_bytes()).expect("Failed to parse browser GET request");

    assert!(matches!(result.method, HttpMethod::Get));
    assert_eq!(result.path, b"/".to_vec());
    assert_eq!(result.header(b"Host").unwrap(), &b"127.0.0.1:7878".to_vec());
    assert_eq!(result.header(b"DNT").unwrap(), &b"1".to_vec());
    assert_eq!(result.header(b"Sec-Fetch-Mode").unwrap(), &b"navigate".to_vec());
}

#[test]
fn test_parse_complex_query_params() {
    let input = vec!["GET /search?query=rust&verbose&mode= HTTP/1.1", "Host: localhost", "", ""]
        .join("\r\n");

    let result = HttpRequest::parse(input.as_bytes()).expect("Failed to parse complex queries");

    assert_eq!(result.path, b"/search".to_vec());
    assert_eq!(result.query_param(b"query").unwrap(), &Some(b"rust".to_vec()));
    assert_eq!(result.query_param(b"verbose").unwrap(), &None);
    assert_eq!(result.query_param(b"mode").unwrap(), &Some(b"".to_vec()));
    assert_eq!(result.query_params.len(), 3);
}

#[test]
fn test_response_status_line_only() {
    let response = HttpResponse::new("HTTP/1.1", 204, "No Content");
    let bytes = response.get_bytes();
    let response_str = String::from_utf8_lossy(&bytes);

    assert!(response_str.starts_with("HTTP/1.1 204 No Content\r\n"));
    assert!(response_str.contains("Content-Length: 0\r\n"));
    assert!(response_str.ends_with("\r\n\r\n"));
}

#[test]
fn test_response_with_headers_and_body() {
    let mut response = HttpResponse::new("HTTP/1.1", 200, "OK");
    response.insert_header("Content-Type", "text/html");
    response.set_body(b"<html><body>Hello</body></html>");

    let bytes = response.get_bytes();
    let response_str = String::from_utf8_lossy(&bytes);

    assert!(response_str.contains("HTTP/1.1 200 OK\r\n"));
    assert!(response_str.contains("Content-Type: text/html\r\n"));
    assert!(response_str.contains("\r\n\r\n<html><body>Hello</body></html>"));
}

#[test]
fn test_content_length_calculation() {
    let mut response = HttpResponse::new("HTTP/1.1", 200, "OK");
    let body_data = b"Rust Programming";
    response.set_body(body_data);

    let bytes = response.get_bytes();
    let response_str = String::from_utf8_lossy(&bytes);

    let expected_header = format!("Content-Length: {}", body_data.len());
    assert!(response_str.contains(&expected_header));
}

#[test]
fn test_method_tokens_verbatim() {
    assert_eq!(HttpMethod::from("GET"), Some(HttpMethod::Get));
    assert_eq!(HttpMethod::from("HEAD"), Some(HttpMethod::Head));
    assert_eq!(HttpMethod::from("POST"), Some(HttpMethod::Post));
    assert_eq!(HttpMethod::from("PUT"), Some(HttpMethod::Put));
    assert_eq!(HttpMethod::from("DELETE"), Some(HttpMethod::Delete));
    assert_eq!(HttpMethod::from("CONNECT"), Some(HttpMethod::Connect));
    assert_eq!(HttpMethod::from("OPTIONS"), Some(HttpMethod::Options));
    assert_eq!(HttpMethod::from("TRACE"), Some(HttpMethod::Trace));
    assert_eq!(HttpMethod::from("PATCH"), Some(HttpMethod::Patch));
    assert_eq!(HttpMethod::from("get"), None);
    assert_eq!(HttpMethod::from("GETX"), None);
    assert_eq!(HttpMethod::from(""), None);
}

#[test]
fn test_parse_empty_input_gives_default_request() {
    let result = HttpRequest::parse(b"").expect("empty stream is a closed connection");
    assert!(matches!(result.method, HttpMethod::Get));
    assert!(result.path.is_empty());
    assert!(result.version.is_empty());
    assert!(result.headers.is_empty());
    assert!(result.body.is_empty());
}

#[test]
fn test_parse_error_bad_request_line() {
    let result = HttpRequest::parse(b"GET /index.html\r\n\r\n");
    assert_eq!(result.unwrap_err(), ParseError::BadRequestLine);
}

#[test]
fn test_parse_error_bad_method() {
    let result = HttpRequest::parse(b"get /index.html HTTP/1.1\r\n\r\n");
    assert_eq!(result.unwrap_err(), ParseError::BadMethod);
}

#[test]
fn test_parse_error_bad_uri() {
    let result = HttpRequest::parse(b"GET /a?b?c HTTP/1.1\r\n\r\n");
    assert_eq!(result.unwrap_err(), ParseError::BadUri);
}

#[test]
fn test_parse_error_bad_query() {
    let result = HttpRequest::parse(b"GET /a?x&&y HTTP/1.1\r\n\r\n");
    assert_eq!(result.unwrap_err(), ParseError::BadQuery);
}

#[test]
fn test_parse_error_bad_header() {
    let result = HttpRequest::parse(b"GET / HTTP/1.1\r\nNoColonHere\r\n\r\n");
    assert_eq!(result.unwrap_err(), ParseError::BadHeader);
}

#[test]
fn test_parse_error_eof_in_headers() {
    let result = HttpRequest::parse(b"GET / HTTP/1.1\r\nHost: localhost");
    assert_eq!(result.unwrap_err(), ParseError::UnexpectedEof);
}

#[test]
fn test_parse_error_bad_content_length() {
    let result = HttpRequest::parse(b"POST / HTTP/1.1\r\nContent-Length: abc\r\n\r\nbody");
    assert_eq!(result.unwrap_err(), ParseError::BadContentLength);
}

#[test]
fn test_body_truncated_at_stream_end() {
    let result = parse_ok("POST / HTTP/1.1\r\nContent-Length: 100\r\n\r\nshort");
    assert_eq!(result.body, b"short".to_vec());
}

#[test]
fn test_body_ignored_without_content_length() {
    let result = parse_ok("GET / HTTP/1.1\r\n\r\nleftover bytes");
    assert!(result.body.is_empty());
}

#[test]
fn test_header_values_are_trimmed() {
    let result = parse_ok("GET / HTTP/1.1\r\nHost:localhost\r\nPadded:   spaced out   \r\n\r\n");
    assert_eq!(result.header(b"Host").unwrap(), &b"localhost".to_vec());
    assert_eq!(result.header(b"Padded").unwrap(), &b"spaced out".to_vec());
}

#[test]
fn test_duplicate_header_keeps_last_value() {
    let result = parse_ok("GET / HTTP/1.1\r\nX-Tag: one\r\nX-Tag: two\r\n\r\n");
    assert_eq!(result.header(b"X-Tag").unwrap(), &b"two".to_vec());
    assert_eq!(result.headers.len(), 1);
}

#[test]
fn test_duplicate_query_key_keeps_last_value() {
    let result = parse_ok("GET /p?a=1&a=2 HTTP/1.1\r\n\r\n");
    assert_eq!(result.query_param(b"a").unwrap(), &Some(b"2".to_vec()));
    assert_eq!(result.query_params.len(), 1);
}

#[test]
fn test_duplicate_response_header_keeps_last_value() {
    let mut response = HttpResponse::new("HTTP/1.1", 200, "OK");
    response.insert_header("X-Tag", "one");
    response.insert_header("X-Tag", "two");
    let text = String::from_utf8_lossy(&response.get_bytes()).into_owned();
    assert!(text.contains("X-Tag: two\r\n"));
    assert!(!text.contains("X-Tag: one"));
}

#[test]
fn test_response_helpers() {
    let ok = HttpResponse::ok(b"fine");
    let ok_text = String::from_utf8_lossy(&ok.get_bytes()).into_owned();
    assert!(ok_text.starts_with("HTTP/1.1 200 OK\r\n"));
    assert!(ok_text.ends_with("\r\n\r\nfine"));

    let nf = HttpResponse::not_found("route not found");
    let nf_text = String::from_utf8_lossy(&nf.get_bytes()).into_owned();
    assert!(nf_text.starts_with("HTTP/1.1 404 Not Found\r\n"));
    assert!(nf_text.ends_with("\r\n\r\nroute not found"));

    let fb = HttpResponse::forbidden("no");
    assert!(String::from_utf8_lossy(&fb.get_bytes()).starts_with("HTTP/1.1 403 Forbidden\r\n"));

    let ie = HttpResponse::internal_error("boom");
    assert!(
        String::from_utf8_lossy(&ie.get_bytes()).starts_with("HTTP/1.1 500 Internal Server Error\r\n")
    );
}

#[test]
fn test_encode_then_decode_round_trip() {
    let mut response = HttpResponse::new("HTTP/1.1", 200, "OK");
    response.insert_header("Content-Type", "text/plain");
    response.insert_header("X-Tag", "alpha");
    response.set_body(b"round trip body");
    let encoded = response.get_bytes();

    let line_end = encoded.windows(2).position(|w| w == b"\r\n").unwrap();
    let mut input = b"GET /echo HTTP/1.1".to_vec();
    input.extend_from_slice(&encoded[line_end..]);

    let request = HttpRequest::parse(&input).expect("the re-framed response should parse");
    assert!(matches!(request.method, HttpMethod::Get));
    assert_eq!(request.path, b"/echo".to_vec());
    assert_eq!(request.body, b"round trip body".to_vec());
    assert_eq!(request.header(b"Content-Type").unwrap(), &b"text/plain".to_vec());
    assert_eq!(request.header(b"X-Tag").unwrap(), &b"alpha".to_vec());
    assert_eq!(request.header(b"Content-Length").unwrap(), &b"15".to_vec());
}

#[test]
fn test_is_safe_path() {
    assert!(is_safe_path("index.html"));
    assert!(is_safe_path("css/theme/dark.css"));
    assert!(is_safe_path("./local"));
    assert!(is_safe_path(""));
    assert!(!is_safe_path("/etc/passwd"));
    assert!(!is_safe_path("../secret"));
    assert!(!is_safe_path("a/../b"));
    assert!(!is_safe_path("a/b/.."));
}
