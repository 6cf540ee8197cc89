use httpd::http::{HttpMethod, HttpRequest};
use httpd::router::{route_miss_response, Dispatch, Handler, Router, RouterNode};

fn make_req(method: HttpMethod, path: &str) -> HttpRequest {
    let mut req = HttpRequest::default();
    req.method = method;
    req.path = path.as_bytes().to_vec();
    req
}

fn matched_without_data(r: Dispatch) -> (u64, HttpRequest) {
    match r {
        Dispatch::WithoutData(id, req) => (id, req),
        _ => panic!("expected a plain handler to match"),
    }
}

#[test]
fn test_basic_routing() {
    let mut router = Router::new(false);
    router.get("/hello/world", 1);

    let req = make_req(HttpMethod::Get, "/hello/world");
    let (id, _) = matched_without_data(router.fetch(req));
    assert_eq!(id, 1);

    let req_fail = make_req(HttpMethod::Get, "/not/found");
    assert!(matches!(router.fetch(req_fail), Dispatch::Miss(_)));
}

#[test]
fn test_parameter_matching() {
    let mut router = Router::new(false);
    router.get("/user/:id", 1);
    router.get("/user/:id/settings", 2);

    let req = make_req(HttpMethod::Get, "/user/123");
    let (id, matched) = matched_without_data(router.fetch(req));
    assert_eq!(id, 1);
    assert_eq!(matched.param(b"id").unwrap(), &b"123".to_vec());

    router.get("/user/admin", 3);
    let req_admin = make_req(HttpMethod::Get, "/user/admin");
    let (id_admin, _) = matched_without_data(router.fetch(req_admin));
    assert_eq!(id_admin, 3);
}

#[test]
fn test_wildcard_greedy_matching() {
    let mut router = Router::new(false);
    router.get("/static/*", 1);

    let req = make_req(HttpMethod::Get, "/static/css/theme/dark.css");
    let (id, matched) = matched_without_data(router.fetch(req));
    assert_eq!(id, 1);
    assert_eq!(matched.param(b"*").unwrap(), &b"css/theme/dark.css".to_vec());

    router.get("/*", 2);
    let req_fb = make_req(HttpMethod::Get, "/some/random/path");
    let (id_fb, _) = matched_without_data(router.fetch(req_fb));
    assert_eq!(id_fb, 2);
}

#[test]
fn test_parameter_extraction_logic() {
    let mut router = Router::new(false);
    router.get("/blog/:post_id/comment/:comment_id", 7);

    let req = make_req(HttpMethod::Get, "/blog/my-first-post/comment/42");
    let (id, matched) = matched_without_data(router.fetch(req));
    assert_eq!(id, 7);
    let p_id = String::from_utf8(matched.param(b"post_id").unwrap().clone()).unwrap();
    let c_id = String::from_utf8(matched.param(b"comment_id").unwrap().clone()).unwrap();
    assert_eq!(format!("{}:{}", p_id, c_id), "my-first-post:42");
}

#[test]
fn test_matching_with_ctx() {
    let mut router = Router::new(true);
    router.get_ctx("/assets/*", 9);

    let req = make_req(HttpMethod::Get, "/assets/images/logo.png");
    match router.fetch(req) {
        Dispatch::WithData(id, matched) => {
            assert_eq!(id, 9);
            assert_eq!(matched.path, b"/assets/images/logo.png".to_vec());
            assert_eq!(matched.param(b"*").unwrap(), &b"images/logo.png".to_vec());
        },
        _ => panic!("expected the stateful handler to match"),
    }
}

#[test]
fn test_stateful_route_without_user_data_is_refused() {
    let mut router = Router::new(false);
    router.get_ctx("/assets/*", 9);

    let req = make_req(HttpMethod::Get, "/assets/logo.png");
    match router.fetch(req) {
        Dispatch::Respond(resp) => {
            let text = String::from_utf8_lossy(&resp.get_bytes()).into_owned();
            assert!(text.starts_with("HTTP/1.1 500 Internal Server Error\r\n"));
            assert!(text.ends_with("\r\n\r\nuser data not set"));
        },
        _ => panic!("expected a synthesized 500 response"),
    }
}

#[test]
fn test_static_beats_param_beats_wildcard() {
    let mut router = Router::new(false);
    router.get("/user/admin", 1);
    router.get("/user/:id", 2);
    router.get("/user/*", 3);

    let (id_static, _) = matched_without_data(router.fetch(make_req(HttpMethod::Get, "/user/admin")));
    assert_eq!(id_static, 1);

    let (id_param, matched) = matched_without_data(router.fetch(make_req(HttpMethod::Get, "/user/jane")));
    assert_eq!(id_param, 2);
    assert_eq!(matched.param(b"id").unwrap(), &b"jane".to_vec());

    let (id_wild, _) = matched_without_data(router.fetch(make_req(HttpMethod::Get, "/user/a/b")));
    assert_eq!(id_wild, 3);
}

#[test]
fn test_method_is_part_of_the_key() {
    let mut router = Router::new(false);
    router.get("/thing", 1);
    router.post("/thing", 2);

    let (id_get, _) = matched_without_data(router.fetch(make_req(HttpMethod::Get, "/thing")));
    assert_eq!(id_get, 1);
    let (id_post, _) = matched_without_data(router.fetch(make_req(HttpMethod::Post, "/thing")));
    assert_eq!(id_post, 2);
    assert!(matches!(router.fetch(make_req(HttpMethod::Put, "/thing")), Dispatch::Miss(_)));
}

#[test]
fn test_duplicate_registration_last_wins() {
    let mut router = Router::new(false);
    router.get("/dup", 1);
    router.get("/dup", 2);

    let (id, _) = matched_without_data(router.fetch(make_req(HttpMethod::Get, "/dup")));
    assert_eq!(id, 2);
}

#[test]
fn test_bare_wildcard_matches_everything() {
    let mut router = Router::new(false);
    router.get("*", 5);

    let (id, matched) = matched_without_data(router.fetch(make_req(HttpMethod::Get, "/any/path")));
    assert_eq!(id, 5);
    assert_eq!(matched.param(b"*").unwrap(), &b"/any/path".to_vec());
}

#[test]
fn test_node_lookup_prefers_static_then_param_then_wildcard() {
    let mut node = RouterNode::new();
    let pattern: Vec<Vec<u8>> = vec![b"user".to_vec(), b":id".to_vec()];
    node.insert_handler(HttpMethod::Get, &pattern, 0, Handler::WithoutData(1));
    let fallback: Vec<Vec<u8>> = vec![b"*".to_vec()];
    node.insert_handler(HttpMethod::Get, &fallback, 0, Handler::WithoutData(2));

    let user = node.lookup(b"user").expect("the static child should be found");
    assert!(user.lookup(b":id").is_some());
    assert!(user.lookup(b"anything").is_none());

    // A segment with no static child of its own falls back to the wildcard.
    assert!(node.lookup(b"other").is_some());
}

#[test]
fn test_route_miss_response_bytes() {
    let resp = route_miss_response();
    let text = String::from_utf8_lossy(&resp.get_bytes()).into_owned();
    assert!(text.starts_with("HTTP/1.1 404 Not Found\r\n"));
    assert!(text.contains("Content-Length: 15\r\n"));
    assert!(text.ends_with("\r\n\r\nroute not found"));
}

#[test]
fn test_matching_is_deterministic() {
    let mut router = Router::new(false);
    router.get("/a/:x/*", 4);

    let req = make_req(HttpMethod::Get, "/a/b/c/d");
    let (id1, q1) = matched_without_data(router.fetch(req.clone()));
    let (id2, q2) = matched_without_data(router.fetch(req));
    assert_eq!(id1, id2);
    assert_eq!(q1.params, q2.params);
}

#[test]
fn test_param_does_not_match_empty_segment() {
    let mut router = Router::new(false);
    router.get("/user/:id", 1);

    assert!(matches!(router.fetch(make_req(HttpMethod::Get, "/user/")), Dispatch::Miss(_)));
}
