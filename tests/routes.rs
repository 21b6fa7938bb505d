use stm32f7_httpd::parser::HTTPParser;
use stm32f7_httpd::request::Request;
use stm32f7_httpd::routes::{match_path, Routes};
use stm32f7_httpd::string_map::StringMap;

fn request(head: &str) -> Request {
    HTTPParser::new(head).parse_head().unwrap()
}

fn route(req: &Request) -> (String, Vec<(String, String)>) {
    fn pairs(m: &StringMap) -> Vec<(String, String)> {
        (0..m.len()).map(|i| {
            let (k, v) = m.entry_at(i);
            (k.clone(), v.clone())
        }).collect()
    }
    Routes::init(req)
        .route("GET", "/", |_r, a| ("index".to_string(), pairs(&a)))
        .route("GET", "/view/:page_name", |_r, a| ("view".to_string(), pairs(&a)))
        .catch_all(|_r, a| ("fallback".to_string(), pairs(&a)))
}

#[test]
fn view_route_binds_page_name() {
    let req = request("GET /view/hello HTTP/1.1\r\n\r\n");
    assert_eq!(route(&req), ("view".to_string(), vec![("page_name".to_string(), "hello".to_string())]));
}

#[test]
fn segment_count_mismatch_falls_through() {
    let req = request("GET /nope/a/b HTTP/1.1\r\n\r\n");
    assert_eq!(route(&req), ("fallback".to_string(), vec![]));
}

#[test]
fn root_route_matches() {
    let req = request("GET / HTTP/1.1\r\n\r\n");
    assert_eq!(route(&req), ("index".to_string(), vec![]));
}

#[test]
fn method_must_match() {
    let req = request("POST /view/hello HTTP/1.1\r\n\r\n");
    assert_eq!(route(&req).0, "fallback");
}

#[test]
fn first_matching_route_wins() {
    let req = request("GET /a HTTP/1.1\r\n\r\n");
    let r = Routes::init(&req)
        .route("GET", "/:x", |_r, _a| 1)
        .route("GET", "/a", |_r, _a| 2)
        .catch_all(|_r, _a| 3);
    assert_eq!(r, 1);
}

#[test]
fn match_path_cases() {
    let m = match_path("/pins/:name", "/pins/led").unwrap();
    assert_eq!(m.get("name").map(|s| s.as_str()), Some("led"));
    assert!(match_path("/pins/:name", "/pins").is_none());
    assert!(match_path("/pins/:name", "/pin/led").is_none());
    assert!(match_path("/Pins", "/pins").is_none());
    assert_eq!(match_path("/", "/").unwrap().len(), 0);
    // a lone marker is a literal segment
    assert!(match_path("/:", "/x").is_none());
    assert!(match_path("/:", "/:").is_some());
    let m = match_path("/:a/:b", "/1/2").unwrap();
    assert_eq!(m.get("a").map(|s| s.as_str()), Some("1"));
    assert_eq!(m.get("b").map(|s| s.as_str()), Some("2"));
    // no URL decoding
    let m = match_path("/:a", "/x%20y").unwrap();
    assert_eq!(m.get("a").map(|s| s.as_str()), Some("x%20y"));
}
