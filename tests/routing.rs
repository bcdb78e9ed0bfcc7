use vulpes::{listen_groups, parse, Config, Header, RequestHead, Return, Server};

const EXAMPLE: &str = "http {
    server {
        listen 8080;
        server_name example.com;
        location /test { return 204; }
        location = /503 { return 503 Service Unavailable; }
        return 400 Bad Request;
    }
}";

fn groups(src: &str) -> Vec<Server> {
    listen_groups(Config::try_from(parse(src).unwrap()).unwrap())
}

fn get(path: &str, host: Option<&str>) -> Vec<u8> {
    let mut req = format!("GET {} HTTP/1.1\r\n", path);
    if let Some(h) = host {
        req.push_str(&format!("Host: {}\r\n", h));
    }
    req.push_str("\r\n");
    req.into_bytes()
}

/// Status code and body of a response.
fn status_and_body(resp: &[u8]) -> (u16, Vec<u8>) {
    let text = String::from_utf8(resp.to_vec()).unwrap();
    let (head, body) = text.split_once("\r\n\r\n").unwrap();
    let status: u16 = head[9..12].parse().unwrap();
    let len_line = head.lines().find(|l| l.starts_with("Content-Length: ")).unwrap();
    let len: usize = len_line["Content-Length: ".len()..].parse().unwrap();
    assert_eq!(len, body.len());
    (status, body.as_bytes().to_vec())
}

fn ask(server: &Server, path: &str, host: Option<&str>) -> (u16, Vec<u8>) {
    status_and_body(&server.respond(&get(path, host)).unwrap())
}

#[test]
fn test_run() {
    let g = groups(EXAMPLE);
    assert_eq!(ask(&g[0], "/", Some("127.0.0.1:8080")).0, 404);
    assert_eq!(ask(&g[0], "/503", Some("127.0.0.1:8080")).0, 404);
}

#[test]
fn test_run_with_host() {
    let g = groups(EXAMPLE);
    let s = &g[0];
    let host = Some("example.com");
    assert_eq!(ask(s, "/", host), (400, b"Bad Request".to_vec()));
    assert_eq!(ask(s, "/503", host), (503, b"Service Unavailable".to_vec()));
    assert_eq!(ask(s, "/503/a", host), (400, b"Bad Request".to_vec()));
    assert_eq!(ask(s, "/test", host), (204, vec![]));
    assert_eq!(ask(s, "/test/abc", host), (204, vec![]));
}

#[test]
fn end_to_end_example() {
    let g = groups(EXAMPLE);
    let s = &g[0];
    let host = Some("example.com");
    assert_eq!(ask(s, "/test", host), (204, vec![]));
    assert_eq!(ask(s, "/test/abc", host), (204, vec![]));
    assert_eq!(ask(s, "/503", host), (503, b"Service Unavailable".to_vec()));
    assert_eq!(ask(s, "/missing", host), (400, b"Bad Request".to_vec()));
    // Without a Host header and without a host of the empty name, the
    // stand-in host answers.
    assert_eq!(ask(s, "/anything", None), (404, vec![]));
}

#[test]
fn exact_response_bytes() {
    let g = groups(EXAMPLE);
    let resp = g[0].respond(&get("/503", Some("example.com"))).unwrap();
    assert_eq!(
        String::from_utf8(resp).unwrap(),
        "HTTP/1.1 503 Service Unavailable\r\nContent-Length: 19\r\n\r\nService Unavailable"
    );
    let resp = g[0].respond(&get("/test", Some("example.com"))).unwrap();
    assert_eq!(String::from_utf8(resp).unwrap(), "HTTP/1.1 204 No Content\r\nContent-Length: 0\r\n\r\n");
}

#[test]
fn unregistered_status_has_unknown_reason() {
    let resp = vulpes::wire::render(&Return { code: 599, text: Some("é".to_owned()) });
    assert_eq!(
        resp,
        "HTTP/1.1 599 <unknown status code>\r\nContent-Length: 2\r\n\r\né".as_bytes().to_vec()
    );
}

#[test]
fn host_dispatch_and_fallback() {
    let g = groups(
        "http {
            server { listen 80; server_name a.test; return 201 a; }
            server { listen 80; return 202 fallback; }
            server { listen 80; server_name b.test other.test; return 203 b; }
        }",
    );
    assert_eq!(g.len(), 1);
    let s = &g[0];
    assert_eq!(ask(s, "/", Some("a.test")), (201, b"a".to_vec()));
    assert_eq!(ask(s, "/", Some("b.test")), (203, b"b".to_vec()));
    assert_eq!(ask(s, "/", Some("other.test")), (202, b"fallback".to_vec()));
    assert_eq!(ask(s, "/", Some("A.TEST")), (202, b"fallback".to_vec()));
    assert_eq!(ask(s, "/", None), (202, b"fallback".to_vec()));
}

#[test]
fn host_header_name_is_case_insensitive() {
    let g = groups("http { server { listen 80; server_name a.test; return 201 a; } }");
    let req = b"GET / HTTP/1.1\r\nhOsT: a.test\r\n\r\n";
    assert_eq!(status_and_body(&g[0].respond(req).unwrap()), (201, b"a".to_vec()));
    let head = RequestHead {
        path: "/".to_owned(),
        headers: vec![
            Header { name: "X-Other".to_owned(), value: b"a.test".to_vec() },
            Header { name: "HOST".to_owned(), value: b"a.test".to_vec() },
            Header { name: "Host".to_owned(), value: b"b.test".to_vec() },
        ],
    };
    assert_eq!(status_and_body(&g[0].respond_to(&head)), (201, b"a".to_vec()));
}

#[test]
fn duplicate_server_name_later_wins() {
    let g = groups(
        "http {
            server { listen 80; server_name a.test; return 201 first; }
            server { listen 80; server_name a.test; return 202 second; }
        }",
    );
    assert_eq!(g[0].http_servers.len(), 1);
    assert_eq!(ask(&g[0], "/", Some("a.test")), (202, b"second".to_vec()));
}

#[test]
fn exact_beats_prefix() {
    let g = groups(
        "http { server { listen 80; location / { return 200 prefix; } location = /503 { return 503 exact; } } }",
    );
    assert_eq!(ask(&g[0], "/503", None), (503, b"exact".to_vec()));
    assert_eq!(ask(&g[0], "/5030", None), (200, b"prefix".to_vec()));
    let g = groups("http { server { listen 80; location = /503 { return 503 exact; } } }");
    assert_eq!(ask(&g[0], "/503", None), (503, b"exact".to_vec()));
    assert_eq!(ask(&g[0], "/503/x", None), (404, vec![]));
}

#[test]
fn prefix_match_and_default() {
    let g = groups("http { server { listen 80; location /test { return 200 t; } return 418; } }");
    assert_eq!(ask(&g[0], "/test/abc", None), (200, b"t".to_vec()));
    assert_eq!(ask(&g[0], "/testing", None), (200, b"t".to_vec()));
    assert_eq!(ask(&g[0], "/tes", None), (418, vec![]));
    assert_eq!(ask(&g[0], "/other", None), (418, vec![]));
}

#[test]
fn first_prefix_location_wins() {
    let g = groups("http { server { listen 80; location /a { return 201; } location /ab { return 202; } } }");
    assert_eq!(ask(&g[0], "/abc", None).0, 201);
}

#[test]
fn malformed_request_gets_no_response() {
    let g = groups(EXAMPLE);
    assert_eq!(g[0].respond(b"garbage\r\n\r\n"), None);
    assert_eq!(g[0].respond(b""), None);
    assert_eq!(g[0].respond(b"GET / HTTP/1.1\r\nHost: example.com\r\n"), None);
    assert_eq!(g[0].respond(b"\x00\x01\x02 not http\r\n\r\n"), None);
}

#[test]
fn listen_groups_are_exact_string_keyed() {
    let g = groups(
        "http { server { listen 80; server_name a; } server { listen 080; server_name b; } }
         http { server { listen 80; server_name c; } server { server_name none; } }",
    );
    assert_eq!(g.len(), 2);
    assert_eq!(g[0].listen, "80");
    assert_eq!(g[1].listen, "080");
    let names = |s: &Server| -> Vec<String> {
        s.http_servers.iter().map(|h| h.server_name.clone().unwrap()).collect()
    };
    assert_eq!(names(&g[0]), vec!["a".to_owned(), "c".to_owned()]);
    assert_eq!(names(&g[1]), vec!["b".to_owned()]);
}

#[test]
fn group_key_is_the_first_listen_token() {
    let g = groups("http { server { listen 81 82; } server { listen 82; } }");
    assert_eq!(g.len(), 2);
    assert_eq!(g[0].listen, "81");
    assert_eq!(g[1].listen, "82");
}

#[test]
fn get_location_directly() {
    let g = groups("http { server { listen 80; server_name h; location /x { return 201; } } }");
    let h = g[0].get_server(Some(b"h")).unwrap();
    assert_eq!(h.get_location("/x/y").unwrap().path, "/x");
    assert!(h.get_location("/y").is_none());
    assert!(g[0].get_server(Some(b"nope")).is_none());
}

#[test]
fn too_many_headers_get_no_response() {
    let g = groups(EXAMPLE);
    let mut req = String::from("GET /test HTTP/1.1\r\nHost: example.com\r\n");
    for i in 0..15 {
        req.push_str(&format!("X-{}: v\r\n", i));
    }
    let within = format!("{}\r\n", req);
    assert_eq!(status_and_body(&g[0].respond(within.as_bytes()).unwrap()), (204, vec![]));
    req.push_str("X-last: v\r\n");
    let over = format!("{}\r\n", req);
    assert_eq!(g[0].respond(over.as_bytes()), None);
}
