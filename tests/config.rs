use vulpes::parse;
use vulpes::{
    Config, ConfigError, ErrorKind, HttpConfig, LocationConfig, LocationExp, ParsedConfig,
    ParsedValue, Return, ServerConfig,
};

fn example_tree() -> Vec<ParsedConfig> {
    vec![ParsedConfig {
        label: "http".to_owned(),
        value: ParsedValue::Block(vec![ParsedConfig {
            label: "server".to_owned(),
            value: ParsedValue::Block(vec![
                ParsedConfig {
                    label: "listen".to_owned(),
                    value: ParsedValue::Value(vec![ParsedValue::String("80".to_owned())]),
                },
                ParsedConfig {
                    label: "server_name".to_owned(),
                    value: ParsedValue::Value(vec![ParsedValue::String("example.com".to_owned())]),
                },
                ParsedConfig {
                    label: "index".to_owned(),
                    value: ParsedValue::Value(vec![
                        ParsedValue::String("index.html".to_owned()),
                        ParsedValue::String("index.htm".to_owned()),
                    ]),
                },
                ParsedConfig {
                    label: "location".to_owned(),
                    value: ParsedValue::Value(vec![
                        ParsedValue::String("/".to_owned()),
                        ParsedValue::Block(vec![ParsedConfig {
                            label: "alias".to_owned(),
                            value: ParsedValue::Value(vec![ParsedValue::String(
                                "/var/www/html/".to_owned(),
                            )]),
                        }]),
                    ]),
                },
            ]),
        }]),
    }]
}

fn expected_example() -> Config {
    Config {
        http: vec![HttpConfig {
            server: vec![ServerConfig {
                listen: vec!["80".to_owned()],
                server_name: vec!["example.com".to_owned()],
                location: vec![LocationConfig {
                    path: "/".to_owned(),
                    exp: LocationExp::Empty,
                    ret: Return { code: 404, text: None },
                }],
                ret: Return { code: 404, text: None },
            }],
        }],
    }
}

#[test]
fn config_test_try_from() {
    let result = Config::try_from(example_tree()).unwrap();
    assert_eq!(result, expected_example());
}

#[test]
fn mod_test_try_from() {
    let data = example_tree();
    let result = Config::try_from(data).unwrap();
    assert_eq!(result, expected_example());
}

fn compile(src: &str) -> Result<Config, ConfigError> {
    Config::try_from(parse(src).unwrap())
}

fn only_server(c: &Config) -> &ServerConfig {
    assert_eq!(c.http.len(), 1);
    assert_eq!(c.http[0].server.len(), 1);
    &c.http[0].server[0]
}

#[test]
fn full_example_compiles() {
    let c = compile(
        "http { server { listen 8080; server_name example.com; location /test { return 204; } location = /503 { return 503 Service Unavailable; } return 400 Bad Request; } }",
    )
    .unwrap();
    let s = only_server(&c);
    assert_eq!(s.listen, vec!["8080".to_owned()]);
    assert_eq!(s.server_name, vec!["example.com".to_owned()]);
    assert_eq!(
        s.location,
        vec![
            LocationConfig { path: "/test".to_owned(), exp: LocationExp::Empty, ret: Return { code: 204, text: None } },
            LocationConfig {
                path: "/503".to_owned(),
                exp: LocationExp::Exact,
                ret: Return { code: 503, text: Some("Service Unavailable".to_owned()) },
            },
        ]
    );
    assert_eq!(s.ret, Return { code: 400, text: Some("Bad Request".to_owned()) });
}

#[test]
fn unknown_directives_are_skipped() {
    let c = compile("worker 4; http { gzip on; server { index a; } } events { }").unwrap();
    let s = only_server(&c);
    assert_eq!(s.listen, Vec::<String>::new());
    assert_eq!(s.ret, Return::default());
}

#[test]
fn listen_lists_accumulate_and_server_name_is_replaced() {
    let c = compile("http { server { listen 80 81; listen 080; server_name a b; server_name c; } }").unwrap();
    let s = only_server(&c);
    assert_eq!(s.listen, vec!["80".to_owned(), "81".to_owned(), "080".to_owned()]);
    assert_eq!(s.server_name, vec!["c".to_owned()]);
}

#[test]
fn later_location_for_a_path_wins() {
    let c = compile("http { server { location /a { return 201; } location /b; location = /a { return 202 x; } } }").unwrap();
    let s = only_server(&c);
    assert_eq!(
        s.location,
        vec![
            LocationConfig {
                path: "/a".to_owned(),
                exp: LocationExp::Exact,
                ret: Return { code: 202, text: Some("x".to_owned()) },
            },
            LocationConfig { path: "/b".to_owned(), exp: LocationExp::Empty, ret: Return { code: 404, text: None } },
        ]
    );
}

#[test]
fn last_return_wins() {
    let c = compile("http { server { return 500; return 301 moved; } }").unwrap();
    assert_eq!(only_server(&c).ret, Return { code: 301, text: Some("moved".to_owned()) });
}

#[test]
fn non_numeric_return_code_is_an_invalid_integer() {
    let err = compile("http { server { return abc; } }").unwrap_err();
    assert_eq!(err.kind, ErrorKind::InvalidInteger { value: "abc".to_owned() });
}

#[test]
fn non_numeric_listen_is_an_invalid_integer() {
    let err = compile("http { server { listen 80 x8; } }").unwrap_err();
    assert_eq!(err.kind, ErrorKind::InvalidInteger { value: "x8".to_owned() });
}

#[test]
fn out_of_range_status_is_invalid() {
    for code in ["99", "600", "1000", "99999999999999999999"] {
        let err = compile(&format!("http {{ server {{ return {}; }} }}", code)).unwrap_err();
        assert_eq!(err.kind, ErrorKind::InvalidStatusCode { value: code.to_owned() });
    }
    let ok = compile("http { server { return 100; location /x { return 599; } } }").unwrap();
    assert_eq!(only_server(&ok).ret.code, 100);
    assert_eq!(only_server(&ok).location[0].ret.code, 599);
}

#[test]
fn wrong_node_shape_is_an_error_with_the_node() {
    let err = compile("http { server { server_name { } } }").unwrap_err();
    assert_eq!(err.kind, ErrorKind::UnexpectedType { value: ParsedValue::Block(vec![]) });
    let err = compile("http x;").unwrap_err();
    assert_eq!(
        err.kind,
        ErrorKind::UnexpectedType { value: ParsedValue::Value(vec![ParsedValue::String("x".to_owned())]) }
    );
    let err = compile("http { server { location { } } }").unwrap_err();
    assert_eq!(err.kind, ErrorKind::UnexpectedType { value: ParsedValue::Block(vec![]) });
    let err = compile("http { server { location ~ /x { } } }").unwrap_err();
    assert!(matches!(err.kind, ErrorKind::UnexpectedType { .. }));
}

#[test]
fn return_decodes_directly() {
    let v = ParsedValue::Value(vec![
        ParsedValue::String("503".to_owned()),
        ParsedValue::String("Service".to_owned()),
        ParsedValue::String("Unavailable".to_owned()),
    ]);
    assert_eq!(Return::try_from(v).unwrap(), Return { code: 503, text: Some("Service Unavailable".to_owned()) });
    let empty = ParsedValue::Value(vec![]);
    assert!(Return::try_from(empty).is_err());
}

#[test]
fn location_forms() {
    let loc = |src: &str| {
        let (_, v) = vulpes::parser::parse_inline_multi_value(src).unwrap();
        LocationConfig::try_from(v)
    };
    assert_eq!(
        loc("= /e;").unwrap(),
        LocationConfig { path: "/e".to_owned(), exp: LocationExp::Exact, ret: Return { code: 404, text: None } }
    );
    assert_eq!(
        loc("/p;").unwrap(),
        LocationConfig { path: "/p".to_owned(), exp: LocationExp::Empty, ret: Return { code: 404, text: None } }
    );
    assert_eq!(
        loc("= /e { return 200; }").unwrap(),
        LocationConfig { path: "/e".to_owned(), exp: LocationExp::Exact, ret: Return { code: 200, text: None } }
    );
    assert_eq!(
        loc("/p { return 201 made; }").unwrap(),
        LocationConfig {
            path: "/p".to_owned(),
            exp: LocationExp::Empty,
            ret: Return { code: 201, text: Some("made".to_owned()) }
        }
    );
}
