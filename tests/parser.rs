use vulpes::ast::ErrorKind;
use vulpes::parser::{parse, parse_block, parse_inline_multi_value};
use vulpes::{print_config, ParsedConfig, ParsedValue};

fn text(s: &str) -> ParsedValue {
    ParsedValue::String(s.to_owned())
}

fn test_config() -> ParsedConfig {
    ParsedConfig {
        label: "http".to_owned(),
        value: ParsedValue::Block(vec![ParsedConfig {
            label: "server".to_owned(),
            value: ParsedValue::Block(vec![
                ParsedConfig {
                    label: "listen".to_owned(),
                    value: ParsedValue::Value(vec![ParsedValue::String("80".to_owned())]),
                },
                ParsedConfig {
                    label: "server_name".to_owned(),
                    value: ParsedValue::Value(vec![ParsedValue::String("example.com".to_owned())]),
                },
                ParsedConfig {
                    label: "index".to_owned(),
                    value: ParsedValue::Value(vec![
                        ParsedValue::String("index.html".to_owned()),
                        ParsedValue::String("index.htm".to_owned()),
                    ]),
                },
                ParsedConfig {
                    label: "location".to_owned(),
                    value: ParsedValue::Value(vec![
                        ParsedValue::String("/".to_owned()),
                        ParsedValue::Block(vec![ParsedConfig {
                            label: "alias".to_owned(),
                            value: ParsedValue::Value(vec![ParsedValue::String(
                                "/var/www/html/".to_owned(),
                            )]),
                        }]),
                    ]),
                },
            ]),
        }]),
    }
}

#[test]
fn test_parse() {
    let result = parse(
        "
            http {
                server {
                    listen 80;
                    server_name example.com;
                    index index.html index.htm;

                    location / {
                        alias /var/www/html/;
                    }
                }
            }",
    )
    .unwrap();
    assert_eq!(result, vec![test_config()]);
}

#[test]
fn test_parse_block() {
    let (data, result) = parse_block(
        "{
                listen 80;
            }",
    )
    .unwrap();

    assert_eq!(data, "");
    assert_eq!(
        result,
        ParsedValue::Block(vec![ParsedConfig {
            label: "listen".to_owned(),
            value: ParsedValue::Value(vec![ParsedValue::String("80".to_owned())])
        }])
    );
}

#[test]
fn test_parse_inline_single_value() {
    let (data, result) = parse_inline_multi_value("example.com;").unwrap();

    assert_eq!(data, "");
    assert_eq!(result, ParsedValue::Value(vec![ParsedValue::String("example.com".to_owned())]));
}

#[test]
fn test_parse_inline_multi_value() {
    let (data, result) = parse_inline_multi_value("index.html index.htm;").unwrap();

    assert_eq!(data, "");
    assert_eq!(
        result,
        ParsedValue::Value(vec![
            ParsedValue::String("index.html".to_owned()),
            ParsedValue::String("index.htm".to_owned())
        ])
    );
}

#[test]
fn test_parse_inline_value_block() {
    let (data, result) = parse_inline_multi_value(
        "/ {
                alias /var/www/html/;
            }",
    )
    .unwrap();

    assert_eq!(data, "");
    assert_eq!(
        result,
        ParsedValue::Value(vec![
            ParsedValue::String("/".to_owned()),
            ParsedValue::Block(vec![ParsedConfig {
                label: "alias".to_owned(),
                value: ParsedValue::Value(vec![ParsedValue::String("/var/www/html/".to_owned())])
            },])
        ])
    );
}

#[test]
fn test_try_into() {
    let data = ParsedConfig {
        label: "test".to_owned(),
        value: ParsedValue::Value(vec![
            ParsedValue::String("a".to_owned()),
            ParsedValue::String("b".to_owned()),
            ParsedValue::String("c".to_owned()),
        ]),
    };
    let result: Vec<String> = data.value.into_strings().unwrap();
    assert_eq!(result, vec!["a".to_owned(), "b".to_owned(), "c".to_owned(),]);
}

#[test]
fn test_config_to_string() {
    let data = test_config();
    assert_eq!(
        data.to_string(),
        "http {
    server {
        listen 80;
        server_name example.com;
        index index.html index.htm;
        location / {
            alias /var/www/html/;
        }
    }
}"
    );
}

#[test]
fn into_strings_hands_back_a_block() {
    let block = ParsedValue::Block(vec![]);
    let err = block.into_strings().unwrap_err();
    assert_eq!(err.kind, ErrorKind::UnexpectedType { value: ParsedValue::Block(vec![]) });
    let mixed = ParsedValue::Value(vec![text("a"), ParsedValue::Block(vec![])]);
    assert!(mixed.into_strings().is_err());
}

#[test]
fn round_trip_of_the_example_config() {
    let src = "http {\n  server {\n    listen 8080;\n    server_name example.com;\n    location /test { return 204; }\n    location = /503 { return 503 Service Unavailable; }\n    return 400 Bad Request;\n  }\n}\n";
    let first = parse(src).unwrap();
    let printed = print_config(&first);
    let second = parse(&printed).unwrap();
    assert_eq!(first, second);
    assert_eq!(printed, "http {\n    server {\n        listen 8080;\n        server_name example.com;\n        location /test {\n            return 204;\n        }\n        location = /503 {\n            return 503 Service Unavailable;\n        }\n        return 400 Bad Request;\n    }\n}\n");
}

#[test]
fn round_trip_of_an_unterminated_list() {
    let first = parse("server { listen 80 }").unwrap();
    let printed = print_config(&first);
    assert_eq!(printed, "server {\n    listen 80;\n}\n");
    assert_eq!(parse(&printed).unwrap(), first);
}

#[test]
fn empty_text_has_no_directives() {
    assert_eq!(parse("").unwrap(), vec![]);
    assert_eq!(parse(" \n\t ").unwrap(), vec![]);
    assert_eq!(print_config(&vec![]), "");
}

#[test]
fn unterminated_block_is_an_error() {
    let err = parse("http { server {").unwrap_err();
    assert_eq!(err.kind, ErrorKind::UnexpectedEnd);
}

#[test]
fn stray_closing_brace_is_an_error() {
    let err = parse("listen 80; }").unwrap_err();
    assert_eq!(err.kind, ErrorKind::UnexpectedChar { offset: 11 });
}

#[test]
fn empty_label_is_an_error() {
    let err = parse("{ listen 80; }").unwrap_err();
    assert_eq!(err.kind, ErrorKind::UnexpectedChar { offset: 0 });
    let err = parse("listen;").unwrap_err();
    assert_eq!(err.kind, ErrorKind::UnexpectedChar { offset: 6 });
}

#[test]
fn whitespace_between_tokens_is_insignificant() {
    let a = parse("listen\t80 ;\r\nserver_name a   b;").unwrap();
    let b = parse("listen 80;\nserver_name a b;").unwrap();
    assert_eq!(a, b);
    assert_eq!(a[1].value, ParsedValue::Value(vec![text("a"), text("b")]));
}

#[test]
fn a_block_ends_its_list() {
    let r = parse("location / { return 204; } location = /x { }").unwrap();
    assert_eq!(r.len(), 2);
    assert_eq!(r[1].label, "location");
    assert_eq!(r[1].value, ParsedValue::Value(vec![text("="), text("/x"), ParsedValue::Block(vec![])]));
}

#[test]
fn parse_block_leaves_the_rest() {
    let (rest, v) = parse_block("{ a b; } tail").unwrap();
    assert_eq!(rest, " tail");
    assert_eq!(
        v,
        ParsedValue::Block(vec![ParsedConfig { label: "a".to_owned(), value: ParsedValue::Value(vec![text("b")]) }])
    );
    assert!(parse_block("x").is_err());
}

#[test]
fn repeated_labels_keep_their_order() {
    let r = parse("a 1; a 2; b 3;").unwrap();
    let labels: Vec<&str> = r.iter().map(|d| d.label.as_str()).collect();
    assert_eq!(labels, vec!["a", "a", "b"]);
}
