use rezzy::source::{document, holds_lines, records, state_url, token_variable, NoData};

#[test]
fn a_server_without_scheme_is_asked_under_https() {
    assert_eq!(
        state_url("matrix.org", "!room:matrix.org"),
        "https://matrix.org/_matrix/client/v3/rooms/!room:matrix.org/state"
    );
    assert_eq!(
        state_url("http://localhost:8008", "!r"),
        "http://localhost:8008/_matrix/client/v3/rooms/!r/state"
    );
    assert_eq!(
        state_url("https://a.b", "!r"),
        "https://a.b/_matrix/client/v3/rooms/!r/state"
    );
}

#[test]
fn the_token_variable_names_the_domain() {
    assert_eq!(
        token_variable("matrix.unredacted.org"),
        "MTOKEN_MATRIX_UNREDACTED_ORG"
    );
    assert_eq!(token_variable("https://my-server.net"), "MTOKEN_MY_SERVER_NET");
    assert_eq!(token_variable("http://b\u{fc}cher.de"), "MTOKEN_B\u{dc}CHER_DE");
    assert_eq!(token_variable("http://https://x"), "MTOKEN_HTTPS://X");
    assert_eq!(token_variable("https://https://x"), "MTOKEN_X");
}

#[test]
fn extensions_are_compared_without_case() {
    assert!(holds_lines("jsonl"));
    assert!(holds_lines("JsonL"));
    assert!(!holds_lines("json"));
    assert!(!holds_lines("jsonlx"));
}

#[test]
fn blank_lines_hold_no_records() {
    let lines: Vec<String> = vec![
        "{\"a\":1}\n".to_string(),
        " \t\r\n".to_string(),
        "\u{3000}\n".to_string(),
        "2".to_string(),
    ];
    assert_eq!(
        records(&lines),
        Ok(vec!["{\"a\":1}\n".to_string(), "2".to_string()])
    );
    assert_eq!(document(&lines), Ok("{\"a\":1}\n2".to_string()));
}

#[test]
fn nothing_but_blank_lines_is_an_error() {
    let lines: Vec<String> = vec!["\n".to_string(), "  ".to_string()];
    assert_eq!(records(&lines), Err(NoData::Lines));
    assert_eq!(document(&lines), Err(NoData::Document));
    assert_eq!(document(&Vec::new()), Err(NoData::Document));
    assert_eq!(
        NoData::Lines.message(),
        "No input data provided in JSONL file."
    );
    assert_eq!(
        NoData::Document.message(),
        "No input data provided before empty line or EOF."
    );
}
