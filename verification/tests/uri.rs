use graph::uri::{file_uri, MAX_URI_LENGTH};

#[test]
fn a_path_becomes_a_file_uri() {
    let uri = file_uri("/work/project/src/lib.rs").unwrap();
    assert_eq!(uri.as_str(), "file:///work/project/src/lib.rs");
    assert_eq!(uri.scheme().map(|s| s.as_str()), Some("file"));
    assert_eq!(uri.path().as_str(), "/work/project/src/lib.rs");
}

#[test]
fn an_empty_path_gives_the_bare_scheme() {
    let uri = file_uri("").unwrap();
    assert_eq!(uri.as_str(), "file://");
}

#[test]
fn a_path_that_breaks_the_syntax_is_refused() {
    for path in ["/with space", "/percent%zz", "/caret^", "/umlaut\u{e4}"] {
        match file_uri(path) {
            Err(error) => assert!(!error.message.is_empty(), "{path:?}"),
            Ok(uri) => panic!("{path:?} gave {uri:?}"),
        }
    }
}

#[test]
fn the_parser_takes_texts_up_to_i32_max_bytes() {
    assert_eq!(MAX_URI_LENGTH, i32::MAX as usize);
    assert_eq!(MAX_URI_LENGTH, 2147483647);
}
