use es_module_lexer::ParseError;

#[test]
fn error_basic() {
    let source = r#"
			import './export.js';
			import { s as p } from './reexport1.js';
			//     ^ assume error here (3:20)
			import d from './export.js';
		"#;

    let err_idx = source.find('{').unwrap();
    let err = ParseError::from_source_and_index(source, err_idx);
    assert_eq!(err.line, 3);
    assert_eq!(err.col, 11);
}

#[test]
fn error_empty_source() {
    let source = "";
    let err = ParseError::from_source_and_index(source, 42);
    assert_eq!(err.line, 0);
    assert_eq!(err.col, 0);
}

#[test]
fn parse_error_basic() {
    let source = r#"
			import './export.js';
			import { s as p } from './reexport1.js';
			//     ^
			//     assume error here (3:20)
			import d from './export.js';
		"#;

    let err_idx = source.find('{').unwrap();
    let err = ParseError::from_source_and_index(source, err_idx);
    assert_eq!(err.line, 3);
    assert_eq!(err.col, 11);
}

#[test]
fn parse_error_empty_source() {
    let source = "";
    let err = ParseError::from_source_and_index(source, 42);
    assert_eq!(err.line, 0);
    assert_eq!(err.col, 0);
}

#[test]
fn error_with_message_keeps_it() {
    let err = ParseError::from_source_index_and_msg("ab\ncd", 4, "bad token");
    assert_eq!(err.idx, 4);
    assert_eq!(err.line, 2);
    assert_eq!(err.col, 2);
    assert_eq!(err.msg, Some("bad token"));
}

#[test]
fn error_on_line_feed_reports_the_line_it_ends() {
    // the line feed ends line 1, whose carriage return is not counted
    let err = ParseError::from_source_and_index("abc\r\ndef", 4);
    assert_eq!(err.line, 1);
    assert_eq!(err.col, 3);
    let err = ParseError::from_source_and_index("abc\r\ndef", 3);
    assert_eq!(err.line, 1);
    assert_eq!(err.col, 4);
}

#[test]
fn error_at_last_byte_and_past_end() {
    let err = ParseError::from_source_and_index("x\ny", 2);
    assert_eq!((err.line, err.col), (2, 1));
    let err = ParseError::from_source_and_index("x\ny", 3);
    assert_eq!((err.line, err.col), (0, 0));
}
