use es_module_lexer::{
    is_br_or_ws, is_br_or_ws_or_punctuator_not_dot, is_expression_punctuator,
    is_expression_terminator, is_paren_keyword, is_punctuator, keyword_start, parse,
    pretty_error, read_preceding_keyword, starts_regex, DynamicImport, Export, MetaImport,
    OpenBracket, ParseError, Range, StaticImport,
};

#[test]
fn pretty_error_renders_the_line_and_caret() {
    let source = "a\nb 'x\nc";
    let err = parse(source).err().unwrap();
    assert_eq!((err.idx, err.line, err.col), (6, 2, 4));
    assert_eq!(
        pretty_error(source, &err),
        "ParseError: at 2:4\n  |\n2 |b 'x\n  |   ^ unexpected token\n"
    );
}

#[test]
fn pretty_error_with_message_and_wide_gutter() {
    let source = "1\n2\n3\n4\n5\n6\n7\n8\n9\n10\r\n11";
    let err = ParseError::from_source_index_and_msg(source, 19, "stop");
    assert_eq!((err.line, err.col), (10, 2));
    assert_eq!(
        pretty_error(source, &err),
        "ParseError: at 10:2\n   |\n10 |10\n   | ^ stop\n"
    );
}

#[test]
fn error_text() {
    let err = ParseError::from_source_and_index("ab\ncd", 4);
    assert_eq!(err.to_string(), "ParseError at 2:2");
}

#[test]
fn create_from_bytes() {
    let err = ParseError::create(b"x\n\ny", 2, None);
    assert_eq!((err.idx, err.line, err.col, err.msg), (2, 2, 0, None));
}

#[test]
fn byte_classes() {
    for c in [9u8, 10, 11, 12, 13, 32, 160] {
        assert!(is_br_or_ws(c));
    }
    assert!(!is_br_or_ws(b'a'));
    assert!(!is_br_or_ws(8));
    for c in b"!%&()*+,-./:;<=>?[]^{}|~".iter() {
        assert!(is_punctuator(*c), "{}", *c as char);
    }
    for c in b"$_#@'\"`\\a0".iter() {
        assert!(!is_punctuator(*c), "{}", *c as char);
    }
    for c in b"!%&(*+,-./:;<=>?[^{|~".iter() {
        assert!(is_expression_punctuator(*c), "{}", *c as char);
    }
    for c in b")]}a".iter() {
        assert!(!is_expression_punctuator(*c), "{}", *c as char);
    }
    assert!(is_br_or_ws_or_punctuator_not_dot(b';'));
    assert!(!is_br_or_ws_or_punctuator_not_dot(b'.'));
}

#[test]
fn keyword_boundaries() {
    assert!(keyword_start(b"import", 0));
    assert!(keyword_start(b"; import", 2));
    assert!(!keyword_start(b"a.import", 2));
    assert!(!keyword_start(b"ximport", 1));
    assert!(read_preceding_keyword(b"x = typeof", 9, b"typeof"));
    assert!(!read_preceding_keyword(b"x = xtypeof", 10, b"typeof"));
    assert!(!read_preceding_keyword(b"of", 1, b"typeof"));
    assert!(is_paren_keyword(b"while", 4));
    assert!(is_paren_keyword(b"} for", 4));
    assert!(is_paren_keyword(b"if", 1));
    assert!(!is_paren_keyword(b"elif", 3));
    assert!(is_expression_terminator(b"a;", 1));
    assert!(is_expression_terminator(b"=>", 1));
    assert!(is_expression_terminator(b"finally", 6));
    assert!(is_expression_terminator(b"catch", 4));
    assert!(is_expression_terminator(b"else", 3));
    assert!(!is_expression_terminator(b">", 0));
    assert!(!is_expression_terminator(b"x", 0));
}

#[test]
fn regex_or_division() {
    let none = OpenBracket { token: None, is_class: false, dynamic: None };
    // start of input
    assert!(starts_regex(b"/", None, none, false));
    // after an expression punctuator
    assert!(starts_regex(b"x = /", Some(2), none, false));
    // after a value
    assert!(!starts_regex(b"x /", Some(0), none, false));
    // numeric literal `1.`, postfix `++` and `--`
    assert!(!starts_regex(b"1. /", Some(1), none, false));
    assert!(!starts_regex(b"a++ /", Some(2), none, false));
    assert!(!starts_regex(b"a-- /", Some(2), none, false));
    // `)` of `if (...)`, and of a call
    let after_if = OpenBracket { token: Some(1), is_class: false, dynamic: None };
    assert!(starts_regex(b"if(a) /", Some(4), after_if, false));
    let after_call = OpenBracket { token: Some(0), is_class: false, dynamic: None };
    assert!(!starts_regex(b"f(a) /", Some(3), after_call, false));
    // `}` of a block after `)`, of a class body, and of an object
    let block = OpenBracket { token: Some(2), is_class: false, dynamic: None };
    assert!(starts_regex(b"f()" , Some(2), block, false) == false);
    assert!(starts_regex(b"f(){} /", Some(4), block, false));
    let class_body = OpenBracket { token: Some(6), is_class: true, dynamic: None };
    assert!(starts_regex(b"class A{} /", Some(8), class_body, false));
    let object = OpenBracket { token: Some(2), is_class: false, dynamic: None };
    assert!(!starts_regex(b"x ={} /", Some(4), object, false));
    // after an expression keyword
    assert!(starts_regex(b"return /", Some(5), none, false));
    assert!(!starts_regex(b"returns /", Some(6), none, false));
    // a `/` after a division
    assert!(starts_regex(b"a / /", Some(2), none, true));
    // a `/` right after a `/`, such as the end of a regular expression
    assert!(starts_regex(b"/a/ /", Some(2), none, false));
}

#[test]
fn ranges_of_records() {
    let s = StaticImport { statement_start: 0, start: 8, end: 14, statement_end: 15 };
    assert_eq!(s.module_specifier_range(), Range { start: 8, end: 14 });
    assert_eq!(s.statement_range(), Range { start: 0, end: 15 });
    let d = DynamicImport { statement_start: 3, start: 10, end: 12 };
    assert_eq!(d.module_specifier_expression_range(), Range { start: 10, end: 12 });
    assert_eq!(d.import_expression_range(), Range { start: 3, end: 13 });
    let m = MetaImport { statement_start: 4, start: 4, end: 15, statement_end: 15 };
    assert_eq!(m.expression_range(), Range { start: 4, end: 15 });
    let e = Export { start: 7, end: 9 };
    assert_eq!(e.export_specifier_range(), Range { start: 7, end: 9 });
    assert_eq!(e.to_string("export ab"), "ab");
}
