use es_module_lexer::{is_expression_keyword, parse, Export, Import, SourceAnalysis};

fn slice(source: &str, start: usize, end: usize) -> &str {
    &source[start..end]
}

fn static_import(import: &Import) -> es_module_lexer::StaticImport {
    match import {
        Import::Static(s) => *s,
        other => panic!("expected a static import, got {:?}", other),
    }
}

fn dynamic_import(import: &Import) -> es_module_lexer::DynamicImport {
    match import {
        Import::Dynamic(d) => *d,
        other => panic!("expected a dynamic import, got {:?}", other),
    }
}

#[test]
fn test_is_expression_keyword() {
    // debugger, delete, do, else, in, instanceof, new,
    // return, throw, typeof, void, yield ,await
    assert!(is_expression_keyword(b"debugger", 7));
    assert!(is_expression_keyword(b"delete", 5));
    assert!(is_expression_keyword(b"do", 1));
    assert!(is_expression_keyword(b"else", 3));
    assert!(is_expression_keyword(b"in", 1));
    assert!(is_expression_keyword(b"instanceof", 9));
    assert!(is_expression_keyword(b"new", 2));
    assert!(is_expression_keyword(b"return", 5));
    assert!(is_expression_keyword(b"throw", 4));
    assert!(is_expression_keyword(b"typeof", 5));
    assert!(is_expression_keyword(b"void", 3));
    assert!(is_expression_keyword(b"yield", 4));
    assert!(is_expression_keyword(b"await", 4));
}

#[test]
fn invalid_string() {
    let source = r#"import './export.js';

import d from './export.js';

import { s as p } from './reexport1.js';

import { z, q as r } from './reexport2.js';

   '

import * as q from './reexport1.js';

export { d as a, p as b, z as c, r as d, q }"#;

    let err = parse(source).err().unwrap();
    assert_eq!(err.line, 9);
    assert_eq!(err.col, 4);
}

#[test]
fn invalid_export() {
    let source = r#"export { a = };"#;
    let err = parse(source).err().expect("Should error");
    assert_eq!(err.idx, 11);
}

#[test]
fn single_parse_cases() {
    parse("export { x }").unwrap();
    parse("'asdf'").unwrap();
    parse("/asdf/").unwrap();
    parse("`asdf`").unwrap();
    parse("/**/").unwrap();
    parse("//").unwrap();
}

#[test]
fn simple_export_with_unicode_conversions() {
    let source = r#"export var p𓀀s,q"#;
    let SourceAnalysis { imports, exports, .. } = parse(source).unwrap();
    assert_eq!(imports.len(), 0);
    assert_eq!(exports.len(), 2);
    assert_eq!(exports[0].to_string(source), "p𓀀s");
    assert_eq!(exports[1].to_string(source), "q");
}

#[test]
fn bare_import_statement() {
    let source = "import './a.js';";
    let a = parse(source).unwrap();
    assert_eq!(a.imports.len(), 1);
    let s = static_import(&a.imports[0]);
    assert_eq!(slice(source, s.start, s.end), "./a.js");
    assert_eq!(s.statement_start, 0);
    assert_eq!(s.end, 14);
    assert_eq!(&source.as_bytes()[s.end..s.end + 1], b"'");
    assert_eq!(s.statement_end, 15);
    assert_eq!(slice(source, s.statement_start, s.statement_end), "import './a.js'");
    assert_eq!(a.exports.len(), 0);
}

#[test]
fn named_import_has_no_exports() {
    let source = "import { s as p } from './b.js';";
    let a = parse(source).unwrap();
    assert_eq!(a.imports.len(), 1);
    let s = static_import(&a.imports[0]);
    assert_eq!(slice(source, s.start, s.end), "./b.js");
    assert_eq!(a.exports.len(), 0);
}

#[test]
fn division_after_return_expression() {
    let a = parse("function variance(){return s/(a-1)}").unwrap();
    assert_eq!(a.imports.len(), 0);
    assert_eq!(a.exports.len(), 0);
}

#[test]
fn regex_inside_template_substitution() {
    let a = parse("`${/test/ + 5}`").unwrap();
    assert_eq!(a.imports.len(), 0);
    assert_eq!(a.exports.len(), 0);
}

#[test]
fn method_named_import_is_not_an_import() {
    let a = parse("({ import(x) {} })").unwrap();
    assert_eq!(a.imports.len(), 0);
    let source = "import(y)";
    let a = parse(source).unwrap();
    assert_eq!(a.imports.len(), 1);
    let d = dynamic_import(&a.imports[0]);
    assert_eq!(d.statement_start, 0);
    assert_eq!(slice(source, d.start, d.end), "y");
    assert_eq!(d.end, 8);
}

#[test]
fn nested_dynamic_imports_end_at_their_own_paren() {
    let source = "import(a(import(b)), c)";
    let a = parse(source).unwrap();
    assert_eq!(a.imports.len(), 2);
    let outer = dynamic_import(&a.imports[0]);
    let inner = dynamic_import(&a.imports[1]);
    assert_eq!(slice(source, outer.start, outer.end), "a(import(b)), c");
    assert_eq!(slice(source, inner.start, inner.end), "b");
}

#[test]
fn import_meta_and_method_call() {
    let source = "console.log(import.meta.url); x.import(y); a.import.meta";
    let a = parse(source).unwrap();
    assert_eq!(a.imports.len(), 1);
    match &a.imports[0] {
        Import::Meta(m) => {
            assert_eq!(slice(source, m.start, m.end), "import.meta");
            assert_eq!(m.statement_start, 12);
            assert_eq!(m.statement_end, 23);
        }
        other => panic!("expected import.meta, got {:?}", other),
    }
}

#[test]
fn export_forms() {
    let source = "export default 1;\nexport async function* f() {}\nexport function g() {}\nexport class C {}\nexport const x = 1, y = 2;\nexport let z, w;\nexport { a, b as c };\nexport * as ns from './ns.js';";
    let a = parse(source).unwrap();
    let names: Vec<&str> = a.exports.iter().map(|e| e.to_string(source)).collect();
    assert_eq!(names, vec!["default", "f", "g", "C", "x", "z", "w", "a", "c", "ns"]);
    assert_eq!(a.imports.len(), 1);
    let s = static_import(&a.imports[0]);
    assert_eq!(slice(source, s.start, s.end), "./ns.js");
    assert_eq!(slice(source, s.statement_start, s.statement_start + 6), "export");
}

#[test]
fn reexport_list() {
    let source = "export { hello as default } from \"test-dep\";";
    let a = parse(source).unwrap();
    assert_eq!(a.imports.len(), 1);
    let s = static_import(&a.imports[0]);
    assert_eq!(slice(source, s.start, s.end), "test-dep");
    assert_eq!(
        slice(source, s.statement_start, s.statement_end),
        "export { hello as default } from \"test-dep\""
    );
    assert_eq!(a.exports.len(), 1);
    assert_eq!(a.exports[0].to_string(source), "default");
}

#[test]
fn empty_export_list() {
    let a = parse("\n  export {};\n").unwrap();
    assert_eq!(a.imports.len(), 0);
    assert_eq!(a.exports.len(), 0);
}

#[test]
fn division_and_regex_contexts() {
    let source = r#"
      /as)df/; x();
      a / 2; '  /  '
      while (true)
        /test'/
      x-/a'/g
      finally{}/a'/g
      (){}/d'export { b }/g
      ;{}/e'/g;
      {}/f'/g
      a / 'b' / c;
      /a'/ - /b'/;
      +{} /g -'/g'
      ('a')/h -'/g'
      if //x
      ('a')/i'/g;
      /asdf/ / /as'df/; // '
      `${/test/ + 5}`;
      function () {
        return /*asdf8*// 5/;
      }
      export { a };
    "#;
    let a = parse(source).unwrap();
    assert_eq!(a.imports.len(), 0);
    assert_eq!(a.exports.len(), 1);
    assert_eq!(a.exports[0].to_string(source), "a");
}

#[test]
fn comments_around_statements() {
    let source = "/*\n  VERSION\n*/import util from 'util';\n//\nfunction x() {\n}\n/**/\n// '\n/* / */\n/*\n * export { b }\n\\*/export { a }\nfunction () {\n  /***/\n}\n";
    let a = parse(source).unwrap();
    assert_eq!(a.imports.len(), 1);
    let s = static_import(&a.imports[0]);
    assert_eq!(slice(source, s.start, s.end), "util");
    assert_eq!(slice(source, s.statement_start, s.statement_end), "import util from 'util'");
    assert_eq!(a.exports.len(), 1);
    assert_eq!(a.exports[0].to_string(source), "a");
}

#[test]
fn minified_imports() {
    let source = r#"import{TemplateResult as t}from"lit-html";import{a as e}from"./chunk-4be41b30.js";export{j as SVGTemplateResult,i as TemplateResult,g as html,h as svg}from"./chunk-4be41b30.js";"#;
    let a = parse(source).unwrap();
    assert_eq!(a.imports.len(), 3);
    let s0 = static_import(&a.imports[0]);
    assert_eq!((s0.start, s0.end, s0.statement_start, s0.statement_end), (32, 40, 0, 41));
    let s1 = static_import(&a.imports[1]);
    assert_eq!((s1.start, s1.end, s1.statement_start, s1.statement_end), (61, 80, 42, 81));
    let s2 = static_import(&a.imports[2]);
    assert_eq!((s2.start, s2.end, s2.statement_start, s2.statement_end), (156, 175, 82, 176));
    let names: Vec<&str> = a.exports.iter().map(|e| e.to_string(source)).collect();
    assert_eq!(names, vec!["SVGTemplateResult", "TemplateResult", "html", "svg"]);
}

#[test]
fn prefix_comment_shifts_every_offset() {
    let body = "import x from './x.js'; export const y = import('./z.js'); import.meta;";
    let prefix = "/* some header */";
    let source = format!("{}{}", prefix, body);
    let k = prefix.len();
    let a = parse(body).unwrap();
    let b = parse(&source).unwrap();
    assert_eq!(a.imports.len(), b.imports.len());
    assert_eq!(a.exports.len(), b.exports.len());
    for (x, y) in a.imports.iter().zip(b.imports.iter()) {
        match (x, y) {
            (Import::Static(x), Import::Static(y)) => {
                assert_eq!(
                    (x.statement_start + k, x.start + k, x.end + k, x.statement_end + k),
                    (y.statement_start, y.start, y.end, y.statement_end)
                );
            }
            (Import::Dynamic(x), Import::Dynamic(y)) => {
                assert_eq!(
                    (x.statement_start + k, x.start + k, x.end + k),
                    (y.statement_start, y.start, y.end)
                );
            }
            (Import::Meta(x), Import::Meta(y)) => {
                assert_eq!((x.start + k, x.end + k), (y.start, y.end));
            }
            _ => panic!("record kinds differ"),
        }
    }
    for (x, y) in a.exports.iter().zip(b.exports.iter()) {
        assert_eq!(
            Export { start: x.start + k, end: x.end + k },
            Export { start: y.start, end: y.end }
        );
    }
}

#[test]
fn records_are_in_order_and_in_bounds() {
    let source = "import a from 'a'; import('b'); export { c }; import.meta; export var d;";
    let an = parse(source).unwrap();
    let starts: Vec<usize> = an
        .imports
        .iter()
        .map(|i| match i {
            Import::Static(s) => s.statement_start,
            Import::Dynamic(d) => d.statement_start,
            Import::Meta(m) => m.statement_start,
        })
        .collect();
    let mut sorted = starts.clone();
    sorted.sort();
    assert_eq!(starts, sorted);
    assert_eq!(an.imports.len(), 3);
    for e in &an.exports {
        assert!(e.start < e.end && e.end <= source.len());
    }
}

#[test]
fn unbalanced_brackets_fail() {
    assert_eq!(parse("a)").err().unwrap().idx, 1);
    assert_eq!(parse("}").err().unwrap().idx, 0);
    assert!(parse("(a").is_err());
    assert!(parse("`abc").is_err());
    assert!(parse("/* x").is_err());
    assert!(parse("x = /abc").is_err());
    assert!(parse("import x from").is_err());
}

#[test]
fn empty_and_plain_sources() {
    let a = parse("").unwrap();
    assert_eq!((a.imports.len(), a.exports.len()), (0, 0));
    let a = parse("x").unwrap();
    assert_eq!((a.imports.len(), a.exports.len()), (0, 0));
}

#[test]
fn slash_after_regex_opens_a_regex() {
    assert!(parse("/a/ /b/ 1").is_ok());
    assert!(parse("/a/ /'/ 1").is_ok());
}

#[test]
fn last_token_skips_whitespace_after_export() {
    // the `/` follows the name `a`, not the line break, so it is a division
    let a = parse("export var a\n/'/.test(x)");
    assert!(a.is_err());
    // after `,` the `/` opens a regular expression
    let a = parse("export var a,\n/'/.test(x)").unwrap();
    assert_eq!(a.exports.len(), 1);
    let b = parse("import.\nfoo / 2").unwrap();
    assert_eq!(b.imports.len(), 0);
}

#[test]
fn brace_cannot_close_dynamic_import() {
    let err = parse("import(a}").err().unwrap();
    assert_eq!(err.idx, 8);
    assert!(parse("import d").is_err());
}

#[test]
fn dynamic_import_ends_at_its_paren() {
    let source = "x = import('./m.js').then(f)";
    let a = parse(source).unwrap();
    let d = dynamic_import(&a.imports[0]);
    assert_eq!(&source[d.end..d.end + 1], ")");
    assert_eq!(slice(source, d.start, d.end), "'./m.js'");
}
