//! A single-pass lexical scanner that locates the `import` and `export`
//! forms of ECMAScript module source text and reports them as byte ranges.

pub mod chars;
pub mod error;
pub mod records;
pub mod lexer;
pub mod model;
pub mod shift;
pub mod history;
pub mod significant;

pub use chars::{
    is_br_or_ws, is_br_or_ws_or_punctuator_not_dot, is_expression_keyword,
    is_expression_punctuator, is_expression_terminator, is_paren_keyword, is_punctuator,
    keyword_start, read_preceding_keyword,
};
pub use error::{pretty_error, ParseError};
pub use lexer::{parse, starts_regex, OpenBracket, ParseState};
pub use records::{
    DynamicImport, Export, Import, MetaImport, Range, SourceAnalysis, StaticImport,
};
