//! The records that a scan emits, and what makes them well formed with
//! respect to the source they were read from.

use crate::chars::{spec_br_or_ws, spec_punctuator};
use vstd::prelude::*;
use vstd::string::StringSliceAdditionalSpecFns;

verus! {

/// A call-like `import(expr)`: `start..end` is the expression between the
/// parentheses, `end` being the position of the closing `)`.
#[derive(Debug, Clone, Copy, PartialEq, Eq)]
pub struct DynamicImport {
    pub statement_start: usize,
    pub start: usize,
    pub end: usize,
}

/// An `import ... 'specifier'` statement or an `export ... from 'specifier'`
/// re-export: `start..end` is the specifier without its quotes and
/// `statement_end` is the position just after the closing quote.
#[derive(Debug, Clone, Copy, PartialEq, Eq)]
pub struct StaticImport {
    pub statement_start: usize,
    pub start: usize,
    pub end: usize,
    pub statement_end: usize,
}

/// An `import.meta` expression, from the `import` keyword to just after `meta`.
#[derive(Debug, Clone, Copy, PartialEq, Eq)]
pub struct MetaImport {
    pub statement_start: usize,
    pub start: usize,
    pub end: usize,
    pub statement_end: usize,
}

#[derive(Debug, Clone, Copy, PartialEq, Eq)]
pub enum Import {
    Dynamic(DynamicImport),
    Static(StaticImport),
    Meta(MetaImport),
}

/// One exported name: `start..end` is its bytes in the source.
#[derive(Debug, Clone, Copy, PartialEq, Eq)]
pub struct Export {
    pub start: usize,
    pub end: usize,
}

/// Everything a successful scan found, in the order it was met.
#[derive(Debug)]
pub struct SourceAnalysis {
    pub imports: Vec<Import>,
    pub exports: Vec<Export>,
}

/// A half-open range of byte positions.
#[derive(Debug, Clone, Copy, PartialEq, Eq)]
pub struct Range {
    pub start: usize,
    pub end: usize,
}

/// A byte that may stand in a name: neither whitespace nor a punctuator.
pub open spec fn name_byte(c: u8) -> bool {
    !spec_br_or_ws(c) && !spec_punctuator(c)
}

/// A byte that a quoted string may hold as is: not its quote, not a
/// backslash, not a line break.
pub open spec fn plain_string_byte(c: u8, q: u8) -> bool {
    c != q && c != 92 && c != 10 && c != 13
}

/// `s[a..k]` is the body of a string quoted by `q`: it holds no bare `q` and
/// no bare line break, and every backslash escapes the byte after it.
#[verifier::opaque]
pub open spec fn string_body(s: Seq<u8>, a: int, k: int, q: u8) -> bool
    decreases k - a,
{
    if k == a {
        true
    } else if k < a {
        false
    } else {
        ||| (string_body(s, a, k - 1, q) && plain_string_byte(s[k - 1], q))
        ||| (k >= a + 2 && string_body(s, a, k - 2, q) && s[k - 2] == 92)
    }
}

/// `s[i..]` starts with `w`.
pub open spec fn word_at(s: Seq<u8>, i: int, w: Seq<u8>) -> bool {
    0 <= i && i + w.len() <= s.len() && s.subrange(i, i + w.len()) == w
}

pub open spec fn import_word() -> Seq<u8> {
    seq![105u8, 109u8, 112u8, 111u8, 114u8, 116u8]
}

pub open spec fn export_word() -> Seq<u8> {
    seq![101u8, 120u8, 112u8, 111u8, 114u8, 116u8]
}

pub open spec fn meta_word() -> Seq<u8> {
    seq![109u8, 101u8, 116u8, 97u8]
}

pub open spec fn is_quote(c: u8) -> bool {
    c == 39 || c == 34
}

pub open spec fn statement_start_of(imp: Import) -> usize {
    match imp {
        Import::Dynamic(x) => x.statement_start,
        Import::Static(x) => x.statement_start,
        Import::Meta(x) => x.statement_start,
    }
}

/// A dynamic import whose closing `)` has not been met yet: until then its
/// end is the position of its `(`, before its start.
pub open spec fn pending(imp: Import) -> bool {
    match imp {
        Import::Dynamic(x) => x.end < x.start,
        _ => false,
    }
}

/// `imp` lies in `s[..p]`, with the shape its kind demands: a static import
/// starts at an `import` or `export` keyword and its specifier is a quoted
/// string; a dynamic import starts at an `import` keyword and its expression
/// just after a `(`, and ends at its `)`; `import.meta` starts at `import` and ends with `meta`. A
/// dynamic import may still wait for its `)`.
pub open spec fn import_within(s: Seq<u8>, imp: Import, p: int) -> bool {
    match imp {
        Import::Static(x) => {
            &&& (word_at(s, x.statement_start as int, import_word()) || word_at(
                s,
                x.statement_start as int,
                export_word(),
            ))
            &&& x.statement_start < x.start <= x.end
            &&& x.statement_end == x.end + 1
            &&& x.statement_end <= p <= s.len()
            &&& is_quote(s[x.start - 1])
            &&& s[x.end as int] == s[x.start - 1]
            &&& string_body(s, x.start as int, x.end as int, s[x.end as int])
        },
        Import::Dynamic(x) => {
            &&& word_at(s, x.statement_start as int, import_word())
            &&& s[x.start - 1] == 40
            &&& x.statement_start < x.start <= p <= s.len()
            &&& (x.end < x.start || (x.end < p && s[x.end as int] == 41))
        },
        Import::Meta(x) => {
            &&& word_at(s, x.start as int, import_word())
            &&& word_at(s, x.end - 4, meta_word())
            &&& x.statement_start == x.start
            &&& x.start < x.end
            &&& x.end == x.statement_end
            &&& x.statement_end <= p <= s.len()
        },
    }
}

/// `e` is a non-empty name of `s`.
pub open spec fn export_within(s: Seq<u8>, e: Export) -> bool {
    &&& e.start < e.end <= s.len()
    &&& forall|k: int| e.start <= k < e.end ==> name_byte(#[trigger] s[k])
}

/// The records of a scan of `s`: each lies within `s` with its start before
/// its end, no dynamic import waits for its `)`, each specifier holds no bare
/// quote of its kind, each export is a non-empty name, and both lists are in
/// the order of their starts.
pub open spec fn valid_analysis(s: Seq<u8>, imports: Seq<Import>, exports: Seq<Export>) -> bool {
    &&& forall|k: int|
        0 <= k < imports.len() ==> import_within(s, #[trigger] imports[k], s.len() as int)
    &&& forall|k: int| 0 <= k < imports.len() ==> !pending(#[trigger] imports[k])
    &&& forall|k: int|
        0 < k < imports.len() ==> statement_start_of(imports[k - 1]) < statement_start_of(
            #[trigger] imports[k],
        )
    &&& forall|k: int| 0 <= k < exports.len() ==> export_within(s, #[trigger] exports[k])
    &&& forall|k: int| 0 < k < exports.len() ==> exports[k - 1].end <= (#[trigger] exports[k]).start
}

impl StaticImport {
    /// The specifier, without its quotes.
    pub fn module_specifier_range(&self) -> (r: Range)
        ensures
            r == (Range { start: self.start, end: self.end }),
    {
        Range { start: self.start, end: self.end }
    }

    /// The whole statement, up to and with the closing quote.
    pub fn statement_range(&self) -> (r: Range)
        ensures
            r == (Range { start: self.statement_start, end: self.statement_end }),
    {
        Range { start: self.statement_start, end: self.statement_end }
    }
}

impl DynamicImport {
    /// The expression between the parentheses.
    pub fn module_specifier_expression_range(&self) -> (r: Range)
        ensures
            r == (Range { start: self.start, end: self.end }),
    {
        Range { start: self.start, end: self.end }
    }

    /// The whole `import(...)` expression, up to and with the closing `)`.
    pub fn import_expression_range(&self) -> (r: Range)
        requires
            self.end < usize::MAX,
        ensures
            r == (Range { start: self.statement_start, end: (self.end + 1) as usize }),
    {
        Range { start: self.statement_start, end: self.end + 1 }
    }
}

impl MetaImport {
    /// The `import.meta` expression.
    pub fn expression_range(&self) -> (r: Range)
        ensures
            r == (Range { start: self.start, end: self.end }),
    {
        Range { start: self.start, end: self.end }
    }
}

impl Export {
    /// The exported name.
    pub fn export_specifier_range(&self) -> (r: Range)
        ensures
            r == (Range { start: self.start, end: self.end }),
    {
        Range { start: self.start, end: self.end }
    }

    /// The exported name, as text of `source`.
    pub fn to_string<'a>(&self, source: &'a str) -> (r: &'a str)
        requires
            self.start <= self.end <= source.spec_bytes().len(),
            vstd::utf8::is_char_boundary(source.spec_bytes(), self.start as int),
            vstd::utf8::is_char_boundary(source.spec_bytes(), self.end as int),
        ensures
            r.spec_bytes() == source.spec_bytes().subrange(self.start as int, self.end as int),
    {
        let (head, _) = source.split_at(self.end);
        proof {
            let b = source.spec_bytes();
            vstd::utf8::encode_utf8_valid_utf8(source@);
            vstd::utf8::encode_utf8_valid_utf8(head@);
            let h = head.spec_bytes();
            if self.start < self.end {
                vstd::utf8::is_char_boundary_iff_not_is_continuation_byte(b, self.start as int);
                vstd::utf8::is_char_boundary_iff_not_is_continuation_byte(h, self.start as int);
                assert(h[self.start as int] == b[self.start as int]);
            } else {
                vstd::utf8::is_char_boundary_start_end_of_seq(h);
            }
        }
        let (_, name) = head.split_at(self.start);
        proof {
            assert(source.spec_bytes().subrange(0, self.end as int).subrange(
                self.start as int,
                self.end as int,
            ) =~= source.spec_bytes().subrange(self.start as int, self.end as int));
        }
        name
    }
}

} // verus!
