//! The scanner: a byte-driven state machine that tracks strings, templates,
//! regular expressions, comments and bracket depth, and emits the import and
//! export records it meets.

use crate::chars::{
    byte, byte_at, is_br_or_ws, is_br_or_ws_or_punctuator_not_dot, is_expression_keyword,
    is_expression_punctuator, is_expression_terminator, is_paren_keyword, is_punctuator,
    keyword_start, spec_br_or_ws, spec_expression_keyword, spec_expression_punctuator,
    spec_expression_terminator, spec_paren_keyword,
};
use crate::error::{error_col, error_line, ParseError};
use crate::records::{
    export_within, export_word, import_within, import_word, is_quote, name_byte, pending,
    statement_start_of, string_body, valid_analysis, word_at, DynamicImport, Export, Import,
    MetaImport, SourceAnalysis, StaticImport,
};
use crate::model::{
    as_at, at, block_end, class_at, ended, first_quote, initial, line_end, m_close_brace,
    m_export_name_or,
    m_close_paren, m_dispatch, m_export, m_export_class, m_export_declaration, m_export_default,
    m_export_function, m_export_list, m_export_name, m_export_star, m_import, m_import_meta,
    m_import_string, m_open_brace, m_open_dynamic, m_open_paren, m_pop, m_reexport, m_run,
    m_slash, m_template, name_end, regex_end, scan, skip_ws, string_end, template_end, Model,
};
use vstd::prelude::*;
use vstd::string::StringSliceAdditionalSpecFns;

verus! {

/// What the scanner remembers of an open `(`, `{` or `${`.
#[derive(Debug, Clone, Copy)]
pub struct OpenBracket {
    /// The last significant byte before the bracket.
    pub token: Option<usize>,
    /// The bracket is the `{` of a class body.
    pub is_class: bool,
    /// The bracket is the `(` of the dynamic import at this index of the
    /// import list.
    pub dynamic: Option<usize>,
}

/// The state of one scan. `i` is the position of the next byte to read.
#[derive(Debug)]
pub struct ParseState<'a> {
    src: &'a [u8],
    i: usize,
    last_token: Option<usize>,
    open_stack: Vec<OpenBracket>,
    last_closed: OpenBracket,
    next_brace_is_class: bool,
    template_depth: Option<usize>,
    template_stack: Vec<Option<usize>>,
    last_dynamic_import: Option<usize>,
    last_slash_was_division: bool,
    imports: Vec<Import>,
    exports: Vec<Export>,
}


/// The imports lie before `p`, well formed and in order.
#[verifier::opaque]
pub open spec fn imports_before(s: Seq<u8>, imports: Seq<Import>, p: int) -> bool {
    &&& forall|k: int| 0 <= k < imports.len() ==> import_within(s, #[trigger] imports[k], p)
    &&& forall|k: int|
        0 < k < imports.len() ==> statement_start_of(imports[k - 1]) < statement_start_of(
            #[trigger] imports[k],
        )
}

/// The exports are names that lie before `p`, in order.
#[verifier::opaque]
pub open spec fn exports_before(s: Seq<u8>, exports: Seq<Export>, p: int) -> bool {
    &&& forall|k: int|
        0 <= k < exports.len() ==> {
            let e = #[trigger] exports[k];
            &&& e.start < e.end <= p
            &&& forall|j: int| e.start <= j < e.end ==> name_byte(#[trigger] s[j])
        }
    &&& forall|k: int| 0 < k < exports.len() ==> exports[k - 1].end <= (#[trigger] exports[k]).start
}

/// A byte that opens or closes a bracket, a string, a template, a comment or
/// a regular expression, or that may lead a re-export: one of
/// `( ) { } ' " ` / *`.
pub open spec fn special_byte(c: u8) -> bool {
    c == 40 || c == 41 || c == 123 || c == 125 || c == 39 || c == 34 || c == 96 || c == 47 || c
        == 42
}

/// Text with no special byte and no `import`: a scan of it cannot fail and
/// finds no import.
pub open spec fn quiet(s: Seq<u8>) -> bool {
    &&& forall|j: int| 0 <= j < s.len() ==> !special_byte(#[trigger] s[j])
    &&& forall|j: int| 0 <= j < s.len() ==> !#[trigger] import_at(s, j)
}

/// The word `import` stands at `j`.
pub open spec fn import_at(s: Seq<u8>, j: int) -> bool {
    word_at(s, j, import_word())
}

/// The outcome `r` and the state `after` are what the model expected.
pub open spec fn follows<T>(r: Result<T, ParseError>, after: Model, expected: Result<Model, int>) -> bool {
    match expected {
        Ok(m) => r is Ok && after == m,
        Err(x) => r matches Err(e) && e.idx as int == x,
    }
}

/// As `follows`, for a step that also says whether it was significant.
pub open spec fn follows_flag(
    r: Result<bool, ParseError>,
    after: Model,
    expected: Result<(Model, bool), int>,
) -> bool {
    match expected {
        Ok((m, significant)) => r == Ok::<bool, ParseError>(significant) && after == m,
        Err(x) => r matches Err(e) && e.idx as int == x,
    }
}

/// The state `m` moved to the position that `r` gives.
pub open spec fn moved_to(m: Model, r: Result<int, int>) -> Result<Model, int> {
    match r {
        Ok(k) => Ok(at(m, k)),
        Err(x) => Err(x),
    }
}

/// `e` was reported at a position of `s`, with its line and column.
pub open spec fn reported(s: Seq<u8>, e: ParseError) -> bool {
    &&& e.idx <= s.len()
    &&& e.line == error_line(s, e.idx as int)
    &&& e.col == error_col(s, e.idx as int)
    &&& e.msg is None
}

/// Each dynamic import that waits for its `)` is remembered by an open bracket.
#[verifier::opaque]
pub open spec fn pending_tracked(imports: Seq<Import>, stack: Seq<OpenBracket>) -> bool {
    forall|k: int|
        0 <= k < imports.len() && pending(#[trigger] imports[k]) ==> exists|d: int|
            0 <= d < stack.len() && #[trigger] stack[d].dynamic == Some(k as usize)
}

/// A `/` read after the significant byte at `last_token` (none at the start
/// of the input) opens a regular expression. `closed` is the bracket that the
/// most recent `)` or `}` closed, and `last_slash_was_division` says how the
/// previous `/` was read.
pub open spec fn slash_is_regex(
    s: Seq<u8>,
    last_token: Option<usize>,
    closed: OpenBracket,
    last_slash_was_division: bool,
) -> bool {
    match last_token {
        None => true,
        Some(t) => {
            let c = byte(s, t as int);
            let before = byte(s, t - 1);
            ||| (spec_expression_punctuator(c) && !(c == 46 && 48 <= before <= 57) && !(c == 43
                && before == 43) && !(c == 45 && before == 45))
            ||| (c == 41 && match closed.token {
                Some(o) => spec_paren_keyword(s, o as int),
                None => false,
            })
            ||| (c == 125 && (closed.is_class || match closed.token {
                Some(o) => spec_expression_terminator(s, o as int),
                None => false,
            }))
            ||| spec_expression_keyword(s, t as int)
            ||| (c == 47 && last_slash_was_division)
        },
    }
}

/// Decides whether a `/` opens a regular expression or is a division, from
/// the last significant byte before it, the bracket closed last and how the
/// previous `/` was read.
pub fn starts_regex(
    src: &[u8],
    last_token: Option<usize>,
    closed: OpenBracket,
    last_slash_was_division: bool,
) -> (r: bool)
    ensures
        r == slash_is_regex(src@, last_token, closed, last_slash_was_division),
{
    match last_token {
        None => true,
        Some(t) => {
            let c = byte_at(src, t);
            let before = if t > 0 {
                byte_at(src, t - 1)
            } else {
                0
            };
            if is_expression_punctuator(c) && !(c == 46 && 48 <= before && before <= 57) && !(c
                == 43 && before == 43) && !(c == 45 && before == 45) {
                return true;
            }
            if c == 41 {
                if let Some(o) = closed.token {
                    if is_paren_keyword(src, o) {
                        return true;
                    }
                }
            }
            if c == 125 {
                if closed.is_class {
                    return true;
                }
                if let Some(o) = closed.token {
                    if is_expression_terminator(src, o) {
                        return true;
                    }
                }
            }
            is_expression_keyword(src, t) || (c == 47 && last_slash_was_division)
        },
    }
}

/// Whether the bytes of `kw` stand in `src` from position `i` on.
fn matches_at(src: &[u8], i: usize, kw: &[u8]) -> (r: bool)
    ensures
        r == word_at(src@, i as int, kw@),
{
    if i > src.len() || kw.len() > src.len() - i {
        return false;
    }
    let mut k: usize = 0;
    while k < kw.len()
        invariant
            i + kw@.len() <= src@.len(),
            src@.len() <= usize::MAX,
            k <= kw@.len(),
            forall|j: int| 0 <= j < k ==> src@[i + j] == kw@[j],
        decreases kw.len() - k,
    {
        if src[i + k] != kw[k] {
            assert(src@.subrange(i as int, i + kw@.len())[k as int] != kw@[k as int]);
            return false;
        }
        k = k + 1;
    }
    assert(src@.subrange(i as int, i + kw@.len()) =~= kw@);
    true
}

impl<'a> ParseState<'a> {
    /// The invariant of the scan: what has been emitted lies before `i`, in
    /// order and well formed, and each dynamic import that waits for its `)`
    /// has an open bracket that remembers it.
    spec fn wf(&self) -> bool {
        self.wf_at(self.i as int)
    }

    /// The invariant of the scan, with everything emitted lying before `p`.
    spec fn wf_at(&self, p: int) -> bool {
        &&& p <= self.src@.len() <= usize::MAX
        &&& imports_before(self.src@, self.imports@, p)
        &&& pending_tracked(self.imports@, self.open_stack@)
        &&& exports_before(self.src@, self.exports@, p)
    }

    /// The state as the model sees it.
    spec fn model(&self) -> Model {
        Model {
            i: self.i as int,
            last_token: self.last_token,
            stack: self.open_stack@,
            last_closed: self.last_closed,
            next_brace_is_class: self.next_brace_is_class,
            template_depth: self.template_depth,
            template_stack: self.template_stack@,
            last_dynamic_import: self.last_dynamic_import,
            last_slash_was_division: self.last_slash_was_division,
            imports: self.imports@,
            exports: self.exports@,
        }
    }

    /// The imports and the bracket and template nesting are as they were.
    spec fn frame_kept(&self, other: &ParseState<'a>) -> bool {
        &&& other.imports == self.imports
        &&& other.open_stack == self.open_stack
        &&& other.template_depth == self.template_depth
    }

    /// Only the position moved.
    spec fn moved_only(&self, other: &ParseState<'a>) -> bool {
        &&& other.src == self.src
        &&& other.last_token == self.last_token
        &&& other.open_stack == self.open_stack
        &&& other.last_closed == self.last_closed
        &&& other.next_brace_is_class == self.next_brace_is_class
        &&& other.template_depth == self.template_depth
        &&& other.template_stack == self.template_stack
        &&& other.last_dynamic_import == self.last_dynamic_import
        &&& other.last_slash_was_division == self.last_slash_was_division
        &&& other.imports == self.imports
        &&& other.exports == self.exports
    }

    fn error(&self, idx: usize) -> (r: ParseError)
        requires
            idx <= self.src@.len(),
        ensures
            reported(self.src@, r),
            r.idx == idx,
    {
        ParseError::create(self.src, idx, None)
    }

    /// Reads a string quoted by the byte at `i`; on success `i` is just past
    /// the closing quote.
    fn quoted_string(&mut self) -> (r: Result<(), ParseError>)
        requires
            is_quote(old(self).src@[old(self).i as int]),
            old(self).i < old(self).src@.len(),
        ensures
            follows(r, final(self).model(), moved_to(old(self).model(), string_end(old(self).src@, old(self).i + 1, old(self).src@[old(self).i as int]))),
            r is Err ==> !quiet(old(self).src@),
            r matches Err(e) ==> reported(old(self).src@, e),
            final(self).moved_only(old(self)),
            final(self).i <= final(self).src@.len(),
            r is Ok ==> {
                let s = old(self).src@;
                let q = s[old(self).i as int];
                &&& old(self).i + 2 <= final(self).i
                &&& s[final(self).i - 1] == q
                &&& string_body(s, old(self).i + 1, final(self).i - 1, q)
            },
    {
        proof {
            assert(special_byte(self.src@[self.i as int]));
            assert(!quiet(self.src@));
        }
        let q = self.src[self.i];
        let len = self.src.len();
        let a = self.i + 1;
        let mut k = a;
        assert(string_body(self.src@, a as int, a as int, q)) by {
            reveal(string_body);
        }
        while k < len
            invariant
                !quiet(self.src@),
                *self == *old(self),
                len == self.src@.len(),
                a == old(self).i + 1,
                a <= k <= len,
                q == self.src@[a - 1],
                string_end(self.src@, a as int, q) == string_end(self.src@, k as int, q),
                string_body(self.src@, a as int, k as int, q),
            decreases len - k,
        {
            let c = self.src[k];
            if c == q {
                self.i = k + 1;
                return Ok(());
            } else if c == 92 {
                if k + 1 >= len {
                    return Err(self.error(len - 1));
                }
                k = k + 2;
                assert(string_body(self.src@, a as int, k as int, q)) by {
                    reveal(string_body);
                }
            } else if c == 10 || c == 13 {
                return Err(self.error(k));
            } else {
                k = k + 1;
                assert(string_body(self.src@, a as int, k as int, q)) by {
                    reveal(string_body);
                }
            }
        }
        Err(self.error(len - 1))
    }

    /// Skips a `//` comment; `i` stops at the line break that ends it.
    fn line_comment(&mut self)
        requires
            old(self).i < old(self).src@.len(),
        ensures
            final(self).i == line_end(old(self).src@, old(self).i + 1),
            final(self).moved_only(old(self)),
            old(self).i < final(self).i <= final(self).src@.len(),
    {
        let len = self.src.len();
        let mut k = self.i + 1;
        while k < len && self.src[k] != 10 && self.src[k] != 13
            invariant
                len == self.src@.len(),
                old(self).i < k <= len,
                *self == *old(self),
                line_end(self.src@, old(self).i + 1) == line_end(self.src@, k as int),
            decreases len - k,
        {
            k = k + 1;
        }
        self.i = k;
    }

    /// Skips a `/* */` comment; `i` stops just past its end.
    fn block_comment(&mut self) -> (r: Result<(), ParseError>)
        requires
            old(self).src@[old(self).i as int] == 47,
            old(self).i + 1 < old(self).src@.len(),
        ensures
            follows(r, final(self).model(), moved_to(old(self).model(), block_end(old(self).src@, old(self).i + 1))),
            r is Err ==> !quiet(old(self).src@),
            r matches Err(e) ==> reported(old(self).src@, e),
            final(self).moved_only(old(self)),
            old(self).i <= final(self).i <= final(self).src@.len(),
            r is Ok ==> old(self).i < final(self).i,
    {
        proof {
            assert(special_byte(self.src@[self.i as int]));
        }
        let len = self.src.len();
        let mut k = self.i + 1;
        while k + 1 < len
            invariant
                len == self.src@.len(),
                old(self).i < k < len,
                *self == *old(self),
                block_end(self.src@, old(self).i + 1) == block_end(self.src@, k as int),
            decreases len - k,
        {
            k = k + 1;
            if self.src[k] == 42 && k + 1 < len && self.src[k + 1] == 47 {
                self.i = k + 2;
                return Ok(());
            }
        }
        Err(self.error(len - 1))
    }

    /// Skips whitespace and comments; `i` stops on the next other byte, or
    /// at the end.
    fn comment_whitespace(&mut self) -> (r: Result<(), ParseError>)
        requires
            old(self).i <= old(self).src@.len(),
        ensures
            follows(r, final(self).model(), moved_to(old(self).model(), skip_ws(old(self).src@, old(self).i as int))),
            r is Err ==> !quiet(old(self).src@),
            r matches Err(e) ==> reported(old(self).src@, e),
            final(self).moved_only(old(self)),
            old(self).i <= final(self).i <= final(self).src@.len(),
            r is Ok ==> final(self).i == final(self).src@.len() || !spec_br_or_ws(
                final(self).src@[final(self).i as int],
            ),
            r is Ok && old(self).wf() ==> final(self).wf(),
    {
        let len = self.src.len();
        while self.i < len
            invariant
                self.moved_only(old(self)),
                len == self.src@.len(),
                skip_ws(self.src@, old(self).i as int) == skip_ws(self.src@, self.i as int),
                old(self).i <= self.i <= len,
            decreases len - self.i,
        {
            let c = self.src[self.i];
            if c == 47 {
                let next = byte_at(self.src, self.i + 1);
                if next == 47 {
                    self.line_comment();
                } else if next == 42 {
                    self.block_comment()?;
                } else {
                    proof {
                        lemma_moved(old(self), self);
                    }
                    return Ok(());
                }
            } else if is_br_or_ws(c) {
                self.i = self.i + 1;
            } else {
                proof {
                    lemma_moved(old(self), self);
                }
                return Ok(());
            }
        }
        proof {
            lemma_moved(old(self), self);
        }
        Ok(())
    }

    /// Moves the position `n` bytes forward.
    fn advance(&mut self, n: usize)
        requires
            old(self).i + n <= old(self).src@.len(),
        ensures
            final(self).model() == at(old(self).model(), old(self).i + n),
            final(self).moved_only(old(self)),
            final(self).i == old(self).i + n,
            old(self).wf() ==> final(self).wf(),
    {
        let len = self.src.len();
        self.i = self.i + n;
        proof {
            lemma_moved(old(self), self);
        }
    }

    /// Reads a name; `i` stops on the first whitespace or punctuator byte, or
    /// at the end.
    fn read_to_ws_or_punctuator(&mut self)
        requires
            old(self).i <= old(self).src@.len(),
        ensures
            final(self).i == name_end(old(self).src@, old(self).i as int),
            final(self).moved_only(old(self)),
            old(self).i <= final(self).i <= final(self).src@.len(),
            forall|j: int|
                old(self).i <= j < final(self).i ==> name_byte(#[trigger] final(self).src@[j]),
            old(self).wf() ==> final(self).wf(),
    {
        let len = self.src.len();
        while self.i < len && !is_br_or_ws(self.src[self.i]) && !is_punctuator(self.src[self.i])
            invariant
                self.moved_only(old(self)),
                len == self.src@.len(),
                name_end(self.src@, old(self).i as int) == name_end(self.src@, self.i as int),
                old(self).i <= self.i <= len,
                forall|j: int| old(self).i <= j < self.i ==> name_byte(#[trigger] self.src@[j]),
            decreases len - self.i,
        {
            self.i = self.i + 1;
        }
        proof {
            lemma_moved(old(self), self);
        }
    }

    /// Reads a regular expression that starts with the `/` at `i`; `i` stops
    /// just past its closing `/`.
    fn regular_expression(&mut self) -> (r: Result<(), ParseError>)
        requires
            old(self).src@[old(self).i as int] == 47,
            old(self).i < old(self).src@.len(),
        ensures
            follows(r, final(self).model(), moved_to(old(self).model(), regex_end(old(self).src@, old(self).i + 1, false))),
            r is Err ==> !quiet(old(self).src@),
            r matches Err(e) ==> reported(old(self).src@, e),
            final(self).moved_only(old(self)),
            final(self).i <= final(self).src@.len(),
            r is Ok ==> old(self).i < final(self).i,
    {
        proof {
            assert(special_byte(self.src@[self.i as int]));
            assert(!quiet(self.src@));
        }
        let len = self.src.len();
        let mut k = self.i + 1;
        let mut in_class = false;
        while k < len
            invariant
                !quiet(self.src@),
                len == self.src@.len(),
                *self == *old(self),
                regex_end(self.src@, old(self).i + 1, false) == regex_end(
                    self.src@,
                    k as int,
                    in_class,
                ),
                self.i < k <= len,
            decreases len - k,
        {
            let c = self.src[k];
            if c == 10 || c == 13 {
                return Err(self.error(k));
            } else if c == 92 {
                if k + 1 >= len {
                    return Err(self.error(len - 1));
                }
                k = k + 2;
            } else if in_class {
                if c == 93 {
                    in_class = false;
                }
                k = k + 1;
            } else if c == 91 {
                in_class = true;
                k = k + 1;
            } else if c == 47 {
                self.i = k + 1;
                return Ok(());
            } else {
                k = k + 1;
            }
        }
        Err(self.error(len - 1))
    }
    /// Reads a template chunk that starts after the `` ` `` or `}` at `i`. On
    /// a closing `` ` `` `i` stops just past it; on `${` a substitution opens
    /// and `i` stops just past the `{`.
    fn template_string(&mut self) -> (r: Result<(), ParseError>)
        requires
            old(self).src@[old(self).i as int] == 96 || old(self).src@[old(self).i as int] == 125,
            old(self).wf_at(old(self).i + 1),
            old(self).i < old(self).src@.len(),
        ensures
            follows(r, final(self).model(), m_template(old(self).src@, old(self).model())),
            r is Err ==> !quiet(old(self).src@),
            r matches Err(e) ==> reported(old(self).src@, e),
            final(self).src == old(self).src,
            final(self).imports == old(self).imports,
            final(self).exports == old(self).exports,
            final(self).last_token == old(self).last_token,
            final(self).last_dynamic_import == old(self).last_dynamic_import,
            final(self).i <= final(self).src@.len(),
            r is Ok ==> old(self).i < final(self).i && final(self).wf(),
    {
        proof {
            reveal(m_template);
            assert(special_byte(self.src@[self.i as int]));
            assert(!quiet(self.src@));
        }
        let len = self.src.len();
        let mut k = self.i + 1;
        while k < len
            invariant
                !quiet(self.src@),
                template_end(self.src@, old(self).i + 1) == template_end(self.src@, k as int),
                len == self.src@.len(),
                *self == *old(self),
                self.wf_at(self.i + 1),
                self.i < k <= len,
            decreases len - k,
        {
            let c = self.src[k];
            if c == 36 && k + 1 < len && self.src[k + 1] == 123 {
                self.template_stack.push(self.template_depth);
                self.open_stack.push(
                    OpenBracket { token: self.last_token, is_class: false, dynamic: None },
                );
                self.template_depth = Some(self.open_stack.len());
                self.i = k + 2;
                proof {
                    lemma_stack_grown(self.imports@, old(self).open_stack@, self.open_stack@);
                    lemma_before_mono(
                        self.src@,
                        self.imports@,
                        self.exports@,
                        old(self).i + 1,
                        self.i as int,
                    );
                }
                proof {
                    reveal(m_template);
                }
                return Ok(());
            } else if c == 96 {
                self.i = k + 1;
                proof {
                    lemma_before_mono(
                        self.src@,
                        self.imports@,
                        self.exports@,
                        old(self).i + 1,
                        self.i as int,
                    );
                }
                proof {
                    reveal(m_template);
                }
                return Ok(());
            } else if c == 92 {
                if k + 1 >= len {
                    proof {
                        reveal(m_template);
                    }
                    return Err(self.error(len - 1));
                }
                k = k + 2;
            } else {
                k = k + 1;
            }
        }
        proof {
            reveal(m_template);
        }
        Err(self.error(len - 1))
    }

    /// Appends the export `start..end`.
    fn push_export(&mut self, start: usize, end: usize)
        requires
            old(self).wf(),
            start < end <= old(self).i,
            forall|j: int| start <= j < end ==> name_byte(#[trigger] old(self).src@[j]),
            old(self).exports@.len() > 0 ==> old(self).exports@.last().end <= start,
        ensures
            final(self).model() == (Model {
                exports: old(self).model().exports.push(Export { start, end }),
                ..old(self).model()
            }),
            old(self).frame_kept(final(self)),
            final(self).wf(),
            final(self).i == old(self).i,
            final(self).src == old(self).src,
            final(self).imports == old(self).imports,
            final(self).open_stack == old(self).open_stack,
            final(self).exports@ == old(self).exports@.push(Export { start, end }),
    {
        self.exports.push(Export { start, end });
        proof {
            lemma_export_pushed(
                self.src@,
                old(self).exports@,
                Export { start, end },
                self.i as int,
            );
        }
    }

    /// Moves the position back to `to`, before which everything emitted lies.
    fn rewind(&mut self, to: usize)
        requires
            old(self).wf_at(to as int),
            to <= old(self).i,
        ensures
            final(self).moved_only(old(self)),
            final(self).i == to,
            final(self).model() == at(old(self).model(), to as int),
            final(self).wf(),
    {
        self.i = to;
    }

    /// Reads a name at `i` and appends it as an export; when there is none,
    /// moves back to `back`.
    fn read_export_name_or(&mut self, back: usize)
        requires
            old(self).wf(),
            old(self).wf_at(back as int),
            back <= old(self).i,
        ensures
            final(self).model() == m_export_name_or(old(self).src@, old(self).model(), back as int),
            old(self).frame_kept(final(self)),
            final(self).wf(),
            final(self).src == old(self).src,
            final(self).imports == old(self).imports,
            final(self).open_stack == old(self).open_stack,
    {
        let start = self.i;
        self.read_to_ws_or_punctuator();
        if self.i > start {
            proof {
                lemma_before_mono(self.src@, self.imports@, self.exports@, start as int, self.i as int);
            }
            let end = self.i;
            self.push_export(start, end);
        } else {
            self.rewind(back);
        }
    }

    /// Reads a name at `i` and appends it as an export when it is not empty.
    fn read_export_name(&mut self)
        requires
            old(self).wf(),
        ensures
            final(self).model() == m_export_name(old(self).src@, old(self).model()),
            old(self).frame_kept(final(self)),
            final(self).wf(),
            old(self).i <= final(self).i,
            final(self).src == old(self).src,
            final(self).imports == old(self).imports,
            final(self).open_stack == old(self).open_stack,
    {
        let start = self.i;
        self.read_to_ws_or_punctuator();
        proof {
            lemma_before_mono(self.src@, self.imports@, self.exports@, start as int, self.i as int);
        }
        if self.i > start {
            let end = self.i;
            self.push_export(start, end);
        }
    }

    /// Reads the quoted specifier whose opening quote is at `quote` and
    /// appends it as a static import of the statement at `statement_start`.
    fn read_import_string(&mut self, statement_start: usize, quote: usize) -> (r: Result<
        (),
        ParseError,
    >)
        requires
            import_at(old(self).src@, statement_start as int) || word_at(old(self).src@, statement_start as int, export_word()),
            old(self).wf(),
            !quiet(old(self).src@),
            statement_start < quote <= old(self).src@.len(),
            old(self).i <= quote,
            old(self).imports@.len() > 0 ==> statement_start_of(old(self).imports@.last())
                < statement_start,
        ensures
            follows(r, final(self).model(), m_import_string(old(self).src@, old(self).model(), statement_start as int, quote as int)),
            r is Err ==> final(self).imports == old(self).imports && final(self).exports == old(
                self,
            ).exports,
            r is Err ==> !quiet(old(self).src@),
            r matches Err(e) ==> reported(old(self).src@, e),
            final(self).src == old(self).src,
            final(self).open_stack == old(self).open_stack,
            final(self).i <= final(self).src@.len(),
            r is Ok ==> final(self).wf() && quote < final(self).i,
    {
        proof {
            lemma_before_mono(
                self.src@,
                self.imports@,
                self.exports@,
                self.i as int,
                quote as int,
            );
        }
        if quote >= self.src.len() || !(self.src[quote] == 39 || self.src[quote] == 34) {
            return Err(self.error(quote));
        }
        self.i = quote;
        self.quoted_string()?;
        let close = self.i - 1;
        let ghost imp = Import::Static(
            StaticImport { statement_start, start: (quote + 1) as usize, end: close, statement_end: self.i },
        );
        self.imports.push(
            Import::Static(
                StaticImport { statement_start, start: quote + 1, end: close, statement_end: self.i },
            ),
        );
        proof {
            lemma_before_mono(
                self.src@,
                old(self).imports@,
                self.exports@,
                quote as int,
                self.i as int,
            );
            lemma_import_pushed(self.src@, old(self).imports@, imp, self.i as int);
            lemma_pushed_not_pending(old(self).imports@, self.imports@, self.open_stack@);
        }
        Ok(())
    }

    /// Recognises the forms that begin with the `import` keyword at `i`:
    /// `import(...)`, `import.meta` and, at the top level, static imports.
    fn try_parse_import_statement(&mut self) -> (r: Result<(), ParseError>)
        requires
            import_at(old(self).src@, old(self).i as int),
            !quiet(old(self).src@),
            old(self).wf(),
            old(self).i + 6 <= old(self).src@.len(),
        ensures
            r is Err ==> final(self).imports == old(self).imports && final(self).exports == old(self).exports,
            follows(r, final(self).model(), m_import(old(self).src@, old(self).model())),
            r is Err ==> !quiet(old(self).src@),
            r matches Err(e) ==> reported(old(self).src@, e),
            final(self).src == old(self).src,
            final(self).i <= final(self).src@.len(),
            r is Ok ==> old(self).i < final(self).i && final(self).wf(),
    {
        proof {
            reveal(m_import);
        }
        let start = self.i;
        let method = match self.last_token {
            Some(t) => byte_at(self.src, t) == 46,
            None => false,
        };
        proof {
            lemma_before_mono(self.src@, self.imports@, self.exports@, start as int, start + 6);
        }
        self.advance(6);
        self.comment_whitespace()?;
        let q = self.i;
        let ch = byte_at(self.src, q);
        if ch == 40 {
            self.open_dynamic_import(start, method);
            Ok(())
        } else if ch == 46 {
            self.advance(1);
            proof {
                assert(self.wf_at(q + 1));
            }
            self.comment_whitespace()?;
            self.read_import_meta(start, q, method);
            Ok(())
        } else if self.open_stack.len() != 0 {
            self.i = start + 6;
            Ok(())
        } else if ch == 39 || ch == 34 {
            self.read_import_string(start, q)
        } else if ch == 123 || ch == 42 || q > start + 6 {
            self.read_import_from(start)
        } else {
            self.i = start + 6;
            Ok(())
        }
    }

    /// `import(`, with `(` at `i`: opens the bracket, and emits a dynamic
    /// import unless the keyword follows a `.` (a method named `import`).
    fn open_dynamic_import(&mut self, start: usize, method: bool)
        requires
            import_at(old(self).src@, start as int),
            old(self).src@[old(self).i as int] == 40,
            old(self).wf(),
            start < old(self).i < old(self).src@.len(),
            old(self).imports@.len() > 0 ==> statement_start_of(old(self).imports@.last()) < start,
        ensures
            final(self).model() == m_open_dynamic(old(self).model(), start as int, old(self).i as int, method),
            final(self).src == old(self).src,
            final(self).wf(),
            final(self).i == old(self).i + 1,
    {
        let q = self.i;
        proof {
            lemma_before_mono(self.src@, self.imports@, self.exports@, q as int, q + 1);
        }
        let ghost old_stack = self.open_stack@;
        let dynamic = if method {
            None
        } else {
            let idx = self.imports.len();
            let ghost imp = Import::Dynamic(
                DynamicImport { statement_start: start, start: (q + 1) as usize, end: q },
            );
            self.imports.push(
                Import::Dynamic(DynamicImport { statement_start: start, start: q + 1, end: q }),
            );
            proof {
                lemma_import_pushed(self.src@, old(self).imports@, imp, q + 1);
            }
            Some(idx)
        };
        self.open_stack.push(OpenBracket { token: Some((q - 1) as usize), is_class: false, dynamic });
        self.i = q + 1;
        proof {
            if method {
                lemma_stack_grown(self.imports@, old_stack, self.open_stack@);
            } else {
                lemma_opened_dynamic(old(self).imports@, self.imports@, old_stack, self.open_stack@);
            }
        }
    }

    /// `import.` read, with `i` on what follows the `.`: emits an
    /// `import.meta` record, and moves past `meta`, when `meta` stands there
    /// and the keyword does not follow a `.`.
    fn read_import_meta(&mut self, start: usize, dot: usize, method: bool)
        requires
            import_at(old(self).src@, start as int),
            old(self).wf(),
            old(self).wf_at(dot + 1),
            start < dot < old(self).i,
            old(self).imports@.len() > 0 ==> statement_start_of(old(self).imports@.last()) < start,
        ensures
            final(self).model() == m_import_meta(
                old(self).src@,
                old(self).model(),
                start as int,
                method,
                dot as int,
            ),
            final(self).src == old(self).src,
            final(self).wf(),
            final(self).i > dot,
    {
        let m = self.i;
        if !method && matches_at(self.src, m, &[109, 101, 116, 97]) {
            self.imports.push(
                Import::Meta(
                    MetaImport { statement_start: start, start, end: m + 4, statement_end: m + 4 },
                ),
            );
            self.i = m + 4;
            proof {
                let imp = Import::Meta(
                    MetaImport {
                        statement_start: start,
                        start,
                        end: (m + 4) as usize,
                        statement_end: (m + 4) as usize,
                    },
                );
                lemma_before_mono(self.src@, old(self).imports@, self.exports@, m as int, m + 4);
                lemma_import_pushed(self.src@, old(self).imports@, imp, m + 4);
                lemma_pushed_not_pending(old(self).imports@, self.imports@, self.open_stack@);
            }
        } else {
            self.i = dot + 1;
        }
    }

    /// A static import whose specifier is the first quoted string at or
    /// after `i`.
    fn read_import_from(&mut self, start: usize) -> (r: Result<(), ParseError>)
        requires
            import_at(old(self).src@, start as int),
            !quiet(old(self).src@),
            old(self).wf(),
            start < old(self).i,
            old(self).imports@.len() > 0 ==> statement_start_of(old(self).imports@.last()) < start,
        ensures
            r is Err ==> final(self).imports == old(self).imports && final(self).exports == old(self).exports,
            follows(r, final(self).model(), if first_quote(old(self).src@, old(self).i as int) >= old(self).src@.len() {
                Err(old(self).src@.len() as int)
            } else {
                m_import_string(old(self).src@, old(self).model(), start as int, first_quote(old(self).src@, old(self).i as int))
            }),
            r is Err ==> !quiet(old(self).src@),
            r matches Err(e) ==> reported(old(self).src@, e),
            final(self).src == old(self).src,
            final(self).i <= final(self).src@.len(),
            r is Ok ==> old(self).i < final(self).i && final(self).wf(),
    {
        let len = self.src.len();
        let mut k = self.i;
        while k < len && self.src[k] != 39 && self.src[k] != 34
            invariant
                len == self.src@.len(),
                first_quote(self.src@, self.i as int) == first_quote(self.src@, k as int),
                self.i <= k <= len,
            decreases len - k,
        {
            k = k + 1;
        }
        if k >= len {
            return Err(self.error(len));
        }
        self.read_import_string(start, k)
    }

    /// Recognises the forms that begin with the `export` keyword at `i`, at
    /// the top level.
    fn try_parse_export_statement(&mut self) -> (r: Result<(), ParseError>)
        requires
            word_at(old(self).src@, old(self).i as int, export_word()),
            old(self).wf(),
            old(self).i + 6 <= old(self).src@.len(),
        ensures
            follows(r, final(self).model(), m_export(old(self).src@, old(self).model())),
            r is Err ==> !quiet(old(self).src@),
            quiet(old(self).src@) ==> old(self).frame_kept(final(self)),
            r matches Err(e) ==> reported(old(self).src@, e),
            final(self).src == old(self).src,
            final(self).i <= final(self).src@.len(),
            r is Ok ==> old(self).i < final(self).i && final(self).wf(),
            r is Ok ==> forall|j: int|
                old(self).exports@.len() <= j < final(self).exports@.len() ==> export_within(
                    final(self).src@,
                    #[trigger] final(self).exports@[j],
                ),
    {
        let r = self.export_statement();
        proof {
            if r is Ok {
                lemma_exports_named(self.src@, self.exports@, self.i as int);
            }
        }
        r
    }

    /// The forms after an `export` keyword at `i`; see
    /// `try_parse_export_statement`.
    fn export_statement(&mut self) -> (r: Result<(), ParseError>)
        requires
            word_at(old(self).src@, old(self).i as int, export_word()),
            old(self).wf(),
            old(self).i + 6 <= old(self).src@.len(),
        ensures
            follows(r, final(self).model(), m_export(old(self).src@, old(self).model())),
            r is Err ==> !quiet(old(self).src@),
            quiet(old(self).src@) ==> old(self).frame_kept(final(self)),
            r matches Err(e) ==> reported(old(self).src@, e),
            final(self).src == old(self).src,
            final(self).i <= final(self).src@.len(),
            r is Ok ==> old(self).i < final(self).i && final(self).wf(),
    {
        proof {
            reveal(m_export);
        }
        let start = self.i;
        proof {
            lemma_before_mono(self.src@, self.imports@, self.exports@, start as int, start + 6);
        }
        self.advance(6);
        self.comment_whitespace()?;
        let q = self.i;
        let ch = byte_at(self.src, q);
        if q == start + 6 && !is_punctuator(ch) {
            // `exports`, `export$`: not the keyword
            return Ok(());
        }
        proof {
            assert(self.wf_at(start + 6));
        }
        if ch == 100 && matches_at(self.src, q, &[100, 101, 102, 97, 117, 108, 116]) {
            self.export_default();
            Ok(())
        } else if (ch == 97 && matches_at(self.src, q, &[97, 115, 121, 110, 99])) || (ch == 102
            && matches_at(self.src, q, &[102, 117, 110, 99, 116, 105, 111, 110])) {
            self.export_function()
        } else if ch == 99 && self.at_class() {
            self.export_class()
        } else if ch == 99 && matches_at(self.src, q, &[99, 111, 110, 115, 116]) {
            self.advance(5);
            self.export_declaration()
        } else if (ch == 118 && matches_at(self.src, q, &[118, 97, 114])) || (ch == 108
            && matches_at(self.src, q, &[108, 101, 116])) {
            self.advance(3);
            self.export_declaration()
        } else if ch == 123 {
            self.advance(1);
            self.export_list(start)
        } else if ch == 42 {
            self.advance(1);
            self.export_star(start)
        } else {
            self.rewind(start + 6);
            Ok(())
        }
    }

    /// `export default`: the word `default` is exported.
    fn export_default(&mut self)
        requires
            old(self).wf(),
        ensures
            final(self).model() == m_export_default(old(self).src@, old(self).model()),
            old(self).frame_kept(final(self)),
            final(self).src == old(self).src,
            final(self).wf(),
            old(self).i <= final(self).i,
    {
        let q = self.i;
        proof {
            lemma_before_mono(self.src@, self.imports@, self.exports@, q as int, q as int);
        }
        if matches_at(self.src, q, &[100, 101, 102, 97, 117, 108, 116]) {
            proof {
                let w = self.src@.subrange(q as int, q + 7);
                assert forall|j: int| q <= j < q + 7 implies name_byte(#[trigger] self.src@[j]) by {
                    assert(self.src@[j] == w[j - q]);
                }
            }
            self.advance(7);
            self.push_export(q, q + 7);
        }
    }

    /// Whether the keyword `class` stands at `i`.
    fn at_class(&self) -> (r: bool)
        ensures
            r ==> self.i + 5 <= self.src@.len(),
            r == class_at(self.src@, self.i as int),
    {
        if self.i >= self.src.len() || self.src.len() - self.i < 5 {
            return false;
        }
        matches_at(self.src, self.i, &[99, 108, 97, 115, 115])
            && is_br_or_ws_or_punctuator_not_dot(byte_at(self.src, self.i + 5))
    }

    /// `export class name`, with `i` on `class`: the class's name is exported.
    fn export_class(&mut self) -> (r: Result<(), ParseError>)
        requires
            old(self).wf(),
            old(self).i + 5 <= old(self).src@.len(),
        ensures
            follows(r, final(self).model(), m_export_class(old(self).src@, old(self).model())),
            r is Err ==> !quiet(old(self).src@),
            old(self).frame_kept(final(self)),
            r matches Err(e) ==> reported(old(self).src@, e),
            final(self).src == old(self).src,
            final(self).i <= final(self).src@.len(),
            r is Ok ==> old(self).i <= final(self).i && final(self).wf(),
    {
        let back = self.i + 5;
        self.advance(5);
        self.next_brace_is_class = true;
        proof {
            assert(self.wf_at(back as int));
        }
        self.comment_whitespace()?;
        self.read_export_name_or(back);
        Ok(())
    }

    /// `export async function`, `export function`, with an optional `*`: the
    /// function's name is exported.
    fn export_function(&mut self) -> (r: Result<(), ParseError>)
        requires
            old(self).wf(),
        ensures
            follows(r, final(self).model(), m_export_function(old(self).src@, old(self).model())),
            r is Err ==> !quiet(old(self).src@),
            old(self).frame_kept(final(self)),
            r matches Err(e) ==> reported(old(self).src@, e),
            final(self).src == old(self).src,
            final(self).i <= final(self).src@.len(),
            r is Ok ==> old(self).i <= final(self).i && final(self).wf(),
    {
        let q = self.i;
        let is_async = matches_at(self.src, q, &[97, 115, 121, 110, 99]);
        if is_async {
            self.advance(5);
            proof {
                assert(self.wf_at(q + 5));
            }
            self.comment_whitespace()?;
        }
        if !matches_at(self.src, self.i, &[102, 117, 110, 99, 116, 105, 111, 110]) {
            if is_async {
                self.rewind(q + 5);
            }
            return Ok(());
        }
        self.advance(8);
        let after_keyword = self.i;
        proof {
            assert(self.wf_at(after_keyword as int));
        }
        self.comment_whitespace()?;
        if byte_at(self.src, self.i) == 42 {
            self.advance(1);
            let after_star = self.i;
            proof {
                assert(self.wf_at(after_star as int));
            }
            self.comment_whitespace()?;
            self.read_export_name_or(after_star);
        } else {
            self.read_export_name_or(after_keyword);
        }
        Ok(())
    }

    /// The bindings of `var`, `let` or `const`, with `i` after the keyword:
    /// each name is exported, up to the first initializer or destructuring
    /// pattern, while commas separate them.
    fn export_declaration(&mut self) -> (r: Result<(), ParseError>)
        requires
            old(self).wf(),
        ensures
            follows(r, final(self).model(), m_export_declaration(old(self).src@, old(self).model())),
            r is Err ==> !quiet(old(self).src@),
            old(self).frame_kept(final(self)),
            r matches Err(e) ==> reported(old(self).src@, e),
            final(self).src == old(self).src,
            final(self).i <= final(self).src@.len(),
            r is Ok ==> old(self).i <= final(self).i && final(self).wf(),
    {
        let len = self.src.len();
        loop
            invariant
                m_export_declaration(self.src@, old(self).model()) == m_export_declaration(self.src@, self.model()),
                self.wf(),
                old(self).frame_kept(self),
                self.src == old(self).src,
                len == self.src@.len(),
                old(self).i <= self.i <= len,
            decreases len - self.i,
        {
            let back = self.i;
            proof {
                assert(self.wf_at(back as int));
            }
            self.comment_whitespace()?;
            let name_start = self.i;
            self.read_export_name();
            if self.i == name_start {
                self.rewind(back);
                return Ok(());
            }
            let name_end = self.i;
            proof {
                assert(self.wf_at(name_end as int));
            }
            self.comment_whitespace()?;
            if byte_at(self.src, self.i) != 44 {
                self.rewind(name_end);
                return Ok(());
            }
            self.advance(1);
        }
    }

    /// `export { a, b as c }`, with `i` after the `{`: each public name is
    /// exported; a following `from 'specifier'` makes it a re-export.
    #[verifier::rlimit(50)]
    fn export_list(&mut self, start: usize) -> (r: Result<(), ParseError>)
        requires
            word_at(old(self).src@, start as int, export_word()),
            !quiet(old(self).src@),
            old(self).wf(),
            start < old(self).i,
            old(self).imports@.len() > 0 ==> statement_start_of(old(self).imports@.last()) < start,
        ensures
            follows(r, final(self).model(), m_export_list(old(self).src@, old(self).model(), start as int)),
            r is Err ==> !quiet(old(self).src@),
            r matches Err(e) ==> reported(old(self).src@, e),
            final(self).src == old(self).src,
            final(self).i <= final(self).src@.len(),
            r is Ok ==> old(self).i <= final(self).i && final(self).wf(),
    {
        let len = self.src.len();
        loop
            invariant
                word_at(old(self).src@, start as int, export_word()),
                start < old(self).i,
                old(self).imports@.len() > 0 ==> statement_start_of(old(self).imports@.last())
                    < start,
                m_export_list(self.src@, old(self).model(), start as int) == m_export_list(self.src@, self.model(), start as int),
                !quiet(old(self).src@),
                self.wf(),
                self.src == old(self).src,
                self.imports == old(self).imports,
                len == self.src@.len(),
                old(self).i <= self.i <= len,
            decreases len - self.i,
        {
            self.comment_whitespace()?;
            if byte_at(self.src, self.i) == 125 {
                self.advance(1);
                return self.read_reexport_source(start);
            }
            let local_start = self.i;
            proof {
                lemma_before_mono(
                    self.src@,
                    self.imports@,
                    self.exports@,
                    self.i as int,
                    self.i as int,
                );
            }
            self.read_to_ws_or_punctuator();
            let mut name_start = local_start;
            let mut name_end = self.i;
            self.comment_whitespace()?;
            if self.at_as() {
                self.advance(2);
                self.comment_whitespace()?;
                name_start = self.i;
                self.read_to_ws_or_punctuator();
                name_end = self.i;
                self.comment_whitespace()?;
            }
            if name_end > name_start {
                self.push_export(name_start, name_end);
            }
            let c = byte_at(self.src, self.i);
            if c == 44 {
                self.advance(1);
            } else if c == 125 {
                self.advance(1);
                return self.read_reexport_source(start);
            } else {
                return Err(self.error(self.i));
            }
        }
    }

    /// `export *` or `export * as name`, with `i` after the `*`, and the
    /// `from 'specifier'` that follows.
    fn export_star(&mut self, start: usize) -> (r: Result<(), ParseError>)
        requires
            word_at(old(self).src@, start as int, export_word()),
            !quiet(old(self).src@),
            old(self).wf(),
            start < old(self).i,
            old(self).imports@.len() > 0 ==> statement_start_of(old(self).imports@.last()) < start,
        ensures
            follows(r, final(self).model(), m_export_star(old(self).src@, old(self).model(), start as int)),
            r is Err ==> !quiet(old(self).src@),
            r matches Err(e) ==> reported(old(self).src@, e),
            final(self).src == old(self).src,
            final(self).i <= final(self).src@.len(),
            r is Ok ==> old(self).i <= final(self).i && final(self).wf(),
    {
        let back = self.i;
        proof {
            assert(self.wf_at(back as int));
        }
        self.comment_whitespace()?;
        if self.at_as() {
            self.advance(2);
            let after_as = self.i;
            proof {
                assert(self.wf_at(after_as as int));
            }
            self.comment_whitespace()?;
            self.read_export_name_or(after_as);
        } else {
            self.rewind(back);
        }
        self.read_reexport_source(start)
    }

    /// Whether the word `as` stands at `i`.
    fn at_as(&self) -> (r: bool)
        ensures
            r ==> self.i + 2 <= self.src@.len(),
            r == as_at(self.src@, self.i as int),
    {
        if self.i >= self.src.len() || self.src.len() - self.i < 2 {
            return false;
        }
        let after = byte_at(self.src, self.i + 2);
        matches_at(self.src, self.i, &[97, 115]) && (self.i + 2 == self.src.len() || is_br_or_ws(
            after,
        ) || is_punctuator(after))
    }

    /// After a list of exported names: when `from` follows, the quoted
    /// specifier after it is read as a static import of the statement at
    /// `start`; otherwise `i` stays where it is.
    fn read_reexport_source(&mut self, start: usize) -> (r: Result<(), ParseError>)
        requires
            word_at(old(self).src@, start as int, export_word()),
            !quiet(old(self).src@),
            old(self).wf(),
            start < old(self).i,
            old(self).imports@.len() > 0 ==> statement_start_of(old(self).imports@.last()) < start,
        ensures
            follows(r, final(self).model(), m_reexport(old(self).src@, old(self).model(), start as int)),
            r is Err ==> !quiet(old(self).src@),
            r matches Err(e) ==> reported(old(self).src@, e),
            final(self).src == old(self).src,
            final(self).i <= final(self).src@.len(),
            r is Ok ==> old(self).i <= final(self).i && final(self).wf(),
    {
        let after = self.i;
        self.comment_whitespace()?;
        if !matches_at(self.src, self.i, &[102, 114, 111, 109]) {
            self.i = after;
            return Ok(());
        }
        self.advance(4);
        self.comment_whitespace()?;
        let k = self.i;
        if k < self.src.len() && (self.src[k] == 39 || self.src[k] == 34) {
            self.read_import_string(start, k)
        } else {
            Err(self.error(k))
        }
    }
    /// `(` at `i`.
    fn open_paren(&mut self)
        requires
            old(self).wf(),
            old(self).i < old(self).src@.len(),
        ensures
            final(self).model() == m_open_paren(old(self).model()),
            final(self).src == old(self).src,
            final(self).wf(),
            final(self).i == old(self).i + 1,
    {
        proof {
            reveal(m_open_paren);
        }
        let ghost old_stack = self.open_stack@;
        self.open_stack.push(OpenBracket { token: self.last_token, is_class: false, dynamic: None });
        self.i = self.i + 1;
        proof {
            lemma_stack_grown(self.imports@, old_stack, self.open_stack@);
            lemma_before_mono(self.src@, self.imports@, self.exports@, old(self).i as int, self.i as int);
        }
    }

    /// Closes the innermost bracket at the `)` or `}` at `i` and returns
    /// it; when that bracket opened a dynamic import still waiting, the
    /// import ends here.
    fn pop_bracket(&mut self) -> (r: Option<OpenBracket>)
        requires
            old(self).open_stack@.len() > 0 && old(self).open_stack@.last().dynamic is Some
                ==> old(self).src@[old(self).i as int] == 41,
            old(self).wf(),
            old(self).i < old(self).src@.len(),
        ensures
            r is Some ==> final(self).model() == m_pop(old(self).model())
                && old(self).open_stack@.len() > 0,
            final(self).src == old(self).src,
            final(self).i == old(self).i,
            final(self).last_token == old(self).last_token,
            final(self).template_depth == old(self).template_depth,
            final(self).template_stack == old(self).template_stack,
            final(self).next_brace_is_class == old(self).next_brace_is_class,
            final(self).exports == old(self).exports,
            r is None ==> old(self).open_stack@.len() == 0,
            r is Some ==> {
                &&& final(self).open_stack@ == old(self).open_stack@.drop_last()
                &&& r == Some(old(self).open_stack@.last())
                &&& final(self).wf_at(final(self).i + 1)
            },
    {
        let closed = match self.open_stack.pop() {
            Some(e) => e,
            None => {
                return None;
            },
        };
        let ghost before = self.imports@;
        let ghost old_stack = old(self).open_stack@;
        proof {
            assert(self.open_stack@ =~= old_stack.drop_last());
            assert(closed == old_stack.last());
            lemma_before_mono(self.src@, before, self.exports@, self.i as int, self.i + 1);
        }
        if let Some(k) = closed.dynamic {
            let patched = end_dynamic_import(&mut self.imports, k, self.i);
            if patched {
                self.last_dynamic_import = Some(k);
                proof {
                    lemma_import_ended(self.src@, before, self.imports@, k as int, self.i as int);
                    assert(self.imports@ =~= before.update(
                        k as int,
                        ended(before[k as int], self.i),
                    ));
                }
            }
            proof {
                assert(self.imports@.len() == self.imports.len());
                assert(k < self.imports@.len() ==> !pending(self.imports@[k as int]));
                assert forall|j: int|
                    0 <= j < self.imports@.len() && #[trigger] pending(
                        self.imports@[j],
                    ) implies pending(before[j]) && closed.dynamic != Some(j as usize) by {
                    if j == k as int {
                        assert(!pending(self.imports@[k as int]));
                    } else {
                        assert(self.imports@[j] == before[j]);
                        assert(j as usize != k);
                    }
                }
                lemma_bracket_closed(before, self.imports@, old_stack);
            }
        } else {
            proof {
                lemma_bracket_closed(before, self.imports@, old_stack);
            }
        }
        Some(closed)
    }

    /// `)` at `i`.
    fn close_paren(&mut self) -> (r: Result<(), ParseError>)
        requires
            old(self).src@[old(self).i as int] == 41,
            old(self).wf(),
            old(self).i < old(self).src@.len(),
        ensures
            follows(r, final(self).model(), m_close_paren(old(self).model())),
            r is Err ==> !quiet(old(self).src@),
            r matches Err(e) ==> reported(old(self).src@, e),
            final(self).src == old(self).src,
            final(self).i <= final(self).src@.len(),
            r is Ok ==> final(self).wf() && final(self).i == old(self).i + 1,
    {
        proof {
            reveal(m_close_paren);
            assert(special_byte(self.src@[self.i as int]));
        }
        match self.pop_bracket() {
            Some(closed) => {
                self.last_closed = closed;
                self.i = self.i + 1;
                Ok(())
            },
            None => Err(self.error(self.i)),
        }
    }

    /// `{` at `i`. A `{` right after the `)` of the dynamic import emitted
    /// last shows that `import` was a method's name, and that record is
    /// taken back.
    fn open_brace(&mut self)
        requires
            old(self).wf(),
            old(self).i < old(self).src@.len(),
        ensures
            final(self).model() == m_open_brace(old(self).model()),
            ({
                let imports = old(self).imports@;
                let k = imports.len() - 1;
                if old(self).last_dynamic_import == Some(k as usize) && imports.len() > 0 && (
                imports[k] matches Import::Dynamic(d) && old(self).last_token == Some(d.end)) {
                    final(self).imports@ == imports.drop_last()
                } else {
                    final(self).imports@ == imports
                }
            }),
            final(self).src == old(self).src,
            final(self).wf(),
            final(self).i == old(self).i + 1,
    {
        proof {
            reveal(m_open_brace);
        }
        if let Some(k) = self.last_dynamic_import {
            if k < self.imports.len() && k + 1 == self.imports.len() {
                if let Import::Dynamic(d) = self.imports[k] {
                    if self.last_token == Some(d.end) {
                        self.imports.pop();
                        self.last_dynamic_import = None;
                        proof {
                            assert(self.imports@ =~= old(self).imports@.drop_last());
                            lemma_import_retracted(
                                self.src@,
                                old(self).imports@,
                                self.open_stack@,
                                self.i as int,
                            );
                        }
                    }
                }
            }
        }
        let ghost old_stack = self.open_stack@;
        self.open_stack.push(
            OpenBracket { token: self.last_token, is_class: self.next_brace_is_class, dynamic: None },
        );
        self.next_brace_is_class = false;
        self.i = self.i + 1;
        proof {
            lemma_stack_grown(self.imports@, old_stack, self.open_stack@);
            lemma_before_mono(self.src@, self.imports@, self.exports@, old(self).i as int, self.i as int);
        }
    }

    /// `}` at `i`: closes the innermost bracket, and resumes the template
    /// when that bracket was a `${`.
    fn close_brace(&mut self) -> (r: Result<(), ParseError>)
        requires
            old(self).src@[old(self).i as int] == 125,
            old(self).wf(),
            old(self).i < old(self).src@.len(),
        ensures
            follows(r, final(self).model(), m_close_brace(old(self).src@, old(self).model())),
            r is Err ==> !quiet(old(self).src@),
            r matches Err(e) ==> reported(old(self).src@, e),
            final(self).src == old(self).src,
            final(self).i <= final(self).src@.len(),
            r is Ok ==> final(self).wf() && old(self).i < final(self).i,
    {
        proof {
            reveal(m_close_brace);
            assert(special_byte(self.src@[self.i as int]));
        }
        let depth = self.open_stack.len();
        if depth > 0 && self.open_stack[depth - 1].dynamic.is_some() {
            // a `}` cannot close the `(` of a dynamic import
            return Err(self.error(self.i));
        }
        let closed = match self.pop_bracket() {
            Some(e) => e,
            None => {
                return Err(self.error(self.i));
            },
        };
        if self.template_depth == Some(depth) {
            self.template_depth = match self.template_stack.pop() {
                Some(t) => t,
                None => None,
            };
            self.template_string()
        } else {
            self.last_closed = closed;
            if let Some(td) = self.template_depth {
                if self.open_stack.len() < td {
                    return Err(self.error(self.i));
                }
            }
            self.i = self.i + 1;
            Ok(())
        }
    }

    /// The state at the start of a scan of `src`.
    fn new(src: &'a [u8]) -> (r: Self)
        ensures
            r.model() == initial(),
            r.wf(),
            r.src == src,
            r.i == 0,
            r.open_stack@.len() == 0,
            r.template_depth is None,
            r.imports@.len() == 0,
    {
        let r = ParseState {
            src,
            i: 0,
            last_token: None,
            open_stack: Vec::new(),
            last_closed: OpenBracket { token: None, is_class: false, dynamic: None },
            next_brace_is_class: false,
            template_depth: None,
            template_stack: Vec::new(),
            last_dynamic_import: None,
            last_slash_was_division: false,
            imports: Vec::new(),
            exports: Vec::new(),
        };
        let len = src.len();
        proof {
            reveal(imports_before);
            reveal(exports_before);
            reveal(pending_tracked);
        }
        r
    }

    /// `/` at `i`: a comment, a regular expression or a division. Returns
    /// whether what was read is significant (not a comment).
    fn slash(&mut self) -> (r: Result<bool, ParseError>)
        requires
            old(self).src@[old(self).i as int] == 47,
            old(self).wf(),
            old(self).i < old(self).src@.len(),
        ensures
            follows_flag(r, final(self).model(), m_slash(old(self).src@, old(self).model())),
            r is Err ==> !quiet(old(self).src@),
            r matches Err(e) ==> reported(old(self).src@, e),
            final(self).src == old(self).src,
            final(self).i <= final(self).src@.len(),
            r is Ok ==> final(self).wf() && old(self).i < final(self).i,
    {
        proof {
            reveal(m_slash);
            assert(special_byte(self.src@[self.i as int]));
        }
        let next = byte_at(self.src, self.i + 1);
        if next == 47 {
            self.line_comment();
            proof {
                lemma_moved(old(self), self);
            }
            Ok(false)
        } else if next == 42 {
            self.block_comment()?;
            proof {
                lemma_moved(old(self), self);
            }
            Ok(false)
        } else if starts_regex(
            self.src,
            self.last_token,
            self.last_closed,
            self.last_slash_was_division,
        ) {
            self.regular_expression()?;
            proof {
                lemma_moved(old(self), self);
            }
            self.last_slash_was_division = false;
            Ok(true)
        } else {
            self.last_slash_was_division = true;
            self.advance(1);
            Ok(true)
        }
    }

    /// Reads the token that starts with the byte at `i`, which is not
    /// whitespace. Returns whether it is significant (not a comment).
    fn dispatch(&mut self) -> (r: Result<bool, ParseError>)
        requires
            old(self).wf(),
            old(self).i < old(self).src@.len(),
        ensures
            follows_flag(r, final(self).model(), m_dispatch(old(self).src@, old(self).model())),
            r is Err ==> !quiet(old(self).src@),
            quiet(old(self).src@) ==> old(self).frame_kept(final(self)),
            r matches Err(e) ==> reported(old(self).src@, e),
            final(self).src == old(self).src,
            final(self).i <= final(self).src@.len(),
            r is Ok ==> final(self).wf() && old(self).i < final(self).i,
    {
        let i = self.i;
        let c = self.src[i];
        if c == 101 {
            if self.open_stack.len() == 0 && keyword_start(self.src, i) && matches_at(
                self.src,
                i + 1,
                &[120, 112, 111, 114, 116],
            ) {
                proof {
                    assert(self.src@.subrange(i as int, i + 6) =~= export_word());
                }
                self.try_parse_export_statement()?;
            } else {
                self.advance(1);
            }
        } else if c == 105 {
            if keyword_start(self.src, i) && matches_at(self.src, i + 1, &[109, 112, 111, 114, 116]) {
                proof {
                    assert(self.src@.subrange(i as int, i + 6) =~= import_word());
                    assert(import_at(self.src@, i as int));
                }
                self.try_parse_import_statement()?;
            } else {
                self.advance(1);
            }
        } else if c == 99 {
            if keyword_start(self.src, i) && matches_at(self.src, i + 1, &[108, 97, 115, 115])
                && is_br_or_ws(byte_at(self.src, i + 5)) {
                self.next_brace_is_class = true;
            }
            self.advance(1);
        } else if c == 40 {
            self.open_paren();
        } else if c == 41 {
            self.close_paren()?;
        } else if c == 123 {
            self.open_brace();
        } else if c == 125 {
            self.close_brace()?;
        } else if c == 39 || c == 34 {
            self.quoted_string()?;
            proof {
                lemma_moved(old(self), self);
            }
        } else if c == 47 {
            return self.slash();
        } else if c == 96 {
            proof {
                lemma_before_mono(self.src@, self.imports@, self.exports@, i as int, i + 1);
            }
            self.template_string()?;
        } else {
            self.advance(1);
        }
        Ok(true)
    }

    /// Scans the whole source.
    fn run(&mut self) -> (r: Result<(), ParseError>)
        requires
            old(self).wf(),
            quiet(old(self).src@) ==> old(self).open_stack@.len() == 0
                && old(self).template_depth is None && old(self).imports@.len() == 0,
        ensures
            follows(r, final(self).model(), m_run(old(self).src@, old(self).model())),
            r is Err ==> !quiet(old(self).src@),
            r is Ok && quiet(old(self).src@) ==> final(self).imports@.len() == 0,
            r matches Err(e) ==> reported(old(self).src@, e),
            final(self).src == old(self).src,
            r is Ok ==> final(self).wf() && final(self).open_stack@.len() == 0,
    {
        let len = self.src.len();
        while self.i < len
            invariant
                m_run(old(self).src@, old(self).model()) == m_run(self.src@, self.model()),
                self.wf(),
                self.src == old(self).src,
                len == self.src@.len(),
                quiet(self.src@) ==> self.open_stack@.len() == 0 && self.template_depth is None
                    && self.imports@.len() == 0,
            decreases len - self.i,
        {
            if is_br_or_ws(self.src[self.i]) {
                self.advance(1);
            } else {
                let significant = self.dispatch()?;
                if significant {
                    self.last_token = Some(self.i - 1);
                }
            }
        }
        if self.template_depth.is_some() || self.open_stack.len() > 0 {
            let at = if len > 0 {
                len - 1
            } else {
                0
            };
            return Err(self.error(at));
        }
        Ok(())
    }
}

/// Ends the dynamic import at index `k` at position `at`, if it still waits.
fn end_dynamic_import(imports: &mut Vec<Import>, k: usize, at: usize) -> (patched: bool)
    ensures
        final(imports)@.len() == old(imports)@.len(),
        forall|j: int|
            0 <= j < old(imports)@.len() && j != k ==> #[trigger] final(imports)@[j] == old(
                imports,
            )@[j],
        patched ==> k < old(imports)@.len() && pending(old(imports)@[k as int])
            && final(imports)@[k as int] == ended(old(imports)@[k as int], at),
        !patched ==> final(imports)@ == old(imports)@ && (k < old(imports)@.len() ==> !pending(
            old(imports)@[k as int],
        )),
{
    if k < imports.len() {
        if let Import::Dynamic(d) = imports[k] {
            if d.end < d.start {
                imports.set(
                    k,
                    Import::Dynamic(
                        DynamicImport { statement_start: d.statement_start, start: d.start, end: at },
                    ),
                );
                return true;
            }
        }
    }
    false
}

/// Moving the position forward keeps the invariant.
proof fn lemma_moved<'a>(a: &ParseState<'a>, b: &ParseState<'a>)
    requires
        b.moved_only(a),
        a.i <= b.i <= b.src@.len(),
    ensures
        a.wf() ==> b.wf(),
{
    if a.wf() {
        lemma_before_mono(a.src@, a.imports@, a.exports@, a.i as int, b.i as int);
    }
}

/// A scan that ends with every bracket closed leaves a valid analysis.
proof fn lemma_complete(
    s: Seq<u8>,
    imports: Seq<Import>,
    exports: Seq<Export>,
    stack: Seq<OpenBracket>,
    p: int,
)
    requires
        imports_before(s, imports, p),
        exports_before(s, exports, p),
        pending_tracked(imports, stack),
        stack.len() == 0,
        p <= s.len(),
    ensures
        valid_analysis(s, imports, exports),
{
    lemma_before_mono(s, imports, exports, p, s.len() as int);
    reveal(imports_before);
    reveal(exports_before);
    reveal(pending_tracked);
    assert forall|k: int| 0 <= k < imports.len() implies !pending(#[trigger] imports[k]) by {
        if pending(imports[k]) {
            let d = choose|d: int| 0 <= d < stack.len() && #[trigger] stack[d].dynamic == Some(k as usize);
        }
    }
    assert forall|k: int| 0 <= k < exports.len() implies export_within(s, #[trigger] exports[k]) by {
        let e = exports[k];
        assert forall|j: int| e.start <= j < e.end implies name_byte(#[trigger] s[j]) by {}
    }
}

/// Scans ECMAScript source text and reports its imports and exports, in the
/// order they appear: exactly what `scan` finds, or its failure.
///
/// Each record lies within the source with its start before its end; each
/// static import's specifier holds no bare quote of its kind; each export is a
/// non-empty name. A failure gives the position at which the scan gave up,
/// with its line and column. Text with no bracket, quote, template, slash,
/// star or `import` keyword always scans, and holds no import.
pub fn parse(input: &str) -> (r: Result<SourceAnalysis, ParseError>)
    ensures
        r matches Ok(a) ==> valid_analysis(input.spec_bytes(), a.imports@, a.exports@),
        r matches Err(e) ==> reported(input.spec_bytes(), e),
        quiet(input.spec_bytes()) ==> (r matches Ok(a) && a.imports@.len() == 0),
        match scan(input.spec_bytes()) {
            Ok(m) => r matches Ok(a) && a.imports@ == m.imports && a.exports@ == m.exports,
            Err(x) => r matches Err(e) && e.idx as int == x,
        },
{
    let src = input.as_bytes();
    let mut state = ParseState::new(src);
    state.run()?;
    proof {
        lemma_complete(
            src@,
            state.imports@,
            state.exports@,
            state.open_stack@,
            state.i as int,
        );
    }
    Ok(SourceAnalysis { imports: state.imports, exports: state.exports })
}

/// Each export that lies before `p` is a non-empty name of `s`.
proof fn lemma_exports_named(s: Seq<u8>, exports: Seq<Export>, p: int)
    requires
        exports_before(s, exports, p),
        p <= s.len(),
    ensures
        forall|j: int| 0 <= j < exports.len() ==> export_within(s, #[trigger] exports[j]),
{
    reveal(exports_before);
    assert forall|j: int| 0 <= j < exports.len() implies export_within(s, #[trigger] exports[j]) by {
        let e = exports[j];
        assert forall|x: int| e.start <= x < e.end implies name_byte(#[trigger] s[x]) by {}
    }
}

/// What lies before `p` lies before any later position.
proof fn lemma_before_mono(s: Seq<u8>, imports: Seq<Import>, exports: Seq<Export>, p: int, p2: int)
    requires
        imports_before(s, imports, p),
        exports_before(s, exports, p),
        p <= p2 <= s.len(),
    ensures
        imports_before(s, imports, p2),
        exports_before(s, exports, p2),
        exports.len() > 0 ==> exports.last().end <= p,
        imports.len() > 0 ==> statement_start_of(imports.last()) < p,
{
    reveal(imports_before);
    reveal(exports_before);
    if imports.len() > 0 {
        assert(import_within(s, imports[imports.len() - 1], p));
    }
    if exports.len() > 0 {
        assert(exports[exports.len() - 1].end <= p);
    }
}

/// Appending an export that starts after the last one and lies before `p`.
proof fn lemma_export_pushed(s: Seq<u8>, exports: Seq<Export>, e: Export, p: int)
    requires
        exports_before(s, exports, p),
        e.start < e.end <= p,
        forall|j: int| e.start <= j < e.end ==> name_byte(#[trigger] s[j]),
        exports.len() > 0 ==> exports.last().end <= e.start,
    ensures
        exports_before(s, exports.push(e), p),
{
    reveal(exports_before);
    let b = exports.push(e);
    assert forall|k: int| 0 < k < b.len() implies b[k - 1].end <= (#[trigger] b[k]).start by {
        if k < exports.len() {
            assert(b[k - 1] == exports[k - 1]);
        }
    }
}

/// Appending an import that starts after the last one and lies before `p`.
proof fn lemma_import_pushed(s: Seq<u8>, imports: Seq<Import>, imp: Import, p: int)
    requires
        imports_before(s, imports, p),
        import_within(s, imp, p),
        imports.len() > 0 ==> statement_start_of(imports.last()) < statement_start_of(imp),
    ensures
        imports_before(s, imports.push(imp), p),
{
    reveal(imports_before);
    let b = imports.push(imp);
    assert forall|k: int|
        0 < k < b.len() implies statement_start_of(b[k - 1]) < statement_start_of(
        #[trigger] b[k],
    ) by {
        if k < imports.len() {
            assert(b[k - 1] == imports[k - 1]);
        }
    }
}

/// Ending at `p` a waiting dynamic import that lies before `p` keeps the
/// imports well formed before `p + 1`.
proof fn lemma_import_ended(s: Seq<u8>, before: Seq<Import>, after: Seq<Import>, k: int, p: int)
    requires
        imports_before(s, before, p),
        0 <= p < s.len() <= usize::MAX,
        s[p] == 41,
        0 <= k < before.len(),
        pending(before[k]),
        after.len() == before.len(),
        after[k] == ended(before[k], p as usize),
        forall|j: int| 0 <= j < before.len() && j != k ==> #[trigger] after[j] == before[j],
    ensures
        imports_before(s, after, p + 1),
        !pending(after[k]),
{
    reveal(imports_before);
    assert(import_within(s, before[k], p));
    assert forall|j: int| 0 <= j < after.len() implies import_within(
        s,
        #[trigger] after[j],
        p + 1,
    ) && statement_start_of(after[j]) == statement_start_of(before[j]) by {
        assert(import_within(s, before[j], p));
    }
    assert forall|j: int|
        0 < j < after.len() implies statement_start_of(after[j - 1]) < statement_start_of(
        #[trigger] after[j],
    ) by {
        assert(statement_start_of(after[j - 1]) == statement_start_of(before[j - 1]));
        assert(statement_start_of(before[j - 1]) < statement_start_of(before[j]));
    }
}

/// Closing the innermost bracket, when no dynamic import that it remembers
/// is still waiting, keeps every waiting one remembered.
proof fn lemma_bracket_closed(
    before: Seq<Import>,
    after: Seq<Import>,
    stack: Seq<OpenBracket>,
)
    requires
        pending_tracked(before, stack),
        stack.len() > 0,
        after.len() == before.len(),
        forall|j: int|
            0 <= j < after.len() && #[trigger] pending(after[j]) ==> pending(before[j])
                && stack.last().dynamic != Some(j as usize),
    ensures
        pending_tracked(after, stack.drop_last()),
{
    reveal(pending_tracked);
    let sb = stack.drop_last();
    assert forall|j: int|
        0 <= j < after.len() && pending(#[trigger] after[j]) implies exists|d: int|
        0 <= d < sb.len() && #[trigger] sb[d].dynamic == Some(j as usize) by {
        assert(pending(before[j]));
        let d = choose|d: int|
            0 <= d < stack.len() && #[trigger] stack[d].dynamic == Some(j as usize);
        assert(d != stack.len() - 1);
        assert(sb[d] == stack[d]);
    }
}

/// Taking back the last import keeps the invariant.
proof fn lemma_import_retracted(s: Seq<u8>, a: Seq<Import>, stack: Seq<OpenBracket>, p: int)
    requires
        imports_before(s, a, p),
        pending_tracked(a, stack),
        a.len() > 0,
    ensures
        imports_before(s, a.drop_last(), p),
        pending_tracked(a.drop_last(), stack),
{
    reveal(imports_before);
    reveal(pending_tracked);
    let b = a.drop_last();
    assert forall|k: int| 0 <= k < b.len() implies #[trigger] b[k] == a[k] by {}
    assert forall|k: int| 0 <= k < b.len() && pending(#[trigger] b[k]) implies exists|d: int|
        0 <= d < stack.len() && #[trigger] stack[d].dynamic == Some(k as usize) by {
        assert(pending(a[k]));
    }
    assert forall|k: int|
        0 < k < b.len() implies statement_start_of(b[k - 1]) < statement_start_of(
        #[trigger] b[k],
    ) by {
        assert(b[k - 1] == a[k - 1]);
    }
}

/// Growing the bracket stack keeps every waiting dynamic import remembered.
proof fn lemma_stack_grown(imports: Seq<Import>, a: Seq<OpenBracket>, b: Seq<OpenBracket>)
    requires
        pending_tracked(imports, a),
        a.len() <= b.len(),
        forall|d: int| 0 <= d < a.len() ==> b[d] == a[d],
    ensures
        pending_tracked(imports, b),
{
    reveal(pending_tracked);
    assert forall|k: int| 0 <= k < imports.len() && pending(#[trigger] imports[k]) implies exists|
        d: int,
    |
        0 <= d < b.len() && #[trigger] b[d].dynamic == Some(k as usize) by {
        let d = choose|d: int| 0 <= d < a.len() && #[trigger] a[d].dynamic == Some(k as usize);
        assert(b[d] == a[d]);
    }
}

/// A new waiting dynamic import, remembered by the bracket opened with it.
proof fn lemma_opened_dynamic(
    a: Seq<Import>,
    b: Seq<Import>,
    sa: Seq<OpenBracket>,
    sb: Seq<OpenBracket>,
)
    requires
        pending_tracked(a, sa),
        b.len() == a.len() + 1,
        forall|k: int| 0 <= k < a.len() ==> b[k] == a[k],
        sb.len() == sa.len() + 1,
        forall|d: int| 0 <= d < sa.len() ==> sb[d] == sa[d],
        sb.last().dynamic == Some(a.len() as usize),
    ensures
        pending_tracked(b, sb),
{
    reveal(pending_tracked);
    assert forall|k: int| 0 <= k < b.len() && pending(#[trigger] b[k]) implies exists|d: int|
        0 <= d < sb.len() && #[trigger] sb[d].dynamic == Some(k as usize) by {
        if k < a.len() {
            assert(b[k] == a[k]);
            let d = choose|d: int| 0 <= d < sa.len() && #[trigger] sa[d].dynamic == Some(k as usize);
            assert(sb[d] == sa[d]);
        } else {
            assert(sb[sb.len() - 1].dynamic == Some(k as usize));
        }
    }
}

/// Appending a record that does not wait keeps every waiting one remembered.
proof fn lemma_pushed_not_pending(a: Seq<Import>, b: Seq<Import>, stack: Seq<OpenBracket>)
    requires
        pending_tracked(a, stack),
        b.len() == a.len() + 1,
        forall|k: int| 0 <= k < a.len() ==> b[k] == a[k],
        !pending(b.last()),
    ensures
        pending_tracked(b, stack),
{
    reveal(pending_tracked);
    assert forall|k: int| 0 <= k < b.len() && pending(#[trigger] b[k]) implies exists|d: int|
        0 <= d < stack.len() && #[trigger] stack[d].dynamic == Some(k as usize) by {
        assert(k < a.len());
        assert(b[k] == a[k]);
    }
}

} // verus!
