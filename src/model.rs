//! The scanner as a function: the state it keeps, and what each step does to
//! it. `scan` is the result of a whole scan; `parse` returns exactly it.

use crate::chars::{byte, spec_boundary_byte, spec_br_or_ws, spec_keyword_start, spec_punctuator};
use crate::lexer::{slash_is_regex, OpenBracket};
use crate::records::{
    export_word, import_word, is_quote, meta_word, pending, word_at, DynamicImport, Export,
    Import, MetaImport, StaticImport,
};
use vstd::prelude::*;

verus! {

/// The state of a scan: the position of the next byte to read, the last
/// significant byte, the open brackets, the bracket closed last, whether the
/// next `{` opens a class body, the template nesting, the dynamic import
/// whose `)` was met last, how the last `/` was read, and what was emitted.
pub struct Model {
    pub i: int,
    pub last_token: Option<usize>,
    pub stack: Seq<OpenBracket>,
    pub last_closed: OpenBracket,
    pub next_brace_is_class: bool,
    pub template_depth: Option<usize>,
    pub template_stack: Seq<Option<usize>>,
    pub last_dynamic_import: Option<usize>,
    pub last_slash_was_division: bool,
    pub imports: Seq<Import>,
    pub exports: Seq<Export>,
}

pub open spec fn at(m: Model, i: int) -> Model {
    Model { i, ..m }
}

/// The end of a string quoted by `q` whose body starts at `k`: just past the
/// closing quote, or the position of the failure.
pub open spec fn string_end(s: Seq<u8>, k: int, q: u8) -> Result<int, int>
    decreases s.len() - k,
{
    if k < 0 || k >= s.len() {
        Err(s.len() - 1)
    } else if s[k] == q {
        Ok(k + 1)
    } else if s[k] == 92 {
        if k + 1 >= s.len() {
            Err(s.len() - 1)
        } else {
            string_end(s, k + 2, q)
        }
    } else if s[k] == 10 || s[k] == 13 {
        Err(k)
    } else {
        string_end(s, k + 1, q)
    }
}

/// The line break that ends a `//` comment whose second `/` is at `k - 1`,
/// or the end.
pub open spec fn line_end(s: Seq<u8>, k: int) -> int
    decreases s.len() - k,
{
    if k < 0 || k >= s.len() || s[k] == 10 || s[k] == 13 {
        k
    } else {
        line_end(s, k + 1)
    }
}

/// Just past the `*/` of a block comment, searched from `k + 1` on.
pub open spec fn block_end(s: Seq<u8>, k: int) -> Result<int, int>
    decreases s.len() - k,
{
    if k < 0 || k + 1 >= s.len() {
        Err(s.len() - 1)
    } else if s[k + 1] == 42 && k + 2 < s.len() && s[k + 2] == 47 {
        Ok(k + 3)
    } else {
        block_end(s, k + 1)
    }
}

/// The first position at or after `k` that is neither whitespace nor in a
/// comment, or the failure of an unterminated comment.
pub open spec fn skip_ws(s: Seq<u8>, k: int) -> Result<int, int>
    decreases s.len() - k,
{
    if k < 0 || k >= s.len() {
        Ok(k)
    } else if s[k] == 47 {
        if byte(s, k + 1) == 47 {
            let e = line_end(s, k + 1);
            if k < e <= s.len() {
                skip_ws(s, e)
            } else {
                Ok(k)
            }
        } else if byte(s, k + 1) == 42 {
            match block_end(s, k + 1) {
                Ok(e) => if k < e <= s.len() {
                    skip_ws(s, e)
                } else {
                    Ok(k)
                },
                Err(x) => Err(x),
            }
        } else {
            Ok(k)
        }
    } else if spec_br_or_ws(s[k]) {
        skip_ws(s, k + 1)
    } else {
        Ok(k)
    }
}

/// The end of the name that starts at `k`.
pub open spec fn name_end(s: Seq<u8>, k: int) -> int
    decreases s.len() - k,
{
    if k < 0 || k >= s.len() || spec_br_or_ws(s[k]) || spec_punctuator(s[k]) {
        k
    } else {
        name_end(s, k + 1)
    }
}

/// Just past the closing `/` of a regular expression whose body continues at
/// `k`; `in_class` when inside `[...]`.
pub open spec fn regex_end(s: Seq<u8>, k: int, in_class: bool) -> Result<int, int>
    decreases s.len() - k,
{
    if k < 0 || k >= s.len() {
        Err(s.len() - 1)
    } else if s[k] == 10 || s[k] == 13 {
        Err(k)
    } else if s[k] == 92 {
        if k + 1 >= s.len() {
            Err(s.len() - 1)
        } else {
            regex_end(s, k + 2, in_class)
        }
    } else if in_class {
        regex_end(s, k + 1, s[k] != 93)
    } else if s[k] == 91 {
        regex_end(s, k + 1, true)
    } else if s[k] == 47 {
        Ok(k + 1)
    } else {
        regex_end(s, k + 1, false)
    }
}

/// The end of a template chunk that continues at `k`: just past a closing
/// `` ` `` (false), or just past a `${` (true).
pub open spec fn template_end(s: Seq<u8>, k: int) -> Result<(int, bool), int>
    decreases s.len() - k,
{
    if k < 0 || k >= s.len() {
        Err(s.len() - 1)
    } else if s[k] == 36 && k + 1 < s.len() && s[k + 1] == 123 {
        Ok((k + 2, true))
    } else if s[k] == 96 {
        Ok((k + 1, false))
    } else if s[k] == 92 {
        if k + 1 >= s.len() {
            Err(s.len() - 1)
        } else {
            template_end(s, k + 2)
        }
    } else {
        template_end(s, k + 1)
    }
}

/// The first quote at or after `k`, or the end.
pub open spec fn first_quote(s: Seq<u8>, k: int) -> int
    decreases s.len() - k,
{
    if k < 0 || k >= s.len() || is_quote(s[k]) {
        k
    } else {
        first_quote(s, k + 1)
    }
}

/// Skips whitespace and comments from the position of `m`.
pub open spec fn m_skip(s: Seq<u8>, m: Model) -> Result<Model, int> {
    match skip_ws(s, m.i) {
        Ok(k) => Ok(at(m, k)),
        Err(x) => Err(x),
    }
}

/// Reads the quoted specifier at `quote` as a static import of the statement
/// at `start`.
pub open spec fn m_import_string(s: Seq<u8>, m: Model, start: int, quote: int) -> Result<
    Model,
    int,
> {
    if !(0 <= quote < s.len() && is_quote(s[quote])) {
        Err(quote)
    } else {
        match string_end(s, quote + 1, s[quote]) {
        Ok(e) => Ok(
            Model {
                i: e,
                imports: m.imports.push(
                    Import::Static(
                        StaticImport {
                            statement_start: start as usize,
                            start: (quote + 1) as usize,
                            end: (e - 1) as usize,
                            statement_end: e as usize,
                        },
                    ),
                ),
                ..m
            },
        ),
        Err(x) => Err(x),
        }
    }
}

/// `import(` with `(` at `q`.
pub open spec fn m_open_dynamic(m: Model, start: int, q: int, method: bool) -> Model {
    if method {
        Model {
            i: q + 1,
            stack: m.stack.push(
                OpenBracket { token: Some((q - 1) as usize), is_class: false, dynamic: None },
            ),
            ..m
        }
    } else {
        Model {
            i: q + 1,
            imports: m.imports.push(
                Import::Dynamic(
                    DynamicImport {
                        statement_start: start as usize,
                        start: (q + 1) as usize,
                        end: q as usize,
                    },
                ),
            ),
            stack: m.stack.push(
                OpenBracket {
                    token: Some((q - 1) as usize),
                    is_class: false,
                    dynamic: Some(m.imports.len() as usize),
                },
            ),
            ..m
        }
    }
}

/// `import.` with `.` at `dot`, and the position of `m` on what follows it;
/// without `meta` there, the scan goes on just past the `.`.
pub open spec fn m_import_meta(s: Seq<u8>, m: Model, start: int, method: bool, dot: int) -> Model {
    if !method && word_at(s, m.i, meta_word()) {
        Model {
            i: m.i + 4,
            imports: m.imports.push(
                Import::Meta(
                    MetaImport {
                        statement_start: start as usize,
                        start: start as usize,
                        end: (m.i + 4) as usize,
                        statement_end: (m.i + 4) as usize,
                    },
                ),
            ),
            ..m
        }
    } else {
        at(m, dot + 1)
    }
}

/// The forms that begin with the `import` keyword at the position of `m`.
#[verifier::opaque]
pub open spec fn m_import(s: Seq<u8>, m: Model) -> Result<Model, int> {
    let start = m.i;
    let method = match m.last_token {
        Some(t) => byte(s, t as int) == 46,
        None => false,
    };
    match skip_ws(s, start + 6) {
        Err(x) => Err(x),
        Ok(q) => {
            let ch = byte(s, q);
            if ch == 40 {
                Ok(m_open_dynamic(m, start, q, method))
            } else if ch == 46 {
                match skip_ws(s, q + 1) {
                    Err(x) => Err(x),
                    Ok(k) => Ok(m_import_meta(s, at(m, k), start, method, q)),
                }
            } else if m.stack.len() != 0 {
                Ok(at(m, start + 6))
            } else if ch == 39 || ch == 34 {
                m_import_string(s, m, start, q)
            } else if ch == 123 || ch == 42 || q > start + 6 {
                let k = first_quote(s, q);
                if k >= s.len() {
                    Err(s.len() as int)
                } else {
                    m_import_string(s, m, start, k)
                }
            } else {
                Ok(at(m, start + 6))
            }
        },
    }
}

/// Reads a name at the position of `m`, and exports it when it is not empty.
pub open spec fn m_export_name(s: Seq<u8>, m: Model) -> Model {
    let e = name_end(s, m.i);
    if e > m.i {
        Model {
            i: e,
            exports: m.exports.push(Export { start: m.i as usize, end: e as usize }),
            ..m
        }
    } else {
        at(m, e)
    }
}

/// Reads a name at the position of `m` and exports it; when there is none,
/// the scan goes back to `back`.
pub open spec fn m_export_name_or(s: Seq<u8>, m: Model, back: int) -> Model {
    let e = name_end(s, m.i);
    if e > m.i {
        Model {
            i: e,
            exports: m.exports.push(Export { start: m.i as usize, end: e as usize }),
            ..m
        }
    } else {
        at(m, back)
    }
}

pub open spec fn m_export_default(s: Seq<u8>, m: Model) -> Model {
    if word_at(s, m.i, seq![100u8, 101u8, 102u8, 97u8, 117u8, 108u8, 116u8]) {
        Model {
            i: m.i + 7,
            exports: m.exports.push(Export { start: m.i as usize, end: (m.i + 7) as usize }),
            ..m
        }
    } else {
        m
    }
}

/// `async function`, `function`, with an optional `*`: the function's name.
pub open spec fn m_export_function(s: Seq<u8>, m: Model) -> Result<Model, int> {
    let is_async = word_at(s, m.i, seq![97u8, 115u8, 121u8, 110u8, 99u8]);
    let m1 = if is_async {
        m_skip(s, at(m, m.i + 5))
    } else {
        Ok(m)
    };
    match m1 {
        Err(x) => Err(x),
        Ok(m1) => if !word_at(
            s,
            m1.i,
            seq![102u8, 117u8, 110u8, 99u8, 116u8, 105u8, 111u8, 110u8],
        ) {
            Ok(
                at(
                    m1,
                    if is_async {
                        m.i + 5
                    } else {
                        m.i
                    },
                ),
            )
        } else {
            match m_skip(s, at(m1, m1.i + 8)) {
                Err(x) => Err(x),
                Ok(m2) => if byte(s, m2.i) == 42 {
                    match m_skip(s, at(m2, m2.i + 1)) {
                        Err(x) => Err(x),
                        Ok(m3) => Ok(m_export_name_or(s, m3, m2.i + 1)),
                    }
                } else {
                    Ok(m_export_name_or(s, m2, m1.i + 8))
                },
            }
        },
    }
}

pub open spec fn m_export_class(s: Seq<u8>, m: Model) -> Result<Model, int> {
    match m_skip(s, Model { i: m.i + 5, next_brace_is_class: true, ..m }) {
        Err(x) => Err(x),
        Ok(m1) => Ok(m_export_name_or(s, m1, m.i + 5)),
    }
}

/// The bindings of `var`, `let` or `const`.
pub open spec fn m_export_declaration(s: Seq<u8>, m: Model) -> Result<Model, int>
    decreases s.len() - m.i,
{
    match m_skip(s, m) {
        Err(x) => Err(x),
        Ok(m1) => {
            let m2 = m_export_name(s, m1);
            if m2.i == m1.i {
                Ok(m)
            } else {
                match m_skip(s, m2) {
                    Err(x) => Err(x),
                    Ok(m3) => if byte(s, m3.i) != 44 || !(m.i < m3.i + 1 <= s.len()) {
                        Ok(m2)
                    } else {
                        m_export_declaration(s, at(m3, m3.i + 1))
                    },
                }
            }
        },
    }
}

/// Whether the word `as` stands at `i`.
pub open spec fn as_at(s: Seq<u8>, i: int) -> bool {
    &&& 0 <= i < s.len()
    &&& s.len() - i >= 2
    &&& word_at(s, i, seq![97u8, 115u8])
    &&& (i + 2 == s.len() || spec_br_or_ws(byte(s, i + 2)) || spec_punctuator(byte(s, i + 2)))
}

/// Whether the keyword `class` stands at `i`.
pub open spec fn class_at(s: Seq<u8>, i: int) -> bool {
    &&& 0 <= i < s.len()
    &&& s.len() - i >= 5
    &&& word_at(s, i, seq![99u8, 108u8, 97u8, 115u8, 115u8])
    &&& spec_boundary_byte(byte(s, i + 5))
}

/// After a list of exported names: `from 'specifier'`, or nothing.
pub open spec fn m_reexport(s: Seq<u8>, m: Model, start: int) -> Result<Model, int> {
    match skip_ws(s, m.i) {
        Err(x) => Err(x),
        Ok(k) => if !word_at(s, k, seq![102u8, 114u8, 111u8, 109u8]) {
            Ok(m)
        } else {
            match skip_ws(s, k + 4) {
                Err(x) => Err(x),
                Ok(k2) => if k2 < s.len() && is_quote(s[k2]) {
                    m_import_string(s, m, start, k2)
                } else {
                    Err(k2)
                },
            }
        },
    }
}

/// One entry of `export { ... }` and what follows it.
pub open spec fn m_export_list(s: Seq<u8>, m: Model, start: int) -> Result<Model, int>
    decreases s.len() - m.i,
{
    match m_skip(s, m) {
        Err(x) => Err(x),
        Ok(m1) => if byte(s, m1.i) == 125 {
            m_reexport(s, at(m1, m1.i + 1), start)
        } else {
            let e1 = name_end(s, m1.i);
            match skip_ws(s, e1) {
                Err(x) => Err(x),
                Ok(k3) => {
                    let named: Result<(int, int, int), int> = if as_at(s, k3) {
                        match skip_ws(s, k3 + 2) {
                            Err(x) => Err(x),
                            Ok(k4) => {
                                let e2 = name_end(s, k4);
                                match skip_ws(s, e2) {
                                    Err(x) => Err(x),
                                    Ok(k5) => Ok((k4, e2, k5)),
                                }
                            },
                        }
                    } else {
                        Ok((m1.i, e1, k3))
                    };
                    match named {
                        Err(x) => Err(x),
                        Ok((ns, ne, pos)) => {
                            let m2 = if ne > ns {
                                Model {
                                    i: pos,
                                    exports: m1.exports.push(
                                        Export { start: ns as usize, end: ne as usize },
                                    ),
                                    ..m1
                                }
                            } else {
                                at(m1, pos)
                            };
                            let c = byte(s, pos);
                            if c == 44 && m.i < pos + 1 <= s.len() {
                                m_export_list(s, at(m2, pos + 1), start)
                            } else if c == 125 {
                                m_reexport(s, at(m2, pos + 1), start)
                            } else {
                                Err(pos)
                            }
                        },
                    }
                },
            }
        },
    }
}

pub open spec fn m_export_star(s: Seq<u8>, m: Model, start: int) -> Result<Model, int> {
    match m_skip(s, m) {
        Err(x) => Err(x),
        Ok(m1) => if as_at(s, m1.i) {
            match m_skip(s, at(m1, m1.i + 2)) {
                Err(x) => Err(x),
                Ok(m2) => m_reexport(s, m_export_name_or(s, m2, m1.i + 2), start),
            }
        } else {
            m_reexport(s, m, start)
        },
    }
}

/// The forms that begin with the `export` keyword at the position of `m`.
#[verifier::opaque]
pub open spec fn m_export(s: Seq<u8>, m: Model) -> Result<Model, int> {
    let start = m.i;
    match skip_ws(s, start + 6) {
        Err(x) => Err(x),
        Ok(q) => {
            let ch = byte(s, q);
            let mq = at(m, q);
            if q == start + 6 && !spec_punctuator(ch) {
                Ok(mq)
            } else if ch == 100 && word_at(
                s,
                q,
                seq![100u8, 101u8, 102u8, 97u8, 117u8, 108u8, 116u8],
            ) {
                Ok(m_export_default(s, mq))
            } else if (ch == 97 && word_at(s, q, seq![97u8, 115u8, 121u8, 110u8, 99u8])) || (ch
                == 102 && word_at(s, q, seq![102u8, 117u8, 110u8, 99u8, 116u8, 105u8, 111u8, 110u8])) {
                m_export_function(s, mq)
            } else if ch == 99 && class_at(s, q) {
                m_export_class(s, mq)
            } else if ch == 99 && word_at(s, q, seq![99u8, 111u8, 110u8, 115u8, 116u8]) {
                m_export_declaration(s, at(m, q + 5))
            } else if (ch == 118 && word_at(s, q, seq![118u8, 97u8, 114u8])) || (ch == 108
                && word_at(s, q, seq![108u8, 101u8, 116u8])) {
                m_export_declaration(s, at(m, q + 3))
            } else if ch == 123 {
                m_export_list(s, at(m, q + 1), start)
            } else if ch == 42 {
                m_export_star(s, at(m, q + 1), start)
            } else {
                Ok(at(m, start + 6))
            }
        },
    }
}

/// The dynamic import `imp`, ending at `at`.
pub open spec fn ended(imp: Import, at: usize) -> Import {
    match imp {
        Import::Dynamic(d) => Import::Dynamic(
            DynamicImport { statement_start: d.statement_start, start: d.start, end: at },
        ),
        other => other,
    }
}

/// Closes the innermost bracket at the position of `m`; a dynamic import it
/// opened that still waits ends there.
pub open spec fn m_pop(m: Model) -> Model {
    let closed = m.stack.last();
    let m1 = Model { stack: m.stack.drop_last(), ..m };
    match closed.dynamic {
        Some(k) => if k < m.imports.len() && (m.imports[k as int] matches Import::Dynamic(d)
            && d.end < d.start) {
            Model {
                imports: m.imports.update(k as int, ended(m.imports[k as int], m.i as usize)),
                last_dynamic_import: Some(k),
                ..m1
            }
        } else {
            m1
        },
        None => m1,
    }
}

#[verifier::opaque]
pub open spec fn m_open_paren(m: Model) -> Model {
    Model {
        i: m.i + 1,
        stack: m.stack.push(OpenBracket { token: m.last_token, is_class: false, dynamic: None }),
        ..m
    }
}

#[verifier::opaque]
pub open spec fn m_close_paren(m: Model) -> Result<Model, int> {
    if m.stack.len() == 0 {
        Err(m.i)
    } else {
        let m1 = m_pop(m);
        Ok(Model { i: m.i + 1, last_closed: m.stack.last(), ..m1 })
    }
}

/// `{`: takes back the dynamic import whose `)` it follows, then opens.
#[verifier::opaque]
pub open spec fn m_open_brace(m: Model) -> Model {
    let m1 = match m.last_dynamic_import {
        Some(k) => if k < m.imports.len() && k + 1 == m.imports.len() && (
        m.imports[k as int] matches Import::Dynamic(d) && m.last_token == Some(d.end)) {
            Model { imports: m.imports.drop_last(), last_dynamic_import: None, ..m }
        } else {
            m
        },
        None => m,
    };
    Model {
        i: m1.i + 1,
        stack: m1.stack.push(
            OpenBracket { token: m1.last_token, is_class: m1.next_brace_is_class, dynamic: None },
        ),
        next_brace_is_class: false,
        ..m1
    }
}

/// A template chunk read from the position of `m`.
#[verifier::opaque]
pub open spec fn m_template(s: Seq<u8>, m: Model) -> Result<Model, int> {
    match template_end(s, m.i + 1) {
        Err(x) => Err(x),
        Ok((e, false)) => Ok(at(m, e)),
        Ok((e, true)) => Ok(
            Model {
                i: e,
                template_stack: m.template_stack.push(m.template_depth),
                stack: m.stack.push(
                    OpenBracket { token: m.last_token, is_class: false, dynamic: None },
                ),
                template_depth: Some((m.stack.len() + 1) as usize),
                ..m
            },
        ),
    }
}

/// `}`: closes the innermost bracket, which may not be the `(` of a dynamic
/// import, and resumes the template when it closes a `${`.
#[verifier::opaque]
pub open spec fn m_close_brace(s: Seq<u8>, m: Model) -> Result<Model, int> {
    if m.stack.len() == 0 || m.stack.last().dynamic is Some {
        Err(m.i)
    } else {
        let m1 = m_pop(m);
        if m.template_depth == Some(m.stack.len() as usize) {
            let restored = if m.template_stack.len() > 0 {
                m.template_stack.last()
            } else {
                None
            };
            let popped = if m.template_stack.len() > 0 {
                m.template_stack.drop_last()
            } else {
                m.template_stack
            };
            m_template(
                s,
                Model { template_depth: restored, template_stack: popped, ..m1 },
            )
        } else {
            let m2 = Model { last_closed: m.stack.last(), ..m1 };
            match m.template_depth {
                Some(td) => if m2.stack.len() < td {
                    Err(m.i)
                } else {
                    Ok(at(m2, m.i + 1))
                },
                None => Ok(at(m2, m.i + 1)),
            }
        }
    }
}

/// `/`: a comment (not significant), a regular expression or a division.
#[verifier::opaque]
pub open spec fn m_slash(s: Seq<u8>, m: Model) -> Result<(Model, bool), int> {
    let next = byte(s, m.i + 1);
    if next == 47 {
        Ok((at(m, line_end(s, m.i + 1)), false))
    } else if next == 42 {
        match block_end(s, m.i + 1) {
            Ok(e) => Ok((at(m, e), false)),
            Err(x) => Err(x),
        }
    } else if slash_is_regex(s, m.last_token, m.last_closed, m.last_slash_was_division) {
        match regex_end(s, m.i + 1, false) {
            Ok(e) => Ok((Model { i: e, last_slash_was_division: false, ..m }, true)),
            Err(x) => Err(x),
        }
    } else {
        Ok((Model { i: m.i + 1, last_slash_was_division: true, ..m }, true))
    }
}

pub open spec fn with_flag(r: Result<Model, int>) -> Result<(Model, bool), int> {
    match r {
        Ok(m) => Ok((m, true)),
        Err(x) => Err(x),
    }
}

/// The token that starts with the byte at the position of `m`, which is not
/// whitespace; with whether it is significant.
pub open spec fn m_dispatch(s: Seq<u8>, m: Model) -> Result<(Model, bool), int> {
    let i = m.i;
    let c = s[i];
    if c == 101 {
        if m.stack.len() == 0 && spec_keyword_start(s, i) && word_at(
            s,
            i + 1,
            seq![120u8, 112u8, 111u8, 114u8, 116u8],
        ) {
            with_flag(m_export(s, m))
        } else {
            Ok((at(m, i + 1), true))
        }
    } else if c == 105 {
        if spec_keyword_start(s, i) && word_at(s, i + 1, seq![109u8, 112u8, 111u8, 114u8, 116u8]) {
            with_flag(m_import(s, m))
        } else {
            Ok((at(m, i + 1), true))
        }
    } else if c == 99 {
        if spec_keyword_start(s, i) && word_at(s, i + 1, seq![108u8, 97u8, 115u8, 115u8])
            && spec_br_or_ws(byte(s, i + 5)) {
            Ok((Model { i: i + 1, next_brace_is_class: true, ..m }, true))
        } else {
            Ok((at(m, i + 1), true))
        }
    } else if c == 40 {
        Ok((m_open_paren(m), true))
    } else if c == 41 {
        with_flag(m_close_paren(m))
    } else if c == 123 {
        Ok((m_open_brace(m), true))
    } else if c == 125 {
        with_flag(m_close_brace(s, m))
    } else if c == 39 || c == 34 {
        match string_end(s, i + 1, c) {
            Ok(e) => Ok((at(m, e), true)),
            Err(x) => Err(x),
        }
    } else if c == 47 {
        m_slash(s, m)
    } else if c == 96 {
        with_flag(m_template(s, m))
    } else {
        Ok((at(m, i + 1), true))
    }
}

/// One step of the scan from the position of `m`, which lies in the source.
pub open spec fn m_step(s: Seq<u8>, m: Model) -> Result<Model, int> {
    if spec_br_or_ws(s[m.i]) {
        Ok(at(m, m.i + 1))
    } else {
        match m_dispatch(s, m) {
            Err(x) => Err(x),
            Ok((m1, significant)) => if significant {
                Ok(Model { last_token: Some((m1.i - 1) as usize), ..m1 })
            } else {
                Ok(m1)
            },
        }
    }
}

/// The scan from the state `m` to the end of the source.
pub open spec fn m_run(s: Seq<u8>, m: Model) -> Result<Model, int>
    decreases s.len() - m.i,
{
    if 0 <= m.i < s.len() {
        match m_step(s, m) {
            Err(x) => Err(x),
            Ok(m1) => if m.i < m1.i <= s.len() {
                m_run(s, m1)
            } else {
                Err(m.i)
            },
        }
    } else if m.template_depth is Some || m.stack.len() > 0 {
        Err(if s.len() > 0 {
            s.len() - 1
        } else {
            0
        })
    } else {
        Ok(m)
    }
}

/// The state at the start of a scan.
pub open spec fn initial() -> Model {
    Model {
        i: 0,
        last_token: None,
        stack: seq![],
        last_closed: OpenBracket { token: None, is_class: false, dynamic: None },
        next_brace_is_class: false,
        template_depth: None,
        template_stack: seq![],
        last_dynamic_import: None,
        last_slash_was_division: false,
        imports: seq![],
        exports: seq![],
    }
}

/// The whole scan of `s`: the final state, or the position of the failure.
pub open spec fn scan(s: Seq<u8>) -> Result<Model, int> {
    m_run(s, initial())
}

/// Skipping whitespace and comments never moves backwards.
pub proof fn lemma_skip_ws_forward(s: Seq<u8>, k: int)
    requires
        skip_ws(s, k) is Ok,
    ensures
        k <= skip_ws(s, k)->Ok_0,
    decreases s.len() - k,
{
    if 0 <= k < s.len() {
        if s[k] == 47 {
            if byte(s, k + 1) == 47 {
                let e = line_end(s, k + 1);
                if k < e <= s.len() {
                    lemma_skip_ws_forward(s, e);
                }
            } else if byte(s, k + 1) == 42 {
                if let Ok(e) = block_end(s, k + 1) {
                    if k < e <= s.len() {
                        lemma_skip_ws_forward(s, e);
                    }
                }
            }
        } else if spec_br_or_ws(s[k]) {
            lemma_skip_ws_forward(s, k + 1);
        }
    }
}

/// Whitespace and comments change nothing in a scan but its position.
proof fn lemma_run_skips(s: Seq<u8>, m: Model, q: int)
    requires
        skip_ws(s, m.i) == Ok::<int, int>(q),
        0 <= m.i <= q < s.len(),
    ensures
        m_run(s, m) == m_run(s, at(m, q)),
    decreases q - m.i,
{
    if m.i < q {
        reveal(m_slash);
        let c = s[m.i];
        if spec_br_or_ws(c) {
            assert(m_step(s, m) == Ok::<Model, int>(at(m, m.i + 1)));
            lemma_skip_ws_forward(s, m.i + 1);
            lemma_run_skips(s, at(m, m.i + 1), q);
        } else if byte(s, m.i + 1) == 47 {
            let e = line_end(s, m.i + 1);
            assert(m.i < e <= s.len() && skip_ws(s, e) == Ok::<int, int>(q));
            lemma_skip_ws_forward(s, e);
            assert(m_step(s, m) == Ok::<Model, int>(at(m, e)));
            lemma_run_skips(s, at(m, e), q);
        } else {
            let e = block_end(s, m.i + 1)->Ok_0;
            assert(m.i < e <= s.len() && skip_ws(s, e) == Ok::<int, int>(q));
            lemma_skip_ws_forward(s, e);
            assert(m_step(s, m) == Ok::<Model, int>(at(m, e)));
            lemma_run_skips(s, at(m, e), q);
        }
    }
}

/// A dynamic import whose `)` is followed, past whitespace and comments, by
/// `{` names a method (`{ import(x) { ... } }`) and is taken back: from that
/// `)` on, the scan goes on as from a state without it, just past the `{`.
pub proof fn lemma_method_named_import(s: Seq<u8>, m: Model, k: usize, q: int)
    requires
        s.len() <= usize::MAX,
        0 <= m.i < s.len(),
        s[m.i] == 41,
        k + 1 == m.imports.len(),
        pending(m.imports[k as int]),
        m.stack.len() > 0,
        m.stack.last().dynamic == Some(k),
        skip_ws(s, m.i + 1) == Ok::<int, int>(q),
        q < s.len(),
        s[q] == 123,
    ensures
        exists|after: Model|
            after.imports == m.imports.drop_last() && after.i == q + 1 && m_run(s, m) == m_run(
                s,
                after,
            ),
{
    reveal(m_close_paren);
    reveal(m_open_brace);
    let closed = m_pop(m);
    let ended_import = ended(m.imports[k as int], m.i as usize);
    assert(closed.imports == m.imports.update(k as int, ended_import));
    let ma = Model {
        i: m.i + 1,
        last_closed: m.stack.last(),
        last_token: Some(m.i as usize),
        ..closed
    };
    assert(m_step(s, m) == Ok::<Model, int>(ma));
    assert(m_run(s, m) == m_run(s, ma));
    lemma_skip_ws_forward(s, m.i + 1);
    lemma_run_skips(s, ma, q);
    let mq = at(ma, q);
    assert(m_open_brace(mq).imports =~= m.imports.drop_last());
    let after = Model { last_token: Some(q as usize), ..m_open_brace(mq) };
    assert(m_step(s, mq) == Ok::<Model, int>(after));
    assert(m_run(s, mq) == m_run(s, after));
    assert(after.imports == m.imports.drop_last() && after.i == q + 1 && m_run(s, m) == m_run(
        s,
        after,
    ));
}

} // verus!
