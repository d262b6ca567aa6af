//! What a scan does to the records it has already emitted: it ends dynamic
//! imports and takes back the last one, but never adds a record that starts
//! before its position. So a dynamic import that names a method is not in the
//! result.

use crate::model::{
    at, lemma_method_named_import, m_close_brace, m_close_paren, m_export, m_export_declaration,
    m_export_list, m_import, m_import_meta, m_import_string, m_open_brace, m_open_dynamic,
    m_open_paren, m_pop, m_reexport, m_run, m_slash, m_step, m_template, skip_ws, Model,
};
use crate::records::{pending, statement_start_of, Import};
use vstd::prelude::*;

verus! {

/// Each record of `b` that starts before `p` is the record at the same index
/// of `a`, as far as its start goes.
pub open spec fn kept_before(a: Seq<Import>, b: Seq<Import>, p: int) -> bool {
    forall|j: int|
        0 <= j < b.len() && statement_start_of(#[trigger] b[j]) < p ==> j < a.len()
            && statement_start_of(a[j]) == statement_start_of(b[j])
}

proof fn lemma_kept_trans(a: Seq<Import>, b: Seq<Import>, c: Seq<Import>, p: int, p2: int)
    requires
        kept_before(a, b, p),
        kept_before(b, c, p2),
        p <= p2,
    ensures
        kept_before(a, c, p),
{
    assert forall|j: int| 0 <= j < c.len() && statement_start_of(#[trigger] c[j]) < p implies j
        < a.len() && statement_start_of(a[j]) == statement_start_of(c[j]) by {
        assert(statement_start_of(b[j]) == statement_start_of(c[j]));
    }
}

proof fn lemma_kept_push(a: Seq<Import>, x: Import, p: int)
    requires
        statement_start_of(x) >= p,
    ensures
        kept_before(a, a.push(x), p),
{
    assert forall|j: int|
        0 <= j < a.push(x).len() && statement_start_of(#[trigger] a.push(x)[j]) < p implies j
        < a.len() && statement_start_of(a[j]) == statement_start_of(a.push(x)[j]) by {
        if j == a.len() {
            assert(a.push(x)[j] == x);
        }
    }
}

proof fn lemma_kept_same(a: Seq<Import>, b: Seq<Import>, p: int)
    requires
        b.len() <= a.len(),
        forall|j: int|
            0 <= j < b.len() ==> statement_start_of(#[trigger] b[j]) == statement_start_of(a[j]),
    ensures
        kept_before(a, b, p),
{
}

proof fn lemma_kept_pop(m: Model)
    requires
        m.stack.len() > 0,
    ensures
        kept_before(m.imports, m_pop(m).imports, m.i),
{
    let m2 = m_pop(m);
    assert forall|j: int| 0 <= j < m2.imports.len() implies statement_start_of(
        #[trigger] m2.imports[j],
    ) == statement_start_of(m.imports[j]) by {}
    lemma_kept_same(m.imports, m2.imports, m.i);
}

proof fn lemma_kept_import_string(s: Seq<u8>, m: Model, start: int, quote: int)
    requires
        0 <= start <= usize::MAX,
    ensures
        m_import_string(s, m, start, quote) matches Ok(m2) ==> kept_before(
            m.imports,
            m2.imports,
            start,
        ),
{
    if let Ok(m2) = m_import_string(s, m, start, quote) {
        lemma_kept_push(m.imports, m2.imports.last(), start);
        assert(m2.imports == m.imports.push(m2.imports.last()));
    }
}

proof fn lemma_kept_import(s: Seq<u8>, m: Model)
    requires
        0 <= m.i <= usize::MAX,
    ensures
        m_import(s, m) matches Ok(m2) ==> kept_before(m.imports, m2.imports, m.i),
{
    reveal(m_import);
    let start = m.i;
    lemma_kept_same(m.imports, m.imports, start);
    if let Ok(q) = skip_ws(s, start + 6) {
        let method = match m.last_token {
            Some(t) => crate::chars::byte(s, t as int) == 46,
            None => false,
        };
        let md = m_open_dynamic(m, start, q, method);
        if !method {
            lemma_kept_push(m.imports, md.imports.last(), start);
            assert(md.imports == m.imports.push(md.imports.last()));
        }
        if let Ok(k) = skip_ws(s, q + 1) {
            let mm = m_import_meta(s, at(m, k), start, method, q);
            if mm.imports.len() > m.imports.len() {
                lemma_kept_push(m.imports, mm.imports.last(), start);
                assert(mm.imports == m.imports.push(mm.imports.last()));
            }
        }
        lemma_kept_import_string(s, m, start, q);
        lemma_kept_import_string(s, m, start, crate::model::first_quote(s, q));
    }
}

proof fn lemma_kept_reexport(s: Seq<u8>, m: Model, start: int)
    requires
        0 <= start <= usize::MAX,
    ensures
        m_reexport(s, m, start) matches Ok(m2) ==> kept_before(m.imports, m2.imports, start),
{
    lemma_kept_same(m.imports, m.imports, start);
    if let Ok(k) = skip_ws(s, m.i) {
        if let Ok(k2) = skip_ws(s, k + 4) {
            lemma_kept_import_string(s, m, start, k2);
        }
    }
}

proof fn lemma_kept_export_list(s: Seq<u8>, m: Model, start: int)
    requires
        0 <= start <= usize::MAX,
    ensures
        m_export_list(s, m, start) matches Ok(m2) ==> kept_before(m.imports, m2.imports, start),
    decreases s.len() - m.i,
{
    if let Ok(m2) = m_export_list(s, m, start) {
        if let Ok(m1) = crate::model::m_skip(s, m) {
            lemma_kept_reexport(s, at(m1, m1.i + 1), start);
            let e1 = crate::model::name_end(s, m1.i);
            if let Ok(k3) = skip_ws(s, e1) {
                let named: Result<(int, int, int), int> = if crate::model::as_at(s, k3) {
                    match skip_ws(s, k3 + 2) {
                        Err(x) => Err(x),
                        Ok(k4) => {
                            let e2 = crate::model::name_end(s, k4);
                            match skip_ws(s, e2) {
                                Err(x) => Err(x),
                                Ok(k5) => Ok((k4, e2, k5)),
                            }
                        },
                    }
                } else {
                    Ok((m1.i, e1, k3))
                };
                if let Ok((ns, ne, pos)) = named {
                    let m3 = if ne > ns {
                        crate::model::Model {
                            i: pos,
                            exports: m1.exports.push(
                                crate::records::Export { start: ns as usize, end: ne as usize },
                            ),
                            ..m1
                        }
                    } else {
                        at(m1, pos)
                    };
                    if crate::chars::byte(s, pos) == 44 && m.i < pos + 1 <= s.len() {
                        lemma_kept_export_list(s, at(m3, pos + 1), start);
                    }
                    lemma_kept_reexport(s, at(m3, pos + 1), start);
                }
            }
        }
    }
}

proof fn lemma_kept_export(s: Seq<u8>, m: Model)
    requires
        0 <= m.i <= usize::MAX,
    ensures
        m_export(s, m) matches Ok(m2) ==> kept_before(m.imports, m2.imports, m.i),
{
    reveal(m_export);
    let start = m.i;
    lemma_kept_same(m.imports, m.imports, start);
    if let Ok(q) = skip_ws(s, start + 6) {
        lemma_decl_imports(s, at(m, q + 5));
        lemma_decl_imports(s, at(m, q + 3));
        lemma_kept_export_list(s, at(m, q + 1), start);
        let m0 = at(m, q + 1);
        if let Ok(m1) = crate::model::m_skip(s, m0) {
            if let Ok(m2) = crate::model::m_skip(s, at(m1, m1.i + 2)) {
                lemma_kept_reexport(
                    s,
                    crate::model::m_export_name_or(s, m2, m1.i + 2),
                    start,
                );
            }
        }
        lemma_kept_reexport(s, m0, start);
    }
}

/// The bindings of a declaration add no import.
proof fn lemma_decl_imports(s: Seq<u8>, m: Model)
    ensures
        m_export_declaration(s, m) matches Ok(m2) ==> m2.imports == m.imports,
    decreases s.len() - m.i,
{
    if let Ok(m1) = crate::model::m_skip(s, m) {
        let m2 = crate::model::m_export_name(s, m1);
        if let Ok(m3) = crate::model::m_skip(s, m2) {
            if m.i < m3.i + 1 <= s.len() {
                lemma_decl_imports(s, at(m3, m3.i + 1));
            }
        }
    }
}

proof fn lemma_kept_step(s: Seq<u8>, m: Model)
    requires
        0 <= m.i < s.len(),
        s.len() <= usize::MAX,
    ensures
        m_step(s, m) matches Ok(m2) ==> kept_before(m.imports, m2.imports, m.i),
{
    reveal(m_open_paren);
    reveal(m_close_paren);
    reveal(m_open_brace);
    reveal(m_close_brace);
    reveal(m_template);
    reveal(m_slash);
    lemma_kept_same(m.imports, m.imports, m.i);
    lemma_kept_import(s, m);
    lemma_kept_export(s, m);
    if m.stack.len() > 0 {
        lemma_kept_pop(m);
        let m1 = m_pop(m);
        let restored = if m.template_stack.len() > 0 {
            m.template_stack.last()
        } else {
            None
        };
        let popped = if m.template_stack.len() > 0 {
            m.template_stack.drop_last()
        } else {
            m.template_stack
        };
        let m3 = Model { template_depth: restored, template_stack: popped, ..m1 };
        assert(m3.imports == m1.imports);
    }
    let mb = m_open_brace(m);
    if mb.imports.len() < m.imports.len() {
        assert(mb.imports == m.imports.drop_last());
        lemma_kept_same(m.imports, mb.imports, m.i);
    }
}

proof fn lemma_kept_run(s: Seq<u8>, m: Model)
    requires
        0 <= m.i,
        s.len() <= usize::MAX,
    ensures
        m_run(s, m) matches Ok(mf) ==> kept_before(m.imports, mf.imports, m.i),
    decreases s.len() - m.i,
{
    lemma_kept_same(m.imports, m.imports, m.i);
    if 0 <= m.i < s.len() {
        lemma_kept_step(s, m);
        if let Ok(m1) = m_step(s, m) {
            if m.i < m1.i <= s.len() {
                lemma_kept_run(s, m1);
                if let Ok(mf) = m_run(s, m1) {
                    lemma_kept_trans(m.imports, m1.imports, mf.imports, m.i, m1.i);
                }
            }
        }
    }
}

/// No dynamic import that names a method is reported: when the `)` of the
/// last dynamic import emitted is followed, past whitespace and comments, by
/// `{` (`{ import(x) { ... } }`), no record of the scan's result starts where
/// that import started, as long as the records before it start earlier.
pub proof fn lemma_method_import_not_reported(s: Seq<u8>, m: Model, k: usize, q: int)
    requires
        s.len() <= usize::MAX,
        0 <= m.i < s.len(),
        s[m.i] == 41,
        k + 1 == m.imports.len(),
        pending(m.imports[k as int]),
        statement_start_of(m.imports[k as int]) < m.i,
        forall|j: int|
            0 <= j < k ==> statement_start_of(#[trigger] m.imports[j]) < statement_start_of(
                m.imports[k as int],
            ),
        m.stack.len() > 0,
        m.stack.last().dynamic == Some(k),
        skip_ws(s, m.i + 1) == Ok::<int, int>(q),
        q < s.len(),
        s[q] == 123,
    ensures
        m_run(s, m) matches Ok(mf) ==> forall|j: int|
            0 <= j < mf.imports.len() ==> statement_start_of(#[trigger] mf.imports[j])
                != statement_start_of(m.imports[k as int]),
{
    lemma_method_named_import(s, m, k, q);
    let after = choose|after: Model|
        after.imports == m.imports.drop_last() && after.i == q + 1 && m_run(s, m) == m_run(
            s,
            after,
        );
    crate::model::lemma_skip_ws_forward(s, m.i + 1);
    lemma_kept_run(s, after);
    if let Ok(mf) = m_run(s, m) {
        let x = statement_start_of(m.imports[k as int]);
        assert forall|j: int| 0 <= j < mf.imports.len() implies statement_start_of(
            #[trigger] mf.imports[j],
        ) != x by {
            if statement_start_of(mf.imports[j]) == x {
                assert(j < after.imports.len());
                assert(after.imports[j] == m.imports[j]);
            }
        }
    }
}

} // verus!
