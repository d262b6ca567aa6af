//! A comment in front of the source shifts the scan: every position it
//! reports moves by the comment's length, and nothing else changes.

use crate::chars::{
    byte, preceded_by, spec_boundary_byte, spec_br_or_ws, spec_expression_keyword,
    spec_expression_terminator, spec_keyword_start, spec_paren_keyword, spec_punctuator,
};
use crate::lexer::{slash_is_regex, OpenBracket};
use crate::model::{
    as_at, at, block_end, class_at, ended, first_quote, initial, line_end, m_close_brace,
    m_close_paren, m_dispatch, m_export, m_export_class, m_export_declaration, m_export_default,
    m_export_function, m_export_list, m_export_name, m_export_name_or, m_export_star, m_import, m_import_meta,
    m_import_string, m_open_brace, m_open_dynamic, m_open_paren, m_pop, m_reexport, m_run,
    m_skip, m_slash, m_step, m_template, name_end, regex_end, scan, skip_ws, string_end,
    template_end, Model,
};
use crate::records::{
    is_quote, meta_word, word_at, DynamicImport, Export, Import, MetaImport, StaticImport,
};
use vstd::prelude::*;

verus! {

pub open spec fn shift_pos(x: usize, k: int) -> usize {
    (x + k) as usize
}

pub open spec fn shift_opt(o: Option<usize>, k: int) -> Option<usize> {
    match o {
        Some(x) => Some(shift_pos(x, k)),
        None => None,
    }
}

pub open spec fn shift_bracket(b: OpenBracket, k: int) -> OpenBracket {
    OpenBracket { token: shift_opt(b.token, k), is_class: b.is_class, dynamic: b.dynamic }
}

/// The record `imp` with every offset `k` larger.
pub open spec fn shift_import(imp: Import, k: int) -> Import {
    match imp {
        Import::Static(x) => Import::Static(
            StaticImport {
                statement_start: shift_pos(x.statement_start, k),
                start: shift_pos(x.start, k),
                end: shift_pos(x.end, k),
                statement_end: shift_pos(x.statement_end, k),
            },
        ),
        Import::Dynamic(x) => Import::Dynamic(
            DynamicImport {
                statement_start: shift_pos(x.statement_start, k),
                start: shift_pos(x.start, k),
                end: shift_pos(x.end, k),
            },
        ),
        Import::Meta(x) => Import::Meta(
            MetaImport {
                statement_start: shift_pos(x.statement_start, k),
                start: shift_pos(x.start, k),
                end: shift_pos(x.end, k),
                statement_end: shift_pos(x.statement_end, k),
            },
        ),
    }
}

/// The export `e` with both offsets `k` larger.
pub open spec fn shift_export(e: Export, k: int) -> Export {
    Export { start: shift_pos(e.start, k), end: shift_pos(e.end, k) }
}

pub open spec fn shift_imports(v: Seq<Import>, k: int) -> Seq<Import> {
    Seq::new(v.len(), |j: int| shift_import(v[j], k))
}

pub open spec fn shift_exports(v: Seq<Export>, k: int) -> Seq<Export> {
    Seq::new(v.len(), |j: int| shift_export(v[j], k))
}

pub open spec fn shift_stack(v: Seq<OpenBracket>, k: int) -> Seq<OpenBracket> {
    Seq::new(v.len(), |j: int| shift_bracket(v[j], k))
}

/// The state `m` with every position moved by `k`.
pub open spec fn shift_model(m: Model, k: int) -> Model {
    Model {
        i: m.i + k,
        last_token: shift_opt(m.last_token, k),
        stack: shift_stack(m.stack, k),
        last_closed: shift_bracket(m.last_closed, k),
        imports: shift_imports(m.imports, k),
        exports: shift_exports(m.exports, k),
        ..m
    }
}

pub open spec fn shift_result(r: Result<Model, int>, k: int) -> Result<Model, int> {
    match r {
        Ok(m) => Ok(shift_model(m, k)),
        Err(x) => Err(x + k),
    }
}

pub open spec fn shift_int(r: Result<int, int>, k: int) -> Result<int, int> {
    match r {
        Ok(x) => Ok(x + k),
        Err(x) => Err(x + k),
    }
}

/// `t` is `s` behind `k` bytes that end with a `/`.
pub open spec fn shifted(t: Seq<u8>, s: Seq<u8>, k: int) -> bool {
    &&& k >= 1
    &&& t.len() == s.len() + k
    &&& t.len() <= usize::MAX
    &&& t[k - 1] == 47
    &&& forall|x: int| 0 <= x < s.len() ==> #[trigger] t[x + k] == s[x]
}

proof fn lemma_byte(t: Seq<u8>, s: Seq<u8>, k: int, x: int)
    requires
        shifted(t, s, k),
        x >= 0,
    ensures
        byte(t, x + k) == byte(s, x),
{
    if x < s.len() {
        assert(t[x + k] == s[x]);
    }
}

proof fn lemma_string_end(t: Seq<u8>, s: Seq<u8>, k: int, x: int, q: u8)
    requires
        shifted(t, s, k),
        x >= 0,
    ensures
        string_end(t, x + k, q) == shift_int(string_end(s, x, q), k),
        string_end(s, x, q) matches Ok(e) ==> x < e <= s.len(),
        string_end(s, x, q) matches Err(e) ==> -1 <= e < s.len(),
    decreases s.len() - x,
{
    if x < s.len() {
        assert(t[x + k] == s[x]);
        if s[x] != q && s[x] == 92 && x + 1 < s.len() {
            lemma_string_end(t, s, k, x + 2, q);
        } else if s[x] != q && s[x] != 92 && s[x] != 10 && s[x] != 13 {
            lemma_string_end(t, s, k, x + 1, q);
        }
    }
}

proof fn lemma_line_end(t: Seq<u8>, s: Seq<u8>, k: int, x: int)
    requires
        shifted(t, s, k),
        x >= 0,
    ensures
        line_end(t, x + k) == line_end(s, x) + k,
        x <= line_end(s, x) <= if x <= s.len() { s.len() as int } else { x },
    decreases s.len() - x,
{
    if x < s.len() {
        assert(t[x + k] == s[x]);
        if s[x] != 10 && s[x] != 13 {
            lemma_line_end(t, s, k, x + 1);
        }
    }
}

proof fn lemma_block_end(t: Seq<u8>, s: Seq<u8>, k: int, x: int)
    requires
        shifted(t, s, k),
        x >= 0,
    ensures
        block_end(t, x + k) == shift_int(block_end(s, x), k),
        block_end(s, x) matches Ok(e) ==> x < e <= s.len(),
        block_end(s, x) matches Err(e) ==> -1 <= e < s.len(),
    decreases s.len() - x,
{
    if x + 1 < s.len() {
        assert(t[x + 1 + k] == s[x + 1]);
        if x + 2 < s.len() {
            assert(t[x + 2 + k] == s[x + 2]);
        }
        lemma_block_end(t, s, k, x + 1);
    }
}

proof fn lemma_skip_ws(t: Seq<u8>, s: Seq<u8>, k: int, x: int)
    requires
        shifted(t, s, k),
        0 <= x <= s.len(),
    ensures
        skip_ws(t, x + k) == shift_int(skip_ws(s, x), k),
        skip_ws(s, x) matches Ok(e) ==> x <= e <= s.len(),
        skip_ws(s, x) matches Err(e) ==> -1 <= e < s.len(),
    decreases s.len() - x,
{
    if x < s.len() {
        assert(t[x + k] == s[x]);
        lemma_byte(t, s, k, x + 1);
        if s[x] == 47 {
            if byte(s, x + 1) == 47 {
                lemma_line_end(t, s, k, x + 1);
                let e = line_end(s, x + 1);
                if x < e <= s.len() {
                    lemma_skip_ws(t, s, k, e);
                }
            } else if byte(s, x + 1) == 42 {
                lemma_block_end(t, s, k, x + 1);
                if let Ok(e) = block_end(s, x + 1) {
                    if x < e <= s.len() {
                        lemma_skip_ws(t, s, k, e);
                    }
                }
            }
        } else if spec_br_or_ws(s[x]) {
            lemma_skip_ws(t, s, k, x + 1);
        }
    }
}

proof fn lemma_name_end(t: Seq<u8>, s: Seq<u8>, k: int, x: int)
    requires
        shifted(t, s, k),
        0 <= x <= s.len(),
    ensures
        name_end(t, x + k) == name_end(s, x) + k,
        x <= name_end(s, x) <= s.len(),
    decreases s.len() - x,
{
    if x < s.len() {
        assert(t[x + k] == s[x]);
        if !spec_br_or_ws(s[x]) && !spec_punctuator(s[x]) {
            lemma_name_end(t, s, k, x + 1);
        }
    }
}

proof fn lemma_regex_end(t: Seq<u8>, s: Seq<u8>, k: int, x: int, in_class: bool)
    requires
        shifted(t, s, k),
        x >= 0,
    ensures
        regex_end(t, x + k, in_class) == shift_int(regex_end(s, x, in_class), k),
        regex_end(s, x, in_class) matches Ok(e) ==> x < e <= s.len(),
        regex_end(s, x, in_class) matches Err(e) ==> -1 <= e < s.len(),
    decreases s.len() - x,
{
    if x < s.len() {
        assert(t[x + k] == s[x]);
        let c = s[x];
        if c == 10 || c == 13 {
        } else if c == 92 {
            if x + 1 < s.len() {
                lemma_regex_end(t, s, k, x + 2, in_class);
            }
        } else if in_class {
            lemma_regex_end(t, s, k, x + 1, c != 93);
        } else if c == 91 {
            lemma_regex_end(t, s, k, x + 1, true);
        } else if c != 47 {
            lemma_regex_end(t, s, k, x + 1, false);
        }
    }
}

pub open spec fn shift_pair(r: Result<(int, bool), int>, k: int) -> Result<(int, bool), int> {
    match r {
        Ok((e, b)) => Ok((e + k, b)),
        Err(x) => Err(x + k),
    }
}

proof fn lemma_template_end(t: Seq<u8>, s: Seq<u8>, k: int, x: int)
    requires
        shifted(t, s, k),
        x >= 0,
    ensures
        template_end(t, x + k) == shift_pair(template_end(s, x), k),
        template_end(s, x) matches Ok((e, b)) ==> x < e <= s.len(),
        template_end(s, x) matches Err(e) ==> -1 <= e < s.len(),
    decreases s.len() - x,
{
    if x < s.len() {
        assert(t[x + k] == s[x]);
        if x + 1 < s.len() {
            assert(t[x + 1 + k] == s[x + 1]);
        }
        let c = s[x];
        if c == 36 && x + 1 < s.len() && s[x + 1] == 123 {
        } else if c == 96 {
        } else if c == 92 {
            if x + 1 < s.len() {
                lemma_template_end(t, s, k, x + 2);
            }
        } else {
            lemma_template_end(t, s, k, x + 1);
        }
    }
}

proof fn lemma_first_quote(t: Seq<u8>, s: Seq<u8>, k: int, x: int)
    requires
        shifted(t, s, k),
        0 <= x <= s.len(),
    ensures
        first_quote(t, x + k) == first_quote(s, x) + k,
        x <= first_quote(s, x) <= s.len(),
    decreases s.len() - x,
{
    if x < s.len() {
        assert(t[x + k] == s[x]);
        lemma_first_quote(t, s, k, x + 1);
    }
}

proof fn lemma_word_at(t: Seq<u8>, s: Seq<u8>, k: int, x: int, w: Seq<u8>)
    requires
        shifted(t, s, k),
        x >= 0,
    ensures
        word_at(t, x + k, w) == word_at(s, x, w),
{
    if x + w.len() <= s.len() {
        assert(t.subrange(x + k, x + k + w.len()) =~= s.subrange(x, x + w.len())) by {
            assert forall|j: int| 0 <= j < w.len() implies #[trigger] t.subrange(
                x + k,
                x + k + w.len(),
            )[j] == s.subrange(x, x + w.len())[j] by {
                assert(t[x + j + k] == s[x + j]);
            }
        }
    }
}

proof fn lemma_keyword_start(t: Seq<u8>, s: Seq<u8>, k: int, x: int)
    requires
        shifted(t, s, k),
        x >= 0,
    ensures
        spec_keyword_start(t, x + k) == spec_keyword_start(s, x),
{
    if x > 0 {
        lemma_byte(t, s, k, x - 1);
    } else {
        assert(byte(t, k - 1) == 47);
    }
}

pub open spec fn no_slash(kw: Seq<u8>) -> bool {
    forall|j: int| 0 <= j < kw.len() ==> kw[j] != 47
}

proof fn lemma_preceded_by(t: Seq<u8>, s: Seq<u8>, k: int, x: int, kw: Seq<u8>)
    requires
        shifted(t, s, k),
        x >= 0,
        kw.len() >= 1,
        no_slash(kw),
    ensures
        preceded_by(t, x + k, kw) == preceded_by(s, x, kw),
{
    if kw.len() <= x + 1 {
        lemma_word_at(t, s, k, x + 1 - kw.len(), kw);
        lemma_keyword_start(t, s, k, x + 1 - kw.len());
    } else if kw.len() <= x + k + 1 && x + k < t.len() {
        let j = kw.len() - x - 2;
        assert(t.subrange(x + k + 1 - kw.len(), x + k + 1)[j] == t[k - 1]);
    }
}

proof fn lemma_expression_keyword(t: Seq<u8>, s: Seq<u8>, k: int, x: int)
    requires
        shifted(t, s, k),
        x >= 0,
    ensures
        spec_expression_keyword(t, x + k) == spec_expression_keyword(s, x),
{
    lemma_preceded_by(t, s, k, x, seq![99u8, 97u8, 115u8, 101u8]);
    lemma_preceded_by(t, s, k, x, seq![100u8, 101u8, 108u8, 101u8, 116u8, 101u8]);
    lemma_preceded_by(t, s, k, x, seq![100u8, 111u8]);
    lemma_preceded_by(t, s, k, x, seq![101u8, 108u8, 115u8, 101u8]);
    lemma_preceded_by(t, s, k, x, seq![105u8, 110u8]);
    lemma_preceded_by(
        t,
        s,
        k,
        x,
        seq![105u8, 110u8, 115u8, 116u8, 97u8, 110u8, 99u8, 101u8, 111u8, 102u8],
    );
    lemma_preceded_by(t, s, k, x, seq![110u8, 101u8, 119u8]);
    lemma_preceded_by(t, s, k, x, seq![114u8, 101u8, 116u8, 117u8, 114u8, 110u8]);
    lemma_preceded_by(t, s, k, x, seq![116u8, 104u8, 114u8, 111u8, 119u8]);
    lemma_preceded_by(t, s, k, x, seq![116u8, 121u8, 112u8, 101u8, 111u8, 102u8]);
    lemma_preceded_by(t, s, k, x, seq![118u8, 111u8, 105u8, 100u8]);
    lemma_preceded_by(t, s, k, x, seq![121u8, 105u8, 101u8, 108u8, 100u8]);
    lemma_preceded_by(t, s, k, x, seq![97u8, 119u8, 97u8, 105u8, 116u8]);
    lemma_preceded_by(t, s, k, x, seq![100u8, 101u8, 98u8, 117u8, 103u8, 103u8, 101u8, 114u8]);
}

proof fn lemma_paren_keyword(t: Seq<u8>, s: Seq<u8>, k: int, x: int)
    requires
        shifted(t, s, k),
        x >= 0,
    ensures
        spec_paren_keyword(t, x + k) == spec_paren_keyword(s, x),
{
    lemma_preceded_by(t, s, k, x, seq![119u8, 104u8, 105u8, 108u8, 101u8]);
    lemma_preceded_by(t, s, k, x, seq![102u8, 111u8, 114u8]);
    lemma_preceded_by(t, s, k, x, seq![105u8, 102u8]);
}

proof fn lemma_expression_terminator(t: Seq<u8>, s: Seq<u8>, k: int, x: int)
    requires
        shifted(t, s, k),
        x >= 0,
    ensures
        spec_expression_terminator(t, x + k) == spec_expression_terminator(s, x),
{
    lemma_byte(t, s, k, x);
    if x > 0 {
        lemma_byte(t, s, k, x - 1);
    } else {
        assert(byte(t, k - 1) == 47);
    }
    if x < s.len() {
        assert(t[x + k] == s[x]);
    }
    lemma_preceded_by(t, s, k, x, seq![102u8, 105u8, 110u8, 97u8, 108u8, 108u8, 121u8]);
    lemma_preceded_by(t, s, k, x, seq![99u8, 97u8, 116u8, 99u8, 104u8]);
    lemma_preceded_by(t, s, k, x, seq![101u8, 108u8, 115u8, 101u8]);
}

pub open spec fn opt_below(o: Option<usize>, n: int) -> bool {
    match o {
        Some(x) => x < n,
        None => true,
    }
}

proof fn lemma_slash_is_regex(
    t: Seq<u8>,
    s: Seq<u8>,
    k: int,
    last_token: Option<usize>,
    closed: OpenBracket,
    lsd: bool,
)
    requires
        shifted(t, s, k),
        opt_below(last_token, s.len() as int),
        opt_below(closed.token, s.len() as int),
    ensures
        slash_is_regex(t, shift_opt(last_token, k), shift_bracket(closed, k), lsd)
            == slash_is_regex(s, last_token, closed, lsd),
{
    if let Some(x) = last_token {
        lemma_byte(t, s, k, x as int);
        if x > 0 {
            lemma_byte(t, s, k, x - 1);
        } else {
            assert(byte(t, k - 1) == 47);
        }
        lemma_expression_keyword(t, s, k, x as int);
    }
    if let Some(o) = closed.token {
        lemma_paren_keyword(t, s, k, o as int);
        lemma_expression_terminator(t, s, k, o as int);
    }
}

pub open spec fn import_below(imp: Import, n: int) -> bool {
    match imp {
        Import::Static(x) => x.statement_start <= n && x.start <= n && x.end <= n
            && x.statement_end <= n,
        Import::Dynamic(x) => x.statement_start <= n && x.start <= n && x.end <= n,
        Import::Meta(x) => x.statement_start <= n && x.start <= n && x.end <= n
            && x.statement_end <= n,
    }
}

/// Every position that `m` holds is at most `n`, and every byte it points at
/// lies before `n`.
pub open spec fn bounded(m: Model, n: int) -> bool {
    &&& 0 <= m.i <= n
    &&& opt_below(m.last_token, n)
    &&& forall|j: int| 0 <= j < m.stack.len() ==> opt_below(#[trigger] m.stack[j].token, n)
    &&& opt_below(m.last_closed.token, n)
    &&& forall|j: int| 0 <= j < m.imports.len() ==> import_below(#[trigger] m.imports[j], n)
    &&& forall|j: int|
        0 <= j < m.exports.len() ==> (#[trigger] m.exports[j]).start <= n && m.exports[j].end
            <= n
}

proof fn lemma_shift_at(m: Model, k: int, x: int)
    ensures
        shift_model(at(m, x), k) == at(shift_model(m, k), x + k),
{
}

proof fn lemma_imports_push(v: Seq<Import>, x: Import, k: int)
    ensures
        shift_imports(v.push(x), k) == shift_imports(v, k).push(shift_import(x, k)),
{
    assert(shift_imports(v.push(x), k) =~= shift_imports(v, k).push(shift_import(x, k)));
}

proof fn lemma_imports_update(v: Seq<Import>, j: int, x: Import, k: int)
    requires
        0 <= j < v.len(),
    ensures
        shift_imports(v.update(j, x), k) == shift_imports(v, k).update(j, shift_import(x, k)),
{
    assert(shift_imports(v.update(j, x), k) =~= shift_imports(v, k).update(j, shift_import(x, k)));
}

proof fn lemma_imports_drop_last(v: Seq<Import>, k: int)
    requires
        v.len() > 0,
    ensures
        shift_imports(v.drop_last(), k) == shift_imports(v, k).drop_last(),
{
    assert(shift_imports(v.drop_last(), k) =~= shift_imports(v, k).drop_last());
}

proof fn lemma_exports_push(v: Seq<Export>, x: Export, k: int)
    ensures
        shift_exports(v.push(x), k) == shift_exports(v, k).push(shift_export(x, k)),
{
    assert(shift_exports(v.push(x), k) =~= shift_exports(v, k).push(shift_export(x, k)));
}

proof fn lemma_stack_push(v: Seq<OpenBracket>, x: OpenBracket, k: int)
    ensures
        shift_stack(v.push(x), k) == shift_stack(v, k).push(shift_bracket(x, k)),
{
    assert(shift_stack(v.push(x), k) =~= shift_stack(v, k).push(shift_bracket(x, k)));
}

proof fn lemma_stack_drop_last(v: Seq<OpenBracket>, k: int)
    requires
        v.len() > 0,
    ensures
        shift_stack(v.drop_last(), k) == shift_stack(v, k).drop_last(),
        shift_stack(v, k).last() == shift_bracket(v.last(), k),
{
    assert(shift_stack(v.drop_last(), k) =~= shift_stack(v, k).drop_last());
}

proof fn lemma_m_skip(t: Seq<u8>, s: Seq<u8>, k: int, m: Model)
    requires
        shifted(t, s, k),
        bounded(m, s.len() as int),
    ensures
        m_skip(t, shift_model(m, k)) == shift_result(m_skip(s, m), k),
        m_skip(s, m) matches Ok(m2) ==> bounded(m2, s.len() as int) && m.i <= m2.i,
        m_skip(s, m) matches Err(e) ==> -1 <= e < s.len(),
{
    lemma_skip_ws(t, s, k, m.i);
    if let Ok(e) = skip_ws(s, m.i) {
        lemma_shift_at(m, k, e);
    }
}

proof fn lemma_m_import_string(t: Seq<u8>, s: Seq<u8>, k: int, m: Model, start: int, quote: int)
    requires
        shifted(t, s, k),
        bounded(m, s.len() as int),
        0 <= start < quote < s.len(),
        m.i <= quote,
    ensures
        m_import_string(t, shift_model(m, k), start + k, quote + k) == shift_result(
            m_import_string(s, m, start, quote),
            k,
        ),
        m_import_string(s, m, start, quote) matches Ok(m2) ==> bounded(m2, s.len() as int)
            && m.i <= m2.i && quote < m2.i,
        m_import_string(s, m, start, quote) matches Err(e) ==> -1 <= e < s.len(),
{
    assert(t[quote + k] == s[quote]);
    lemma_string_end(t, s, k, quote + 1, s[quote]);
    if !is_quote(s[quote]) {
    } else if let Ok(e) = string_end(s, quote + 1, s[quote]) {
        let rec = Import::Static(
            StaticImport {
                statement_start: start as usize,
                start: (quote + 1) as usize,
                end: (e - 1) as usize,
                statement_end: e as usize,
            },
        );
        lemma_imports_push(m.imports, rec, k);
        let m2 = m_import_string(s, m, start, quote)->Ok_0;
        assert(m2.imports == m.imports.push(rec));
        assert forall|j: int| 0 <= j < m2.imports.len() implies import_below(
            #[trigger] m2.imports[j],
            s.len() as int,
        ) by {
            if j < m.imports.len() {
                assert(m2.imports[j] == m.imports[j]);
            }
        }
    }
}

proof fn lemma_m_open_dynamic(t: Seq<u8>, s: Seq<u8>, k: int, m: Model, start: int, q: int, method: bool)
    requires
        shifted(t, s, k),
        bounded(m, s.len() as int),
        0 <= start < q < s.len(),
    ensures
        m_open_dynamic(shift_model(m, k), start + k, q + k, method) == shift_model(
            m_open_dynamic(m, start, q, method),
            k,
        ),
        bounded(m_open_dynamic(m, start, q, method), s.len() as int),
{
    let b = OpenBracket {
        token: Some((q - 1) as usize),
        is_class: false,
        dynamic: if method {
            None
        } else {
            Some(m.imports.len() as usize)
        },
    };
    lemma_stack_push(m.stack, b, k);
    let rec = Import::Dynamic(
        DynamicImport { statement_start: start as usize, start: (q + 1) as usize, end: q as usize },
    );
    lemma_imports_push(m.imports, rec, k);
    let m2 = m_open_dynamic(m, start, q, method);
    assert forall|j: int| 0 <= j < m2.stack.len() implies opt_below(
        #[trigger] m2.stack[j].token,
        s.len() as int,
    ) by {
        if j < m.stack.len() {
            assert(m2.stack[j] == m.stack[j]);
        }
    }
    assert forall|j: int| 0 <= j < m2.imports.len() implies import_below(
        #[trigger] m2.imports[j],
        s.len() as int,
    ) by {
        if j < m.imports.len() {
            assert(m2.imports[j] == m.imports[j]);
        }
    }
}

proof fn lemma_m_import_meta(
    t: Seq<u8>,
    s: Seq<u8>,
    k: int,
    m: Model,
    start: int,
    method: bool,
    dot: int,
)
    requires
        shifted(t, s, k),
        bounded(m, s.len() as int),
        0 <= start < dot < m.i,
    ensures
        m_import_meta(t, shift_model(m, k), start + k, method, dot + k) == shift_model(
            m_import_meta(s, m, start, method, dot),
            k,
        ),
        bounded(m_import_meta(s, m, start, method, dot), s.len() as int),
        dot < m_import_meta(s, m, start, method, dot).i,
{
    lemma_shift_at(m, k, dot + 1);
    lemma_word_at(t, s, k, m.i, meta_word());
    if !method && word_at(s, m.i, meta_word()) {
        let rec = Import::Meta(
            MetaImport {
                statement_start: start as usize,
                start: start as usize,
                end: (m.i + 4) as usize,
                statement_end: (m.i + 4) as usize,
            },
        );
        lemma_imports_push(m.imports, rec, k);
        let m2 = m_import_meta(s, m, start, method, dot);
        assert forall|j: int| 0 <= j < m2.imports.len() implies import_below(
            #[trigger] m2.imports[j],
            s.len() as int,
        ) by {
            if j < m.imports.len() {
                assert(m2.imports[j] == m.imports[j]);
            }
        }
    }
}

proof fn lemma_m_import(t: Seq<u8>, s: Seq<u8>, k: int, m: Model)
    requires
        shifted(t, s, k),
        bounded(m, s.len() as int),
        m.i + 6 <= s.len(),
    ensures
        m_import(t, shift_model(m, k)) == shift_result(m_import(s, m), k),
        m_import(s, m) matches Ok(m2) ==> bounded(m2, s.len() as int) && m.i < m2.i,
        m_import(s, m) matches Err(e) ==> -1 <= e <= s.len(),
{
    reveal(m_import);
    let start = m.i;
    if let Some(x) = m.last_token {
        lemma_byte(t, s, k, x as int);
    }
    lemma_skip_ws(t, s, k, start + 6);
    if let Ok(q) = skip_ws(s, start + 6) {
        lemma_byte(t, s, k, q);
        let ch = byte(s, q);
        let method = match m.last_token {
            Some(x) => byte(s, x as int) == 46,
            None => false,
        };
        if ch == 40 {
            lemma_m_open_dynamic(t, s, k, m, start, q, method);
        } else if ch == 46 {
            lemma_skip_ws(t, s, k, q + 1);
            if let Ok(e) = skip_ws(s, q + 1) {
                lemma_shift_at(m, k, e);
                lemma_m_import_meta(t, s, k, at(m, e), start, method, q);
            }
        } else if m.stack.len() != 0 {
            lemma_shift_at(m, k, start + 6);
        } else if ch == 39 || ch == 34 {
            lemma_m_import_string(t, s, k, m, start, q);
        } else if ch == 123 || ch == 42 || q > start + 6 {
            lemma_first_quote(t, s, k, q);
            let j = first_quote(s, q);
            if j < s.len() {
                lemma_m_import_string(t, s, k, m, start, j);
            }
        } else {
            lemma_shift_at(m, k, start + 6);
        }
    }
}

proof fn lemma_m_export_name(t: Seq<u8>, s: Seq<u8>, k: int, m: Model)
    requires
        shifted(t, s, k),
        bounded(m, s.len() as int),
    ensures
        m_export_name(t, shift_model(m, k)) == shift_model(m_export_name(s, m), k),
        bounded(m_export_name(s, m), s.len() as int),
        m.i <= m_export_name(s, m).i,
{
    lemma_name_end(t, s, k, m.i);
    let e = name_end(s, m.i);
    lemma_shift_at(m, k, e);
    if e > m.i {
        lemma_exports_push(m.exports, Export { start: m.i as usize, end: e as usize }, k);
        let m2 = m_export_name(s, m);
        assert forall|j: int| 0 <= j < m2.exports.len() implies (#[trigger] m2.exports[j]).start
            <= s.len() && m2.exports[j].end <= s.len() by {
            if j < m.exports.len() {
                assert(m2.exports[j] == m.exports[j]);
            }
        }
    }
}

proof fn lemma_m_export_name_or(t: Seq<u8>, s: Seq<u8>, k: int, m: Model, back: int)
    requires
        shifted(t, s, k),
        bounded(m, s.len() as int),
        0 <= back <= m.i,
    ensures
        m_export_name_or(t, shift_model(m, k), back + k) == shift_model(
            m_export_name_or(s, m, back),
            k,
        ),
        bounded(m_export_name_or(s, m, back), s.len() as int),
        back <= m_export_name_or(s, m, back).i,
{
    lemma_m_export_name(t, s, k, m);
    lemma_shift_at(m, k, back);
}

proof fn lemma_m_export_default(t: Seq<u8>, s: Seq<u8>, k: int, m: Model)
    requires
        shifted(t, s, k),
        bounded(m, s.len() as int),
    ensures
        m_export_default(t, shift_model(m, k)) == shift_model(m_export_default(s, m), k),
        bounded(m_export_default(s, m), s.len() as int),
        m.i <= m_export_default(s, m).i,
{
    let w = seq![100u8, 101u8, 102u8, 97u8, 117u8, 108u8, 116u8];
    lemma_word_at(t, s, k, m.i, w);
    if word_at(s, m.i, w) {
        lemma_exports_push(m.exports, Export { start: m.i as usize, end: (m.i + 7) as usize }, k);
        let m2 = m_export_default(s, m);
        assert forall|j: int| 0 <= j < m2.exports.len() implies (#[trigger] m2.exports[j]).start
            <= s.len() && m2.exports[j].end <= s.len() by {
            if j < m.exports.len() {
                assert(m2.exports[j] == m.exports[j]);
            }
        }
    }
}

proof fn lemma_m_export_function(t: Seq<u8>, s: Seq<u8>, k: int, m: Model)
    requires
        shifted(t, s, k),
        bounded(m, s.len() as int),
    ensures
        m_export_function(t, shift_model(m, k)) == shift_result(m_export_function(s, m), k),
        m_export_function(s, m) matches Ok(m2) ==> bounded(m2, s.len() as int) && m.i <= m2.i,
        m_export_function(s, m) matches Err(e) ==> -1 <= e < s.len(),
{
    let w_async = seq![97u8, 115u8, 121u8, 110u8, 99u8];
    let w_function = seq![102u8, 117u8, 110u8, 99u8, 116u8, 105u8, 111u8, 110u8];
    lemma_word_at(t, s, k, m.i, w_async);
    let m1 = if word_at(s, m.i, w_async) {
        lemma_shift_at(m, k, m.i + 5);
        lemma_m_skip(t, s, k, at(m, m.i + 5));
        m_skip(s, at(m, m.i + 5))
    } else {
        Ok(m)
    };
    if let Ok(m1) = m1 {
        lemma_word_at(t, s, k, m1.i, w_function);
        if word_at(s, m.i, w_async) {
            lemma_shift_at(m1, k, m.i + 5);
        }
        if word_at(s, m1.i, w_function) {
            lemma_shift_at(m1, k, m1.i + 8);
            lemma_m_skip(t, s, k, at(m1, m1.i + 8));
            if let Ok(m2) = m_skip(s, at(m1, m1.i + 8)) {
                lemma_byte(t, s, k, m2.i);
                if byte(s, m2.i) == 42 {
                    lemma_shift_at(m2, k, m2.i + 1);
                    lemma_m_skip(t, s, k, at(m2, m2.i + 1));
                    if let Ok(m3) = m_skip(s, at(m2, m2.i + 1)) {
                        lemma_m_export_name_or(t, s, k, m3, m2.i + 1);
                    }
                } else {
                    lemma_m_export_name_or(t, s, k, m2, m1.i + 8);
                }
            }
        }
    }
}

proof fn lemma_m_export_class(t: Seq<u8>, s: Seq<u8>, k: int, m: Model)
    requires
        shifted(t, s, k),
        bounded(m, s.len() as int),
        m.i + 5 <= s.len(),
    ensures
        m_export_class(t, shift_model(m, k)) == shift_result(m_export_class(s, m), k),
        m_export_class(s, m) matches Ok(m2) ==> bounded(m2, s.len() as int) && m.i <= m2.i,
        m_export_class(s, m) matches Err(e) ==> -1 <= e < s.len(),
{
    let m1 = Model { i: m.i + 5, next_brace_is_class: true, ..m };
    assert(shift_model(m1, k) == Model {
        i: shift_model(m, k).i + 5,
        next_brace_is_class: true,
        ..shift_model(m, k)
    });
    lemma_m_skip(t, s, k, m1);
    if let Ok(m2) = m_skip(s, m1) {
        lemma_m_export_name_or(t, s, k, m2, m.i + 5);
    }
}

proof fn lemma_m_export_declaration(t: Seq<u8>, s: Seq<u8>, k: int, m: Model)
    requires
        shifted(t, s, k),
        bounded(m, s.len() as int),
    ensures
        m_export_declaration(t, shift_model(m, k)) == shift_result(
            m_export_declaration(s, m),
            k,
        ),
        m_export_declaration(s, m) matches Ok(m2) ==> bounded(m2, s.len() as int) && m.i
            <= m2.i,
        m_export_declaration(s, m) matches Err(e) ==> -1 <= e < s.len(),
    decreases s.len() - m.i,
{
    lemma_m_skip(t, s, k, m);
    if let Ok(m1) = m_skip(s, m) {
        lemma_m_export_name(t, s, k, m1);
        let m2 = m_export_name(s, m1);
        if m2.i != m1.i {
            lemma_m_skip(t, s, k, m2);
            if let Ok(m3) = m_skip(s, m2) {
                lemma_byte(t, s, k, m3.i);
                if byte(s, m3.i) == 44 && m.i < m3.i + 1 <= s.len() {
                    lemma_shift_at(m3, k, m3.i + 1);
                    lemma_m_export_declaration(t, s, k, at(m3, m3.i + 1));
                }
            }
        }
    }
}

proof fn lemma_as_at(t: Seq<u8>, s: Seq<u8>, k: int, x: int)
    requires
        shifted(t, s, k),
        x >= 0,
    ensures
        as_at(t, x + k) == as_at(s, x),
{
    lemma_word_at(t, s, k, x, seq![97u8, 115u8]);
    lemma_byte(t, s, k, x + 2);
}

proof fn lemma_class_at(t: Seq<u8>, s: Seq<u8>, k: int, x: int)
    requires
        shifted(t, s, k),
        x >= 0,
    ensures
        class_at(t, x + k) == class_at(s, x),
{
    lemma_word_at(t, s, k, x, seq![99u8, 108u8, 97u8, 115u8, 115u8]);
    lemma_byte(t, s, k, x + 5);
}

proof fn lemma_m_reexport(t: Seq<u8>, s: Seq<u8>, k: int, m: Model, start: int)
    requires
        shifted(t, s, k),
        bounded(m, s.len() as int),
        0 <= start < m.i,
    ensures
        m_reexport(t, shift_model(m, k), start + k) == shift_result(m_reexport(s, m, start), k),
        m_reexport(s, m, start) matches Ok(m2) ==> bounded(m2, s.len() as int) && m.i <= m2.i,
        m_reexport(s, m, start) matches Err(e) ==> -1 <= e <= s.len(),
{
    let w_from = seq![102u8, 114u8, 111u8, 109u8];
    lemma_skip_ws(t, s, k, m.i);
    if let Ok(q) = skip_ws(s, m.i) {
        lemma_word_at(t, s, k, q, w_from);
        if word_at(s, q, w_from) {
            lemma_skip_ws(t, s, k, q + 4);
            if let Ok(q2) = skip_ws(s, q + 4) {
                if q2 < s.len() {
                    assert(t[q2 + k] == s[q2]);
                    if is_quote(s[q2]) {
                        lemma_m_import_string(t, s, k, m, start, q2);
                    }
                }
            }
        }
    }
}

#[verifier::rlimit(50)]
proof fn lemma_m_export_list(t: Seq<u8>, s: Seq<u8>, k: int, m: Model, start: int)
    requires
        shifted(t, s, k),
        bounded(m, s.len() as int),
        0 <= start < m.i,
    ensures
        m_export_list(t, shift_model(m, k), start + k) == shift_result(
            m_export_list(s, m, start),
            k,
        ),
        m_export_list(s, m, start) matches Ok(m2) ==> bounded(m2, s.len() as int) && m.i
            <= m2.i,
        m_export_list(s, m, start) matches Err(e) ==> -1 <= e <= s.len(),
    decreases s.len() - m.i,
{
    lemma_m_skip(t, s, k, m);
    if let Ok(m1) = m_skip(s, m) {
        lemma_byte(t, s, k, m1.i);
        if byte(s, m1.i) == 125 {
            lemma_shift_at(m1, k, m1.i + 1);
            lemma_m_reexport(t, s, k, at(m1, m1.i + 1), start);
        } else {
            lemma_name_end(t, s, k, m1.i);
            let e1 = name_end(s, m1.i);
            lemma_skip_ws(t, s, k, e1);
            if let Ok(k3) = skip_ws(s, e1) {
                lemma_as_at(t, s, k, k3);
                let named: Result<(int, int, int), int> = if as_at(s, k3) {
                    lemma_skip_ws(t, s, k, k3 + 2);
                    match skip_ws(s, k3 + 2) {
                        Err(x) => Err(x),
                        Ok(k4) => {
                            lemma_name_end(t, s, k, k4);
                            let e2 = name_end(s, k4);
                            lemma_skip_ws(t, s, k, e2);
                            match skip_ws(s, e2) {
                                Err(x) => Err(x),
                                Ok(k5) => Ok((k4, e2, k5)),
                            }
                        },
                    }
                } else {
                    Ok((m1.i, e1, k3))
                };
                if let Ok((ns, ne, pos)) = named {
                    let m2 = if ne > ns {
                        lemma_exports_push(
                            m1.exports,
                            Export { start: ns as usize, end: ne as usize },
                            k,
                        );
                        Model {
                            i: pos,
                            exports: m1.exports.push(
                                Export { start: ns as usize, end: ne as usize },
                            ),
                            ..m1
                        }
                    } else {
                        at(m1, pos)
                    };
                    assert forall|j: int| 0 <= j < m2.exports.len() implies (
                    #[trigger] m2.exports[j]).start <= s.len() && m2.exports[j].end
                        <= s.len() by {
                        if j < m1.exports.len() {
                            assert(m2.exports[j] == m1.exports[j]);
                        }
                    }
                    lemma_byte(t, s, k, pos);
                    let c = byte(s, pos);
                    if c == 44 && m.i < pos + 1 <= s.len() {
                        lemma_shift_at(m2, k, pos + 1);
                        lemma_m_export_list(t, s, k, at(m2, pos + 1), start);
                    } else if c == 125 {
                        lemma_shift_at(m2, k, pos + 1);
                        lemma_m_reexport(t, s, k, at(m2, pos + 1), start);
                    }
                }
            }
        }
    }
}

proof fn lemma_m_export_star(t: Seq<u8>, s: Seq<u8>, k: int, m: Model, start: int)
    requires
        shifted(t, s, k),
        bounded(m, s.len() as int),
        0 <= start < m.i,
    ensures
        m_export_star(t, shift_model(m, k), start + k) == shift_result(
            m_export_star(s, m, start),
            k,
        ),
        m_export_star(s, m, start) matches Ok(m2) ==> bounded(m2, s.len() as int) && m.i
            <= m2.i,
        m_export_star(s, m, start) matches Err(e) ==> -1 <= e <= s.len(),
{
    lemma_m_skip(t, s, k, m);
    if let Ok(m1) = m_skip(s, m) {
        lemma_as_at(t, s, k, m1.i);
        if as_at(s, m1.i) {
            lemma_shift_at(m1, k, m1.i + 2);
            lemma_m_skip(t, s, k, at(m1, m1.i + 2));
            if let Ok(m2) = m_skip(s, at(m1, m1.i + 2)) {
                lemma_m_export_name_or(t, s, k, m2, m1.i + 2);
                lemma_m_reexport(t, s, k, m_export_name_or(s, m2, m1.i + 2), start);
            }
        } else {
            lemma_m_reexport(t, s, k, m, start);
        }
    }
}

#[verifier::rlimit(100)]
proof fn lemma_m_export(t: Seq<u8>, s: Seq<u8>, k: int, m: Model)
    requires
        shifted(t, s, k),
        bounded(m, s.len() as int),
        m.i + 6 <= s.len(),
    ensures
        m_export(t, shift_model(m, k)) == shift_result(m_export(s, m), k),
        m_export(s, m) matches Ok(m2) ==> bounded(m2, s.len() as int) && m.i < m2.i,
        m_export(s, m) matches Err(e) ==> -1 <= e <= s.len(),
{
    reveal(m_export);
    let start = m.i;
    lemma_skip_ws(t, s, k, start + 6);
    if let Ok(q) = skip_ws(s, start + 6) {
        lemma_byte(t, s, k, q);
        let ch = byte(s, q);
        lemma_shift_at(m, k, q);
        let mq = at(m, q);
        lemma_class_at(t, s, k, q);
        lemma_word_at(t, s, k, q, seq![99u8, 111u8, 110u8, 115u8, 116u8]);
        lemma_word_at(t, s, k, q, seq![118u8, 97u8, 114u8]);
        lemma_word_at(t, s, k, q, seq![108u8, 101u8, 116u8]);
        lemma_word_at(t, s, k, q, seq![100u8, 101u8, 102u8, 97u8, 117u8, 108u8, 116u8]);
        lemma_word_at(t, s, k, q, seq![97u8, 115u8, 121u8, 110u8, 99u8]);
        lemma_word_at(t, s, k, q, seq![102u8, 117u8, 110u8, 99u8, 116u8, 105u8, 111u8, 110u8]);
        lemma_shift_at(m, k, start + 6);
        if q == start + 6 && !spec_punctuator(ch) {
        } else if ch == 100 && word_at(
            s,
            q,
            seq![100u8, 101u8, 102u8, 97u8, 117u8, 108u8, 116u8],
        ) {
            lemma_m_export_default(t, s, k, mq);
        } else if (ch == 97 && word_at(s, q, seq![97u8, 115u8, 121u8, 110u8, 99u8])) || (ch
            == 102 && word_at(s, q, seq![102u8, 117u8, 110u8, 99u8, 116u8, 105u8, 111u8, 110u8])) {
            lemma_m_export_function(t, s, k, mq);
        } else if ch == 99 && class_at(s, q) {
            lemma_m_export_class(t, s, k, mq);
        } else if ch == 99 && word_at(s, q, seq![99u8, 111u8, 110u8, 115u8, 116u8]) {
            lemma_shift_at(m, k, q + 5);
            lemma_m_export_declaration(t, s, k, at(m, q + 5));
        } else if (ch == 118 && word_at(s, q, seq![118u8, 97u8, 114u8])) || (ch == 108
            && word_at(s, q, seq![108u8, 101u8, 116u8])) {
            lemma_shift_at(m, k, q + 3);
            lemma_m_export_declaration(t, s, k, at(m, q + 3));
        } else if ch == 123 {
            lemma_shift_at(m, k, q + 1);
            lemma_m_export_list(t, s, k, at(m, q + 1), start);
        } else if ch == 42 {
            lemma_shift_at(m, k, q + 1);
            lemma_m_export_star(t, s, k, at(m, q + 1), start);
        }
    }
}

proof fn lemma_m_pop(t: Seq<u8>, s: Seq<u8>, k: int, m: Model)
    requires
        shifted(t, s, k),
        bounded(m, s.len() as int),
        m.stack.len() > 0,
    ensures
        m_pop(shift_model(m, k)) == shift_model(m_pop(m), k),
        bounded(m_pop(m), s.len() as int),
        m_pop(m).i == m.i,
        shift_model(m, k).stack.last() == shift_bracket(m.stack.last(), k),
{
    lemma_stack_drop_last(m.stack, k);
    let closed = m.stack.last();
    let m2 = m_pop(m);
    if let Some(j) = closed.dynamic {
        if j < m.imports.len() {
            let x = m.imports[j as int];
            assert(import_below(x, s.len() as int));
            assert(shift_imports(m.imports, k)[j as int] == shift_import(x, k));
            if (x matches Import::Dynamic(d) && d.end < d.start) {
                lemma_imports_update(m.imports, j as int, ended(x, m.i as usize), k);
                assert(ended(shift_import(x, k), (m.i + k) as usize) == shift_import(
                    ended(x, m.i as usize),
                    k,
                ));
                assert forall|q: int| 0 <= q < m2.imports.len() implies import_below(
                    #[trigger] m2.imports[q],
                    s.len() as int,
                ) by {
                    if q != j {
                        assert(m2.imports[q] == m.imports[q]);
                    }
                }
            }
        }
    }
    assert forall|q: int| 0 <= q < m2.stack.len() implies opt_below(
        #[trigger] m2.stack[q].token,
        s.len() as int,
    ) by {
        assert(m2.stack[q] == m.stack[q]);
    }
}

proof fn lemma_m_open_paren(t: Seq<u8>, s: Seq<u8>, k: int, m: Model)
    requires
        shifted(t, s, k),
        bounded(m, s.len() as int),
        m.i < s.len(),
    ensures
        m_open_paren(shift_model(m, k)) == shift_model(m_open_paren(m), k),
        bounded(m_open_paren(m), s.len() as int),
        m_open_paren(m).i == m.i + 1,
{
    reveal(m_open_paren);
    let b = OpenBracket { token: m.last_token, is_class: false, dynamic: None };
    lemma_stack_push(m.stack, b, k);
    let m2 = m_open_paren(m);
    assert forall|q: int| 0 <= q < m2.stack.len() implies opt_below(
        #[trigger] m2.stack[q].token,
        s.len() as int,
    ) by {
        if q < m.stack.len() {
            assert(m2.stack[q] == m.stack[q]);
        }
    }
}

proof fn lemma_m_close_paren(t: Seq<u8>, s: Seq<u8>, k: int, m: Model)
    requires
        shifted(t, s, k),
        bounded(m, s.len() as int),
        m.i < s.len(),
    ensures
        m_close_paren(shift_model(m, k)) == shift_result(m_close_paren(m), k),
        m_close_paren(m) matches Ok(m2) ==> bounded(m2, s.len() as int) && m2.i == m.i + 1,
        m_close_paren(m) matches Err(e) ==> e == m.i,
{
    reveal(m_close_paren);
    if m.stack.len() > 0 {
        lemma_m_pop(t, s, k, m);
    }
}

proof fn lemma_m_open_brace(t: Seq<u8>, s: Seq<u8>, k: int, m: Model)
    requires
        shifted(t, s, k),
        bounded(m, s.len() as int),
        m.i < s.len(),
    ensures
        m_open_brace(shift_model(m, k)) == shift_model(m_open_brace(m), k),
        bounded(m_open_brace(m), s.len() as int),
        m_open_brace(m).i == m.i + 1,
{
    reveal(m_open_brace);
    let m1 = match m.last_dynamic_import {
        Some(j) => if j < m.imports.len() && j + 1 == m.imports.len() && (
        m.imports[j as int] matches Import::Dynamic(d) && m.last_token == Some(d.end)) {
            Model { imports: m.imports.drop_last(), last_dynamic_import: None, ..m }
        } else {
            m
        },
        None => m,
    };
    if let Some(j) = m.last_dynamic_import {
        if j < m.imports.len() && j + 1 == m.imports.len() {
            let x = m.imports[j as int];
            assert(import_below(x, s.len() as int));
            assert(shift_imports(m.imports, k)[j as int] == shift_import(x, k));
            lemma_imports_drop_last(m.imports, k);
        }
    }
    assert(shift_model(m1, k) == match shift_model(m, k).last_dynamic_import {
        Some(j) => if j < shift_model(m, k).imports.len() && j + 1 == shift_model(m, k).imports.len()
            && (shift_model(m, k).imports[j as int] matches Import::Dynamic(d) && shift_model(
            m,
            k,
        ).last_token == Some(d.end)) {
            Model {
                imports: shift_model(m, k).imports.drop_last(),
                last_dynamic_import: None,
                ..shift_model(m, k)
            }
        } else {
            shift_model(m, k)
        },
        None => shift_model(m, k),
    });
    let b = OpenBracket { token: m1.last_token, is_class: m1.next_brace_is_class, dynamic: None };
    lemma_stack_push(m1.stack, b, k);
    let m2 = m_open_brace(m);
    assert forall|q: int| 0 <= q < m2.stack.len() implies opt_below(
        #[trigger] m2.stack[q].token,
        s.len() as int,
    ) by {
        if q < m1.stack.len() {
            assert(m2.stack[q] == m1.stack[q]);
        }
    }
    assert forall|q: int| 0 <= q < m2.imports.len() implies import_below(
        #[trigger] m2.imports[q],
        s.len() as int,
    ) by {
        assert(m2.imports[q] == m.imports[q]);
    }
}

proof fn lemma_m_template(t: Seq<u8>, s: Seq<u8>, k: int, m: Model)
    requires
        shifted(t, s, k),
        bounded(m, s.len() as int),
        m.i < s.len(),
    ensures
        m_template(t, shift_model(m, k)) == shift_result(m_template(s, m), k),
        m_template(s, m) matches Ok(m2) ==> bounded(m2, s.len() as int) && m.i < m2.i,
        m_template(s, m) matches Err(e) ==> -1 <= e < s.len(),
{
    reveal(m_template);
    lemma_template_end(t, s, k, m.i + 1);
    if let Ok((e, b)) = template_end(s, m.i + 1) {
        lemma_shift_at(m, k, e);
        if b {
            let br = OpenBracket { token: m.last_token, is_class: false, dynamic: None };
            lemma_stack_push(m.stack, br, k);
            let m2 = m_template(s, m)->Ok_0;
            assert forall|q: int| 0 <= q < m2.stack.len() implies opt_below(
                #[trigger] m2.stack[q].token,
                s.len() as int,
            ) by {
                if q < m.stack.len() {
                    assert(m2.stack[q] == m.stack[q]);
                }
            }
        }
    }
}

proof fn lemma_m_close_brace(t: Seq<u8>, s: Seq<u8>, k: int, m: Model)
    requires
        shifted(t, s, k),
        bounded(m, s.len() as int),
        m.i < s.len(),
    ensures
        m_close_brace(t, shift_model(m, k)) == shift_result(m_close_brace(s, m), k),
        m_close_brace(s, m) matches Ok(m2) ==> bounded(m2, s.len() as int) && m.i < m2.i,
        m_close_brace(s, m) matches Err(e) ==> -1 <= e < s.len(),
{
    reveal(m_close_brace);
    if m.stack.len() > 0 {
        lemma_m_pop(t, s, k, m);
        let m1 = m_pop(m);
        if m.template_depth == Some(m.stack.len() as usize) {
            let restored = if m.template_stack.len() > 0 {
                m.template_stack.last()
            } else {
                None
            };
            let popped = if m.template_stack.len() > 0 {
                m.template_stack.drop_last()
            } else {
                m.template_stack
            };
            let m3 = Model { template_depth: restored, template_stack: popped, ..m1 };
            lemma_m_template(t, s, k, m3);
        } else {
            let m2 = Model { last_closed: m.stack.last(), ..m1 };
            assert(m.stack.last() == m.stack[m.stack.len() - 1]);
            lemma_shift_at(m2, k, m.i + 1);
        }
    }
}

proof fn lemma_m_slash(t: Seq<u8>, s: Seq<u8>, k: int, m: Model)
    requires
        shifted(t, s, k),
        bounded(m, s.len() as int),
        m.i < s.len(),
    ensures
        m_slash(t, shift_model(m, k)) == shift_flag(m_slash(s, m), k),
        m_slash(s, m) matches Ok((m2, b)) ==> bounded(m2, s.len() as int) && m.i < m2.i,
        m_slash(s, m) matches Err(e) ==> -1 <= e < s.len(),
{
    reveal(m_slash);
    lemma_byte(t, s, k, m.i + 1);
    lemma_line_end(t, s, k, m.i + 1);
    lemma_block_end(t, s, k, m.i + 1);
    lemma_regex_end(t, s, k, m.i + 1, false);
    lemma_slash_is_regex(
        t,
        s,
        k,
        m.last_token,
        m.last_closed,
        m.last_slash_was_division,
    );
    lemma_shift_at(m, k, line_end(s, m.i + 1));
    if let Ok(e) = block_end(s, m.i + 1) {
        lemma_shift_at(m, k, e);
    }
}

pub open spec fn shift_flag(r: Result<(Model, bool), int>, k: int) -> Result<(Model, bool), int> {
    match r {
        Ok((m, b)) => Ok((shift_model(m, k), b)),
        Err(x) => Err(x + k),
    }
}

#[verifier::rlimit(100)]
proof fn lemma_m_dispatch(t: Seq<u8>, s: Seq<u8>, k: int, m: Model)
    requires
        shifted(t, s, k),
        bounded(m, s.len() as int),
        m.i < s.len(),
    ensures
        m_dispatch(t, shift_model(m, k)) == shift_flag(m_dispatch(s, m), k),
        m_dispatch(s, m) matches Ok((m2, b)) ==> bounded(m2, s.len() as int) && m.i < m2.i,
        m_dispatch(s, m) matches Err(e) ==> -1 <= e <= s.len(),
{
    let i = m.i;
    assert(t[i + k] == s[i]);
    let c = s[i];
    lemma_keyword_start(t, s, k, i);
    lemma_word_at(t, s, k, i + 1, seq![120u8, 112u8, 111u8, 114u8, 116u8]);
    lemma_word_at(t, s, k, i + 1, seq![109u8, 112u8, 111u8, 114u8, 116u8]);
    lemma_word_at(t, s, k, i + 1, seq![108u8, 97u8, 115u8, 115u8]);
    lemma_byte(t, s, k, i + 5);
    lemma_shift_at(m, k, i + 1);
    if c == 101 {
        if m.stack.len() == 0 && spec_keyword_start(s, i) && word_at(
            s,
            i + 1,
            seq![120u8, 112u8, 111u8, 114u8, 116u8],
        ) {
            lemma_m_export(t, s, k, m);
        }
    } else if c == 105 {
        if spec_keyword_start(s, i) && word_at(s, i + 1, seq![109u8, 112u8, 111u8, 114u8, 116u8]) {
            lemma_m_import(t, s, k, m);
        }
    } else if c == 99 {
    } else if c == 40 {
        lemma_m_open_paren(t, s, k, m);
    } else if c == 41 {
        lemma_m_close_paren(t, s, k, m);
    } else if c == 123 {
        lemma_m_open_brace(t, s, k, m);
    } else if c == 125 {
        lemma_m_close_brace(t, s, k, m);
    } else if c == 39 || c == 34 {
        lemma_string_end(t, s, k, i + 1, c);
        if let Ok(e) = string_end(s, i + 1, c) {
            lemma_shift_at(m, k, e);
        }
    } else if c == 47 {
        lemma_m_slash(t, s, k, m);
    } else if c == 96 {
        lemma_m_template(t, s, k, m);
    }
}

proof fn lemma_m_step(t: Seq<u8>, s: Seq<u8>, k: int, m: Model)
    requires
        shifted(t, s, k),
        bounded(m, s.len() as int),
        m.i < s.len(),
    ensures
        m_step(t, shift_model(m, k)) == shift_result(m_step(s, m), k),
        m_step(s, m) matches Ok(m2) ==> bounded(m2, s.len() as int) && m.i < m2.i,
{
    assert(t[m.i + k] == s[m.i]);
    lemma_shift_at(m, k, m.i + 1);
    if !spec_br_or_ws(s[m.i]) {
        lemma_m_dispatch(t, s, k, m);
    }
}

proof fn lemma_m_run(t: Seq<u8>, s: Seq<u8>, k: int, m: Model)
    requires
        shifted(t, s, k),
        bounded(m, s.len() as int),
        s.len() > 0,
    ensures
        m_run(t, shift_model(m, k)) == shift_result(m_run(s, m), k),
    decreases s.len() - m.i,
{
    if m.i < s.len() {
        lemma_m_step(t, s, k, m);
        if let Ok(m1) = m_step(s, m) {
            if m.i < m1.i <= s.len() {
                lemma_m_run(t, s, k, m1);
            }
        }
    }
}

proof fn lemma_block_end_prefix(p: Seq<u8>, s: Seq<u8>, x: int)
    requires
        block_end(p, x) is Ok,
        x >= 0,
    ensures
        block_end(p + s, x) == block_end(p, x),
        p[block_end(p, x)->Ok_0 - 1] == 47,
        block_end(p, x)->Ok_0 <= p.len(),
    decreases p.len() - x,
{
    let t = p + s;
    if x + 1 < p.len() {
        assert(t[x + 1] == p[x + 1]);
        if x + 2 < p.len() {
            assert(t[x + 2] == p[x + 2]);
        }
        if !(p[x + 1] == 42 && x + 2 < p.len() && p[x + 2] == 47) {
            lemma_block_end_prefix(p, s, x + 1);
        }
    }
}

/// Putting a block comment `p` in front of the source moves every position
/// the scan reports by the comment's length and changes nothing else: the same
/// number of records, of the same kinds and in the same order, each offset
/// `p.len()` larger; or the same failure that many bytes later. `parse`
/// returns exactly what `scan` finds, so this holds of `parse` too.
pub proof fn lemma_comment_prefix(p: Seq<u8>, s: Seq<u8>)
    requires
        p.len() >= 2,
        p[0] == 47,
        p[1] == 42,
        block_end(p, 1) == Ok::<int, int>(p.len() as int),
        p.len() + s.len() <= usize::MAX,
    ensures
        scan(p + s) == shift_result(scan(s), p.len() as int),
        scan(s) matches Ok(a) ==> (scan(p + s) matches Ok(b) && b.imports.len() == a.imports.len()
            && b.exports.len() == a.exports.len() && (forall|j: int|
            0 <= j < a.imports.len() ==> b.imports[j] == shift_import(
                #[trigger] a.imports[j],
                p.len() as int,
            )) && (forall|j: int|
            0 <= j < a.exports.len() ==> b.exports[j] == shift_export(
                #[trigger] a.exports[j],
                p.len() as int,
            ))),
        scan(s) matches Err(x) ==> scan(p + s) == Err::<Model, int>(x + p.len()),
{
    let t = p + s;
    let k = p.len() as int;
    lemma_block_end_prefix(p, s, 1);
    assert(t[0] == 47 && t[1] == 42);
    assert forall|x: int| 0 <= x < s.len() implies #[trigger] t[x + k] == s[x] by {}
    assert(t[k - 1] == p[k - 1]);
    assert(shifted(t, s, k));
    reveal(m_slash);
    let m0 = initial();
    assert(at(m0, k) == shift_model(m0, k)) by {
        assert(shift_stack(m0.stack, k) =~= m0.stack);
        assert(shift_imports(m0.imports, k) =~= m0.imports);
        assert(shift_exports(m0.exports, k) =~= m0.exports);
    }
    assert(m_step(t, m0) == Ok::<Model, int>(at(m0, k)));
    assert(scan(t) == m_run(t, at(m0, k)));
    if s.len() > 0 {
        lemma_m_run(t, s, k, m0);
    }
}

} // verus!
