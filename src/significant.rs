//! The last significant byte that a scan remembers is never whitespace: each
//! token ends on a byte of its own, and the recognizers stop right after the
//! last byte they use.

use crate::chars::{byte, spec_br_or_ws, spec_keyword_start};
use crate::model::{
    as_at, at, class_at, first_quote, m_close_brace, m_close_paren, m_dispatch, m_export,
    m_export_declaration, m_export_function, m_export_list, m_export_name, m_export_name_or,
    m_export_star, m_import, m_import_string, m_open_brace, m_open_paren, m_pop, m_reexport,
    m_skip, m_slash, m_step, m_template, name_end, regex_end, skip_ws, string_end, template_end,
    Model,
};
use crate::records::{export_word, import_word, is_quote, meta_word, name_byte, word_at};
use vstd::prelude::*;

verus! {

/// The byte just before the position of `m` exists and is not whitespace.
pub open spec fn settled(s: Seq<u8>, m: Model) -> bool {
    0 < m.i <= s.len() && !spec_br_or_ws(s[m.i - 1])
}

pub open spec fn settled_result(s: Seq<u8>, r: Result<Model, int>) -> bool {
    r matches Ok(m) ==> settled(s, m)
}

proof fn lemma_string_end_quote(s: Seq<u8>, k: int, q: u8)
    requires
        k >= 0,
        q == 39 || q == 34,
    ensures
        string_end(s, k, q) matches Ok(e) ==> 0 < e <= s.len() && s[e - 1] == q,
    decreases s.len() - k,
{
    if 0 <= k < s.len() {
        if s[k] != q && s[k] == 92 && k + 1 < s.len() {
            lemma_string_end_quote(s, k + 2, q);
        } else if s[k] != q && s[k] != 92 && s[k] != 10 && s[k] != 13 {
            lemma_string_end_quote(s, k + 1, q);
        }
    }
}

proof fn lemma_regex_end_slash(s: Seq<u8>, k: int, in_class: bool)
    requires
        k >= 0,
    ensures
        regex_end(s, k, in_class) matches Ok(e) ==> 0 < e <= s.len() && s[e - 1] == 47,
    decreases s.len() - k,
{
    if 0 <= k < s.len() {
        let c = s[k];
        if c == 10 || c == 13 {
        } else if c == 92 {
            if k + 1 < s.len() {
                lemma_regex_end_slash(s, k + 2, in_class);
            }
        } else if in_class {
            lemma_regex_end_slash(s, k + 1, c != 93);
        } else if c == 91 {
            lemma_regex_end_slash(s, k + 1, true);
        } else if c != 47 {
            lemma_regex_end_slash(s, k + 1, false);
        }
    }
}

proof fn lemma_template_end_byte(s: Seq<u8>, k: int)
    requires
        k >= 0,
    ensures
        template_end(s, k) matches Ok((e, b)) ==> 0 < e <= s.len() && (s[e - 1] == 96 || s[e
            - 1] == 123),
    decreases s.len() - k,
{
    if 0 <= k < s.len() {
        let c = s[k];
        if c == 36 && k + 1 < s.len() && s[k + 1] == 123 {
        } else if c == 96 {
        } else if c == 92 {
            if k + 1 < s.len() {
                lemma_template_end_byte(s, k + 2);
            }
        } else {
            lemma_template_end_byte(s, k + 1);
        }
    }
}

proof fn lemma_name_end_byte(s: Seq<u8>, k: int)
    requires
        0 <= k,
    ensures
        name_end(s, k) > k ==> name_end(s, k) <= s.len() && name_byte(s[name_end(s, k) - 1]),
        k <= name_end(s, k),
    decreases s.len() - k,
{
    if 0 <= k < s.len() && !spec_br_or_ws(s[k]) && !crate::chars::spec_punctuator(s[k]) {
        lemma_name_end_byte(s, k + 1);
    }
}

proof fn lemma_word_byte(s: Seq<u8>, i: int, w: Seq<u8>, j: int)
    requires
        word_at(s, i, w),
        0 <= j < w.len(),
    ensures
        s[i + j] == w[j],
{
    assert(s.subrange(i, i + w.len())[j] == s[i + j]);
}

proof fn lemma_import_string_settled(s: Seq<u8>, m: Model, start: int, quote: int)
    ensures
        settled_result(s, m_import_string(s, m, start, quote)),
{
    if 0 <= quote < s.len() && is_quote(s[quote]) {
        lemma_string_end_quote(s, quote + 1, s[quote]);
    }
}

proof fn lemma_name_or_settled(s: Seq<u8>, m: Model, back: int)
    requires
        settled(s, at(m, back)),
        0 <= m.i,
    ensures
        settled(s, m_export_name_or(s, m, back)),
{
    lemma_name_end_byte(s, m.i);
}

proof fn lemma_reexport_settled(s: Seq<u8>, m: Model, start: int)
    requires
        settled(s, m),
    ensures
        settled_result(s, m_reexport(s, m, start)),
{
    if let Ok(k) = skip_ws(s, m.i) {
        if let Ok(k2) = skip_ws(s, k + 4) {
            lemma_import_string_settled(s, m, start, k2);
        }
    }
}

proof fn lemma_import_settled(s: Seq<u8>, m: Model)
    requires
        0 <= m.i,
        word_at(s, m.i, import_word()),
    ensures
        settled_result(s, m_import(s, m)),
{
    reveal(m_import);
    let start = m.i;
    lemma_word_byte(s, start, import_word(), 5);
    if let Ok(q) = skip_ws(s, start + 6) {
        lemma_import_string_settled(s, m, start, q);
        lemma_import_string_settled(s, m, start, first_quote(s, q));
        if let Ok(k) = skip_ws(s, q + 1) {
            crate::model::lemma_skip_ws_forward(s, q + 1);
            if word_at(s, k, meta_word()) {
                lemma_word_byte(s, k, meta_word(), 3);
            }
        }
    }
}

proof fn lemma_declaration_settled(s: Seq<u8>, m: Model)
    requires
        settled(s, m),
    ensures
        settled_result(s, m_export_declaration(s, m)),
    decreases s.len() - m.i,
{
    if let Ok(m1) = m_skip(s, m) {
        crate::model::lemma_skip_ws_forward(s, m.i);
        lemma_name_end_byte(s, m1.i);
        let m2 = m_export_name(s, m1);
        if let Ok(m3) = m_skip(s, m2) {
            if byte(s, m3.i) == 44 && m.i < m3.i + 1 <= s.len() {
                lemma_declaration_settled(s, at(m3, m3.i + 1));
            }
        }
    }
}

proof fn lemma_export_list_settled(s: Seq<u8>, m: Model, start: int)
    requires
        0 <= m.i,
    ensures
        settled_result(s, m_export_list(s, m, start)),
    decreases s.len() - m.i,
{
    if let Ok(m1) = m_skip(s, m) {
        crate::model::lemma_skip_ws_forward(s, m.i);
        if byte(s, m1.i) == 125 {
            lemma_reexport_settled(s, at(m1, m1.i + 1), start);
        } else {
            let e1 = name_end(s, m1.i);
            if let Ok(k3) = skip_ws(s, e1) {
                let named: Result<(int, int, int), int> = if as_at(s, k3) {
                    match skip_ws(s, k3 + 2) {
                        Err(x) => Err(x),
                        Ok(k4) => {
                            let e2 = name_end(s, k4);
                            match skip_ws(s, e2) {
                                Err(x) => Err(x),
                                Ok(k5) => Ok((k4, e2, k5)),
                            }
                        },
                    }
                } else {
                    Ok((m1.i, e1, k3))
                };
                if let Ok((ns, ne, pos)) = named {
                    let m2 = if ne > ns {
                        Model {
                            i: pos,
                            exports: m1.exports.push(
                                crate::records::Export { start: ns as usize, end: ne as usize },
                            ),
                            ..m1
                        }
                    } else {
                        at(m1, pos)
                    };
                    if byte(s, pos) == 44 && m.i < pos + 1 <= s.len() {
                        lemma_export_list_settled(s, at(m2, pos + 1), start);
                    } else if byte(s, pos) == 125 {
                        lemma_reexport_settled(s, at(m2, pos + 1), start);
                    }
                }
            }
        }
    }
}

#[verifier::rlimit(100)]
proof fn lemma_export_settled(s: Seq<u8>, m: Model)
    requires
        0 <= m.i,
        word_at(s, m.i, export_word()),
    ensures
        settled_result(s, m_export(s, m)),
{
    reveal(m_export);
    let start = m.i;
    lemma_word_byte(s, start, export_word(), 5);
    if let Ok(q) = skip_ws(s, start + 6) {
        crate::model::lemma_skip_ws_forward(s, start + 6);
        let mq = at(m, q);
        let w_default = seq![100u8, 101u8, 102u8, 97u8, 117u8, 108u8, 116u8];
        let w_async = seq![97u8, 115u8, 121u8, 110u8, 99u8];
        let w_function = seq![102u8, 117u8, 110u8, 99u8, 116u8, 105u8, 111u8, 110u8];
        let w_const = seq![99u8, 111u8, 110u8, 115u8, 116u8];
        let w_var = seq![118u8, 97u8, 114u8];
        let w_let = seq![108u8, 101u8, 116u8];
        if word_at(s, q, w_default) {
            lemma_word_byte(s, q, w_default, 6);
        }
        if word_at(s, q, w_const) {
            lemma_word_byte(s, q, w_const, 4);
            lemma_declaration_settled(s, at(m, q + 5));
        }
        if word_at(s, q, w_var) {
            lemma_word_byte(s, q, w_var, 2);
            lemma_declaration_settled(s, at(m, q + 3));
        }
        if word_at(s, q, w_let) {
            lemma_word_byte(s, q, w_let, 2);
            lemma_declaration_settled(s, at(m, q + 3));
        }
        lemma_export_list_settled(s, at(m, q + 1), start);
        if byte(s, q) == 42 {
            lemma_star_settled(s, at(m, q + 1), start);
        }
        if class_at(s, q) {
            lemma_word_byte(s, q, seq![99u8, 108u8, 97u8, 115u8, 115u8], 4);
            let m1 = Model { i: q + 5, next_brace_is_class: true, ..mq };
            if let Ok(m2) = m_skip(s, m1) {
                crate::model::lemma_skip_ws_forward(s, q + 5);
                lemma_name_or_settled(s, m2, q + 5);
            }
        }
        if (byte(s, q) == 97 && word_at(s, q, w_async)) || (byte(s, q) == 102 && word_at(
            s,
            q,
            w_function,
        )) {
            lemma_function_settled(s, mq);
        }
    }
}

proof fn lemma_star_settled(s: Seq<u8>, m: Model, start: int)
    requires
        settled(s, m),
    ensures
        settled_result(s, m_export_star(s, m, start)),
{
    lemma_reexport_settled(s, m, start);
    if let Ok(m1) = m_skip(s, m) {
        crate::model::lemma_skip_ws_forward(s, m.i);
        if as_at(s, m1.i) {
            lemma_word_byte(s, m1.i, seq![97u8, 115u8], 1);
            if let Ok(m2) = m_skip(s, at(m1, m1.i + 2)) {
                crate::model::lemma_skip_ws_forward(s, m1.i + 2);
                lemma_name_or_settled(s, m2, m1.i + 2);
                lemma_reexport_settled(s, m_export_name_or(s, m2, m1.i + 2), start);
            }
        }
    }
}

proof fn lemma_function_settled(s: Seq<u8>, m: Model)
    requires
        0 <= m.i,
        word_at(s, m.i, seq![97u8, 115u8, 121u8, 110u8, 99u8]) || word_at(
            s,
            m.i,
            seq![102u8, 117u8, 110u8, 99u8, 116u8, 105u8, 111u8, 110u8],
        ),
    ensures
        settled_result(s, m_export_function(s, m)),
{
    let w_async = seq![97u8, 115u8, 121u8, 110u8, 99u8];
    let w_function = seq![102u8, 117u8, 110u8, 99u8, 116u8, 105u8, 111u8, 110u8];
    let is_async = word_at(s, m.i, w_async);
    if is_async {
        lemma_word_byte(s, m.i, w_async, 4);
        if skip_ws(s, m.i + 5) is Ok {
            crate::model::lemma_skip_ws_forward(s, m.i + 5);
        }
    }
    let m1 = if is_async {
        m_skip(s, at(m, m.i + 5))
    } else {
        Ok(m)
    };
    if let Ok(m1) = m1 {
        if word_at(s, m1.i, w_function) {
            lemma_word_byte(s, m1.i, w_function, 7);
            if let Ok(m2) = m_skip(s, at(m1, m1.i + 8)) {
                crate::model::lemma_skip_ws_forward(s, m1.i + 8);
                if byte(s, m2.i) == 42 {
                    if let Ok(m3) = m_skip(s, at(m2, m2.i + 1)) {
                        crate::model::lemma_skip_ws_forward(s, m2.i + 1);
                        lemma_name_or_settled(s, m3, m2.i + 1);
                    }
                } else {
                    lemma_name_or_settled(s, m2, m1.i + 8);
                }
            }
        } else if !is_async {
            lemma_word_byte(s, m.i, w_function, 0);
        }
    }
}

/// A step of the scan keeps the last significant byte off whitespace: when
/// it pointed at a byte other than whitespace, so it does after the step.
pub proof fn lemma_last_token_significant(s: Seq<u8>, m: Model)
    requires
        0 <= m.i < s.len() <= usize::MAX,
        m.last_token matches Some(t) ==> t < s.len() && !spec_br_or_ws(s[t as int]),
    ensures
        m_step(s, m) matches Ok(m2) ==> (m2.last_token matches Some(t) ==> t < s.len()
            && !spec_br_or_ws(s[t as int])),
{
    reveal(m_open_paren);
    reveal(m_close_paren);
    reveal(m_open_brace);
    reveal(m_close_brace);
    reveal(m_template);
    reveal(m_slash);
    let i = m.i;
    let c = s[i];
    if !spec_br_or_ws(c) {
        if c == 101 && m.stack.len() == 0 && spec_keyword_start(s, i) && word_at(
            s,
            i + 1,
            seq![120u8, 112u8, 111u8, 114u8, 116u8],
        ) {
            assert(s.subrange(i, i + 6) =~= export_word()) by {
                assert(s.subrange(i + 1, i + 6) =~= seq![120u8, 112u8, 111u8, 114u8, 116u8]);
                assert forall|j: int| 1 <= j < 6 implies s[i + j] == export_word()[j] by {
                    assert(s.subrange(i + 1, i + 6)[j - 1] == s[i + j]);
                }
            }
            lemma_export_settled(s, m);
        }
        if c == 105 && spec_keyword_start(s, i) && word_at(
            s,
            i + 1,
            seq![109u8, 112u8, 111u8, 114u8, 116u8],
        ) {
            assert(s.subrange(i, i + 6) =~= import_word()) by {
                assert forall|j: int| 1 <= j < 6 implies s[i + j] == import_word()[j] by {
                    assert(s.subrange(i + 1, i + 6)[j - 1] == s[i + j]);
                }
            }
            lemma_import_settled(s, m);
        }
        if c == 39 || c == 34 {
            lemma_string_end_quote(s, i + 1, c);
        }
        lemma_regex_end_slash(s, i + 1, false);
        lemma_template_end_byte(s, i + 1);
        if m.stack.len() > 0 {
            let m1 = m_pop(m);
            let restored = if m.template_stack.len() > 0 {
                m.template_stack.last()
            } else {
                None
            };
            let popped = if m.template_stack.len() > 0 {
                m.template_stack.drop_last()
            } else {
                m.template_stack
            };
            let m3 = Model { template_depth: restored, template_stack: popped, ..m1 };
            assert(m3.i == i);
        }
        if let Ok((m1, significant)) = m_dispatch(s, m) {
            if significant {
                assert(settled(s, m1));
            }
        }
    }
}

} // verus!
