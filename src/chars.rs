//! Byte classes and keyword tests used by the scanner.

use vstd::prelude::*;

verus! {

/// The byte at `i`, or 0 when `i` lies outside the source.
pub open spec fn byte(s: Seq<u8>, i: int) -> u8 {
    if 0 <= i < s.len() {
        s[i]
    } else {
        0
    }
}

/// Whitespace or line break: bytes 9 to 13, the space and the no-break space.
pub open spec fn spec_br_or_ws(c: u8) -> bool {
    (9 <= c && c <= 13) || c == 32 || c == 160
}

/// One of `! % & ( ) * + , - . / : ; < = > ? [ ] ^ { } | ~`.
pub open spec fn spec_punctuator(c: u8) -> bool {
    c == 33 || c == 37 || c == 38 || (40 <= c && c <= 47) || (58 <= c && c <= 63) || c == 91
        || c == 93 || c == 94 || (123 <= c && c <= 126)
}

/// A punctuator after which a `/` opens a regular expression: every punctuator
/// but `)`, `]` and `}`, which close a value.
pub open spec fn spec_expression_punctuator(c: u8) -> bool {
    spec_punctuator(c) && c != 41 && c != 93 && c != 125
}

/// Whitespace, line break, or a punctuator other than `.`.
pub open spec fn spec_boundary_byte(c: u8) -> bool {
    spec_br_or_ws(c) || (spec_punctuator(c) && c != 46)
}

/// A keyword or identifier may begin at `i`.
pub open spec fn spec_keyword_start(s: Seq<u8>, i: int) -> bool {
    i == 0 || spec_boundary_byte(byte(s, i - 1))
}

/// The bytes `kw` end at `i` (inclusive) and a keyword boundary precedes them.
pub open spec fn preceded_by(s: Seq<u8>, i: int, kw: Seq<u8>) -> bool {
    &&& kw.len() <= i + 1
    &&& i < s.len()
    &&& s.subrange(i + 1 - kw.len(), i + 1) == kw
    &&& spec_keyword_start(s, i + 1 - kw.len())
}

/// A keyword after which an expression begins ends at `i`.
pub open spec fn spec_expression_keyword(s: Seq<u8>, i: int) -> bool {
    ||| preceded_by(s, i, seq![99, 97, 115, 101])
    ||| preceded_by(s, i, seq![100, 101, 108, 101, 116, 101])
    ||| preceded_by(s, i, seq![100, 111])
    ||| preceded_by(s, i, seq![101, 108, 115, 101])
    ||| preceded_by(s, i, seq![105, 110])
    ||| preceded_by(s, i, seq![105, 110, 115, 116, 97, 110, 99, 101, 111, 102])
    ||| preceded_by(s, i, seq![110, 101, 119])
    ||| preceded_by(s, i, seq![114, 101, 116, 117, 114, 110])
    ||| preceded_by(s, i, seq![116, 104, 114, 111, 119])
    ||| preceded_by(s, i, seq![116, 121, 112, 101, 111, 102])
    ||| preceded_by(s, i, seq![118, 111, 105, 100])
    ||| preceded_by(s, i, seq![121, 105, 101, 108, 100])
    ||| preceded_by(s, i, seq![97, 119, 97, 105, 116])
    ||| preceded_by(s, i, seq![100, 101, 98, 117, 103, 103, 101, 114])
}

/// `while`, `for` or `if` ends at `i`.
pub open spec fn spec_paren_keyword(s: Seq<u8>, i: int) -> bool {
    ||| preceded_by(s, i, seq![119, 104, 105, 108, 101])
    ||| preceded_by(s, i, seq![102, 111, 114])
    ||| preceded_by(s, i, seq![105, 102])
}

/// A token after which a `{` opens a block: `;`, `)`, `=>`, or the keywords
/// `finally`, `catch`, `else`.
pub open spec fn spec_expression_terminator(s: Seq<u8>, i: int) -> bool {
    ||| (0 <= i < s.len() && (s[i] == 59 || s[i] == 41))
    ||| (0 <= i < s.len() && s[i] == 62 && byte(s, i - 1) == 61)
    ||| preceded_by(s, i, seq![102, 105, 110, 97, 108, 108, 121])
    ||| preceded_by(s, i, seq![99, 97, 116, 99, 104])
    ||| preceded_by(s, i, seq![101, 108, 115, 101])
}

/// Reads the byte at `i`, or 0 past the end of the source.
pub fn byte_at(src: &[u8], i: usize) -> (r: u8)
    ensures
        r == byte(src@, i as int),
{
    if i < src.len() {
        src[i]
    } else {
        0
    }
}

/// Whitespace or line break (bytes 9 to 13, 32 and 160).
pub fn is_br_or_ws(c: u8) -> (r: bool)
    ensures
        r == spec_br_or_ws(c),
{
    (c > 8 && c < 14) || c == 32 || c == 160
}

/// One of the punctuator bytes.
pub fn is_punctuator(ch: u8) -> (r: bool)
    ensures
        r == spec_punctuator(ch),
{
    ch == 33 || ch == 37 || ch == 38 || (ch > 39 && ch < 48) || (ch > 57 && ch < 64)
        || ch == 91 || ch == 93 || ch == 94 || (ch > 122 && ch < 127)
}

/// A punctuator after which a `/` opens a regular expression.
pub fn is_expression_punctuator(ch: u8) -> (r: bool)
    ensures
        r == spec_expression_punctuator(ch),
{
    ch == 33 || ch == 37 || ch == 38 || (ch > 39 && ch < 48 && ch != 41) || (ch > 57
        && ch < 64) || ch == 91 || ch == 94 || (ch > 122 && ch < 127 && ch != 125)
}

/// Whitespace, line break, or a punctuator other than `.`.
pub fn is_br_or_ws_or_punctuator_not_dot(c: u8) -> (r: bool)
    ensures
        r == spec_boundary_byte(c),
{
    is_br_or_ws(c) || (is_punctuator(c) && c != 46)
}

/// Whether a keyword may begin at `i`: at the start, or after whitespace or
/// a punctuator other than `.`.
pub fn keyword_start(src: &[u8], i: usize) -> (r: bool)
    ensures
        r == spec_keyword_start(src@, i as int),
{
    i == 0 || is_br_or_ws_or_punctuator_not_dot(byte_at(src, i - 1))
}

/// Whether the bytes of `keyword` end at `i` and start at a keyword boundary.
pub fn read_preceding_keyword(src: &[u8], i: usize, keyword: &[u8]) -> (r: bool)
    ensures
        r == preceded_by(src@, i as int, keyword@),
{
    let length = keyword.len();
    if i >= src.len() || length > i + 1 {
        return false;
    }
    let start = i + 1 - length;
    let mut k: usize = 0;
    while k < length
        invariant
            k <= length,
            length == keyword@.len(),
            start + length == i + 1,
            i < src@.len(),
            forall|j: int| 0 <= j < k ==> src@[start + j] == keyword@[j],
        decreases length - k,
    {
        if src[start + k] != keyword[k] {
            proof {
                assert(src@.subrange(start as int, i + 1)[k as int] != keyword@[k as int]);
            }
            return false;
        }
        k = k + 1;
    }
    proof {
        assert(src@.subrange(start as int, i + 1) =~= keyword@);
    }
    keyword_start(src, start)
}

/// Whether a keyword after which an expression begins (`case`, `delete`,
/// `do`, `else`, `in`, `instanceof`, `new`, `return`, `throw`, `typeof`,
/// `void`, `yield`, `await`, `debugger`) ends at `i`; the last byte selects
/// the candidates.
pub fn is_expression_keyword(src: &[u8], i: usize) -> (r: bool)
    ensures
        r == spec_expression_keyword(src@, i as int),
{
    match byte_at(src, i) {
        100 => read_preceding_keyword(src, i, &[118, 111, 105, 100]) || read_preceding_keyword(src, i, &[121, 105, 101, 108, 100]),
        101 => read_preceding_keyword(src, i, &[99, 97, 115, 101]) || read_preceding_keyword(src, i, &[101, 108, 115, 101])
            || read_preceding_keyword(src, i, &[100, 101, 108, 101, 116, 101]),
        102 => read_preceding_keyword(src, i, &[105, 110, 115, 116, 97, 110, 99, 101, 111, 102]) || read_preceding_keyword(
            src,
            i,
            &[116, 121, 112, 101, 111, 102],
        ),
        110 => read_preceding_keyword(src, i, &[105, 110]) || read_preceding_keyword(src, i, &[114, 101, 116, 117, 114, 110]),
        111 => read_preceding_keyword(src, i, &[100, 111]),
        114 => read_preceding_keyword(src, i, &[100, 101, 98, 117, 103, 103, 101, 114]),
        116 => read_preceding_keyword(src, i, &[97, 119, 97, 105, 116]),
        119 => read_preceding_keyword(src, i, &[110, 101, 119]) || read_preceding_keyword(src, i, &[116, 104, 114, 111, 119]),
        _ => false,
    }
}

/// Whether `while`, `for` or `if` ends at `i`.
pub fn is_paren_keyword(src: &[u8], i: usize) -> (r: bool)
    ensures
        r == spec_paren_keyword(src@, i as int),
{
    match byte_at(src, i) {
        101 => read_preceding_keyword(src, i, &[119, 104, 105, 108, 101]),
        114 => read_preceding_keyword(src, i, &[102, 111, 114]),
        102 => read_preceding_keyword(src, i, &[105, 102]),
        _ => false,
    }
}

/// Whether `;`, `)`, `=>`, `finally`, `catch` or `else` ends at `i`: a `{`
/// after it opens a block.
pub fn is_expression_terminator(src: &[u8], i: usize) -> (r: bool)
    ensures
        r == spec_expression_terminator(src@, i as int),
{
    match byte_at(src, i) {
        59 | 41 => i < src.len(),
        62 => i < src.len() && i > 0 && src[i - 1] == 61,
        121 => read_preceding_keyword(src, i, &[102, 105, 110, 97, 108, 108, 121]),
        104 => read_preceding_keyword(src, i, &[99, 97, 116, 99, 104]),
        101 => read_preceding_keyword(src, i, &[101, 108, 115, 101]),
        _ => false,
    }
}

} // verus!
