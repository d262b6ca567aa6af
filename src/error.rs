//! The failure value of a scan, and its position as line and column.

use vstd::prelude::*;
use vstd::string::{StrSliceExecFns, StringExecFns, StringSliceAdditionalSpecFns};
use vstd::utf8::{decode_utf8, is_char_boundary, valid_utf8};

verus! {

/// Number of line feeds in `p`.
pub open spec fn newline_count(p: Seq<u8>) -> nat
    decreases p.len(),
{
    if p.len() == 0 {
        0
    } else {
        newline_count(p.drop_last()) + if p.last() == 10 {
            1nat
        } else {
            0nat
        }
    }
}

/// Number of bytes after the last line feed of `p`.
pub open spec fn tail_len(p: Seq<u8>) -> nat
    decreases p.len(),
{
    if p.len() == 0 {
        0
    } else if p.last() == 10 {
        0
    } else {
        tail_len(p.drop_last()) + 1
    }
}

/// Number of lines of a non-empty text `p`: a final line feed ends the last
/// line and opens no new one.
pub open spec fn line_of(p: Seq<u8>) -> nat {
    if p.len() > 0 && p.last() == 10 {
        newline_count(p)
    } else {
        newline_count(p) + 1
    }
}

/// Length in bytes of the last line of `p`, without its line ending (a line
/// feed, or a carriage return followed by a line feed).
pub open spec fn col_of(p: Seq<u8>) -> nat {
    if p.len() > 0 && p.last() == 10 {
        let q = p.drop_last();
        if tail_len(q) > 0 && q.last() == 13 {
            (tail_len(q) - 1) as nat
        } else {
            tail_len(q)
        }
    } else {
        tail_len(p)
    }
}

/// The line of the byte at `idx` of `s`, 1-based; 0 when `idx` is past the end.
pub open spec fn error_line(s: Seq<u8>, idx: int) -> nat {
    if 0 <= idx < s.len() {
        line_of(s.subrange(0, idx + 1))
    } else {
        0
    }
}

/// The column of the byte at `idx` of `s`, 1-based and counted in bytes; 0
/// when `idx` is past the end.
pub open spec fn error_col(s: Seq<u8>, idx: int) -> nat {
    if 0 <= idx < s.len() {
        col_of(s.subrange(0, idx + 1))
    } else {
        0
    }
}

/// The scanner gave up at byte `idx`, which lies on line `line` at column
/// `col`; `msg` is an optional reason.
#[derive(Debug)]
pub struct ParseError {
    pub idx: usize,
    pub line: usize,
    pub col: usize,
    pub msg: Option<&'static str>,
}

/// Line and column of the byte at `idx`, as `error_line` and `error_col` say.
fn line_and_col(src: &[u8], idx: usize) -> (r: (usize, usize))
    ensures
        r.0 == error_line(src@, idx as int),
        r.1 == error_col(src@, idx as int),
{
    if idx >= src.len() {
        return (0, 0);
    }
    let mut count: usize = 0;
    let mut tail: usize = 0;
    let mut before_tail: usize = 0;
    let mut k: usize = 0;
    while k <= idx
        invariant
            idx < src@.len(),
            k <= idx + 1,
            count == newline_count(src@.subrange(0, k as int)),
            tail == tail_len(src@.subrange(0, k as int)),
            count + tail <= k,
            before_tail <= k,
            k > 0 && src@[k - 1] == 10 ==> before_tail == tail_len(src@.subrange(0, k - 1)),
        decreases idx + 1 - k,
    {
        let ghost p = src@.subrange(0, k + 1);
        assert(p.drop_last() =~= src@.subrange(0, k as int));
        if src[k] == 10 {
            count = count + 1;
            before_tail = tail;
            tail = 0;
        } else {
            tail = tail + 1;
        }
        k = k + 1;
    }
    let ghost p = src@.subrange(0, idx + 1);
    if src[idx] == 10 {
        assert(p.drop_last() =~= src@.subrange(0, idx as int));
        let col = if before_tail > 0 && src[idx - 1] == 13 {
            before_tail - 1
        } else {
            before_tail
        };
        (count, col)
    } else {
        assert(p.drop_last() =~= src@.subrange(0, idx as int));
        assert(tail > 0);
        (count + 1, tail)
    }
}

impl ParseError {
    /// The error at byte `idx` of `source`, with no reason.
    pub fn from_source_and_index(source: &str, idx: usize) -> (r: ParseError)
        ensures
            r.idx == idx,
            r.line == error_line(source.spec_bytes(), idx as int),
            r.col == error_col(source.spec_bytes(), idx as int),
            r.msg.is_none(),
    {
        ParseError::create(source.as_bytes(), idx, None)
    }

    /// The error at byte `idx` of `source`, with the reason `msg`.
    pub fn from_source_index_and_msg(source: &str, idx: usize, msg: &'static str) -> (r:
        ParseError)
        ensures
            r.idx == idx,
            r.line == error_line(source.spec_bytes(), idx as int),
            r.col == error_col(source.spec_bytes(), idx as int),
            r.msg == Some(msg),
    {
        ParseError::create(source.as_bytes(), idx, Some(msg))
    }

    /// `ParseError at <line>:<col>`.
    pub fn to_string(&self) -> (r: String)
        ensures
            r@ == "ParseError at "@ + decimal(self.line as nat) + ":"@ + decimal(self.col as nat),
    {
        let mut out = String::new();
        out.append("ParseError at ");
        append_decimal(&mut out, self.line);
        out.append(":");
        append_decimal(&mut out, self.col);
        proof {
            assert(out@ =~= "ParseError at "@ + decimal(self.line as nat) + ":"@ + decimal(
                self.col as nat,
            ));
        }
        out
    }

    /// The error at byte `idx` of the bytes `src`, with the reason `msg`.
    pub fn create(src: &[u8], idx: usize, msg: Option<&'static str>) -> (r: ParseError)
        ensures
            r.idx == idx,
            r.line == error_line(src@, idx as int),
            r.col == error_col(src@, idx as int),
            r.msg == msg,
    {
        let (line, col) = line_and_col(src, idx);
        ParseError { idx, line, col, msg }
    }
}

/// The decimal digits of `n`.
pub open spec fn decimal(n: nat) -> Seq<char>
    decreases n,
{
    if n < 10 {
        seq![digit_char(n)]
    } else {
        decimal(n / 10) + seq![digit_char(n % 10)]
    }
}

pub open spec fn digit_char(d: nat) -> char {
    if d == 0 {
        '0'
    } else if d == 1 {
        '1'
    } else if d == 2 {
        '2'
    } else if d == 3 {
        '3'
    } else if d == 4 {
        '4'
    } else if d == 5 {
        '5'
    } else if d == 6 {
        '6'
    } else if d == 7 {
        '7'
    } else if d == 8 {
        '8'
    } else {
        '9'
    }
}

/// `n` spaces.
pub open spec fn spaces(n: nat) -> Seq<char> {
    Seq::new(n, |_j: int| ' ')
}

/// `s[a..b]` is line `k` (1-based) of `s`, without its line feed.
pub open spec fn line_span(s: Seq<u8>, k: int, a: int, b: int) -> bool {
    &&& 0 <= a <= b <= s.len()
    &&& newline_count(s.subrange(0, a)) == k - 1
    &&& (a == 0 || s[a - 1] == 10)
    &&& forall|j: int| a <= j < b ==> s[j] != 10
    &&& (b == s.len() || s[b] == 10)
}

/// The end of the text of the line `s[a..b]`: a carriage return before its
/// line feed is not part of it.
pub open spec fn line_text_end(s: Seq<u8>, a: int, b: int) -> int {
    if a < b && b < s.len() && s[b - 1] == 13 {
        b - 1
    } else {
        b
    }
}

/// The diagnostic for an error at line `line`, column `col`, whose line
/// reads `code` and whose reason is `msg`.
pub open spec fn diagnostic(line: nat, col: nat, code: Seq<char>, msg: Seq<char>) -> Seq<char> {
    let gutter = spaces(decimal(line).len() + 1);
    "ParseError: at "@ + decimal(line) + ":"@ + decimal(col) + "\n"@ + gutter + "|\n"@ + decimal(
        line,
    ) + " "@ + "|"@ + code + "\n"@ + gutter + "|"@ + spaces(
        if col > 0 {
            (col - 1) as nat
        } else {
            0
        },
    ) + "^ "@ + msg + "\n"@
}

/// Appends the decimal digits of `n`.
fn append_decimal(out: &mut String, n: usize)
    ensures
        final(out)@ == old(out)@ + decimal(n as nat),
    decreases n,
{
    if n >= 10 {
        append_decimal(out, n / 10);
    }
    let d: &str = match n % 10 {
        0 => "0",
        1 => "1",
        2 => "2",
        3 => "3",
        4 => "4",
        5 => "5",
        6 => "6",
        7 => "7",
        8 => "8",
        _ => "9",
    };
    proof {
        reveal_strlit("0");
        reveal_strlit("1");
        reveal_strlit("2");
        reveal_strlit("3");
        reveal_strlit("4");
        reveal_strlit("5");
        reveal_strlit("6");
        reveal_strlit("7");
        reveal_strlit("8");
        reveal_strlit("9");
    }
    out.append(d);
    proof {
        assert(d@ =~= seq![digit_char((n % 10) as nat)]);
        assert(final(out)@ =~= old(out)@ + decimal(n as nat));
    }
}

/// Appends `n` spaces.
fn append_spaces(out: &mut String, n: usize)
    ensures
        final(out)@ == old(out)@ + spaces(n as nat),
{
    let mut k: usize = 0;
    proof {
        reveal_strlit(" ");
        assert(out@ =~= old(out)@ + spaces(0));
    }
    while k < n
        invariant
            k <= n,
            out@ == old(out)@ + spaces(k as nat),
        decreases n - k,
    {
        out.append(" ");
        k = k + 1;
        proof {
            reveal_strlit(" ");
            assert(out@ =~= old(out)@ + spaces(k as nat));
        }
    }
}

/// Finds line `line` of `src`: its start and the end of its text.
fn find_line(src: &[u8], line: usize) -> (r: (usize, usize, usize))
    requires
        1 <= line <= newline_count(src@) + 1,
    ensures
        line_span(src@, line as int, r.0 as int, r.1 as int),
        r.2 == line_text_end(src@, r.0 as int, r.1 as int),
{
    let len = src.len();
    let mut count: usize = 0;
    let mut a: usize = 0;
    // find the start: the position after the (line - 1)-th line feed
    while count + 1 < line
        invariant
            a <= len == src@.len(),
            count + 1 <= line <= newline_count(src@) + 1,
            newline_count(src@.subrange(0, a as int)) == count,
            a == 0 || src@[a - 1] == 10,
        decreases len - a,
    {
        let ghost a0 = a;
        let mut k = a;
        while k < len && src[k] != 10
            invariant
                a0 <= k <= len == src@.len(),
                forall|j: int| a0 <= j < k ==> src@[j] != 10,
                newline_count(src@.subrange(0, k as int)) == count,
            decreases len - k,
        {
            proof {
                assert(src@.subrange(0, k + 1).drop_last() =~= src@.subrange(0, k as int));
            }
            k = k + 1;
        }
        if k >= len {
            proof {
                assert(src@.subrange(0, len as int) =~= src@);
            }
            // fewer lines than asked for: cannot happen by the precondition
            return (a, a, a);
        }
        proof {
            assert(src@.subrange(0, k + 1).drop_last() =~= src@.subrange(0, k as int));
        }
        a = k + 1;
        count = count + 1;
    }
    let mut b = a;
    while b < len && src[b] != 10
        invariant
            a <= b <= len == src@.len(),
            forall|j: int| a <= j < b ==> src@[j] != 10,
        decreases len - b,
    {
        b = b + 1;
    }
    let e = if a < b && b < len && src[b - 1] == 13 {
        b - 1
    } else {
        b
    };
    (a, b, e)
}

/// The text of the line `src[a..e]`, where `a` starts a line and `e` ends
/// one.
fn line_text<'a>(src: &'a str, a: usize, e: usize) -> (r: &'a str)
    requires
        a <= e <= src.spec_bytes().len(),
        a == 0 || src.spec_bytes()[a - 1] == 10,
        e == src.spec_bytes().len() || src.spec_bytes()[e as int] == 10
            || src.spec_bytes()[e as int] == 13,
    ensures
        r@ == decode_utf8(src.spec_bytes().subrange(a as int, e as int)),
{
    let ghost bytes = src.spec_bytes();
    proof {
        vstd::utf8::encode_utf8_valid_utf8(src@);
        if e == bytes.len() {
            vstd::utf8::is_char_boundary_start_end_of_seq(bytes);
        } else {
            vstd::utf8::is_char_boundary_iff_not_is_continuation_byte(bytes, e as int);
        }
    }
    let (head, _) = src.split_at(e);
    proof {
        vstd::utf8::encode_utf8_valid_utf8(head@);
        vstd::utf8::encode_utf8_decode_utf8(head@);
    }
    if a == 0 {
        return head;
    }
    proof {
        let h = head.spec_bytes();
        assert(h[a - 1] == bytes[a - 1]);
        vstd::utf8::is_char_boundary_iff_not_is_continuation_byte(h, a - 1);
    }
    let (_, tail) = head.split_at(a - 1);
    let n = tail.unicode_len();
    proof {
        let t = tail.spec_bytes();
        vstd::utf8::encode_utf8_valid_utf8(tail@);
        vstd::utf8::encode_utf8_decode_utf8(tail@);
        assert(t =~= bytes.subrange(a - 1, e as int));
        assert(t[0] == 10);
        assert(vstd::utf8::pop_first_scalar(t) =~= bytes.subrange(a as int, e as int));
        assert(decode_utf8(t) == seq![vstd::utf8::decode_first_scalar(t) as char] + decode_utf8(
            vstd::utf8::pop_first_scalar(t),
        ));
        assert(tail@.len() >= 1);
    }
    let r = tail.substring_char(1, n);
    proof {
        assert(r@ =~= decode_utf8(bytes.subrange(a as int, e as int)));
    }
    r
}

/// Renders `err` as a diagnostic for the source `src`: a header with the
/// line and column, the line of `src` that holds the error under a gutter
/// with its number, and a caret under the column followed by the reason
/// (`unexpected token` when there is none).
pub fn pretty_error(src: &str, err: &ParseError) -> (r: String)
    requires
        1 <= err.line <= newline_count(src.spec_bytes()) + 1,
    ensures
        exists|a: int, b: int|
            line_span(src.spec_bytes(), err.line as int, a, b) && r@ == diagnostic(
                err.line as nat,
                err.col as nat,
                decode_utf8(src.spec_bytes().subrange(a, line_text_end(src.spec_bytes(), a, b))),
                match err.msg {
                    Some(m) => m@,
                    None => "unexpected token"@,
                },
            ),
{
    let (a, b, e) = find_line(src.as_bytes(), err.line);
    let code = line_text(src, a, e);
    let msg: &str = match err.msg {
        Some(m) => m,
        None => "unexpected token",
    };
    let mut number = String::new();
    append_decimal(&mut number, err.line);
    let width = number.as_str().unicode_len();
    let mut out = String::new();
    out.append("ParseError: at ");
    append_decimal(&mut out, err.line);
    out.append(":");
    append_decimal(&mut out, err.col);
    out.append("\n");
    append_spaces(&mut out, width);
    out.append(" ");
    out.append("|\n");
    out.append(number.as_str());
    out.append(" ");
    out.append("|");
    out.append(code);
    out.append("\n");
    append_spaces(&mut out, width);
    out.append(" ");
    out.append("|");
    let caret = if err.col > 0 {
        err.col - 1
    } else {
        0
    };
    append_spaces(&mut out, caret);
    out.append("^ ");
    out.append(msg);
    out.append("\n");
    proof {
        reveal_strlit(" ");
        let gutter = spaces(decimal(err.line as nat).len() + 1);
        assert(spaces(width as nat) + " "@ =~= gutter);
        assert(out@ =~= diagnostic(
            err.line as nat,
            err.col as nat,
            code@,
            msg@,
        ));
    }
    out
}

} // verus!
