//! Token classification and the spacing table.
//!
//! A token is known by its byte range in the segment text; its class is
//! recovered from those bytes. The spacing table gives, for each pair of an
//! emitted token and the token that follows it on the same line, the number
//! of spaces the canonical style puts between them: one around binary
//! operators and assignment, none after unary operators, none just inside
//! call, subscript and display brackets, none before a comma and one after,
//! none around attribute dots and keyword-argument equals signs, two before
//! an inline comment.

use vstd::prelude::*;

use crate::lines::{NL, SP, TAB};
use crate::segment::HASH;

verus! {

/// Byte value of a carriage return.
pub const CR: u8 = 13;

// Tokens are compared against plain byte values. The ones that matter here:
// `( ) [ ] { }` are 40 41 91 93 123 125; `, ; : .` are 44 59 58 46; `=` is 61;
// `+ - * ~ @` are 43 45 42 126 64; quotes `"` and `'` are 34 and 39; letters
// run from 97 (`a`) to 122 (`z`).

/// The class of a token, as read from its bytes.
#[derive(Clone, Copy, PartialEq, Eq, Structural, Debug)]
pub enum Cls {
    /// Spaces and tabs only (an indentation token).
    Ws,
    /// A line feed, carriage return, or the pair.
    Newline,
    /// A `#` comment, running to the end of its line.
    Comment,
    /// A keyword that cannot be an operand.
    Kw,
    /// A name, number, string or other expression atom.
    Operand,
    /// An operator or a punctuation mark.
    Op,
}

/// What the previously emitted token was, as far as spacing cares.
#[derive(Clone, Copy, PartialEq, Eq, Structural, Debug)]
pub enum Prev {
    /// At the start of a line; indentation, not spacing, applies.
    Start,
    /// A name, number, string, or a closing bracket.
    Operand,
    /// An opening bracket: nothing follows it directly.
    Opener,
    /// A keyword: one space follows.
    Kw,
    /// A token glued to what follows: unary operator, decorator mark,
    /// power operator, keyword-argument equals sign.
    Tight,
    /// An attribute or relative-import dot: glued to a following operand,
    /// but a keyword after it keeps its space.
    Dot,
    /// A binary operator or loose punctuation: one space follows.
    Loose,
    /// A comma or semicolon: one space follows.
    Comma,
    /// A colon inside a subscript: a slice colon, nothing follows directly.
    ColonSlice,
    /// A comment: only a newline can follow.
    Comment,
}

pub open spec fn is_digit(b: u8) -> bool {
    48 <= b <= 57
}

pub open spec fn is_ident_start(b: u8) -> bool {
    (65 <= b <= 90) || (97 <= b <= 122) || b == 95 || b >= 128
}

pub open spec fn is_quote(b: u8) -> bool {
    b == 34 || b == 39
}

/// The Python keywords that can never stand as an operand. `True`, `False`
/// and `None` are operands and are deliberately absent.
pub open spec fn is_keyword(t: Seq<u8>) -> bool {
    ||| (t.len() == 2 && (
        (t[0] == 97 && t[1] == 115)
        || (t[0] == 105 && t[1] == 102)
        || (t[0] == 105 && t[1] == 110)
        || (t[0] == 105 && t[1] == 115)
        || (t[0] == 111 && t[1] == 114)))
    ||| (t.len() == 3 && (
        (t[0] == 97 && t[1] == 110 && t[2] == 100)
        || (t[0] == 100 && t[1] == 101 && t[2] == 102)
        || (t[0] == 100 && t[1] == 101 && t[2] == 108)
        || (t[0] == 102 && t[1] == 111 && t[2] == 114)
        || (t[0] == 110 && t[1] == 111 && t[2] == 116)
        || (t[0] == 116 && t[1] == 114 && t[2] == 121)))
    ||| (t.len() == 4 && (
        (t[0] == 101 && t[1] == 108 && t[2] == 105 && t[3] == 102)
        || (t[0] == 101 && t[1] == 108 && t[2] == 115 && t[3] == 101)
        || (t[0] == 102 && t[1] == 114 && t[2] == 111 && t[3] == 109)
        || (t[0] == 112 && t[1] == 97 && t[2] == 115 && t[3] == 115)
        || (t[0] == 119 && t[1] == 105 && t[2] == 116 && t[3] == 104)))
    ||| (t.len() == 5 && (
        (t[0] == 97 && t[1] == 115 && t[2] == 121 && t[3] == 110 && t[4] == 99)
        || (t[0] == 97 && t[1] == 119 && t[2] == 97 && t[3] == 105 && t[4] == 116)
        || (t[0] == 98 && t[1] == 114 && t[2] == 101 && t[3] == 97 && t[4] == 107)
        || (t[0] == 99 && t[1] == 108 && t[2] == 97 && t[3] == 115 && t[4] == 115)
        || (t[0] == 114 && t[1] == 97 && t[2] == 105 && t[3] == 115 && t[4] == 101)
        || (t[0] == 119 && t[1] == 104 && t[2] == 105 && t[3] == 108 && t[4] == 101)
        || (t[0] == 121 && t[1] == 105 && t[2] == 101 && t[3] == 108 && t[4] == 100)))
    ||| (t.len() == 6 && (
        (t[0] == 97 && t[1] == 115 && t[2] == 115 && t[3] == 101 && t[4] == 114
            && t[5] == 116)
        || (t[0] == 101 && t[1] == 120 && t[2] == 99 && t[3] == 101 && t[4] == 112
            && t[5] == 116)
        || (t[0] == 103 && t[1] == 108 && t[2] == 111 && t[3] == 98 && t[4] == 97
            && t[5] == 108)
        || (t[0] == 105 && t[1] == 109 && t[2] == 112 && t[3] == 111 && t[4] == 114
            && t[5] == 116)
        || (t[0] == 108 && t[1] == 97 && t[2] == 109 && t[3] == 98 && t[4] == 100
            && t[5] == 97)
        || (t[0] == 114 && t[1] == 101 && t[2] == 116 && t[3] == 117 && t[4] == 114
            && t[5] == 110)))
    ||| (t.len() == 7 && t[0] == 102 && t[1] == 105 && t[2] == 110 && t[3] == 97
        && t[4] == 108 && t[5] == 108 && t[6] == 121)
    ||| (t.len() == 8 && (
        (t[0] == 99 && t[1] == 111 && t[2] == 110 && t[3] == 116 && t[4] == 105
            && t[5] == 110 && t[6] == 117 && t[7] == 101)
        || (t[0] == 110 && t[1] == 111 && t[2] == 110 && t[3] == 108 && t[4] == 111
            && t[5] == 99 && t[6] == 97 && t[7] == 108)))
}

/// Whether the token bytes contain a quote anywhere (a prefixed string
/// literal such as a raw or formatted string starts with name bytes).
pub open spec fn has_quote(t: Seq<u8>) -> bool {
    exists|j: int| 0 <= j < t.len() && is_quote(#[trigger] t[j])
}

/// The class of a token with bytes `t`. Total; meaningful when `t` is a real
/// token's text.
pub open spec fn cls(t: Seq<u8>) -> Cls {
    if t.len() == 0 {
        Cls::Ws
    } else {
        let a = t[0];
        if a == NL || a == CR {
            Cls::Newline
        } else if a == SP || a == TAB {
            Cls::Ws
        } else if a == HASH {
            Cls::Comment
        } else if is_digit(a) {
            Cls::Operand
        } else if a == 46 {
            if t.len() >= 2 && (is_digit(t[1]) || t[1] == 46) {
                Cls::Operand
            } else {
                Cls::Op
            }
        } else if is_quote(a) {
            Cls::Operand
        } else if is_ident_start(a) {
            if has_quote(t) {
                Cls::Operand
            } else if is_keyword(t) {
                Cls::Kw
            } else {
                Cls::Operand
            }
        } else {
            Cls::Op
        }
    }
}

/// Contexts in which `+ - * ~ @ **` are unary (or a decorator mark), not
/// binary.
pub open spec fn unary_ctx(prev: Prev) -> bool {
    match prev {
        Prev::Start => true,
        Prev::Opener => true,
        Prev::Kw => true,
        Prev::Tight => true,
        Prev::Dot => true,
        Prev::Loose => true,
        Prev::Comma => true,
        Prev::ColonSlice => true,
        Prev::Operand => false,
        Prev::Comment => false,
    }
}

/// Spaces that follow `prev` when the next token is an operand or keyword.
pub open spec fn operand_sep(prev: Prev) -> u8 {
    match prev {
        Prev::Opener => 0,
        Prev::Tight => 0,
        Prev::Dot => 0,
        Prev::ColonSlice => 0,
        _ => 1,
    }
}

/// The number of spaces between the previously emitted token and the next
/// token `t` of class `c`, with `inner` the innermost open bracket.
pub open spec fn sep_width(prev: Prev, c: Cls, t: Seq<u8>, inner: Option<u8>) -> u8 {
    if c == Cls::Comment {
        2
    } else if c == Cls::Newline || c == Cls::Ws {
        0
    } else if c == Cls::Op {
        let a = if t.len() >= 1 { t[0] } else { 0 };
        let n = t.len();
        if n == 1 && (a == 44 || a == 59 || a == 58) {
            0
        } else if n == 1 && (a == 41 || a == 93 || a == 125) {
            0
        } else if n == 1 && a == 46 {
            if prev == Prev::Kw {
                1
            } else {
                0
            }
        } else if n == 1 && (a == 40 || a == 91) {
            match prev {
                Prev::Operand => 0,
                Prev::Opener => 0,
                Prev::Tight => 0,
                Prev::Dot => 0,
                Prev::ColonSlice => 0,
                _ => 1,
            }
        } else if n == 1 && a == 123 {
            match prev {
                Prev::Opener => 0,
                Prev::Tight => 0,
                Prev::Dot => 0,
                Prev::ColonSlice => 0,
                _ => 1,
            }
        } else if n == 1 && a == 61 {
            if inner == Some(40u8) {
                0
            } else {
                1
            }
        } else if n == 2 && t[0] == 42 && t[1] == 42 {
            if prev == Prev::Operand {
                0
            } else {
                operand_sep(prev)
            }
        } else if n == 1 && (a == 43 || a == 45 || a == 42 || a == 126 || a == 64) {
            if unary_ctx(prev) {
                operand_sep(prev)
            } else {
                1
            }
        } else {
            1
        }
    } else if c == Cls::Kw && prev == Prev::Dot {
        1
    } else {
        operand_sep(prev)
    }
}

/// What the previous-token state becomes after emitting token `t` of class
/// `c`, with `inner` the innermost open bracket at that point.
pub open spec fn next_prev(prev: Prev, c: Cls, t: Seq<u8>, inner: Option<u8>) -> Prev {
    match c {
        Cls::Comment => Prev::Comment,
        Cls::Newline => Prev::Start,
        Cls::Ws => prev,
        Cls::Kw => Prev::Kw,
        Cls::Operand => Prev::Operand,
        Cls::Op => {
            let a = if t.len() >= 1 { t[0] } else { 0 };
            let n = t.len();
            if n == 1 && (a == 40 || a == 91 || a == 123) {
                Prev::Opener
            } else if n == 1 && (a == 41 || a == 93 || a == 125) {
                Prev::Operand
            } else if n == 1 && (a == 44 || a == 59) {
                Prev::Comma
            } else if n == 1 && a == 58 {
                if inner == Some(91u8) {
                    Prev::ColonSlice
                } else {
                    Prev::Loose
                }
            } else if n == 1 && a == 46 {
                Prev::Dot
            } else if n == 1 && a == 61 {
                if inner == Some(40u8) {
                    Prev::Tight
                } else {
                    Prev::Loose
                }
            } else if n == 2 && t[0] == 42 && t[1] == 42 {
                Prev::Tight
            } else if n == 1 && (a == 43 || a == 45 || a == 42 || a == 126 || a == 64) {
                if unary_ctx(prev) {
                    Prev::Tight
                } else {
                    Prev::Loose
                }
            } else {
                Prev::Loose
            }
        },
    }
}

/// The open-bracket stack after token `t` of class `c`.
pub open spec fn next_brackets(bs: Seq<u8>, c: Cls, t: Seq<u8>) -> Seq<u8> {
    if c == Cls::Op && t.len() == 1 && (t[0] == 40 || t[0] == 91 || t[0] == 123) {
        bs.push(t[0])
    } else if c == Cls::Op && t.len() == 1 && (t[0] == 41 || t[0] == 93 || t[0] == 125) {
        if bs.len() > 0 {
            bs.drop_last()
        } else {
            bs
        }
    } else {
        bs
    }
}

/// Whether all bytes are spaces or tabs.
pub open spec fn ws_only(s: Seq<u8>) -> bool {
    forall|i: int| 0 <= i < s.len() ==> (#[trigger] s[i]) == SP || s[i] == TAB
}

/// The display width of leading whitespace, with tabs advancing to the next
/// multiple of eight columns.
pub open spec fn ws_width_from(s: Seq<u8>, col: int) -> int
    decreases s.len(),
{
    if s.len() == 0 {
        col
    } else if s[0] == TAB {
        ws_width_from(s.drop_first(), col + 8 - (col % 8))
    } else {
        ws_width_from(s.drop_first(), col + 1)
    }
}

/// Executable classification of a token's bytes.
pub fn cls_of(t: &Vec<u8>) -> (c: Cls)
    ensures
        c == cls(t@),
{
    if t.len() == 0 {
        return Cls::Ws;
    }
    let a = t[0];
    if a == NL || a == CR {
        Cls::Newline
    } else if a == SP || a == TAB {
        Cls::Ws
    } else if a == HASH {
        Cls::Comment
    } else if 48 <= a && a <= 57 {
        Cls::Operand
    } else if a == 46 {
        if t.len() >= 2 && ((48 <= t[1] && t[1] <= 57) || t[1] == 46) {
            Cls::Operand
        } else {
            Cls::Op
        }
    } else if a == 34 || a == 39 {
        Cls::Operand
    } else if (65 <= a && a <= 90) || (97 <= a && a <= 122) || a == 95 || a >= 128 {
        let mut j: usize = 0;
        let mut q: bool = false;
        while j < t.len()
            invariant
                j <= t.len(),
                q == exists|i: int| 0 <= i < j && is_quote(#[trigger] t@[i]),
            decreases t.len() - j,
        {
            if t[j] == 34 || t[j] == 39 {
                q = true;
            }
            j = j + 1;
        }
        if q {
            Cls::Operand
        } else if is_keyword_of(t) {
            Cls::Kw
        } else {
            Cls::Operand
        }
    } else {
        Cls::Op
    }
}

/// Executable keyword test.
pub fn is_keyword_of(t: &Vec<u8>) -> (r: bool)
    ensures
        r == is_keyword(t@),
{
    let n = t.len();
    if n == 2 {
        (t[0] == 97 && t[1] == 115) || (t[0] == 105 && t[1] == 102)
            || (t[0] == 105 && t[1] == 110) || (t[0] == 105 && t[1] == 115)
            || (t[0] == 111 && t[1] == 114)
    } else if n == 3 {
        (t[0] == 97 && t[1] == 110 && t[2] == 100)
            || (t[0] == 100 && t[1] == 101 && t[2] == 102)
            || (t[0] == 100 && t[1] == 101 && t[2] == 108)
            || (t[0] == 102 && t[1] == 111 && t[2] == 114)
            || (t[0] == 110 && t[1] == 111 && t[2] == 116)
            || (t[0] == 116 && t[1] == 114 && t[2] == 121)
    } else if n == 4 {
        (t[0] == 101 && t[1] == 108 && t[2] == 105 && t[3] == 102)
            || (t[0] == 101 && t[1] == 108 && t[2] == 115 && t[3] == 101)
            || (t[0] == 102 && t[1] == 114 && t[2] == 111 && t[3] == 109)
            || (t[0] == 112 && t[1] == 97 && t[2] == 115 && t[3] == 115)
            || (t[0] == 119 && t[1] == 105 && t[2] == 116 && t[3] == 104)
    } else if n == 5 {
        (t[0] == 97 && t[1] == 115 && t[2] == 121 && t[3] == 110 && t[4] == 99)
            || (t[0] == 97 && t[1] == 119 && t[2] == 97 && t[3] == 105 && t[4] == 116)
            || (t[0] == 98 && t[1] == 114 && t[2] == 101 && t[3] == 97 && t[4] == 107)
            || (t[0] == 99 && t[1] == 108 && t[2] == 97 && t[3] == 115 && t[4] == 115)
            || (t[0] == 114 && t[1] == 97 && t[2] == 105 && t[3] == 115 && t[4] == 101)
            || (t[0] == 119 && t[1] == 104 && t[2] == 105 && t[3] == 108 && t[4] == 101)
            || (t[0] == 121 && t[1] == 105 && t[2] == 101 && t[3] == 108 && t[4] == 100)
    } else if n == 6 {
        (t[0] == 97 && t[1] == 115 && t[2] == 115 && t[3] == 101 && t[4] == 114
            && t[5] == 116)
            || (t[0] == 101 && t[1] == 120 && t[2] == 99 && t[3] == 101 && t[4] == 112
                && t[5] == 116)
            || (t[0] == 103 && t[1] == 108 && t[2] == 111 && t[3] == 98 && t[4] == 97
                && t[5] == 108)
            || (t[0] == 105 && t[1] == 109 && t[2] == 112 && t[3] == 111 && t[4] == 114
                && t[5] == 116)
            || (t[0] == 108 && t[1] == 97 && t[2] == 109 && t[3] == 98 && t[4] == 100
                && t[5] == 97)
            || (t[0] == 114 && t[1] == 101 && t[2] == 116 && t[3] == 117 && t[4] == 114
                && t[5] == 110)
    } else if n == 7 {
        t[0] == 102 && t[1] == 105 && t[2] == 110 && t[3] == 97 && t[4] == 108
            && t[5] == 108 && t[6] == 121
    } else if n == 8 {
        (t[0] == 99 && t[1] == 111 && t[2] == 110 && t[3] == 116 && t[4] == 105
            && t[5] == 110 && t[6] == 117 && t[7] == 101)
            || (t[0] == 110 && t[1] == 111 && t[2] == 110 && t[3] == 108 && t[4] == 111
                && t[5] == 99 && t[6] == 97 && t[7] == 108)
    } else {
        false
    }
}

/// Executable spacing decision.
pub fn sep_width_of(prev: Prev, c: Cls, t: &Vec<u8>, inner: Option<u8>) -> (r: u8)
    ensures
        r == sep_width(prev, c, t@, inner),
{
    if c == Cls::Comment {
        return 2;
    }
    if c == Cls::Newline || c == Cls::Ws {
        return 0;
    }
    if c == Cls::Op {
        let a: u8 = if t.len() >= 1 { t[0] } else { 0 };
        let n = t.len();
        if n == 1 && (a == 44 || a == 59 || a == 58) {
            0
        } else if n == 1 && (a == 41 || a == 93 || a == 125) {
            0
        } else if n == 1 && a == 46 {
            if prev == Prev::Kw { 1 } else { 0 }
        } else if n == 1 && (a == 40 || a == 91) {
            match prev {
                Prev::Operand => 0,
                Prev::Opener => 0,
                Prev::Tight => 0,
                Prev::Dot => 0,
                Prev::ColonSlice => 0,
                _ => 1,
            }
        } else if n == 1 && a == 123 {
            match prev {
                Prev::Opener => 0,
                Prev::Tight => 0,
                Prev::Dot => 0,
                Prev::ColonSlice => 0,
                _ => 1,
            }
        } else if n == 1 && a == 61 {
            if inner == Some(40u8) { 0 } else { 1 }
        } else if n == 2 && t[0] == 42 && t[1] == 42 {
            if prev == Prev::Operand { 0 } else { operand_sep_of(prev) }
        } else if n == 1 && (a == 43 || a == 45 || a == 42 || a == 126 || a == 64) {
            if unary_ctx_of(prev) { operand_sep_of(prev) } else { 1 }
        } else {
            1
        }
    } else if c == Cls::Kw && prev == Prev::Dot {
        1
    } else {
        operand_sep_of(prev)
    }
}

/// Executable operand separation.
pub fn operand_sep_of(prev: Prev) -> (r: u8)
    ensures
        r == operand_sep(prev),
{
    match prev {
        Prev::Opener => 0,
        Prev::Tight => 0,
        Prev::Dot => 0,
        Prev::ColonSlice => 0,
        _ => 1,
    }
}

/// Executable unary-context test.
pub fn unary_ctx_of(prev: Prev) -> (r: bool)
    ensures
        r == unary_ctx(prev),
{
    match prev {
        Prev::Operand => false,
        Prev::Comment => false,
        _ => true,
    }
}

/// Executable previous-state update.
pub fn next_prev_of(prev: Prev, c: Cls, t: &Vec<u8>, inner: Option<u8>) -> (r: Prev)
    ensures
        r == next_prev(prev, c, t@, inner),
{
    match c {
        Cls::Comment => Prev::Comment,
        Cls::Newline => Prev::Start,
        Cls::Ws => prev,
        Cls::Kw => Prev::Kw,
        Cls::Operand => Prev::Operand,
        Cls::Op => {
            let a: u8 = if t.len() >= 1 { t[0] } else { 0 };
            let n = t.len();
            if n == 1 && (a == 40 || a == 91 || a == 123) {
                Prev::Opener
            } else if n == 1 && (a == 41 || a == 93 || a == 125) {
                Prev::Operand
            } else if n == 1 && (a == 44 || a == 59) {
                Prev::Comma
            } else if n == 1 && a == 58 {
                if inner == Some(91u8) { Prev::ColonSlice } else { Prev::Loose }
            } else if n == 1 && a == 46 {
                Prev::Dot
            } else if n == 1 && a == 61 {
                if inner == Some(40u8) { Prev::Tight } else { Prev::Loose }
            } else if n == 2 && t[0] == 42 && t[1] == 42 {
                Prev::Tight
            } else if n == 1 && (a == 43 || a == 45 || a == 42 || a == 126 || a == 64) {
                if unary_ctx_of(prev) { Prev::Tight } else { Prev::Loose }
            } else {
                Prev::Loose
            }
        },
    }
}

/// Executable whitespace test.
pub fn ws_only_of(s: &Vec<u8>) -> (r: bool)
    ensures
        r == ws_only(s@),
{
    let mut i: usize = 0;
    while i < s.len()
        invariant
            i <= s.len(),
            forall|k: int| 0 <= k < i ==> (#[trigger] s@[k]) == SP || s@[k] == TAB,
        decreases s.len() - i,
    {
        if s[i] != SP && s[i] != TAB {
            return false;
        }
        i = i + 1;
    }
    true
}

/// Executable width of leading whitespace.
pub fn ws_width_of(s: &Vec<u8>) -> (r: usize)
    requires
        s@.len() <= 10000,
    ensures
        r == ws_width_from(s@, 0),
        r <= 8 * s@.len(),
{
    let mut col: usize = 0;
    let mut i: usize = 0;
    proof {
        assert(s@.skip(0) =~= s@);
    }
    while i < s.len()
        invariant
            i <= s.len() <= 10000,
            col <= 8 * i,
            ws_width_from(s@, 0) == ws_width_from(s@.skip(i as int), col as int),
        decreases s.len() - i,
    {
        proof {
            assert(s@.skip(i as int).drop_first() =~= s@.skip(i + 1));
        }
        if s[i] == TAB {
            col = col + 8 - (col % 8);
        } else {
            col = col + 1;
        }
        i = i + 1;
    }
    proof {
        assert(s@.skip(i as int) =~= Seq::<u8>::empty());
    }
    col
}

} // verus!
