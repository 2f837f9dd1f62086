//! Character classes and the lexical scanners: whitespace runs, symbol
//! runs and the digit runs of natural literals.

use vstd::prelude::*;

use crate::natural::{is_digit, is_digit_of};

verus! {

/// The Unicode `White_Space` property.
pub open spec fn is_white_space(c: char) -> bool {
    ||| '\t' <= c && c <= '\r'
    ||| c == ' '
    ||| c == '\u{85}'
    ||| c == '\u{a0}'
    ||| c == '\u{1680}'
    ||| '\u{2000}' <= c && c <= '\u{200a}'
    ||| c == '\u{2028}'
    ||| c == '\u{2029}'
    ||| c == '\u{202f}'
    ||| c == '\u{205f}'
    ||| c == '\u{3000}'
}

/// A character that may stand in a symbol: anything but `:`, `(`, `)` and
/// whitespace.
pub open spec fn is_symbol_char(c: char) -> bool {
    c != ':' && c != '(' && c != ')' && !is_white_space(c)
}

pub fn is_whitespace(c: char) -> (r: bool)
    ensures
        r == is_white_space(c),
{
    ('\t' <= c && c <= '\r') || c == ' ' || c == '\u{85}' || c == '\u{a0}' || c == '\u{1680}'
        || ('\u{2000}' <= c && c <= '\u{200a}') || c == '\u{2028}' || c == '\u{2029}' || c
        == '\u{202f}' || c == '\u{205f}' || c == '\u{3000}'
}

pub fn symbol_char(c: char) -> (r: bool)
    ensures
        r == is_symbol_char(c),
{
    c != ':' && c != '(' && c != ')' && !is_whitespace(c)
}

/// End of the whitespace run from `p`.
pub open spec fn ws_end(s: Seq<char>, p: int) -> int
    decreases s.len() - p,
{
    if 0 <= p < s.len() && is_white_space(s[p]) {
        ws_end(s, p + 1)
    } else {
        p
    }
}

/// End of the symbol run from `p`.
pub open spec fn sym_end(s: Seq<char>, p: int) -> int
    decreases s.len() - p,
{
    if 0 <= p < s.len() && is_symbol_char(s[p]) {
        sym_end(s, p + 1)
    } else {
        p
    }
}

/// End of the run of digits of `radix` from `p`.
pub open spec fn digits_end(s: Seq<char>, p: int, radix: nat) -> int
    decreases s.len() - p,
{
    if 0 <= p < s.len() && is_digit_of(s[p], radix) {
        digits_end(s, p + 1, radix)
    } else {
        p
    }
}

/// End of the integer of `radix` at `p`: a lone `0`, or a run of digits
/// that does not start with `0`; `p` itself when no digit stands there.
pub open spec fn int_end(s: Seq<char>, p: int, radix: nat) -> int {
    if 0 <= p < s.len() && is_digit_of(s[p], radix) {
        if s[p] == '0' {
            p + 1
        } else {
            digits_end(s, p, radix)
        }
    } else {
        p
    }
}

/// All of `s[from..to]` satisfies `p`, and `to` ends the run.
pub open spec fn maximal_run(s: Seq<char>, from: int, to: int, p: spec_fn(char) -> bool) -> bool {
    &&& from <= to <= s.len()
    &&& forall|i: int| from <= i < to ==> p(#[trigger] s[i])
    &&& to < s.len() ==> !p(s[to])
}

/// End of the whitespace run that starts at `pos`.
pub fn skip_whitespace(s: &Vec<char>, pos: usize) -> (r: usize)
    requires
        pos <= s@.len(),
    ensures
        maximal_run(s@, pos as int, r as int, |c: char| is_white_space(c)),
        r == ws_end(s@, pos as int),
{
    let mut i = pos;
    while i < s.len() && is_whitespace(s[i])
        invariant
            pos <= i <= s@.len(),
            ws_end(s@, i as int) == ws_end(s@, pos as int),
            forall|j: int| pos <= j < i ==> is_white_space(#[trigger] s@[j]),
        decreases s@.len() - i,
    {
        i += 1;
    }
    i
}

/// End of the symbol run that starts at `pos`.
pub fn scan_symbol(s: &Vec<char>, pos: usize) -> (r: usize)
    requires
        pos <= s@.len(),
    ensures
        maximal_run(s@, pos as int, r as int, |c: char| is_symbol_char(c)),
        r == sym_end(s@, pos as int),
{
    let mut i = pos;
    while i < s.len() && symbol_char(s[i])
        invariant
            pos <= i <= s@.len(),
            sym_end(s@, i as int) == sym_end(s@, pos as int),
            forall|j: int| pos <= j < i ==> is_symbol_char(#[trigger] s@[j]),
        decreases s@.len() - i,
    {
        i += 1;
    }
    i
}

/// End of the run of digits of `radix` that starts at `pos`.
pub fn scan_digits(s: &Vec<char>, pos: usize, radix: u32) -> (r: usize)
    requires
        pos <= s@.len(),
    ensures
        r == digits_end(s@, pos as int, radix as nat),
        pos <= r <= s@.len(),
        forall|i: int| pos <= i < r ==> is_digit_of(#[trigger] s@[i], radix as nat),
{
    let mut i = pos;
    while i < s.len() && is_digit(s[i], radix)
        invariant
            pos <= i <= s@.len(),
            forall|j: int| pos <= j < i ==> is_digit_of(#[trigger] s@[j], radix as nat),
            digits_end(s@, i as int, radix as nat) == digits_end(s@, pos as int, radix as nat),
        decreases s@.len() - i,
    {
        i += 1;
    }
    i
}

pub fn scan_int(s: &Vec<char>, pos: usize, radix: u32) -> (r: usize)
    requires
        pos <= s@.len(),
    ensures
        r == int_end(s@, pos as int, radix as nat),
        pos <= r <= s@.len(),
        forall|i: int| pos <= i < r ==> is_digit_of(#[trigger] s@[i], radix as nat),
{
    if pos >= s.len() || !is_digit(s[pos], radix) {
        return pos;
    }
    if s[pos] == '0' {
        return pos + 1;
    }
    let mut i = pos;
    while i < s.len() && is_digit(s[i], radix)
        invariant
            pos <= i <= s@.len(),
            s@[pos as int] != '0',
            is_digit_of(s@[pos as int], radix as nat),
            digits_end(s@, i as int, radix as nat) == digits_end(s@, pos as int, radix as nat),
            forall|j: int| pos <= j < i ==> is_digit_of(#[trigger] s@[j], radix as nat),
        decreases s@.len() - i,
    {
        i += 1;
    }
    i
}

} // verus!
