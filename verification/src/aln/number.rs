//! The syntax of a decimal floating-point literal.
//!
//! A number of the language is converted to a 64-bit float from its text.
//! This module decides which texts can be converted: those that follow the
//! grammar
//!
//! ```text
//! Float  ::= Sign? ( 'inf' | 'infinity' | 'nan' | Number )
//! Number ::= ( Digit+ | Digit+ '.' Digit* | Digit* '.' Digit+ ) Exp?
//! Exp    ::= 'e' Sign? Digit+
//! Sign   ::= [+-]
//! Digit  ::= [0-9]
//! ```
//!
//! in which letters match in either case. This is the grammar that
//! `f64::from_str` accepts.
use vstd::prelude::*;

verus! {

/// A decimal digit.
pub open spec fn is_digit(c: char) -> bool {
    '0' <= c && c <= '9'
}

/// A plus or a minus sign.
pub open spec fn is_sign(c: char) -> bool {
    c == '+' || c == '-'
}

/// Whether `c` is the lower-case letter `letter` or its upper-case form.
pub open spec fn is_letter(c: char, letter: char) -> bool {
    c == letter || ('A' <= c && c <= 'Z' && (c as u32) + 32 == (letter as u32))
}

/// The index of the first character at or after `pos` that is no digit, or
/// the length of `s`.
pub open spec fn digits_end(s: Seq<char>, pos: int) -> int
    decreases s.len() - pos,
{
    if 0 <= pos < s.len() && is_digit(s[pos]) {
        digits_end(s, pos + 1)
    } else {
        pos
    }
}

/// Whether `s`, from index `from` to its end, spells `word` in any mix of
/// upper and lower case.
pub open spec fn spells(s: Seq<char>, from: int, word: Seq<char>) -> bool {
    &&& s.len() - from == word.len()
    &&& forall|i: int| 0 <= i < word.len() ==> is_letter(#[trigger] s[from + i], word[i])
}

/// Whether `s` from `from` on is one of the words `inf`, `infinity`, `nan`.
pub open spec fn is_special(s: Seq<char>, from: int) -> bool {
    ||| spells(s, from, seq!['i', 'n', 'f'])
    ||| spells(s, from, seq!['i', 'n', 'f', 'i', 'n', 'i', 't', 'y'])
    ||| spells(s, from, seq!['n', 'a', 'n'])
}

/// Whether `s` from `pos` on is an exponent: `e`, an optional sign, and one
/// digit or more up to the end of `s`.
pub open spec fn is_exponent(s: Seq<char>, pos: int) -> bool {
    let digits = if pos + 1 < s.len() && is_sign(s[pos + 1]) {
        pos + 2
    } else {
        pos + 1
    };
    &&& 0 <= pos < s.len()
    &&& is_letter(s[pos], 'e')
    &&& digits < s.len()
    &&& digits_end(s, digits) == s.len()
}

/// Where the fraction's digits start, given where the integer part ends:
/// behind the dot if there is one.
pub open spec fn fraction_start(s: Seq<char>, int_end: int) -> int {
    if 0 <= int_end < s.len() && s[int_end] == '.' {
        int_end + 1
    } else {
        int_end
    }
}

/// Whether `s` from `from` on is a decimal number: digits with at most one
/// dot among them, at least one digit in all, and an optional exponent.
pub open spec fn is_decimal(s: Seq<char>, from: int) -> bool {
    let int_end = digits_end(s, from);
    let frac_start = fraction_start(s, int_end);
    let frac_end = digits_end(s, frac_start);
    &&& (int_end - from) + (frac_end - frac_start) > 0
    &&& (frac_end == s.len() || is_exponent(s, frac_end))
}

/// Where the literal proper starts: behind the sign if there is one.
pub open spec fn sign_end(s: Seq<char>) -> int {
    if s.len() > 0 && is_sign(s[0]) {
        1
    } else {
        0
    }
}

/// Whether `s` has the syntax of a floating-point literal.
pub open spec fn is_float_literal(s: Seq<char>) -> bool {
    is_special(s, sign_end(s)) || is_decimal(s, sign_end(s))
}

/// The end of a run of digits lies between its start and the end of the text.
pub proof fn lemma_digits_end_bounds(s: Seq<char>, pos: int)
    requires
        0 <= pos <= s.len(),
    ensures
        pos <= digits_end(s, pos) <= s.len(),
    decreases s.len() - pos,
{
    if pos < s.len() && is_digit(s[pos]) {
        lemma_digits_end_bounds(s, pos + 1);
    }
}

fn letter_matches(c: char, letter: char) -> (r: bool)
    ensures
        r == is_letter(c, letter),
{
    let v: u32 = c as u32;
    let l: u32 = letter as u32;
    c == letter || ('A' <= c && c <= 'Z' && v + 32 == l)
}

fn skip_digits(cs: &Vec<char>, pos: usize) -> (end: usize)
    requires
        pos <= cs@.len(),
    ensures
        end == digits_end(cs@, pos as int),
        pos <= end <= cs@.len(),
{
    let mut i: usize = pos;
    while i < cs.len() && '0' <= cs[i] && cs[i] <= '9'
        invariant
            pos <= i <= cs@.len(),
            digits_end(cs@, pos as int) == digits_end(cs@, i as int),
        decreases cs@.len() - i,
    {
        i = i + 1;
    }
    i
}

fn spells_word(cs: &Vec<char>, from: usize, word: &Vec<char>) -> (r: bool)
    requires
        from <= cs@.len(),
    ensures
        r == spells(cs@, from as int, word@),
{
    if cs.len() - from != word.len() {
        return false;
    }
    let mut i: usize = 0;
    while i < word.len()
        invariant
            from <= cs@.len(),
            cs@.len() - from == word@.len(),
            cs@.len() <= usize::MAX,
            i <= word@.len(),
            forall|j: int| 0 <= j < i ==> is_letter(#[trigger] cs@[from + j], word@[j]),
        decreases word@.len() - i,
    {
        if !letter_matches(cs[from + i], word[i]) {
            return false;
        }
        i = i + 1;
    }
    true
}

fn exponent_at(cs: &Vec<char>, pos: usize) -> (r: bool)
    requires
        pos < cs@.len(),
    ensures
        r == is_exponent(cs@, pos as int),
{
    if !letter_matches(cs[pos], 'e') {
        return false;
    }
    let n = cs.len();
    let digits: usize = if pos + 1 < n && (cs[pos + 1] == '+' || cs[pos + 1] == '-') {
        pos + 2
    } else {
        pos + 1
    };
    if digits >= cs.len() {
        return false;
    }
    skip_digits(cs, digits) == cs.len()
}

/// Decides whether the characters `cs` have the syntax of a floating-point
/// literal.
pub fn float_literal(cs: &Vec<char>) -> (r: bool)
    ensures
        r == is_float_literal(cs@),
{
    let from: usize = if cs.len() > 0 && (cs[0] == '+' || cs[0] == '-') {
        1
    } else {
        0
    };
    let inf = vec!['i', 'n', 'f'];
    let infinity = vec!['i', 'n', 'f', 'i', 'n', 'i', 't', 'y'];
    let nan = vec!['n', 'a', 'n'];
    assert(inf@ =~= seq!['i', 'n', 'f']);
    assert(infinity@ =~= seq!['i', 'n', 'f', 'i', 'n', 'i', 't', 'y']);
    assert(nan@ =~= seq!['n', 'a', 'n']);
    if spells_word(cs, from, &inf) || spells_word(cs, from, &infinity) || spells_word(
        cs,
        from,
        &nan,
    ) {
        return true;
    }
    let int_end = skip_digits(cs, from);
    let frac_start: usize = if int_end < cs.len() && cs[int_end] == '.' {
        int_end + 1
    } else {
        int_end
    };
    let frac_end = skip_digits(cs, frac_start);
    if (int_end - from) + (frac_end - frac_start) == 0 {
        return false;
    }
    frac_end == cs.len() || exponent_at(cs, frac_end)
}

} // verus!
