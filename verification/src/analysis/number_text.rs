//! Which byte strings read as a floating-point number: the text accepted
//! for a fill's LastQty and LastPx. The grammar is that of the standard
//! library's `f64` parsing, taken case-insensitively:
//!
//! ```text
//! Float  ::= Sign? ( 'inf' | 'infinity' | 'nan' | Number )
//! Number ::= ( Digit+ | Digit+ '.' Digit* | Digit* '.' Digit+ ) Exp?
//! Exp    ::= 'e' Sign? Digit+
//! Sign   ::= [+-]
//! Digit  ::= [0-9]
//! ```
use vstd::prelude::*;

use crate::format::{digit_run_end, scan_digits};

verus! {

/// An ASCII letter in lower case; other bytes unchanged.
pub open spec fn lower(b: u8) -> u8 {
    if 65 <= b <= 90 {
        (b + 32) as u8
    } else {
        b
    }
}

/// `+` or `-`.
pub open spec fn is_sign(b: u8) -> bool {
    b == 43 || b == 45
}

/// The length of a leading sign: 1 if `s` starts with one, else 0.
pub open spec fn sign_len(s: Seq<u8>) -> int {
    if s.len() > 0 && is_sign(s[0]) {
        1
    } else {
        0
    }
}

/// `s` spells `word` (given in lower case), ignoring the case of letters.
pub open spec fn spells(s: Seq<u8>, word: Seq<u8>) -> bool {
    s.len() == word.len() && forall|i: int| 0 <= i < s.len() ==> lower(#[trigger] s[i]) == word[i]
}

/// An exponent after its `e`: an optional sign and at least one digit.
pub open spec fn exponent_text(e: Seq<u8>) -> bool {
    sign_len(e) < e.len() && digit_run_end(e, sign_len(e)) == e.len()
}

/// Integer digits, an optional `.` with fraction digits (at least one digit
/// in all), and an optional exponent.
pub open spec fn number_text(s: Seq<u8>) -> bool {
    let a = digit_run_end(s, 0);
    let dot = a < s.len() && s[a] == 46;
    let b = if dot { digit_run_end(s, a + 1) } else { a };
    let digits = if dot { b - 1 } else { a };
    &&& digits > 0
    &&& (b == s.len() || (lower(s[b]) == 101 && exponent_text(s.subrange(b + 1, s.len() as int))))
}

/// `s` reads as a floating-point number (see the module documentation).
pub open spec fn float_text(s: Seq<u8>) -> bool {
    let r = s.subrange(sign_len(s), s.len() as int);
    ||| spells(r, seq![105u8, 110, 102])
    ||| spells(r, seq![105u8, 110, 102, 105, 110, 105, 116, 121])
    ||| spells(r, seq![110u8, 97, 110])
    ||| number_text(r)
}

fn lower_exec(b: u8) -> (r: u8)
    ensures
        r == lower(b),
{
    if 65 <= b && b <= 90 {
        b + 32
    } else {
        b
    }
}

fn sign_len_exec(s: &[u8]) -> (n: usize)
    ensures
        n == sign_len(s@),
{
    if s.len() > 0 && (s[0] == 43 || s[0] == 45) {
        1
    } else {
        0
    }
}

fn spells_exec(s: &[u8], word: &[u8]) -> (r: bool)
    ensures
        r == spells(s@, word@),
{
    if s.len() != word.len() {
        return false;
    }
    let mut i: usize = 0;
    while i < s.len()
        invariant
            i <= s@.len(),
            s@.len() == word@.len(),
            forall|j: int| 0 <= j < i ==> lower(#[trigger] s@[j]) == word@[j],
        decreases s@.len() - i,
    {
        if lower_exec(s[i]) != word[i] {
            return false;
        }
        i += 1;
    }
    true
}

fn exponent_text_exec(e: &[u8]) -> (r: bool)
    ensures
        r == exponent_text(e@),
{
    let st = sign_len_exec(e);
    st < e.len() && scan_digits(e, st) == e.len()
}

fn number_text_exec(s: &[u8]) -> (r: bool)
    ensures
        r == number_text(s@),
{
    let a = scan_digits(s, 0);
    let dot = a < s.len() && s[a] == 46;
    let b = if dot {
        scan_digits(s, a + 1)
    } else {
        a
    };
    let digits = if dot {
        b - 1
    } else {
        a
    };
    if digits == 0 {
        return false;
    }
    if b == s.len() {
        return true;
    }
    lower_exec(s[b]) == 101 && exponent_text_exec(&s[b + 1..s.len()])
}

/// Whether `s` reads as a floating-point number (see [`float_text`]).
pub fn is_float_text(s: &[u8]) -> (r: bool)
    ensures
        r == float_text(s@),
{
    let st = sign_len_exec(s);
    let rest = &s[st..s.len()];
    let inf: [u8; 3] = [105u8, 110, 102];
    let infinity: [u8; 8] = [105u8, 110, 102, 105, 110, 105, 116, 121];
    let nan: [u8; 3] = [110u8, 97, 110];
    assert(inf@ == seq![105u8, 110, 102]);
    assert(infinity@ == seq![105u8, 110, 102, 105, 110, 105, 116, 121]);
    assert(nan@ == seq![110u8, 97, 110]);
    spells_exec(rest, inf.as_slice()) || spells_exec(rest, infinity.as_slice()) || spells_exec(rest, nan.as_slice())
        || number_text_exec(rest)
}

} // verus!
