//! Recursive-descent parser for the filter language.
//!
//! ```text
//! expr     := and_expr ("OR" and_expr)*
//! and_expr := not_expr ("AND" not_expr)*
//! not_expr := "NOT" not_expr | atom
//! atom     := "(" expr ")" | predicate
//! predicate:= digits ("=" | "!=" | "~") value
//! ```
//!
//! Keywords are case-insensitive and must be followed by whitespace, `(` or
//! the end of the input. A value is a bareword (a run of bytes without
//! whitespace or parentheses) or a `"..."` string in which `\` escapes the
//! next byte. Errors carry the byte offset of the problem.
use vstd::prelude::*;

use crate::bytes::is_digit;
use crate::parser::{parse_uint, spec_parse_uint};
use crate::query::ast::{Expr, Op, OpKind, Predicate, QueryTerm, regexes_consistent, term_of};
use crate::query::matcher::{compile_regex, non_utf8_regex_error, regex_accepts, utf8_text};

verus! {

/// Errors surfaced by [`parse`]; positions are byte offsets into the input.
#[derive(Debug)]
pub enum QueryError {
    Empty,
    ExpectedAtom { at: usize },
    ExpectedTag { at: usize },
    ExpectedOp { at: usize },
    ExpectedValue { at: usize },
    UnterminatedString { at: usize },
    UnbalancedParen { at: usize },
    BadRegex { at: usize, source: regex::Error },
    UnexpectedTrailing { at: usize, rest: String },
    TagOverflow { at: usize },
}

/// What went wrong, and where, as the contracts see it.
pub enum QueryFault {
    Empty,
    ExpectedAtom(int),
    ExpectedTag(int),
    ExpectedOp(int),
    ExpectedValue(int),
    UnterminatedString(int),
    UnbalancedParen(int),
    BadRegex(int),
    UnexpectedTrailing(int),
    TagOverflow(int),
}

/// The fault an error reports.
pub open spec fn fault_of(e: QueryError) -> QueryFault {
    match e {
        QueryError::Empty => QueryFault::Empty,
        QueryError::ExpectedAtom { at } => QueryFault::ExpectedAtom(at as int),
        QueryError::ExpectedTag { at } => QueryFault::ExpectedTag(at as int),
        QueryError::ExpectedOp { at } => QueryFault::ExpectedOp(at as int),
        QueryError::ExpectedValue { at } => QueryFault::ExpectedValue(at as int),
        QueryError::UnterminatedString { at } => QueryFault::UnterminatedString(at as int),
        QueryError::UnbalancedParen { at } => QueryFault::UnbalancedParen(at as int),
        QueryError::BadRegex { at, .. } => QueryFault::BadRegex(at as int),
        QueryError::UnexpectedTrailing { at, .. } => QueryFault::UnexpectedTrailing(at as int),
        QueryError::TagOverflow { at } => QueryFault::TagOverflow(at as int),
    }
}

/// A parse step's outcome: a term and the position after it, or a fault.
pub type Step = Result<(QueryTerm, int), QueryFault>;

/// ASCII whitespace: space, tab, line feed, form feed, carriage return.
pub open spec fn is_ws(b: u8) -> bool {
    b == 32 || b == 9 || b == 10 || b == 12 || b == 13
}

/// ASCII lower case of a byte.
pub open spec fn lower(b: u8) -> u8 {
    if 65 <= b <= 90 {
        (b + 32) as u8
    } else {
        b
    }
}

/// The keyword `OR`.
pub open spec fn kw_or() -> Seq<u8> {
    seq![79u8, 82u8]
}

/// The keyword `AND`.
pub open spec fn kw_and() -> Seq<u8> {
    seq![65u8, 78u8, 68u8]
}

/// The keyword `NOT`.
pub open spec fn kw_not() -> Seq<u8> {
    seq![78u8, 79u8, 84u8]
}

/// The position of the first non-whitespace byte at or after `pos`.
pub open spec fn sp_skip_ws(src: Seq<u8>, pos: int) -> int
    decreases src.len() - pos,
{
    if 0 <= pos < src.len() && is_ws(src[pos]) {
        sp_skip_ws(src, pos + 1)
    } else {
        pos
    }
}

pub proof fn lemma_skip_ws(src: Seq<u8>, pos: int)
    requires
        0 <= pos <= src.len(),
    ensures
        pos <= sp_skip_ws(src, pos) <= src.len(),
    decreases src.len() - pos,
{
    if pos < src.len() && is_ws(src[pos]) {
        lemma_skip_ws(src, pos + 1);
    }
}

/// `kw` (ignoring ASCII case) at `pos`, followed by whitespace, `(` or the
/// end: the position after it.
pub open spec fn sp_keyword(src: Seq<u8>, pos: int, kw: Seq<u8>) -> Option<int> {
    let end = pos + kw.len();
    if pos < 0 || end > src.len() {
        None
    } else if !(forall|i: int| 0 <= i < kw.len() ==> #[trigger] lower(src[pos + i]) == lower(kw[i])) {
        None
    } else if end < src.len() && !(is_ws(src[end]) || src[end] == 40u8) {
        None
    } else {
        Some(end)
    }
}

/// The end of the run of digits starting at `pos`.
pub open spec fn digits_end(src: Seq<u8>, pos: int) -> int
    decreases src.len() - pos,
{
    if 0 <= pos < src.len() && is_digit(src[pos]) {
        digits_end(src, pos + 1)
    } else {
        pos
    }
}

/// The end of the bareword starting at `pos`: the first whitespace or
/// parenthesis.
pub open spec fn bareword_end(src: Seq<u8>, pos: int) -> int
    decreases src.len() - pos,
{
    if 0 <= pos < src.len() && !(is_ws(src[pos]) || src[pos] == 40u8 || src[pos] == 41u8) {
        bareword_end(src, pos + 1)
    } else {
        pos
    }
}

/// The rest of a quoted string from `i`, with the bytes `acc` read so far.
pub open spec fn quoted_from(src: Seq<u8>, i: int, acc: Seq<u8>, open: int) -> Result<(Seq<u8>, int), QueryFault>
    decreases src.len() - i,
{
    if i < 0 || i >= src.len() {
        Err(QueryFault::UnterminatedString(open))
    } else if src[i] == 34u8 {
        Ok((acc, i + 1))
    } else if src[i] == 92u8 {
        if i + 1 >= src.len() {
            Err(QueryFault::UnterminatedString(open))
        } else {
            quoted_from(src, i + 2, acc.push(src[i + 1]), open)
        }
    } else {
        quoted_from(src, i + 1, acc.push(src[i]), open)
    }
}

/// The operator at `pos` and the position after it.
pub open spec fn sp_op(src: Seq<u8>, pos: int) -> Result<(OpKind, int), QueryFault> {
    if 0 <= pos < src.len() && src[pos] == 61u8 {
        Ok((OpKind::Eq, pos + 1))
    } else if 0 <= pos && pos + 1 < src.len() && src[pos] == 33u8 && src[pos + 1] == 61u8 {
        Ok((OpKind::Ne, pos + 2))
    } else if 0 <= pos < src.len() && src[pos] == 126u8 {
        Ok((OpKind::Re, pos + 1))
    } else {
        Err(QueryFault::ExpectedOp(pos))
    }
}

/// The value at `pos` (quoted or bare) and the position after it.
pub open spec fn sp_value(src: Seq<u8>, pos: int) -> Result<(Seq<u8>, int), QueryFault> {
    if pos < 0 || pos >= src.len() {
        Err(QueryFault::ExpectedValue(pos))
    } else if src[pos] == 34u8 {
        quoted_from(src, pos + 1, Seq::empty(), pos)
    } else {
        Ok((src.subrange(pos, bareword_end(src, pos)), bareword_end(src, pos)))
    }
}

/// A predicate at `pos`.
pub open spec fn sp_predicate(src: Seq<u8>, pos: int) -> Step {
    let end = digits_end(src, pos);
    if end == pos {
        Err(QueryFault::ExpectedTag(pos))
    } else {
        match spec_parse_uint(src.subrange(pos, end)) {
            None => Err(QueryFault::TagOverflow(pos)),
            Some(tag) => match sp_op(src, end) {
                Err(e) => Err(e),
                Ok((op, v)) => match sp_value(src, v) {
                    Err(e) => Err(e),
                    Ok((value, after)) => if op == OpKind::Re && !(vstd::utf8::valid_utf8(value)
                        && regex_accepts(vstd::utf8::decode_utf8(value))) {
                        Err(QueryFault::BadRegex(v))
                    } else {
                        Ok((QueryTerm::Pred { tag, op, value }, after))
                    },
                },
            },
        }
    }
}

/// `expr` at `pos`.
pub open spec fn sp_or(src: Seq<u8>, pos: int) -> Step
    decreases src.len() - pos, 5int,
{
    if pos < 0 || pos > src.len() {
        Err(QueryFault::Empty)
    } else {
        match sp_and(src, pos) {
            Err(e) => Err(e),
            Ok((left, q)) => if q < pos || q > src.len() {
                Err(QueryFault::Empty)
            } else {
                sp_or_tail(src, q, left)
            },
        }
    }
}

/// The `("OR" and_expr)*` tail after `left`, at `pos`.
pub open spec fn sp_or_tail(src: Seq<u8>, pos: int, left: QueryTerm) -> Step
    decreases src.len() - pos, 4int,
{
    if pos < 0 || pos > src.len() {
        Err(QueryFault::Empty)
    } else {
        let p = sp_skip_ws(src, pos);
        proof {
            lemma_skip_ws(src, pos);
        }
        match sp_keyword(src, p, kw_or()) {
            None => Ok((left, p)),
            Some(p2) => match sp_and(src, p2) {
                Err(e) => Err(e),
                Ok((right, q)) => if q <= pos || q > src.len() {
                    Err(QueryFault::Empty)
                } else {
                    sp_or_tail(src, q, QueryTerm::Or(Box::new(left), Box::new(right)))
                },
            },
        }
    }
}

/// `and_expr` at `pos`.
pub open spec fn sp_and(src: Seq<u8>, pos: int) -> Step
    decreases src.len() - pos, 3int,
{
    if pos < 0 || pos > src.len() {
        Err(QueryFault::Empty)
    } else {
        match sp_not(src, pos) {
            Err(e) => Err(e),
            Ok((left, q)) => if q < pos || q > src.len() {
                Err(QueryFault::Empty)
            } else {
                sp_and_tail(src, q, left)
            },
        }
    }
}

/// The `("AND" not_expr)*` tail after `left`, at `pos`.
pub open spec fn sp_and_tail(src: Seq<u8>, pos: int, left: QueryTerm) -> Step
    decreases src.len() - pos, 2int,
{
    if pos < 0 || pos > src.len() {
        Err(QueryFault::Empty)
    } else {
        let p = sp_skip_ws(src, pos);
        proof {
            lemma_skip_ws(src, pos);
        }
        match sp_keyword(src, p, kw_and()) {
            None => Ok((left, p)),
            Some(p2) => match sp_not(src, p2) {
                Err(e) => Err(e),
                Ok((right, q)) => if q <= pos || q > src.len() {
                    Err(QueryFault::Empty)
                } else {
                    sp_and_tail(src, q, QueryTerm::And(Box::new(left), Box::new(right)))
                },
            },
        }
    }
}

/// `not_expr` at `pos`.
pub open spec fn sp_not(src: Seq<u8>, pos: int) -> Step
    decreases src.len() - pos, 1int,
{
    if pos < 0 || pos > src.len() {
        Err(QueryFault::Empty)
    } else {
        let p = sp_skip_ws(src, pos);
        proof {
            lemma_skip_ws(src, pos);
        }
        match sp_keyword(src, p, kw_not()) {
            Some(p2) => match sp_not(src, p2) {
                Err(e) => Err(e),
                Ok((inner, q)) => Ok((QueryTerm::Not(Box::new(inner)), q)),
            },
            None => sp_atom(src, p),
        }
    }
}

/// `atom` at `pos`.
pub open spec fn sp_atom(src: Seq<u8>, pos: int) -> Step
    decreases src.len() - pos, 0int,
{
    if pos < 0 || pos > src.len() {
        Err(QueryFault::Empty)
    } else {
        let p = sp_skip_ws(src, pos);
        proof {
            lemma_skip_ws(src, pos);
        }
        if p >= src.len() {
            Err(QueryFault::Empty)
        } else if src[p] == 40u8 {
            match sp_or(src, p + 1) {
                Err(e) => Err(e),
                Ok((inner, q0)) => {
                    let q = sp_skip_ws(src, q0);
                    if 0 <= q < src.len() && src[q] == 41u8 {
                        Ok((inner, q + 1))
                    } else {
                        Err(QueryFault::UnbalancedParen(p))
                    }
                },
            }
        } else if is_digit(src[p]) {
            sp_predicate(src, p)
        } else {
            Err(QueryFault::ExpectedAtom(p))
        }
    }
}

/// What [`parse`] yields for the input bytes `src`: the expression, or
/// the first fault; trailing input after a complete expression is a fault.
pub open spec fn spec_query(src: Seq<u8>) -> Result<QueryTerm, QueryFault> {
    match sp_or(src, 0) {
        Err(e) => Err(e),
        Ok((t, q)) => {
            let p = sp_skip_ws(src, q);
            if p < src.len() {
                Err(QueryFault::UnexpectedTrailing(p))
            } else {
                Ok(t)
            }
        },
    }
}

/// An exec parse step agrees with its spec: same term and position on
/// success (never moving backwards), same fault on failure.
pub open spec fn step_ok(r: Result<Expr, QueryError>, spec: Step, pos0: int, pos1: int) -> bool {
    match r {
        Ok(e) => spec == Step::Ok((term_of(e), pos1)) && regexes_consistent(e) && pos0 < pos1,
        Err(err) => spec == Step::Err(fault_of(err)),
    }
}

fn is_ws_byte(b: u8) -> (r: bool)
    ensures
        r == is_ws(b),
{
    b == 32 || b == 9 || b == 10 || b == 12 || b == 13
}

fn ends_bareword(b: u8) -> (r: bool)
    ensures
        r == (is_ws(b) || b == 40u8 || b == 41u8),
{
    is_ws_byte(b) || b == 40 || b == 41
}

struct Parser<'a> {
    src: &'a [u8],
    pos: usize,
}

impl<'a> Parser<'a> {
    fn new(s: &'a str) -> (p: Self)
        ensures
            p.src@ == vstd::utf8::encode_utf8(s@),
            p.pos == 0,
    {
        Parser { src: s.as_bytes(), pos: 0 }
    }

    fn at_end(&self) -> (b: bool)
        ensures
            b == (self.pos >= self.src@.len()),
    {
        self.pos >= self.src.len()
    }

    /// The unparsed input as text (empty when it is not valid UTF-8).
    fn rest(&self) -> (s: &'a str)
        requires
            self.pos <= self.src@.len(),
        ensures
            vstd::utf8::valid_utf8(self.src@.subrange(self.pos as int, self.src@.len() as int)) ==> s@
                == vstd::utf8::decode_utf8(self.src@.subrange(self.pos as int, self.src@.len() as int)),
    {
        match utf8_text(&self.src[self.pos..self.src.len()]) {
            Some(s) => s,
            None => "",
        }
    }

    fn peek(&self) -> (r: Option<u8>)
        ensures
            r == (if self.pos < self.src@.len() {
                Some(self.src@[self.pos as int])
            } else {
                None::<u8>
            }),
    {
        if self.pos < self.src.len() {
            Some(self.src[self.pos])
        } else {
            None
        }
    }

    fn bump(&mut self) -> (r: Option<u8>)
        ensures
            final(self).src == old(self).src,
            r == (if old(self).pos < old(self).src@.len() {
                Some(old(self).src@[old(self).pos as int])
            } else {
                None::<u8>
            }),
            final(self).pos == (if old(self).pos < old(self).src@.len() {
                old(self).pos + 1
            } else {
                old(self).pos as int
            }),
    {
        if self.pos < self.src.len() {
            let b = self.src[self.pos];
            self.pos += 1;
            Some(b)
        } else {
            None
        }
    }

    fn skip_ws(&mut self)
        requires
            old(self).pos <= old(self).src@.len(),
        ensures
            final(self).src == old(self).src,
            final(self).pos == sp_skip_ws(old(self).src@, old(self).pos as int),
            old(self).pos <= final(self).pos <= final(self).src@.len(),
    {
        while self.pos < self.src.len() && is_ws_byte(self.src[self.pos])
            invariant
                self.src == old(self).src,
                old(self).pos <= self.pos <= self.src@.len(),
                sp_skip_ws(self.src@, old(self).pos as int) == sp_skip_ws(self.src@, self.pos as int),
            decreases self.src@.len() - self.pos,
        {
            self.pos += 1;
        }
    }

    /// Consume `kw` (ignoring ASCII case) if it is followed by whitespace,
    /// `(` or the end; otherwise leave the position unchanged.
    fn eat_keyword(&mut self, kw: &[u8]) -> (b: bool)
        requires
            old(self).pos <= old(self).src@.len(),
        ensures
            final(self).src == old(self).src,
            match sp_keyword(old(self).src@, old(self).pos as int, kw@) {
                Some(e) => b && final(self).pos == e,
                None => !b && final(self).pos == old(self).pos,
            },
    {
        if kw.len() > self.src.len() - self.pos {
            return false;
        }
        let end = self.pos + kw.len();
        let mut i: usize = 0;
        while i < kw.len()
            invariant
                end == self.pos + kw@.len(),
                end <= self.src@.len(),
                i <= kw@.len(),
                forall|j: int| 0 <= j < i ==> #[trigger] lower(self.src@[self.pos + j]) == lower(kw@[j]),
            decreases kw.len() - i,
        {
            let a = self.src[self.pos + i];
            let c = kw[i];
            let la = if 65 <= a && a <= 90 {
                a + 32
            } else {
                a
            };
            let lc = if 65 <= c && c <= 90 {
                c + 32
            } else {
                c
            };
            if la != lc {
                assert(lower(self.src@[self.pos + i]) != lower(kw@[i as int]));
                return false;
            }
            i += 1;
        }
        if end < self.src.len() {
            let b = self.src[end];
            if !(b == 32 || b == 9 || b == 10 || b == 12 || b == 13 || b == 40) {
                return false;
            }
        }
        self.pos = end;
        true
    }

    fn parse_tag(&mut self) -> (r: Result<u32, QueryError>)
        requires
            old(self).pos <= old(self).src@.len(),
        ensures
            final(self).src == old(self).src,
            old(self).pos <= final(self).pos,
            final(self).pos <= final(self).src@.len(),
            ({
                let s = old(self).src@;
                let p = old(self).pos as int;
                let end = digits_end(s, p);
                match r {
                    Ok(t) => end != p && spec_parse_uint(s.subrange(p, end)) == Some(t)
                        && final(self).pos == end,
                    Err(e) => (end == p && fault_of(e) == QueryFault::ExpectedTag(p)) || (end != p
                        && spec_parse_uint(s.subrange(p, end)) is None && fault_of(e)
                        == QueryFault::TagOverflow(p)),
                }
            }),
    {
        let start = self.pos;
        while self.pos < self.src.len() && 48 <= self.src[self.pos] && self.src[self.pos] <= 57
            invariant
                self.src == old(self).src,
                start == old(self).pos,
                start <= self.pos <= self.src@.len(),
                digits_end(self.src@, start as int) == digits_end(self.src@, self.pos as int),
            decreases self.src@.len() - self.pos,
        {
            self.pos += 1;
        }
        if self.pos == start {
            return Err(QueryError::ExpectedTag { at: start });
        }
        match parse_uint(&self.src[start..self.pos]) {
            Some(t) => Ok(t),
            None => Err(QueryError::TagOverflow { at: start }),
        }
    }

    fn parse_op(&mut self) -> (r: Result<OpKind, QueryError>)
        requires
            old(self).pos <= old(self).src@.len(),
        ensures
            final(self).src == old(self).src,
            old(self).pos <= final(self).pos,
            final(self).pos <= final(self).src@.len(),
            match r {
                Ok(k) => sp_op(old(self).src@, old(self).pos as int) == Ok::<(OpKind, int), QueryFault>(
                    (k, final(self).pos as int),
                ),
                Err(e) => sp_op(old(self).src@, old(self).pos as int) == Err::<(OpKind, int), QueryFault>(
                    fault_of(e),
                ),
            },
    {
        let at = self.pos;
        match self.peek() {
            Some(61u8) => {
                self.bump();
                Ok(OpKind::Eq)
            },
            Some(33u8) if self.src.len() - self.pos > 1 && self.src[self.pos + 1] == 61 => {
                self.pos += 2;
                Ok(OpKind::Ne)
            },
            Some(126u8) => {
                self.bump();
                Ok(OpKind::Re)
            },
            _ => Err(QueryError::ExpectedOp { at }),
        }
    }

    fn parse_value(&mut self) -> (r: Result<Vec<u8>, QueryError>)
        requires
            old(self).pos <= old(self).src@.len(),
        ensures
            final(self).src == old(self).src,
            old(self).pos <= final(self).pos,
            final(self).pos <= final(self).src@.len(),
            match r {
                Ok(v) => sp_value(old(self).src@, old(self).pos as int) == Ok::<(Seq<u8>, int), QueryFault>(
                    (v@, final(self).pos as int),
                ),
                Err(e) => sp_value(old(self).src@, old(self).pos as int) == Err::<
                    (Seq<u8>, int),
                    QueryFault,
                >(fault_of(e)),
            },
    {
        let at = self.pos;
        match self.peek() {
            None => Err(QueryError::ExpectedValue { at }),
            Some(34u8) => self.parse_quoted(),
            Some(_) => Ok(self.parse_bareword()),
        }
    }

    fn parse_quoted(&mut self) -> (r: Result<Vec<u8>, QueryError>)
        requires
            old(self).pos < old(self).src@.len(),
            old(self).src@[old(self).pos as int] == 34u8,
        ensures
            final(self).src == old(self).src,
            old(self).pos <= final(self).pos,
            final(self).pos <= final(self).src@.len(),
            match r {
                Ok(v) => quoted_from(old(self).src@, old(self).pos + 1, Seq::empty(), old(self).pos as int)
                    == Ok::<(Seq<u8>, int), QueryFault>((v@, final(self).pos as int)),
                Err(e) => quoted_from(old(self).src@, old(self).pos + 1, Seq::empty(), old(self).pos as int)
                    == Err::<(Seq<u8>, int), QueryFault>(fault_of(e)),
            },
    {
        let open_at = self.pos;
        self.bump();
        let mut out: Vec<u8> = Vec::new();
        loop
            invariant
                self.src == old(self).src,
                self.pos <= self.src@.len(),
                open_at == old(self).pos,
                open_at < self.pos,
                quoted_from(self.src@, open_at + 1, Seq::empty(), open_at as int) == quoted_from(
                    self.src@,
                    self.pos as int,
                    out@,
                    open_at as int,
                ),
            decreases self.src@.len() - self.pos,
        {
            match self.bump() {
                None => return Err(QueryError::UnterminatedString { at: open_at }),
                Some(34u8) => return Ok(out),
                Some(92u8) => match self.bump() {
                    Some(esc) => out.push(esc),
                    None => return Err(QueryError::UnterminatedString { at: open_at }),
                },
                Some(b) => out.push(b),
            }
        }
    }

    fn parse_bareword(&mut self) -> (v: Vec<u8>)
        requires
            old(self).pos <= old(self).src@.len(),
        ensures
            final(self).src == old(self).src,
            old(self).pos <= final(self).pos,
            final(self).pos == bareword_end(old(self).src@, old(self).pos as int),
            final(self).pos <= final(self).src@.len(),
            v@ == old(self).src@.subrange(old(self).pos as int, final(self).pos as int),
    {
        let start = self.pos;
        while self.pos < self.src.len() && !ends_bareword(self.src[self.pos])
            invariant
                self.src == old(self).src,
                start == old(self).pos,
                start <= self.pos <= self.src@.len(),
                bareword_end(self.src@, start as int) == bareword_end(self.src@, self.pos as int),
            decreases self.src@.len() - self.pos,
        {
            self.pos += 1;
        }
        crate::bytes::copy_bytes(&self.src[start..self.pos])
    }

    fn parse_predicate(&mut self) -> (r: Result<Predicate, QueryError>)
        requires
            old(self).pos < old(self).src@.len(),
            is_digit(old(self).src@[old(self).pos as int]),
        ensures
            final(self).src == old(self).src,
            final(self).pos <= final(self).src@.len(),
            step_ok(
                match r {
                    Ok(p) => Ok(Expr::Pred(p)),
                    Err(e) => Err(e),
                },
                sp_predicate(old(self).src@, old(self).pos as int),
                old(self).pos as int,
                final(self).pos as int,
            ),
    {
        let tag = match self.parse_tag() {
            Ok(t) => t,
            Err(e) => return Err(e),
        };
        let op_kind = match self.parse_op() {
            Ok(k) => k,
            Err(e) => return Err(e),
        };
        let value_at = self.pos;
        let value = match self.parse_value() {
            Ok(v) => v,
            Err(e) => return Err(e),
        };
        let op = match op_kind {
            OpKind::Eq => Op::Eq,
            OpKind::Ne => Op::Ne,
            OpKind::Re => {
                let pattern = match utf8_text(value.as_slice()) {
                    Some(s) => s,
                    None => return Err(QueryError::BadRegex { at: value_at, source: non_utf8_regex_error() }),
                };
                match compile_regex(pattern) {
                    Ok(m) => Op::Re(m),
                    Err(e) => return Err(QueryError::BadRegex { at: value_at, source: e }),
                }
            },
        };
        Ok(Predicate { tag, op, value })
    }

    fn parse_or(&mut self) -> (r: Result<Expr, QueryError>)
        requires
            old(self).pos <= old(self).src@.len(),
        ensures
            final(self).src == old(self).src,
            final(self).pos <= final(self).src@.len(),
            step_ok(r, sp_or(old(self).src@, old(self).pos as int), old(self).pos as int, final(self).pos as int),
        decreases old(self).src@.len() - old(self).pos, 5int,
    {
        let start = self.pos;
        let mut left = match self.parse_and() {
            Ok(e) => e,
            Err(e) => return Err(e),
        };
        loop
            invariant
                self.src == old(self).src,
                start == old(self).pos,
                start < self.pos <= self.src@.len(),
                regexes_consistent(left),
                sp_or(self.src@, start as int) == sp_or_tail(self.src@, self.pos as int, term_of(left)),
            decreases self.src@.len() - self.pos,
        {
            let ghost before = self.pos as int;
            self.skip_ws();
            proof {
                lemma_skip_ws(self.src@, before);
            }
            if !self.eat_keyword(&[79u8, 82u8]) {
                assert([79u8, 82u8]@ =~= kw_or());
                return Ok(left);
            }
            assert([79u8, 82u8]@ =~= kw_or());
            let right = match self.parse_and() {
                Ok(e) => e,
                Err(e) => return Err(e),
            };
            left = Expr::Or(Box::new(left), Box::new(right));
        }
    }

    fn parse_and(&mut self) -> (r: Result<Expr, QueryError>)
        requires
            old(self).pos <= old(self).src@.len(),
        ensures
            final(self).src == old(self).src,
            final(self).pos <= final(self).src@.len(),
            step_ok(r, sp_and(old(self).src@, old(self).pos as int), old(self).pos as int, final(self).pos as int),
        decreases old(self).src@.len() - old(self).pos, 3int,
    {
        let start = self.pos;
        let mut left = match self.parse_not() {
            Ok(e) => e,
            Err(e) => return Err(e),
        };
        loop
            invariant
                self.src == old(self).src,
                start == old(self).pos,
                start < self.pos <= self.src@.len(),
                regexes_consistent(left),
                sp_and(self.src@, start as int) == sp_and_tail(self.src@, self.pos as int, term_of(left)),
            decreases self.src@.len() - self.pos,
        {
            let ghost before = self.pos as int;
            self.skip_ws();
            proof {
                lemma_skip_ws(self.src@, before);
            }
            if !self.eat_keyword(&[65u8, 78u8, 68u8]) {
                assert([65u8, 78u8, 68u8]@ =~= kw_and());
                return Ok(left);
            }
            assert([65u8, 78u8, 68u8]@ =~= kw_and());
            let right = match self.parse_not() {
                Ok(e) => e,
                Err(e) => return Err(e),
            };
            left = Expr::And(Box::new(left), Box::new(right));
        }
    }

    fn parse_not(&mut self) -> (r: Result<Expr, QueryError>)
        requires
            old(self).pos <= old(self).src@.len(),
        ensures
            final(self).src == old(self).src,
            final(self).pos <= final(self).src@.len(),
            step_ok(r, sp_not(old(self).src@, old(self).pos as int), old(self).pos as int, final(self).pos as int),
        decreases old(self).src@.len() - old(self).pos, 1int,
    {
        let ghost before = self.pos as int;
        self.skip_ws();
        proof {
            lemma_skip_ws(self.src@, before);
        }
        assert([78u8, 79u8, 84u8]@ =~= kw_not());
        if self.eat_keyword(&[78u8, 79u8, 84u8]) {
            let inner = match self.parse_not() {
                Ok(e) => e,
                Err(e) => return Err(e),
            };
            return Ok(Expr::Not(Box::new(inner)));
        }
        self.parse_atom()
    }

    fn parse_atom(&mut self) -> (r: Result<Expr, QueryError>)
        requires
            old(self).pos <= old(self).src@.len(),
        ensures
            final(self).src == old(self).src,
            final(self).pos <= final(self).src@.len(),
            step_ok(r, sp_atom(old(self).src@, old(self).pos as int), old(self).pos as int, final(self).pos as int),
        decreases old(self).src@.len() - old(self).pos, 0int,
    {
        let ghost before = self.pos as int;
        self.skip_ws();
        proof {
            lemma_skip_ws(self.src@, before);
        }
        match self.peek() {
            None => Err(QueryError::Empty),
            Some(40u8) => {
                let open_at = self.pos;
                self.bump();
                let inner = match self.parse_or() {
                    Ok(e) => e,
                    Err(e) => return Err(e),
                };
                self.skip_ws();
                match self.bump() {
                    Some(41u8) => Ok(inner),
                    _ => Err(QueryError::UnbalancedParen { at: open_at }),
                }
            },
            Some(b) => if 48 <= b && b <= 57 {
                match self.parse_predicate() {
                    Ok(p) => Ok(Expr::Pred(p)),
                    Err(e) => Err(e),
                }
            } else {
                Err(QueryError::ExpectedAtom { at: self.pos })
            },
        }
    }
}

/// Parse a filter expression. Returns the expression, or the first error
/// with its byte offset; input left over after a complete expression is an
/// [`QueryError::UnexpectedTrailing`] error carrying the rest of the input.
pub fn parse(input: &str) -> (r: Result<Expr, QueryError>)
    ensures
        match spec_query(vstd::utf8::encode_utf8(input@)) {
            Ok(t) => r matches Ok(e) && term_of(e) == t && regexes_consistent(e),
            Err(f) => r matches Err(e) && fault_of(e) == f,
        },
{
    let mut p = Parser::new(input);
    let expr = match p.parse_or() {
        Ok(e) => e,
        Err(e) => return Err(e),
    };
    p.skip_ws();
    if !p.at_end() {
        let rest = p.rest();
        return Err(QueryError::UnexpectedTrailing { at: p.pos, rest: rest.to_owned() });
    }
    Ok(expr)
}

} // verus!
