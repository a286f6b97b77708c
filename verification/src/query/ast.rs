//! Abstract syntax of filter expressions.
use vstd::prelude::*;

use crate::parser::{RawMessage, fields_of};
use crate::query::matcher::{RegexMatcher, regex_accepts, regex_is_match};

verus! {

/// Comparison operator of a predicate.
#[derive(Debug, Clone)]
pub enum Op {
    /// `tag=value`: some occurrence of the tag has exactly this value.
    Eq,
    /// `tag!=value`: no occurrence of the tag has this value (an absent tag
    /// satisfies it).
    Ne,
    /// `tag~regex`: some occurrence of the tag matches the regex.
    Re(RegexMatcher),
}

/// A single `tag OP value` predicate. For a regex the value holds the
/// pattern's bytes.
#[derive(Debug, Clone)]
pub struct Predicate {
    pub tag: u32,
    pub op: Op,
    pub value: Vec<u8>,
}

/// A filter expression.
#[derive(Debug)]
pub enum Expr {
    Pred(Predicate),
    Not(Box<Expr>),
    And(Box<Expr>, Box<Expr>),
    Or(Box<Expr>, Box<Expr>),
}

/// The kind of a predicate's operator.
#[derive(Debug, Clone, Copy, PartialEq, Eq, Structural)]
pub enum OpKind {
    Eq,
    Ne,
    Re,
}

/// A filter expression as the contracts see it: regexes by the bytes of
/// their pattern.
pub enum QueryTerm {
    Pred { tag: u32, op: OpKind, value: Seq<u8> },
    Not(Box<QueryTerm>),
    And(Box<QueryTerm>, Box<QueryTerm>),
    Or(Box<QueryTerm>, Box<QueryTerm>),
}

/// The kind of an operator.
pub open spec fn op_kind(op: Op) -> OpKind {
    match op {
        Op::Eq => OpKind::Eq,
        Op::Ne => OpKind::Ne,
        Op::Re(_) => OpKind::Re,
    }
}

/// An expression as a term.
pub open spec fn term_of(e: Expr) -> QueryTerm
    decreases e,
{
    match e {
        Expr::Pred(p) => QueryTerm::Pred { tag: p.tag, op: op_kind(p.op), value: p.value@ },
        Expr::Not(a) => QueryTerm::Not(Box::new(term_of(*a))),
        Expr::And(a, b) => QueryTerm::And(Box::new(term_of(*a)), Box::new(term_of(*b))),
        Expr::Or(a, b) => QueryTerm::Or(Box::new(term_of(*a)), Box::new(term_of(*b))),
    }
}

/// Every regex of the expression was compiled from the UTF-8 text of its
/// predicate's value.
pub open spec fn regexes_consistent(e: Expr) -> bool
    decreases e,
{
    match e {
        Expr::Pred(p) => match p.op {
            Op::Re(m) => vstd::utf8::valid_utf8(p.value@) && m.pattern() == vstd::utf8::decode_utf8(
                p.value@,
            ) && regex_accepts(m.pattern()),
            _ => true,
        },
        Expr::Not(a) => regexes_consistent(*a),
        Expr::And(a, b) => regexes_consistent(*a) && regexes_consistent(*b),
        Expr::Or(a, b) => regexes_consistent(*a) && regexes_consistent(*b),
    }
}

/// Some field has tag `tag` and a value satisfying the operator: equal to
/// `value` for `Eq`/`Ne`, matched by the pattern (the UTF-8 text of
/// `value`) for `Re`.
pub open spec fn some_field(fields: Seq<(u32, Seq<u8>)>, tag: u32, op: OpKind, value: Seq<u8>) -> bool {
    exists|i: int|
        0 <= i < fields.len() && (#[trigger] fields[i]).0 == tag && (if op == OpKind::Re {
            regex_is_match(vstd::utf8::decode_utf8(value), fields[i].1)
        } else {
            fields[i].1 == value
        })
}

/// Whether a term matches a message with these fields. A tag that occurs
/// several times matches `=` and `~` if any occurrence does; `!=` holds when
/// no occurrence equals the value.
pub open spec fn term_matches(t: QueryTerm, fields: Seq<(u32, Seq<u8>)>) -> bool
    decreases t,
{
    match t {
        QueryTerm::Pred { tag, op, value } => if op == OpKind::Ne {
            !some_field(fields, tag, OpKind::Eq, value)
        } else {
            some_field(fields, tag, op, value)
        },
        QueryTerm::Not(a) => !term_matches(*a, fields),
        QueryTerm::And(a, b) => term_matches(*a, fields) && term_matches(*b, fields),
        QueryTerm::Or(a, b) => term_matches(*a, fields) || term_matches(*b, fields),
    }
}

/// Some field has the predicate's tag and a value its operator accepts:
/// equal to the predicate's value for `=` and `!=`, matched by the
/// predicate's compiled pattern for `~`.
pub open spec fn pred_hit(fields: Seq<(u32, Seq<u8>)>, p: Predicate) -> bool {
    exists|i: int|
        0 <= i < fields.len() && (#[trigger] fields[i]).0 == p.tag && match p.op {
            Op::Re(m) => regex_is_match(m.pattern(), fields[i].1),
            _ => fields[i].1 == p.value@,
        }
}

/// Whether an expression selects a message with these fields: `!=` holds
/// when no occurrence of the tag has the value, the other predicates when
/// some occurrence is accepted; `NOT`, `AND` and `OR` as in logic.
pub open spec fn expr_matches(e: Expr, fields: Seq<(u32, Seq<u8>)>) -> bool
    decreases e,
{
    match e {
        Expr::Pred(p) => if p.op is Ne {
            !pred_hit(fields, p)
        } else {
            pred_hit(fields, p)
        },
        Expr::Not(a) => !expr_matches(*a, fields),
        Expr::And(a, b) => expr_matches(*a, fields) && expr_matches(*b, fields),
        Expr::Or(a, b) => expr_matches(*a, fields) || expr_matches(*b, fields),
    }
}

/// Where every regex was compiled from its predicate's value (as the query
/// parser builds them), an expression selects exactly what its term does.
pub proof fn lemma_consistent_matches(e: Expr, fields: Seq<(u32, Seq<u8>)>)
    requires
        regexes_consistent(e),
    ensures
        expr_matches(e, fields) == term_matches(term_of(e), fields),
    decreases e,
{
    match e {
        Expr::Pred(p) => {},
        Expr::Not(a) => lemma_consistent_matches(*a, fields),
        Expr::And(a, b) => {
            lemma_consistent_matches(*a, fields);
            lemma_consistent_matches(*b, fields);
        },
        Expr::Or(a, b) => {
            lemma_consistent_matches(*a, fields);
            lemma_consistent_matches(*b, fields);
        },
    }
}

/// The equalities an expression made only of `=` predicates joined by
/// `AND` requires, in order; `None` when it has any other shape.
pub open spec fn hot_eqs(t: QueryTerm) -> Option<Seq<(u32, Seq<u8>)>>
    decreases t,
{
    match t {
        QueryTerm::Pred { tag, op, value } => if op == OpKind::Eq {
            Some(seq![(tag, value)])
        } else {
            None
        },
        QueryTerm::And(a, b) => match (hot_eqs(*a), hot_eqs(*b)) {
            (Some(x), Some(y)) => Some(x + y),
            _ => None,
        },
        _ => None,
    }
}

/// An expression whose hot equalities are `pairs` matches a message exactly
/// when, for every pair, some field of the message carries that tag and
/// value: such a filter can be answered from a secondary index.
pub proof fn law_hot_equalities_decide_match(t: QueryTerm, fields: Seq<(u32, Seq<u8>)>)
    requires
        hot_eqs(t) is Some,
    ensures
        term_matches(t, fields) <==> forall|k: int|
            0 <= k < hot_eqs(t).unwrap().len() ==> #[trigger] some_field(
                fields,
                hot_eqs(t).unwrap()[k].0,
                OpKind::Eq,
                hot_eqs(t).unwrap()[k].1,
            ),
    decreases t,
{
    match t {
        QueryTerm::Pred { tag, op, value } => {
            let p = hot_eqs(t).unwrap();
            assert(p[0] == (tag, value));
            assert(p.len() == 1);
            assert(term_matches(t, fields) == some_field(fields, p[0].0, OpKind::Eq, p[0].1));
        },
        QueryTerm::And(a, b) => {
            law_hot_equalities_decide_match(*a, fields);
            law_hot_equalities_decide_match(*b, fields);
            let x = hot_eqs(*a).unwrap();
            let y = hot_eqs(*b).unwrap();
            let p = hot_eqs(t).unwrap();
            assert(p == x + y);
            if forall|k: int| 0 <= k < p.len() ==> #[trigger] some_field(fields, p[k].0, OpKind::Eq, p[k].1) {
                assert forall|k: int| 0 <= k < x.len() implies #[trigger] some_field(fields, x[k].0, OpKind::Eq, x[k].1) by {
                    assert(p[k] == x[k]);
                }
                assert forall|k: int| 0 <= k < y.len() implies #[trigger] some_field(fields, y[k].0, OpKind::Eq, y[k].1) by {
                    assert(p[x.len() + k] == y[k]);
                }
            }
            if term_matches(t, fields) {
                assert forall|k: int| 0 <= k < p.len() implies #[trigger] some_field(fields, p[k].0, OpKind::Eq, p[k].1) by {
                    if k < x.len() {
                        assert(p[k] == x[k]);
                    } else {
                        assert(p[k] == y[k - x.len()]);
                    }
                }
            }
        },
        _ => {},
    }
}

/// The pairs of a vector of borrowed equalities.
pub open spec fn pairs_view(v: Seq<(u32, &[u8])>) -> Seq<(u32, Seq<u8>)> {
    v.map_values(|p: (u32, &[u8])| (p.0, p.1@))
}

/// A copy of an expression (a copied regex shares its compiled program).
pub fn copy_expr(e: &Expr) -> (r: Expr)
    ensures
        term_of(r) == term_of(*e),
        regexes_consistent(*e) ==> regexes_consistent(r),
        forall|f: Seq<(u32, Seq<u8>)>| #[trigger] expr_matches(r, f) == expr_matches(*e, f),
    decreases e,
{
    match e {
        Expr::Pred(p) => {
            let op = match &p.op {
                Op::Eq => Op::Eq,
                Op::Ne => Op::Ne,
                Op::Re(m) => Op::Re(m.duplicate()),
            };
            let q = Predicate { tag: p.tag, op, value: crate::bytes::copy_bytes(p.value.as_slice()) };
            proof {
                assert forall|f: Seq<(u32, Seq<u8>)>| pred_hit(f, q) == pred_hit(f, *p) by {
                    if pred_hit(f, q) {
                        let i = choose|i: int| 0 <= i < f.len() && (#[trigger] f[i]).0 == q.tag && match q.op {
                            Op::Re(m) => regex_is_match(m.pattern(), f[i].1),
                            _ => f[i].1 == q.value@,
                        };
                        assert(f[i].0 == p.tag);
                    }
                    if pred_hit(f, *p) {
                        let i = choose|i: int| 0 <= i < f.len() && (#[trigger] f[i]).0 == p.tag && match p.op {
                            Op::Re(m) => regex_is_match(m.pattern(), f[i].1),
                            _ => f[i].1 == p.value@,
                        };
                        assert(f[i].0 == q.tag);
                    }
                }
                assert((q.op is Ne) == (p.op is Ne));
                assert forall|f: Seq<(u32, Seq<u8>)>| #[trigger] expr_matches(Expr::Pred(q), f) == expr_matches(*e, f) by {
                    assert(pred_hit(f, q) == pred_hit(f, *p));
                }
            }
            Expr::Pred(q)
        },
        Expr::Not(a) => {
            let x = copy_expr(a);
            proof {
                assert forall|f: Seq<(u32, Seq<u8>)>| #[trigger] expr_matches(Expr::Not(Box::new(x)), f) == expr_matches(*e, f) by {
                    assert(expr_matches(x, f) == expr_matches(**a, f));
                }
            }
            Expr::Not(Box::new(x))
        },
        Expr::And(a, b) => {
            let x = copy_expr(a);
            let y = copy_expr(b);
            proof {
                assert forall|f: Seq<(u32, Seq<u8>)>| #[trigger] expr_matches(Expr::And(Box::new(x), Box::new(y)), f) == expr_matches(*e, f) by {
                    assert(expr_matches(x, f) == expr_matches(**a, f));
                    assert(expr_matches(y, f) == expr_matches(**b, f));
                }
            }
            Expr::And(Box::new(x), Box::new(y))
        },
        Expr::Or(a, b) => {
            let x = copy_expr(a);
            let y = copy_expr(b);
            proof {
                assert forall|f: Seq<(u32, Seq<u8>)>| #[trigger] expr_matches(Expr::Or(Box::new(x), Box::new(y)), f) == expr_matches(*e, f) by {
                    assert(expr_matches(x, f) == expr_matches(**a, f));
                    assert(expr_matches(y, f) == expr_matches(**b, f));
                }
            }
            Expr::Or(Box::new(x), Box::new(y))
        },
    }
}

impl Clone for Expr {
    fn clone(&self) -> (r: Self)
        ensures
            term_of(r) == term_of(*self),
            forall|f: Seq<(u32, Seq<u8>)>| #[trigger] expr_matches(r, f) == expr_matches(*self, f),
    {
        copy_expr(self)
    }
}

impl Expr {
    /// Evaluate against a message (see [`crate::query::eval::matches`]).
    pub fn matches(&self, msg: &RawMessage<'_>) -> (b: bool)
        ensures
            b == expr_matches(*self, fields_of(*msg)),
            regexes_consistent(*self) ==> b == term_matches(term_of(*self), fields_of(*msg)),
    {
        let b = crate::query::eval::matches(self, msg);
        proof {
            if regexes_consistent(*self) {
                lemma_consistent_matches(*self, fields_of(*msg));
            }
        }
        b
    }

    /// If the expression is a conjunction of `=` predicates (a single one
    /// included), the `(tag, value)` pairs in order; otherwise `None`. Such a
    /// conjunction can be pushed down to a secondary index.
    pub fn hot_equalities(&self) -> (r: Option<Vec<(u32, &[u8])>>)
        ensures
            match hot_eqs(term_of(*self)) {
                Some(s) => r matches Some(v) && pairs_view(v@) == s,
                None => r is None,
            },
    {
        let mut out: Vec<(u32, &[u8])> = Vec::new();
        if self.collect_hot_equalities(&mut out) {
            assert(pairs_view(out@) =~= Seq::<(u32, Seq<u8>)>::empty() + hot_eqs(term_of(*self)).unwrap());
            Some(out)
        } else {
            None
        }
    }

    fn collect_hot_equalities<'a>(&'a self, out: &mut Vec<(u32, &'a [u8])>) -> (ok: bool)
        ensures
            ok == hot_eqs(term_of(*self)) is Some,
            ok ==> pairs_view(final(out)@) == pairs_view(old(out)@) + hot_eqs(term_of(*self)).unwrap(),
        decreases self,
    {
        match self {
            Expr::Pred(p) => match p.op {
                Op::Eq => {
                    out.push((p.tag, p.value.as_slice()));
                    assert(pairs_view(out@) =~= pairs_view(old(out)@) + seq![(p.tag, p.value@)]);
                    true
                },
                _ => false,
            },
            Expr::And(a, b) => {
                let ra = a.collect_hot_equalities(out);
                if !ra {
                    return false;
                }
                let rb = b.collect_hot_equalities(out);
                proof {
                    if rb {
                        assert(pairs_view(out@) =~= pairs_view(old(out)@) + hot_eqs(term_of(*self)).unwrap());
                    }
                }
                rb
            },
            _ => false,
        }
    }
}

} // verus!
