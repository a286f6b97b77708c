//! Evaluation of a filter expression against a message. Every predicate is
//! a linear scan over the message's fields; `AND`/`OR` short-circuit.
use vstd::prelude::*;

use crate::parser::{RawMessage, fields_of};
use crate::query::ast::{Expr, Op, Predicate, expr_matches, pred_hit};
use crate::query::matcher::regex_find;
use crate::index::secondary::bytes_eq;

verus! {

/// Evaluate `expr` against `msg`.
pub fn matches(expr: &Expr, msg: &RawMessage<'_>) -> (b: bool)
    ensures
        b == expr_matches(*expr, fields_of(*msg)),
    decreases expr,
{
    match expr {
        Expr::Pred(pred) => eval_predicate(pred, msg),
        Expr::Not(inner) => !matches(inner, msg),
        Expr::And(a, b) => matches(a, msg) && matches(b, msg),
        Expr::Or(a, b) => matches(a, msg) || matches(b, msg),
    }
}

fn eval_predicate(pred: &Predicate, msg: &RawMessage<'_>) -> (b: bool)
    ensures
        b == expr_matches(Expr::Pred(*pred), fields_of(*msg)),
{
    let ghost fields = fields_of(*msg);
    let n = msg.tags.len();
    let mut i: usize = 0;
    while i < n
        invariant
            i <= n,
            n == fields.len(),
            fields == fields_of(*msg),
            forall|j: int|
                0 <= j < i ==> !((#[trigger] fields[j]).0 == pred.tag && match pred.op {
                    Op::Re(m) => crate::query::matcher::regex_is_match(m.pattern(), fields[j].1),
                    _ => fields[j].1 == pred.value@,
                }),
        decreases n - i,
    {
        let (t, v) = msg.tags.get(i);
        if t == pred.tag {
            let hit = match &pred.op {
                Op::Re(m) => regex_find(m, v),
                _ => bytes_eq(v, pred.value.as_slice()),
            };
            if hit {
                assert(pred_hit(fields, *pred)) by {
                    assert(fields[i as int].0 == pred.tag);
                }
                return match &pred.op {
                    Op::Ne => false,
                    _ => true,
                };
            }
        }
        i += 1;
    }
    assert(!pred_hit(fields, *pred));
    match &pred.op {
        Op::Ne => true,
        _ => false,
    }
}

} // verus!
