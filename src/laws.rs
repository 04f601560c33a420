use vstd::prelude::*;
use crate::ast::{BinOp, SExpr};
use crate::eval::{Fault, binary_value, eval_expr, index_value, run, trunc_div, fresh_env};
use crate::lexer::SToken;
use crate::parser::{shifted, literal, parse_expr, parse_infix, parse_prefix, infix_op, prefix_op, prefix_prec, prec_of, tok};
use crate::value::{SValue, Table, printed};

verus! {

/// Whether an expression is built from integer literals with `+`, `-`, `*`
/// and `/` alone.
pub open spec fn is_arith(e: SExpr) -> bool
    decreases e,
{
    match e {
        SExpr::Int(_) => true,
        SExpr::Bin(op, l, r) => (op == BinOp::Plus || op == BinOp::Minus || op == BinOp::Mul || op == BinOp::Div)
            && is_arith(*l) && is_arith(*r),
        _ => false,
    }
}

/// The value of such an expression in integer arithmetic, with division
/// rounding toward zero; `None` where a divisor is zero or a result falls
/// outside the signed 32-bit range.
pub open spec fn arith_value(e: SExpr) -> Option<int>
    decreases e,
{
    match e {
        SExpr::Int(i) => Some(i as int),
        SExpr::Bin(op, l, r) => match (arith_value(*l), arith_value(*r)) {
            (Some(a), Some(b)) => {
                let x = match op {
                    BinOp::Plus => Some(a + b),
                    BinOp::Minus => Some(a - b),
                    BinOp::Mul => Some(a * b),
                    BinOp::Div => if b == 0 { None } else { Some(trunc_div(a, b)) },
                    _ => None,
                };
                match x {
                    Some(v) => if i32::MIN <= v <= i32::MAX { Some(v) } else { None },
                    None => None,
                }
            },
            _ => None,
        },
        _ => None,
    }
}

/// Evaluating a well-formed arithmetic expression gives its value in
/// signed 32-bit arithmetic, changes no binding and emits nothing.
pub proof fn law_arithmetic(e: SExpr, env: Table, fuel: nat)
    requires
        is_arith(e),
        arith_value(e) is Some,
    ensures
        eval_expr(e, env, fuel) == Ok::<(SValue, Table, Seq<char>), Fault>(
            (SValue::Int(arith_value(e)->0 as i32), env, Seq::empty()),
        ),
    decreases e,
{
    match e {
        SExpr::Bin(op, l, r) => {
            law_arithmetic(*l, env, fuel);
            law_arithmetic(*r, env, fuel);
            assert(Seq::<char>::empty() + Seq::<char>::empty() =~= Seq::<char>::empty());
        },
        _ => {},
    }
}

/// `+` with a string on either side joins the printed forms of both
/// operands.
pub proof fn law_string_concat(l: SValue, r: SValue)
    requires
        l is Str || r is Str,
    ensures
        binary_value(BinOp::Plus, l, r) == Ok::<SValue, Fault>(SValue::Str(printed(l) + printed(r))),
{
}

/// A hash is indexed by the printed form of the index: two indexes with the
/// same printed form find the same entry; `true` and `"true"` among them.
pub proof fn law_hash_index_by_printed_key(es: Table, k1: SValue, k2: SValue)
    requires
        printed(k1) == printed(k2),
    ensures
        index_value(SValue::Hash(es), k1) == index_value(SValue::Hash(es), k2),
        index_value(SValue::Hash(es), SValue::Bool(true)) == index_value(SValue::Hash(es), SValue::Str("true"@)),
{
}

/// Dividing an integer by zero is a fault, while an operator applied to an
/// integer and a boolean gives `Null`.
pub proof fn law_fault_or_null(a: i32, b: bool, op: BinOp)
    ensures
        binary_value(BinOp::Div, SValue::Int(a), SValue::Int(0)) == Err::<SValue, Fault>(Fault::DivisionByZero),
        binary_value(op, SValue::Int(a), SValue::Bool(b)) == Ok::<SValue, Fault>(SValue::Null),
        binary_value(op, SValue::Bool(b), SValue::Int(a)) == Ok::<SValue, Fault>(SValue::Null),
{
}

/// Two fresh sessions given the same source text end alike: the same
/// result or fault, the same bindings and the same emitted text.
pub proof fn law_fresh_sessions_agree(t1: Table, t2: Table, src: Seq<char>)
    requires
        t1 == fresh_env(),
        t2 == fresh_env(),
    ensures
        run(t1, src) == run(t2, src),
{
}

/// A literal or identifier followed by a token that binds no tighter than
/// `prec` is an operand on its own.
pub proof fn lemma_lone_operand(toks: Seq<SToken>, q: int, prec: nat)
    requires
        0 <= q,
        literal(tok(toks, q)) is Some,
        prec >= prec_of(tok(toks, q + 1)),
    ensures
        parse_expr(toks, q, prec) == Some((literal(tok(toks, q))->0, 0nat)),
{
    assert(parse_prefix(toks, q) == Some((literal(tok(toks, q))->0, 0nat)));
    assert(parse_infix(toks, q, prec, literal(tok(toks, q))->0) == Some((literal(tok(toks, q))->0, 0nat)));
}

/// A prefix operator binds tighter than any binary operator that follows
/// its operand: `- a OP b` parses as `(- a) OP b`, and `! a OP b` as
/// `(! a) OP b`, wherever the expression starts.
pub proof fn law_prefix_binds_tighter(toks: Seq<SToken>, p: int)
    requires
        0 <= p,
        prefix_op(tok(toks, p)) is Some,
        literal(tok(toks, p + 1)) is Some,
        infix_op(tok(toks, p + 2)) is Some,
        literal(tok(toks, p + 3)) is Some,
        prec_of(tok(toks, p + 4)) == 0,
    ensures
        parse_expr(toks, p, 0) == Some((
            SExpr::Bin(
                infix_op(tok(toks, p + 2))->0,
                Box::new(SExpr::Un(prefix_op(tok(toks, p))->0, Box::new(literal(tok(toks, p + 1))->0))),
                Box::new(literal(tok(toks, p + 3))->0),
            ),
            3nat,
        )),
{
    let t = tok(toks, p + 2);
    let op = infix_op(t)->0;
    let a = literal(tok(toks, p + 1))->0;
    let b = literal(tok(toks, p + 3))->0;
    let un = SExpr::Un(prefix_op(tok(toks, p))->0, Box::new(a));
    let bin = SExpr::Bin(op, Box::new(un), Box::new(b));
    assert(1 <= prec_of(t) <= 4);
    lemma_lone_operand(toks, p + 1, prefix_prec());
    assert(parse_prefix(toks, p) == Some((un, 1nat)));
    lemma_lone_operand(toks, p + 3, prec_of(t));
    assert(parse_infix(toks, p + 3, 0, bin) == Some((bin, 0nat)));
    assert(parse_infix(toks, p + 1, 0, un) == Some((bin, 2nat)));
}

/// A prefix operator takes the literal or identifier after it as its whole
/// operand whatever follows (but a call or an index): the expression goes on
/// from `(- a)` or `(! a)` as from any other operand.
pub proof fn law_prefix_operand(toks: Seq<SToken>, p: int)
    requires
        0 <= p,
        prefix_op(tok(toks, p)) is Some,
        literal(tok(toks, p + 1)) is Some,
        prec_of(tok(toks, p + 2)) <= prefix_prec(),
    ensures
        parse_prefix(toks, p) == Some((
            SExpr::Un(prefix_op(tok(toks, p))->0, Box::new(literal(tok(toks, p + 1))->0)),
            1nat,
        )),
        parse_expr(toks, p, 0) == shifted(
            parse_infix(
                toks,
                p + 1,
                0,
                SExpr::Un(prefix_op(tok(toks, p))->0, Box::new(literal(tok(toks, p + 1))->0)),
            ),
            1,
        ),
{
    lemma_lone_operand(toks, p + 1, prefix_prec());
}

/// The grouping of `a OP1 b OP2 c` follows the operators' tiers (`==` `!=`,
/// then `<` `>`, then `+` `-`, then `*` `/`): the tighter operator groups
/// first, and of two in one tier the left one.
pub proof fn law_precedence_grouping(toks: Seq<SToken>, p: int)
    requires
        0 <= p,
        literal(tok(toks, p)) is Some,
        infix_op(tok(toks, p + 1)) is Some,
        literal(tok(toks, p + 2)) is Some,
        infix_op(tok(toks, p + 3)) is Some,
        literal(tok(toks, p + 4)) is Some,
        prec_of(tok(toks, p + 5)) == 0,
    ensures
        parse_expr(toks, p, 0) == Some((
            if prec_of(tok(toks, p + 1)) >= prec_of(tok(toks, p + 3)) {
                SExpr::Bin(
                    infix_op(tok(toks, p + 3))->0,
                    Box::new(SExpr::Bin(
                        infix_op(tok(toks, p + 1))->0,
                        Box::new(literal(tok(toks, p))->0),
                        Box::new(literal(tok(toks, p + 2))->0),
                    )),
                    Box::new(literal(tok(toks, p + 4))->0),
                )
            } else {
                SExpr::Bin(
                    infix_op(tok(toks, p + 1))->0,
                    Box::new(literal(tok(toks, p))->0),
                    Box::new(SExpr::Bin(
                        infix_op(tok(toks, p + 3))->0,
                        Box::new(literal(tok(toks, p + 2))->0),
                        Box::new(literal(tok(toks, p + 4))->0),
                    )),
                )
            },
            4nat,
        )),
{
    let t1 = tok(toks, p + 1);
    let t2 = tok(toks, p + 3);
    let (op1, op2) = (infix_op(t1)->0, infix_op(t2)->0);
    let a = literal(tok(toks, p))->0;
    let b = literal(tok(toks, p + 2))->0;
    let c = literal(tok(toks, p + 4))->0;
    assert(1 <= prec_of(t1) <= 4);
    assert(1 <= prec_of(t2) <= 4);
    assert(parse_prefix(toks, p) == Some((a, 0nat)));
    lemma_lone_operand(toks, p + 4, prec_of(t2));
    if prec_of(t1) >= prec_of(t2) {
        lemma_lone_operand(toks, p + 2, prec_of(t1));
        let left = SExpr::Bin(op1, Box::new(a), Box::new(b));
        let all = SExpr::Bin(op2, Box::new(left), Box::new(c));
        assert(parse_infix(toks, p + 4, 0, all) == Some((all, 0nat)));
        assert(parse_infix(toks, p + 2, 0, left) == Some((all, 2nat)));
        assert(parse_infix(toks, p, 0, a) == Some((all, 4nat)));
    } else {
        lemma_lone_operand(toks, p + 4, prec_of(t1));
        let right = SExpr::Bin(op2, Box::new(b), Box::new(c));
        let all = SExpr::Bin(op1, Box::new(a), Box::new(right));
        assert(parse_prefix(toks, p + 2) == Some((b, 0nat)));
        assert(parse_infix(toks, p + 4, prec_of(t1), right) == Some((right, 0nat)));
        assert(parse_infix(toks, p + 2, prec_of(t1), b) == Some((right, 2nat)));
        assert(parse_expr(toks, p + 2, prec_of(t1)) == Some((right, 2nat)));
        assert(parse_infix(toks, p + 4, 0, all) == Some((all, 0nat)));
        assert(parse_infix(toks, p, 0, a) == Some((all, 4nat)));
    }
}

} // verus!
