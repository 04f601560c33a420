use vstd::prelude::*;
use crate::ast::{Expression, SExpr, BinOp, UnOp};
use crate::lexer::{Token, SToken};

verus! {

/// The prefix operator that a token stands for, if any.
pub open spec fn prefix_op(t: SToken) -> Option<UnOp> {
    match t {
        SToken::Not => Some(UnOp::Not),
        SToken::Minus => Some(UnOp::Neg),
        _ => None,
    }
}

/// The binary operator that a token stands for, if any.
pub open spec fn infix_op(t: SToken) -> Option<BinOp> {
    match t {
        SToken::Plus => Some(BinOp::Plus),
        SToken::Minus => Some(BinOp::Minus),
        SToken::Div => Some(BinOp::Div),
        SToken::Mul => Some(BinOp::Mul),
        SToken::Eq => Some(BinOp::Eq),
        SToken::Ne => Some(BinOp::Ne),
        SToken::Lt => Some(BinOp::Lt),
        SToken::Gt => Some(BinOp::Gt),
        _ => None,
    }
}

/// The prefix operator of a token: `!` and `-`.
pub fn prefix_parser(tok: &Token) -> (r: Option<UnOp>)
    ensures
        r == prefix_op(tok@),
{
    match tok {
        Token::Not => Some(UnOp::Not),
        Token::Minus => Some(UnOp::Neg),
        _ => None,
    }
}

/// The binary operator of a token: arithmetic and comparison.
pub fn infix_parser(tok: &Token) -> (r: Option<BinOp>)
    ensures
        r == infix_op(tok@),
{
    match tok {
        Token::Plus => Some(BinOp::Plus),
        Token::Minus => Some(BinOp::Minus),
        Token::Div => Some(BinOp::Div),
        Token::Mul => Some(BinOp::Mul),
        Token::Eq => Some(BinOp::Eq),
        Token::Ne => Some(BinOp::Ne),
        Token::Lt => Some(BinOp::Lt),
        Token::Gt => Some(BinOp::Gt),
        _ => None,
    }
}

/// Applies a prefix operator to its operand.
pub fn unary(op: UnOp, e: Expression) -> (r: Expression)
    ensures
        r@ == SExpr::Un(op, Box::new(e@)),
{
    match op {
        UnOp::Neg => Expression::Neg(Box::new(e)),
        UnOp::Not => Expression::Not(Box::new(e)),
    }
}

/// Combines two operands with a binary operator.
pub fn binary(op: BinOp, l: Expression, r: Expression) -> (e: Expression)
    ensures
        e@ == SExpr::Bin(op, Box::new(l@), Box::new(r@)),
{
    let (l, r) = (Box::new(l), Box::new(r));
    match op {
        BinOp::Plus => Expression::Plus(l, r),
        BinOp::Minus => Expression::Minus(l, r),
        BinOp::Div => Expression::Div(l, r),
        BinOp::Mul => Expression::Mul(l, r),
        BinOp::Eq => Expression::Eq(l, r),
        BinOp::Ne => Expression::Ne(l, r),
        BinOp::Lt => Expression::Lt(l, r),
        BinOp::Gt => Expression::Gt(l, r),
    }
}

} // verus!
