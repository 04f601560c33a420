mod exprs;

use vstd::prelude::*;
use crate::ast::{Expression, Statement, Program, SExpr, SStmt, strings_view, stmts_view, exprs_view, pairs_view};
use crate::lexer::{Lexer, LexerState, Token, SToken, at_index, cursor, full_stream, lemma_full_stream, lemma_lex_progress, lex_token, tokens_view};
pub use self::exprs::{prefix_parser, infix_parser, prefix_op, infix_op};
use self::exprs::{unary, binary};

verus! {

/// Binding power of a whole expression: every operator binds tighter.
const LOWEST: u8 = 0;

/// Binding power of the operand of a prefix operator.
const PREFIX: u8 = 5;

/// The token at index `i`; past the end of the stream every token is `Eof`.
pub open spec fn tok(toks: Seq<SToken>, i: int) -> SToken {
    if 0 <= i < toks.len() {
        toks[i]
    } else {
        SToken::Eof
    }
}

/// Binding power of a token that may follow an operand: `==` `!=` bind
/// loosest, then `<` `>`, then `+` `-`, then `*` `/`; a call `(` and an index
/// `[` bind tightest. Every other token has the lowest power, 0.
pub open spec fn prec_of(t: SToken) -> nat {
    match t {
        SToken::Eq | SToken::Ne => 1,
        SToken::Lt | SToken::Gt => 2,
        SToken::Plus | SToken::Minus => 3,
        SToken::Mul | SToken::Div => 4,
        SToken::Lparen | SToken::Lbracket => 6,
        _ => 0,
    }
}

/// Binding power of the operand of a prefix operator.
pub open spec fn prefix_prec() -> nat {
    5
}

/// How many tokens are left from index `p`.
pub open spec fn left_from(toks: Seq<SToken>, p: int) -> nat {
    if 0 <= p < toks.len() {
        (toks.len() - p) as nat
    } else {
        0
    }
}

/// Each parse function below starts at index `p`, where the current token
/// is the first of the construct, and answers the construct with the offset
/// from `p` of its last token, or `None` where the tokens do not form one.
pub open spec fn parse_statement(toks: Seq<SToken>, p: int) -> Option<(SStmt, nat)>
    decreases left_from(toks, p), 10nat,
{
    if (!(0 <= p < toks.len()) || tok(toks, p) is Eof) {
        None
    } else {
        match toks[p] {
            SToken::Let => parse_let(toks, p),
            SToken::Ret => parse_ret(toks, p),
            SToken::Lbrace => match parse_block_items(toks, p) {
                Some((ss, k)) => Some((SStmt::Block(ss), k)),
                None => None,
            },
            _ => parse_expr_stmt(toks, p),
        }
    }
}

/// Offset past an optional `;` that follows the token at `q`.
pub open spec fn semi(toks: Seq<SToken>, q: int) -> nat {
    if tok(toks, q + 1) is Semicolon {
        1
    } else {
        0
    }
}

/// `let NAME = EXPR [;]`
pub open spec fn parse_let(toks: Seq<SToken>, p: int) -> Option<(SStmt, nat)>
    decreases left_from(toks, p), 8nat,
{
    if (!(0 <= p < toks.len()) || tok(toks, p) is Eof) {
        None
    } else if tok(toks, p + 1) is Ident && tok(toks, p + 2) is Assign {
        match parse_expr(toks, p + 3, 0) {
            Some((e, k)) => Some((
                SStmt::Let(tok(toks, p + 1)->Ident_0, e),
                3 + k + semi(toks, p + 3 + k),
            )),
            None => None,
        }
    } else {
        None
    }
}

/// `return EXPR [;]`
pub open spec fn parse_ret(toks: Seq<SToken>, p: int) -> Option<(SStmt, nat)>
    decreases left_from(toks, p), 8nat,
{
    if (!(0 <= p < toks.len()) || tok(toks, p) is Eof) {
        None
    } else {
        match parse_expr(toks, p + 1, 0) {
            Some((e, k)) => Some((SStmt::Ret(e), 1 + k + semi(toks, p + 1 + k))),
            None => None,
        }
    }
}

/// `EXPR [;]`
pub open spec fn parse_expr_stmt(toks: Seq<SToken>, p: int) -> Option<(SStmt, nat)>
    decreases left_from(toks, p), 8nat,
{
    if (!(0 <= p < toks.len()) || tok(toks, p) is Eof) {
        None
    } else {
        match parse_expr(toks, p, 0) {
            Some((e, k)) => Some((SStmt::Expr(e), k + semi(toks, p + k))),
            None => None,
        }
    }
}

/// The statements of a block after the token at `q`, up to the closing `}`.
pub open spec fn parse_block_items(toks: Seq<SToken>, q: int) -> Option<(Seq<SStmt>, nat)>
    decreases left_from(toks, q), 8nat,
{
    if (!(0 <= q < toks.len()) || tok(toks, q) is Eof) {
        None
    } else if tok(toks, q + 1) is Rbrace {
        Some((Seq::empty(), 1))
    } else {
        match parse_statement(toks, q + 1) {
            Some((s, k)) => match parse_block_items(toks, q + 1 + k) {
                Some((ss, k2)) => Some((seq![s] + ss, 1 + k + k2)),
                None => None,
            },
            None => None,
        }
    }
}

/// The expression that a literal or identifier token stands for.
pub open spec fn literal(t: SToken) -> Option<SExpr> {
    match t {
        SToken::Int(i) => Some(SExpr::Int(i)),
        SToken::Ident(s) => Some(SExpr::Ident(s)),
        SToken::True => Some(SExpr::Bool(true)),
        SToken::False => Some(SExpr::Bool(false)),
        SToken::Str(s) => Some(SExpr::Str(s)),
        _ => None,
    }
}

/// An expression whose operators all bind tighter than `prec`: its first
/// operand, then the operators that follow.
pub open spec fn parse_expr(toks: Seq<SToken>, p: int, prec: nat) -> Option<(SExpr, nat)>
    decreases left_from(toks, p), 6nat,
{
    if (!(0 <= p < toks.len()) || tok(toks, p) is Eof) {
        None
    } else {
        match parse_prefix(toks, p) {
            Some((left, k1)) => match parse_infix(toks, p + k1, prec, left) {
                Some((e, k2)) => Some((e, k1 + k2)),
                None => None,
            },
            None => None,
        }
    }
}

/// The first operand of an expression: a literal, a parenthesized
/// expression, a prefix operator and its operand, or a composite form.
pub open spec fn parse_prefix(toks: Seq<SToken>, p: int) -> Option<(SExpr, nat)>
    decreases left_from(toks, p), 5nat,
{
    if (!(0 <= p < toks.len()) || tok(toks, p) is Eof) {
        None
    } else {
        match toks[p] {
            SToken::If => parse_cond(toks, p),
            SToken::Function => parse_fn(toks, p),
            SToken::Lbracket => match parse_list(toks, p, SToken::Rbracket) {
                Some((es, k)) => Some((SExpr::Array(es), k)),
                None => None,
            },
            SToken::Lbrace => match parse_hash_items(toks, p) {
                Some((ps, k)) => Some((SExpr::Hash(ps), k)),
                None => None,
            },
            SToken::Lparen => match parse_expr(toks, p + 1, 0) {
                Some((e, k)) => if tok(toks, p + 1 + k + 1) is Rparen {
                    Some((e, k + 2))
                } else {
                    None
                },
                None => None,
            },
            _ => match prefix_op(toks[p]) {
                Some(op) => match parse_expr(toks, p + 1, prefix_prec()) {
                    Some((e, k)) => Some((SExpr::Un(op, Box::new(e)), k + 1)),
                    None => None,
                },
                None => match literal(toks[p]) {
                    Some(e) => Some((e, 0nat)),
                    None => None,
                },
            },
        }
    }
}

/// The operators, calls and indexes that follow the operand `left`, whose
/// last token is at `q`, while they bind tighter than `prec`.
pub open spec fn parse_infix(toks: Seq<SToken>, q: int, prec: nat, left: SExpr) -> Option<(SExpr, nat)>
    decreases left_from(toks, q), 4nat,
{
    let nt = tok(toks, q + 1);
    if !(0 <= q < toks.len()) {
        None
    } else if nt is Semicolon || prec >= prec_of(nt) {
        Some((left, 0))
    } else if nt is Lparen {
        match parse_list(toks, q + 1, SToken::Rparen) {
            Some((args, k)) => match parse_infix(toks, q + 1 + k, prec, SExpr::Call(Box::new(left), args)) {
                Some((e, k2)) => Some((e, 1 + k + k2)),
                None => None,
            },
            None => None,
        }
    } else if nt is Lbracket {
        match parse_expr(toks, q + 2, 0) {
            Some((ix, k)) => if tok(toks, q + 2 + k + 1) is Rbracket {
                match parse_infix(toks, q + 3 + k, prec, SExpr::Index(Box::new(left), Box::new(ix))) {
                    Some((e, k2)) => Some((e, 3 + k + k2)),
                    None => None,
                }
            } else {
                None
            },
            None => None,
        }
    } else {
        match infix_op(nt) {
            Some(op) => match parse_expr(toks, q + 2, prec_of(nt)) {
                Some((right, k)) => match parse_infix(toks, q + 2 + k, prec, SExpr::Bin(op, Box::new(left), Box::new(right))) {
                    Some((e, k2)) => Some((e, 2 + k + k2)),
                    None => None,
                },
                None => None,
            },
            None => Some((left, 0)),
        }
    }
}

/// Expressions after the token at `q`, each followed by an optional `,`, up
/// to the token `close`.
pub open spec fn parse_list(toks: Seq<SToken>, q: int, close: SToken) -> Option<(Seq<SExpr>, nat)>
    decreases left_from(toks, q), 2nat,
{
    if (!(0 <= q < toks.len()) || tok(toks, q) is Eof) {
        None
    } else if tok(toks, q + 1) == close {
        Some((Seq::empty(), 1))
    } else {
        match parse_expr(toks, q + 1, 0) {
            Some((e, k)) => {
                let k1 = 1 + k + if tok(toks, q + 1 + k + 1) is Comma { 1nat } else { 0nat };
                match parse_list(toks, q + k1, close) {
                    Some((es, k2)) => Some((seq![e] + es, k1 + k2)),
                    None => None,
                }
            },
            None => None,
        }
    }
}

/// `KEY : VALUE` pairs after the token at `q`, each followed by an optional
/// `,`, up to `}`.
pub open spec fn parse_hash_items(toks: Seq<SToken>, q: int) -> Option<(Seq<(SExpr, SExpr)>, nat)>
    decreases left_from(toks, q), 2nat,
{
    if (!(0 <= q < toks.len()) || tok(toks, q) is Eof) {
        None
    } else if tok(toks, q + 1) is Rbrace {
        Some((Seq::empty(), 1))
    } else {
        match parse_expr(toks, q + 1, 0) {
            Some((key, k)) => if tok(toks, q + 1 + k + 1) is Colon {
                match parse_expr(toks, q + k + 3, 0) {
                    Some((val, kv)) => {
                        let k1 = k + 3 + kv + if tok(toks, q + k + 3 + kv + 1) is Comma { 1nat } else { 0nat };
                        match parse_hash_items(toks, q + k1) {
                            Some((ps, k2)) => Some((seq![(key, val)] + ps, k1 + k2)),
                            None => None,
                        }
                    },
                    None => None,
                }
            } else {
                None
            },
            None => None,
        }
    }
}

/// `if (COND) STMT [else STMT]`; the missing `else` branch is an empty block.
pub open spec fn parse_cond(toks: Seq<SToken>, p: int) -> Option<(SExpr, nat)>
    decreases left_from(toks, p), 4nat,
{
    if (!(0 <= p < toks.len()) || tok(toks, p) is Eof) || !(tok(toks, p + 1) is Lparen) {
        None
    } else {
        match parse_expr(toks, p + 2, 0) {
            Some((c, kc)) => if tok(toks, p + 2 + kc + 1) is Rparen {
                match parse_statement(toks, p + kc + 4) {
                    Some((t, kt)) => {
                        let s = p + kc + 4 + kt;
                        if tok(toks, s + 1) is Else {
                            match parse_statement(toks, s + 2) {
                                Some((f, kf)) => Some((
                                    SExpr::If(Box::new(c), Box::new(t), Box::new(f)),
                                    kc + 4 + kt + 2 + kf,
                                )),
                                None => None,
                            }
                        } else {
                            Some((
                                SExpr::If(Box::new(c), Box::new(t), Box::new(SStmt::Block(Seq::empty()))),
                                kc + 4 + kt,
                            ))
                        }
                    },
                    None => None,
                }
            } else {
                None
            },
            None => None,
        }
    }
}

/// Parameter names after the token at `q`, each followed by an optional
/// `,`, up to `)`.
pub open spec fn parse_params(toks: Seq<SToken>, q: int) -> Option<(Seq<Seq<char>>, nat)>
    decreases left_from(toks, q),
{
    if (!(0 <= q < toks.len()) || tok(toks, q) is Eof) {
        None
    } else if tok(toks, q + 1) is Rparen {
        Some((Seq::empty(), 1))
    } else if tok(toks, q + 1) is Ident {
        let k1: nat = if tok(toks, q + 2) is Comma { 2 } else { 1 };
        match parse_params(toks, q + k1) {
            Some((ns, k2)) => Some((seq![tok(toks, q + 1)->Ident_0] + ns, k1 + k2)),
            None => None,
        }
    } else {
        None
    }
}

/// `fn (PARAM, ...) STMT`
pub open spec fn parse_fn(toks: Seq<SToken>, p: int) -> Option<(SExpr, nat)>
    decreases left_from(toks, p), 4nat,
{
    if (!(0 <= p < toks.len()) || tok(toks, p) is Eof) || !(tok(toks, p + 1) is Lparen) {
        None
    } else {
        match parse_params(toks, p + 1) {
            Some((ns, k)) => match parse_statement(toks, p + k + 2) {
                Some((body, kb)) => Some((SExpr::FnDecl(ns, Box::new(body)), k + 2 + kb)),
                None => None,
            },
            None => None,
        }
    }
}

/// The statements from index `p` to `Eof`; `None` where a statement does not
/// parse or an `Illegal` token begins one.
pub open spec fn parse_from(toks: Seq<SToken>, p: int) -> Option<Seq<SStmt>>
    decreases left_from(toks, p),
{
    if !(0 <= p < toks.len()) || tok(toks, p) is Eof {
        Some(Seq::empty())
    } else if tok(toks, p) is Illegal {
        None
    } else {
        match parse_statement(toks, p) {
            Some((s, k)) => match parse_from(toks, p + k + 1) {
                Some(rest) => Some(seq![s] + rest),
                None => None,
            },
            None => None,
        }
    }
}

/// The program that a token stream forms.
pub open spec fn parse_tokens(toks: Seq<SToken>) -> Option<Seq<SStmt>> {
    parse_from(toks, 0)
}


/// Moves the offset of a parse result by `d`.
pub open spec fn shifted<X>(r: Option<(X, nat)>, d: int) -> Option<(X, nat)> {
    match r {
        Some((x, k)) => Some((x, (k + d) as nat)),
        None => None,
    }
}

/// `r` is the parse that the model `m` describes, from index `start` to the
/// current index `end` of a stream of `len` tokens.
pub open spec fn expr_result(r: Option<Expression>, m: Option<(SExpr, nat)>, start: int, end: int, len: int) -> bool {
    match m {
        Some((e, k)) => r is Some && r->0@ == e && end == start + k && end < len,
        None => r is None,
    }
}

/// As `expr_result`, for a statement.
pub open spec fn stmt_result(r: Option<Statement>, m: Option<(SStmt, nat)>, start: int, end: int, len: int) -> bool {
    match m {
        Some((s, k)) => r is Some && r->0@ == s && end == start + k && end < len,
        None => r is None,
    }
}

/// A program could not be parsed: an illegal token, or a token where the
/// grammar requires another.
#[derive(Debug, PartialEq, Eq, Structural, Clone, Copy)]
pub struct ParseError;

/// Where a parser's tokens come from: a lexer, or tokens given in advance
/// (the second field is the index of the next one).
enum Source {
    Text(Lexer),
    Tokens(Vec<Token>, usize),
}

/// The tokens that a source has still to hand out, closed by `Eof`; once
/// that is reached it hands out `Eof` again and again.
spec fn rest_of(s: Source) -> Seq<SToken> {
    match s {
        Source::Text(l) => full_stream(l@.input, cursor(l@)),
        Source::Tokens(v, i) => tokens_view(v@).skip(i as int).push(SToken::Eof),
    }
}

spec fn source_wf(s: Source) -> bool {
    match s {
        Source::Text(l) => l.wf() && l@ == at_index(l@.input, cursor(l@)),
        Source::Tokens(v, i) => i <= v.len(),
    }
}

impl Source {
    /// Hands out the next token.
    fn next(&mut self) -> (t: Token)
        requires
            source_wf(*old(self)),
        ensures
            source_wf(*final(self)),
            t@ == rest_of(*old(self))[0],
            rest_of(*final(self)) == if rest_of(*old(self)).len() > 1 {
                rest_of(*old(self)).drop_first()
            } else {
                rest_of(*old(self))
            },
            match *old(self) {
                Source::Text(l) => *final(self) is Text && final(self)->Text_0@ == at_index(
                    l@.input,
                    lex_token(l@.input, cursor(l@)).1,
                ),
                Source::Tokens(_, _) => *final(self) is Tokens,
            },
    {
        match self {
            Source::Text(l) => {
                let ghost input = l@.input;
                let ghost c = cursor(l@);
                proof {
                    l.lemma_cursor();
                    lemma_lex_progress(input, c);
                    lemma_full_stream(input, c);
                    lemma_full_stream(input, input.len() as int);
                }
                let t = l.next_token();
                proof {
                    let (tk, j) = lex_token(input, c);
                    lemma_full_stream(input, j);
                    lemma_lex_progress(input, input.len() as int);
                }
                t
            },
            Source::Tokens(v, i) => {
                let ghost before = tokens_view(v@).skip(*i as int).push(SToken::Eof);
                if *i < v.len() {
                    let t = v[*i].duplicate();
                    *i = *i + 1;
                    proof {
                        assert(before.drop_first() =~= tokens_view(v@).skip(*i as int).push(SToken::Eof));
                    }
                    t
                } else {
                    assert(before =~= seq![SToken::Eof]);
                    Token::Eof
                }
            },
        }
    }
}

/// The tokens of a stream from index `k` on; past the end, `Eof` alone.
pub open spec fn stream_rest(toks: Seq<SToken>, k: int) -> Seq<SToken> {
    if 0 <= k < toks.len() {
        toks.skip(k)
    } else {
        seq![SToken::Eof]
    }
}

pub proof fn lemma_stream_rest(toks: Seq<SToken>, k: int)
    requires
        0 <= k,
        toks.len() >= 1,
        toks.last() == SToken::Eof,
    ensures
        stream_rest(toks, k).len() >= 1,
        stream_rest(toks, k)[0] == tok(toks, k),
        stream_rest(toks, k + 1) == if stream_rest(toks, k).len() > 1 {
            stream_rest(toks, k).drop_first()
        } else {
            stream_rest(toks, k)
        },
{
    if k + 1 < toks.len() {
        assert(toks.skip(k).drop_first() =~= toks.skip(k + 1));
    } else if k + 1 == toks.len() {
        assert(toks.skip(k) =~= seq![SToken::Eof]);
    }
}

/// A parser with a current token and one token of lookahead, refilled one
/// token at a time from its source.
pub struct Parser {
    source: Source,
    cur: Token,
    next: Token,
    toks: Ghost<Seq<SToken>>,
    pos: Ghost<int>,
}

impl Parser {
    /// The whole token stream, closed by `Eof`.
    pub closed spec fn toks(&self) -> Seq<SToken> {
        self.toks@
    }

    /// The index of the current token.
    pub closed spec fn position(&self) -> int {
        self.pos@
    }

    /// The state of the lexer that the parser reads from, if it reads from
    /// one.
    pub closed spec fn lexer_state(&self) -> Option<LexerState> {
        match self.source {
            Source::Text(l) => Some(l@),
            Source::Tokens(_, _) => None,
        }
    }

    pub closed spec fn wf(&self) -> bool {
        &&& self.toks@.len() >= 1
        &&& self.toks@.last() == SToken::Eof
        &&& self.pos@ >= 0
        &&& self.cur@ == tok(self.toks@, self.pos@)
        &&& self.next@ == tok(self.toks@, self.pos@ + 1)
        &&& source_wf(self.source)
        &&& rest_of(self.source) == stream_rest(self.toks@, self.pos@ + 2)
    }

    /// A parser over the tokens of a lexer, which it first moves to its next
    /// character, then takes the first two tokens from: the lexer is left
    /// just after them.
    pub fn new(lexer: Lexer) -> (p: Parser)
        requires
            lexer.wf(),
            lexer@.read_pos <= lexer@.input.len(),
        ensures
            p.wf(),
            p.position() == 0,
            p.toks() == full_stream(lexer@.input, lexer@.read_pos),
            p.lexer_state() == Some(at_index(
                lexer@.input,
                lex_token(lexer@.input, lex_token(lexer@.input, lexer@.read_pos).1).1,
            )),
    {
        let ghost input = lexer@.input;
        let ghost r = lexer@.read_pos;
        proof {
            lexer.lemma_cursor();
        }
        let mut lexer = lexer;
        lexer.read_char();
        assert(lexer@ == at_index(input, r));
        let ghost toks = full_stream(input, r);
        proof {
            lemma_full_stream(input, r);
            lemma_stream_rest(toks, 0);
            lemma_stream_rest(toks, 1);
            assert(toks.skip(0) =~= toks);
            lemma_lex_progress(input, r);
        }
        let mut source = Source::Text(lexer);
        let cur = source.next();
        let next = source.next();
        Parser { source, cur, next, toks: Ghost(toks), pos: Ghost(0) }
    }

    /// A parser over the given tokens, closed by `Eof`.
    pub fn from_tokens(tokens: Vec<Token>) -> (p: Parser)
        ensures
            p.wf(),
            p.position() == 0,
            p.toks() == tokens_view(tokens@).push(SToken::Eof),
            p.lexer_state() is None,
    {
        let ghost toks = tokens_view(tokens@).push(SToken::Eof);
        proof {
            lemma_stream_rest(toks, 0);
            lemma_stream_rest(toks, 1);
            assert(tokens_view(tokens@).skip(0).push(SToken::Eof) =~= toks);
            assert(toks.skip(0) =~= toks);
        }
        let mut source = Source::Tokens(tokens, 0);
        let cur = source.next();
        let next = source.next();
        Parser { source, cur, next, toks: Ghost(toks), pos: Ghost(0) }
    }

    /// The lexer that the parser reads from, if it reads from one, in the
    /// state the parser left it.
    pub fn into_lexer(self) -> (r: Option<Lexer>)
        requires
            self.wf(),
        ensures
            match self.lexer_state() {
                Some(s) => r is Some && r->0.wf() && r->0@ == s,
                None => r is None,
            },
    {
        match self.source {
            Source::Text(l) => Some(l),
            Source::Tokens(_, _) => None,
        }
    }

    /// The current token.
    fn cur(&self) -> (r: &Token)
        requires
            self.wf(),
        ensures
            r@ == tok(self.toks(), self.position()),
    {
        &self.cur
    }

    /// The token after the current one.
    fn peek(&self) -> (r: &Token)
        requires
            self.wf(),
        ensures
            r@ == tok(self.toks(), self.position() + 1),
    {
        &self.next
    }

    /// Moves to the next token, taking one more from the source.
    fn next_token(&mut self)
        requires
            old(self).wf(),
        ensures
            final(self).wf(),
            final(self).toks() == old(self).toks(),
            final(self).position() == old(self).position() + 1,
    {
        proof {
            lemma_stream_rest(self.toks@, self.pos@ + 2);
        }
        let t = self.source.next();
        std::mem::swap(&mut self.cur, &mut self.next);
        self.next = t;
        self.pos = Ghost(self.pos@ + 1);
    }

    /// Moves past a `;` that follows the current token, if there is one.
    fn skip_semicolon(&mut self)
        requires
            old(self).wf(),
        ensures
            final(self).wf(),
            final(self).toks() == old(self).toks(),
            final(self).position() == old(self).position() + semi(old(self).toks(), old(self).position()),
    {
        if matches!(self.peek(), Token::Semicolon) {
            self.next_token();
        }
    }

    /// Parses the whole stream from the current token to `Eof`.
    pub fn parse_program(&mut self) -> (r: Result<Program, ParseError>)
        requires
            old(self).wf(),
        ensures
            final(self).wf(),
            final(self).toks() == old(self).toks(),
            match parse_from(old(self).toks(), old(self).position()) {
                Some(ss) => r is Ok && r->Ok_0@ == ss,
                None => r is Err,
            },
    {
        let ghost toks = self.toks();
        let ghost p_start = self.position();
        let mut prog = Program::new();
        loop
            invariant
                self.wf(),
                self.toks() == toks,
                old(self).toks() == toks,
                old(self).wf(),
                old(self).position() == p_start,
                parse_from(toks, p_start) == match parse_from(toks, self.position()) {
                    Some(rest) => Some(prog@ + rest),
                    None => None,
                },
            decreases left_from(toks, self.position()),
        {
            if matches!(self.cur(), Token::Eof) {
                assert(parse_from(toks, self.position()) == Some(Seq::<SStmt>::empty()));
                assert(prog@ + Seq::<SStmt>::empty() =~= prog@);
                return Ok(prog);
            }
            if matches!(self.cur(), Token::Illegal) {
                return Err(ParseError);
            }
            let ghost before = prog@;
            let ghost p = self.position();
            match self.parse_statement() {
                Some(s) => {
                    prog.push(s);
                },
                None => {
                    return Err(ParseError);
                },
            }
            self.next_token();
            proof {
                let (s, k) = parse_statement(toks, p)->0;
                match parse_from(toks, p + k + 1) {
                    Some(rest) => {
                        assert(before + (seq![s] + rest) =~= prog@ + rest);
                    },
                    None => {},
                }
            }
        }
    }


    /// A statement, dispatched on its first token.
    #[verifier::rlimit(60)]
    fn parse_statement(&mut self) -> (r: Option<Statement>)
        requires
            old(self).wf(),
        ensures
            final(self).wf(),
            final(self).toks() == old(self).toks(),
            stmt_result(r, parse_statement(old(self).toks(), old(self).position()), old(self).position(), final(self).position(), final(self).toks().len() as int),
        decreases left_from(old(self).toks(), old(self).position()), 10nat,
    {
        if matches!(self.cur(), Token::Eof) {
            return None;
        }
        if matches!(self.cur(), Token::Let) {
            self.parse_let()
        } else if matches!(self.cur(), Token::Ret) {
            self.parse_ret()
        } else if matches!(self.cur(), Token::Lbrace) {
            match self.parse_block() {
                Some(v) => Some(Statement::BlockStatement(v)),
                None => None,
            }
        } else {
            self.parse_expression_stmt()
        }
    }

    fn parse_let(&mut self) -> (r: Option<Statement>)
        requires
            old(self).wf(),
        ensures
            final(self).wf(),
            final(self).toks() == old(self).toks(),
            stmt_result(r, parse_let(old(self).toks(), old(self).position()), old(self).position(), final(self).position(), final(self).toks().len() as int),
        decreases left_from(old(self).toks(), old(self).position()), 8nat,
    {
        if matches!(self.cur(), Token::Eof) {
            return None;
        }
        self.next_token();
        let ident = match self.cur() {
            Token::Ident(s) => s.clone(),
            _ => {
                return None;
            },
        };
        if !matches!(self.peek(), Token::Assign) {
            return None;
        }
        self.next_token();
        self.next_token();
        match self.parse_expression(LOWEST) {
            Some(e) => {
                self.skip_semicolon();
                Some(Statement::Let(ident, e))
            },
            None => None,
        }
    }

    fn parse_ret(&mut self) -> (r: Option<Statement>)
        requires
            old(self).wf(),
        ensures
            final(self).wf(),
            final(self).toks() == old(self).toks(),
            stmt_result(r, parse_ret(old(self).toks(), old(self).position()), old(self).position(), final(self).position(), final(self).toks().len() as int),
        decreases left_from(old(self).toks(), old(self).position()), 8nat,
    {
        if matches!(self.cur(), Token::Eof) {
            return None;
        }
        self.next_token();
        match self.parse_expression(LOWEST) {
            Some(e) => {
                self.skip_semicolon();
                Some(Statement::Ret(e))
            },
            None => None,
        }
    }

    fn parse_expression_stmt(&mut self) -> (r: Option<Statement>)
        requires
            old(self).wf(),
        ensures
            final(self).wf(),
            final(self).toks() == old(self).toks(),
            stmt_result(r, parse_expr_stmt(old(self).toks(), old(self).position()), old(self).position(), final(self).position(), final(self).toks().len() as int),
        decreases left_from(old(self).toks(), old(self).position()), 8nat,
    {
        if matches!(self.cur(), Token::Eof) {
            return None;
        }
        match self.parse_expression(LOWEST) {
            Some(e) => {
                self.skip_semicolon();
                Some(Statement::ExprStatement(e))
            },
            None => None,
        }
    }

    /// The statements of a block; the current token is its `{`.
    fn parse_block(&mut self) -> (r: Option<Vec<Statement>>)
        requires
            old(self).wf(),
        ensures
            final(self).wf(),
            final(self).toks() == old(self).toks(),
            match parse_block_items(old(self).toks(), old(self).position()) {
                Some((ss, k)) => r is Some && stmts_view(r->0@) == ss
                    && final(self).position() == old(self).position() + k
                    && final(self).position() < final(self).toks().len(),
                None => r is None,
            },
        decreases left_from(old(self).toks(), old(self).position()), 8nat,
    {
        let ghost toks = self.toks();
        let ghost q0 = self.position();
        let mut v: Vec<Statement> = Vec::new();
        loop
            invariant
                self.wf(),
                self.toks() == toks,
                old(self).toks() == toks,
                old(self).wf(),
                old(self).position() == q0,
                q0 <= self.position(),
                0 <= q0 < toks.len() || self.position() == q0,
                parse_block_items(toks, q0) == match parse_block_items(toks, self.position()) {
                    Some((ss, k)) => Some((stmts_view(v@) + ss, (self.position() - q0 + k) as nat)),
                    None => None,
                },
            decreases left_from(toks, self.position()),
        {
            if matches!(self.cur(), Token::Eof) {
                return None;
            }
            let ghost before = v@;
            let ghost q = self.position();
            if matches!(self.peek(), Token::Rbrace) {
                self.next_token();
                assert(stmts_view(v@) + Seq::<SStmt>::empty() =~= stmts_view(v@));
                return Some(v);
            }
            self.next_token();
            match self.parse_statement() {
                Some(s) => {
                    v.push(s);
                },
                None => {
                    return None;
                },
            }
            proof {
                let (s, k) = parse_statement(toks, q + 1)->0;
                assert(v@.drop_last() =~= before);
                assert(stmts_view(v@) =~= stmts_view(before).push(s));
                match parse_block_items(toks, q + 1 + k) {
                    Some((ss, k2)) => {
                        assert(stmts_view(before) + (seq![s] + ss) =~= stmts_view(v@) + ss);
                    },
                    None => {},
                }
            }
        }
    }

    /// An expression whose operators all bind tighter than `prec`.
    fn parse_expression(&mut self, prec: u8) -> (r: Option<Expression>)
        requires
            old(self).wf(),
        ensures
            final(self).wf(),
            final(self).toks() == old(self).toks(),
            expr_result(r, parse_expr(old(self).toks(), old(self).position(), prec as nat), old(self).position(), final(self).position(), final(self).toks().len() as int),
        decreases left_from(old(self).toks(), old(self).position()), 6nat,
    {
        if matches!(self.cur(), Token::Eof) {
            return None;
        }
        match self.parse_prefix() {
            Some(left) => self.parse_infix(left, prec),
            None => None,
        }
    }

    /// The first operand of an expression.
    fn parse_prefix(&mut self) -> (r: Option<Expression>)
        requires
            old(self).wf(),
        ensures
            final(self).wf(),
            final(self).toks() == old(self).toks(),
            expr_result(r, parse_prefix(old(self).toks(), old(self).position()), old(self).position(), final(self).position(), final(self).toks().len() as int),
        decreases left_from(old(self).toks(), old(self).position()), 5nat,
    {
        if matches!(self.cur(), Token::Eof) {
            return None;
        }
        if matches!(self.cur(), Token::If) {
            self.parse_cond()
        } else if matches!(self.cur(), Token::Function) {
            self.parse_fn()
        } else if matches!(self.cur(), Token::Lbracket) {
            match self.parse_list(false) {
                Some(v) => Some(Expression::Array(v)),
                None => None,
            }
        } else if matches!(self.cur(), Token::Lbrace) {
            match self.parse_hash() {
                Some(v) => Some(Expression::Hash(v)),
                None => None,
            }
        } else if matches!(self.cur(), Token::Lparen) {
            self.next_token();
            match self.parse_expression(LOWEST) {
                Some(e) => {
                    if matches!(self.peek(), Token::Rparen) {
                        self.next_token();
                        Some(e)
                    } else {
                        None
                    }
                },
                None => None,
            }
        } else {
            match prefix_parser(self.cur()) {
                Some(op) => {
                    self.next_token();
                    match self.parse_expression(PREFIX) {
                        Some(e) => Some(unary(op, e)),
                        None => None,
                    }
                },
                None => self.literal(),
            }
        }
    }

    /// The literal or identifier that the current token stands for.
    fn literal(&self) -> (r: Option<Expression>)
        requires
            self.wf(),
        ensures
            match literal(tok(self.toks(), self.position())) {
                Some(e) => r is Some && r->0@ == e && self.position() < self.toks().len(),
                None => r is None,
            },
    {
        match self.cur() {
            Token::Int(i) => Some(Expression::Int(*i)),
            Token::Ident(s) => Some(Expression::Ident(s.clone())),
            Token::True => Some(Expression::True),
            Token::False => Some(Expression::False),
            Token::String(s) => Some(Expression::String(s.clone())),
            _ => None,
        }
    }

    /// The operators, calls and indexes that follow the operand `left`,
    /// while they bind tighter than `prec`.
    fn parse_infix(&mut self, first: Expression, prec: u8) -> (r: Option<Expression>)
        requires
            old(self).wf(),
            old(self).position() < old(self).toks().len(),
        ensures
            final(self).wf(),
            final(self).toks() == old(self).toks(),
            expr_result(r, parse_infix(old(self).toks(), old(self).position(), prec as nat, first@), old(self).position(), final(self).position(), final(self).toks().len() as int),
        decreases left_from(old(self).toks(), old(self).position()), 4nat,
    {
        let ghost toks = self.toks();
        let ghost q0 = self.position();
        let ghost left0 = first@;
        let mut left = first;
        loop
            invariant
                self.wf(),
                self.toks() == toks,
                old(self).toks() == toks,
                old(self).wf(),
                old(self).position() == q0,
                left0 == first@,
                q0 <= self.position() < toks.len(),
                parse_infix(toks, q0, prec as nat, left0) == shifted(parse_infix(toks, self.position(), prec as nat, left@), self.position() - q0),
            decreases left_from(toks, self.position()),
        {
            let ghost q = self.position();
            let ghost lq = left@;
            let next_prec = precedence(self.peek());
            if matches!(self.peek(), Token::Semicolon) || prec >= next_prec {
                return Some(left);
            }
            if matches!(self.peek(), Token::Lparen) {
                self.next_token();
                match self.parse_list(true) {
                    Some(args) => {
                        left = Expression::Call(Box::new(left), args);
                    },
                    None => {
                        return None;
                    },
                }
            } else if matches!(self.peek(), Token::Lbracket) {
                self.next_token();
                self.next_token();
                match self.parse_expression(LOWEST) {
                    Some(ix) => {
                        if !matches!(self.peek(), Token::Rbracket) {
                            return None;
                        }
                        self.next_token();
                        left = Expression::Index(Box::new(left), Box::new(ix));
                    },
                    None => {
                        return None;
                    },
                }
            } else {
                match infix_parser(self.peek()) {
                    Some(op) => {
                        self.next_token();
                        let op_prec = precedence(self.cur());
                        self.next_token();
                        match self.parse_expression(op_prec) {
                            Some(right) => {
                                left = binary(op, left, right);
                            },
                            None => {
                                return None;
                            },
                        }
                    },
                    None => {
                        return Some(left);
                    },
                }
            }
        }
    }

    /// Expressions, each followed by an optional `,`, up to a `)` (for a
    /// call) or a `]` (for an array); the current token is the opening one.
    fn parse_list(&mut self, call: bool) -> (r: Option<Vec<Expression>>)
        requires
            old(self).wf(),
        ensures
            final(self).wf(),
            final(self).toks() == old(self).toks(),
            match parse_list(old(self).toks(), old(self).position(), if call { SToken::Rparen } else { SToken::Rbracket }) {
                Some((es, k)) => r is Some && exprs_view(r->0@) == es
                    && final(self).position() == old(self).position() + k
                    && final(self).position() < final(self).toks().len(),
                None => r is None,
            },
        decreases left_from(old(self).toks(), old(self).position()), 2nat,
    {
        let ghost toks = self.toks();
        let ghost q0 = self.position();
        let ghost close = if call { SToken::Rparen } else { SToken::Rbracket };
        let mut v: Vec<Expression> = Vec::new();
        loop
            invariant
                self.wf(),
                self.toks() == toks,
                old(self).toks() == toks,
                old(self).wf(),
                old(self).position() == q0,
                close == (if call { SToken::Rparen } else { SToken::Rbracket }),
                q0 <= self.position(),
                0 <= q0 < toks.len() || self.position() == q0,
                parse_list(toks, q0, close) == match parse_list(toks, self.position(), close) {
                    Some((es, k)) => Some((exprs_view(v@) + es, (self.position() - q0 + k) as nat)),
                    None => None,
                },
            decreases left_from(toks, self.position()),
        {
            if matches!(self.cur(), Token::Eof) {
                return None;
            }
            let ghost before = v@;
            let ghost q = self.position();
            let closing = if call {
                matches!(self.peek(), Token::Rparen)
            } else {
                matches!(self.peek(), Token::Rbracket)
            };
            if closing {
                self.next_token();
                assert(exprs_view(v@) + Seq::<SExpr>::empty() =~= exprs_view(v@));
                return Some(v);
            }
            self.next_token();
            match self.parse_expression(LOWEST) {
                Some(e) => {
                    v.push(e);
                },
                None => {
                    return None;
                },
            }
            self.skip_comma();
            proof {
                let (e, k) = parse_expr(toks, q + 1, 0)->0;
                assert(v@.drop_last() =~= before);
                assert(exprs_view(v@) =~= exprs_view(before).push(e));
                let k1 = 1 + k + if tok(toks, q + 1 + k + 1) is Comma { 1nat } else { 0nat };
                match parse_list(toks, q + k1, close) {
                    Some((es, k2)) => {
                        assert(exprs_view(before) + (seq![e] + es) =~= exprs_view(v@) + es);
                    },
                    None => {},
                }
            }
        }
    }

    /// Moves past a `,` that follows the current token, if there is one.
    fn skip_comma(&mut self)
        requires
            old(self).wf(),
        ensures
            final(self).wf(),
            final(self).toks() == old(self).toks(),
            final(self).position() == old(self).position() + if tok(old(self).toks(), old(self).position() + 1) is Comma { 1int } else { 0int },
            old(self).position() < old(self).toks().len() ==> final(self).position() < final(self).toks().len(),
    {
        if matches!(self.peek(), Token::Comma) {
            self.next_token();
        }
    }

    /// `KEY : VALUE` pairs, each followed by an optional `,`, up to `}`; the
    /// current token is the `{`.
    #[verifier::rlimit(60)]
    fn parse_hash(&mut self) -> (r: Option<Vec<(Expression, Expression)>>)
        requires
            old(self).wf(),
        ensures
            final(self).wf(),
            final(self).toks() == old(self).toks(),
            match parse_hash_items(old(self).toks(), old(self).position()) {
                Some((ps, k)) => r is Some && pairs_view(r->0@) == ps
                    && final(self).position() == old(self).position() + k
                    && final(self).position() < final(self).toks().len(),
                None => r is None,
            },
        decreases left_from(old(self).toks(), old(self).position()), 2nat,
    {
        let ghost toks = self.toks();
        let ghost q0 = self.position();
        let mut v: Vec<(Expression, Expression)> = Vec::new();
        loop
            invariant
                self.wf(),
                self.toks() == toks,
                old(self).toks() == toks,
                old(self).wf(),
                old(self).position() == q0,
                q0 <= self.position(),
                0 <= q0 < toks.len() || self.position() == q0,
                parse_hash_items(toks, q0) == match parse_hash_items(toks, self.position()) {
                    Some((ps, k)) => Some((pairs_view(v@) + ps, (self.position() - q0 + k) as nat)),
                    None => None,
                },
            decreases left_from(toks, self.position()),
        {
            if matches!(self.cur(), Token::Eof) {
                return None;
            }
            let ghost before = v@;
            let ghost q = self.position();
            if matches!(self.peek(), Token::Rbrace) {
                self.next_token();
                assert(pairs_view(v@) + Seq::<(SExpr, SExpr)>::empty() =~= pairs_view(v@));
                return Some(v);
            }
            self.next_token();
            let key = match self.parse_expression(LOWEST) {
                Some(e) => e,
                None => {
                    return None;
                },
            };
            if !matches!(self.peek(), Token::Colon) {
                return None;
            }
            self.next_token();
            self.next_token();
            let val = match self.parse_expression(LOWEST) {
                Some(e) => e,
                None => {
                    return None;
                },
            };
            v.push((key, val));
            self.skip_comma();
            proof {
                let (ke, k) = parse_expr(toks, q + 1, 0)->0;
                let (ve, kv) = parse_expr(toks, q + k + 3, 0)->0;
                assert(v@.drop_last() =~= before);
                assert(pairs_view(v@) =~= pairs_view(before).push((ke, ve)));
                let k1 = k + 3 + kv + if tok(toks, q + k + 3 + kv + 1) is Comma { 1nat } else { 0nat };
                match parse_hash_items(toks, q + k1) {
                    Some((ps, k2)) => {
                        assert(pairs_view(before) + (seq![(ke, ve)] + ps) =~= pairs_view(v@) + ps);
                    },
                    None => {},
                }
            }
        }
    }

    /// `if (COND) STMT [else STMT]`; the current token is the `if`.
    #[verifier::rlimit(50)]
    fn parse_cond(&mut self) -> (r: Option<Expression>)
        requires
            old(self).wf(),
        ensures
            final(self).wf(),
            final(self).toks() == old(self).toks(),
            expr_result(r, parse_cond(old(self).toks(), old(self).position()), old(self).position(), final(self).position(), final(self).toks().len() as int),
        decreases left_from(old(self).toks(), old(self).position()), 4nat,
    {
        if matches!(self.cur(), Token::Eof) || !matches!(self.peek(), Token::Lparen) {
            return None;
        }
        self.next_token();
        self.next_token();
        let cond = match self.parse_expression(LOWEST) {
            Some(e) => e,
            None => {
                return None;
            },
        };
        if !matches!(self.peek(), Token::Rparen) {
            return None;
        }
        self.next_token();
        self.next_token();
        let if_st = match self.parse_statement() {
            Some(s) => s,
            None => {
                return None;
            },
        };
        let else_st = if matches!(self.peek(), Token::Else) {
            self.next_token();
            self.next_token();
            match self.parse_statement() {
                Some(s) => s,
                None => {
                    return None;
                },
            }
        } else {
            let empty = Statement::BlockStatement(Vec::new());
            assert(empty@ == SStmt::Block(Seq::empty())) by {
                assert(stmts_view(Seq::<Statement>::empty()) =~= Seq::<SStmt>::empty());
            }
            empty
        };
        Some(Expression::If(Box::new(cond), Box::new(if_st), Box::new(else_st)))
    }

    /// Parameter names, each followed by an optional `,`, up to `)`; the
    /// current token is the `(`.
    fn parse_params(&mut self) -> (r: Option<Vec<String>>)
        requires
            old(self).wf(),
        ensures
            final(self).wf(),
            final(self).toks() == old(self).toks(),
            match parse_params(old(self).toks(), old(self).position()) {
                Some((ns, k)) => r is Some && strings_view(r->0@) == ns
                    && final(self).position() == old(self).position() + k
                    && final(self).position() < final(self).toks().len(),
                None => r is None,
            },
    {
        let ghost toks = self.toks();
        let ghost q0 = self.position();
        let mut v: Vec<String> = Vec::new();
        loop
            invariant
                self.wf(),
                self.toks() == toks,
                old(self).toks() == toks,
                old(self).wf(),
                old(self).position() == q0,
                q0 <= self.position(),
                parse_params(toks, q0) == match parse_params(toks, self.position()) {
                    Some((ns, k)) => Some((strings_view(v@) + ns, (self.position() - q0 + k) as nat)),
                    None => None,
                },
            decreases left_from(toks, self.position()),
        {
            if matches!(self.cur(), Token::Eof) {
                return None;
            }
            let ghost before = v@;
            let ghost q = self.position();
            if matches!(self.peek(), Token::Rparen) {
                self.next_token();
                assert(strings_view(v@) + Seq::<Seq<char>>::empty() =~= strings_view(v@));
                return Some(v);
            }
            self.next_token();
            match self.cur() {
                Token::Ident(s) => {
                    v.push(s.clone());
                },
                _ => {
                    return None;
                },
            }
            self.skip_comma();
            proof {
                let n = tok(toks, q + 1)->Ident_0;
                assert(strings_view(v@) =~= strings_view(before).push(n));
                let k1: nat = if tok(toks, q + 2) is Comma { 2 } else { 1 };
                match parse_params(toks, q + k1) {
                    Some((ns, k2)) => {
                        assert(strings_view(before) + (seq![n] + ns) =~= strings_view(v@) + ns);
                    },
                    None => {},
                }
            }
        }
    }

    /// `fn (PARAM, ...) STMT`; the current token is the `fn`.
    fn parse_fn(&mut self) -> (r: Option<Expression>)
        requires
            old(self).wf(),
        ensures
            final(self).wf(),
            final(self).toks() == old(self).toks(),
            expr_result(r, parse_fn(old(self).toks(), old(self).position()), old(self).position(), final(self).position(), final(self).toks().len() as int),
        decreases left_from(old(self).toks(), old(self).position()), 4nat,
    {
        if matches!(self.cur(), Token::Eof) || !matches!(self.peek(), Token::Lparen) {
            return None;
        }
        self.next_token();
        let params = match self.parse_params() {
            Some(v) => v,
            None => {
                return None;
            },
        };
        self.next_token();
        match self.parse_statement() {
            Some(body) => Some(Expression::FnDecl(params, Box::new(body))),
            None => None,
        }
    }
}

/// The binding power of a token that follows an operand.
fn precedence(t: &Token) -> (r: u8)
    ensures
        r as nat == prec_of(t@),
{
    match t {
        Token::Eq | Token::Ne => 2 - 1,
        Token::Lt | Token::Gt => 2,
        Token::Plus | Token::Minus => 3,
        Token::Mul | Token::Div => 4,
        Token::Lparen | Token::Lbracket => 6,
        _ => LOWEST,
    }
}

} // verus!
