use vstd::prelude::*;

verus! {

/// An expression of the language, as the parser builds it.
#[derive(Debug, PartialEq)]
pub enum Expression {
    Int(i32),
    Plus(Box<Expression>, Box<Expression>),
    Minus(Box<Expression>, Box<Expression>),
    Div(Box<Expression>, Box<Expression>),
    Mul(Box<Expression>, Box<Expression>),
    Eq(Box<Expression>, Box<Expression>),
    Ne(Box<Expression>, Box<Expression>),
    Lt(Box<Expression>, Box<Expression>),
    Gt(Box<Expression>, Box<Expression>),
    Ident(String),
    Neg(Box<Expression>),
    Not(Box<Expression>),
    True,
    False,
    If(Box<Expression>, Box<Statement>, Box<Statement>),
    FnDecl(Vec<String>, Box<Statement>),
    Call(Box<Expression>, Vec<Expression>),
    String(String),
    Array(Vec<Expression>),
    Index(Box<Expression>, Box<Expression>),
    Hash(Vec<(Expression, Expression)>),
}

/// A statement of the language.
#[derive(Debug, PartialEq)]
pub enum Statement {
    Let(String, Expression),
    Ret(Expression),
    BlockStatement(Vec<Statement>),
    ExprStatement(Expression),
}

/// The binary operators, as the model groups them.
#[derive(PartialEq, Eq, Structural, Clone, Copy, Debug)]
pub enum BinOp {
    Plus,
    Minus,
    Div,
    Mul,
    Eq,
    Ne,
    Lt,
    Gt,
}

/// The unary operators.
#[derive(PartialEq, Eq, Structural, Clone, Copy, Debug)]
pub enum UnOp {
    Neg,
    Not,
}

/// Mathematical model of an expression: strings are character sequences,
/// child lists are sequences.
pub ghost enum SExpr {
    Int(i32),
    Bin(BinOp, Box<SExpr>, Box<SExpr>),
    Un(UnOp, Box<SExpr>),
    Ident(Seq<char>),
    Bool(bool),
    If(Box<SExpr>, Box<SStmt>, Box<SStmt>),
    FnDecl(Seq<Seq<char>>, Box<SStmt>),
    Call(Box<SExpr>, Seq<SExpr>),
    Str(Seq<char>),
    Array(Seq<SExpr>),
    Index(Box<SExpr>, Box<SExpr>),
    Hash(Seq<(SExpr, SExpr)>),
}

/// Mathematical model of a statement.
pub ghost enum SStmt {
    Let(Seq<char>, SExpr),
    Ret(SExpr),
    Block(Seq<SStmt>),
    Expr(SExpr),
}

pub open spec fn strings_view(v: Seq<String>) -> Seq<Seq<char>> {
    v.map_values(|s: String| s@)
}

pub open spec fn expr_view(e: Expression) -> SExpr
    decreases e,
{
    match e {
        Expression::Int(i) => SExpr::Int(i),
        Expression::Plus(l, r) => SExpr::Bin(BinOp::Plus, Box::new(expr_view(*l)), Box::new(expr_view(*r))),
        Expression::Minus(l, r) => SExpr::Bin(BinOp::Minus, Box::new(expr_view(*l)), Box::new(expr_view(*r))),
        Expression::Div(l, r) => SExpr::Bin(BinOp::Div, Box::new(expr_view(*l)), Box::new(expr_view(*r))),
        Expression::Mul(l, r) => SExpr::Bin(BinOp::Mul, Box::new(expr_view(*l)), Box::new(expr_view(*r))),
        Expression::Eq(l, r) => SExpr::Bin(BinOp::Eq, Box::new(expr_view(*l)), Box::new(expr_view(*r))),
        Expression::Ne(l, r) => SExpr::Bin(BinOp::Ne, Box::new(expr_view(*l)), Box::new(expr_view(*r))),
        Expression::Lt(l, r) => SExpr::Bin(BinOp::Lt, Box::new(expr_view(*l)), Box::new(expr_view(*r))),
        Expression::Gt(l, r) => SExpr::Bin(BinOp::Gt, Box::new(expr_view(*l)), Box::new(expr_view(*r))),
        Expression::Ident(s) => SExpr::Ident(s@),
        Expression::Neg(x) => SExpr::Un(UnOp::Neg, Box::new(expr_view(*x))),
        Expression::Not(x) => SExpr::Un(UnOp::Not, Box::new(expr_view(*x))),
        Expression::True => SExpr::Bool(true),
        Expression::False => SExpr::Bool(false),
        Expression::If(c, t, f) => SExpr::If(Box::new(expr_view(*c)), Box::new(stmt_view(*t)), Box::new(stmt_view(*f))),
        Expression::FnDecl(ps, body) => SExpr::FnDecl(strings_view(ps@), Box::new(stmt_view(*body))),
        Expression::Call(f, args) => SExpr::Call(Box::new(expr_view(*f)), exprs_view(args@)),
        Expression::String(s) => SExpr::Str(s@),
        Expression::Array(es) => SExpr::Array(exprs_view(es@)),
        Expression::Index(a, i) => SExpr::Index(Box::new(expr_view(*a)), Box::new(expr_view(*i))),
        Expression::Hash(ps) => SExpr::Hash(pairs_view(ps@)),
    }
}

pub open spec fn exprs_view(es: Seq<Expression>) -> Seq<SExpr>
    decreases es,
{
    if es.len() == 0 {
        Seq::empty()
    } else {
        exprs_view(es.drop_last()).push(expr_view(es.last()))
    }
}

pub open spec fn pairs_view(ps: Seq<(Expression, Expression)>) -> Seq<(SExpr, SExpr)>
    decreases ps,
{
    if ps.len() == 0 {
        Seq::empty()
    } else {
        pairs_view(ps.drop_last()).push((expr_view(ps.last().0), expr_view(ps.last().1)))
    }
}

pub open spec fn stmt_view(s: Statement) -> SStmt
    decreases s,
{
    match s {
        Statement::Let(n, e) => SStmt::Let(n@, expr_view(e)),
        Statement::Ret(e) => SStmt::Ret(expr_view(e)),
        Statement::BlockStatement(ss) => SStmt::Block(stmts_view(ss@)),
        Statement::ExprStatement(e) => SStmt::Expr(expr_view(e)),
    }
}

pub open spec fn stmts_view(ss: Seq<Statement>) -> Seq<SStmt>
    decreases ss,
{
    if ss.len() == 0 {
        Seq::empty()
    } else {
        stmts_view(ss.drop_last()).push(stmt_view(ss.last()))
    }
}

impl View for Expression {
    type V = SExpr;

    open spec fn view(&self) -> SExpr {
        expr_view(*self)
    }
}

impl View for Statement {
    type V = SStmt;

    open spec fn view(&self) -> SStmt {
        stmt_view(*self)
    }
}

/// A parsed program: its top-level statements in order.
#[derive(Debug)]
pub struct Program {
    statements: Vec<Box<Statement>>,
}

pub open spec fn boxed_view(ss: Seq<Box<Statement>>) -> Seq<SStmt> {
    ss.map_values(|s: Box<Statement>| stmt_view(*s))
}

impl View for Program {
    type V = Seq<SStmt>;

    closed spec fn view(&self) -> Seq<SStmt> {
        boxed_view(self.statements@)
    }
}

impl Program {
    /// A program without statements.
    pub fn new() -> (p: Program)
        ensures
            p@ == Seq::<SStmt>::empty(),
    {
        let p = Program { statements: Vec::new() };
        assert(p@ =~= Seq::<SStmt>::empty());
        p
    }

    /// Appends a statement.
    pub fn push(&mut self, statement: Statement)
        ensures
            final(self)@ == old(self)@.push(statement@),
    {
        self.statements.push(Box::new(statement));
        assert(self@ =~= old(self)@.push(statement@));
    }

    /// The statements, in order.
    pub fn statements(&self) -> (r: &Vec<Box<Statement>>)
        ensures
            boxed_view(r@) == self@,
    {
        &self.statements
    }
}

impl Expression {
    /// A copy of the expression.
    pub fn duplicate(&self) -> (r: Expression)
        ensures
            r@ == self@,
        decreases self,
    {
        match self {
            Expression::Int(i) => Expression::Int(*i),
            Expression::Plus(l, r) => Expression::Plus(Box::new(l.duplicate()), Box::new(r.duplicate())),
            Expression::Minus(l, r) => Expression::Minus(Box::new(l.duplicate()), Box::new(r.duplicate())),
            Expression::Div(l, r) => Expression::Div(Box::new(l.duplicate()), Box::new(r.duplicate())),
            Expression::Mul(l, r) => Expression::Mul(Box::new(l.duplicate()), Box::new(r.duplicate())),
            Expression::Eq(l, r) => Expression::Eq(Box::new(l.duplicate()), Box::new(r.duplicate())),
            Expression::Ne(l, r) => Expression::Ne(Box::new(l.duplicate()), Box::new(r.duplicate())),
            Expression::Lt(l, r) => Expression::Lt(Box::new(l.duplicate()), Box::new(r.duplicate())),
            Expression::Gt(l, r) => Expression::Gt(Box::new(l.duplicate()), Box::new(r.duplicate())),
            Expression::Ident(s) => Expression::Ident(s.clone()),
            Expression::Neg(x) => Expression::Neg(Box::new(x.duplicate())),
            Expression::Not(x) => Expression::Not(Box::new(x.duplicate())),
            Expression::True => Expression::True,
            Expression::False => Expression::False,
            Expression::If(c, t, f) => Expression::If(
                Box::new(c.duplicate()),
                Box::new(t.duplicate()),
                Box::new(f.duplicate()),
            ),
            Expression::FnDecl(ps, body) => Expression::FnDecl(copy_names(ps), Box::new(body.duplicate())),
            Expression::Call(f, args) => {
                let g = f.duplicate();
                let mut out: Vec<Expression> = Vec::new();
                let mut i: usize = 0;
                while i < args.len()
                    invariant
                        *self == Expression::Call(*f, *args),
                        i <= args.len(),
                        exprs_view(out@) == exprs_view(args@.subrange(0, i as int)),
                    decreases args.len() - i,
                {
                    proof {
                        vstd::std_specs::vec::axiom_vec_index_decreases(*args, i as int);
                        assert(decreases_to!(*self => (*self)->Call_1));
                    }
                    let ghost before = out@;
                    out.push(args[i].duplicate());
                    proof {
                        assert(out@.drop_last() =~= before);
                        assert(args@.subrange(0, i + 1).drop_last() =~= args@.subrange(0, i as int));
                    }
                    i = i + 1;
                }
                assert(args@.subrange(0, args.len() as int) =~= args@);
                Expression::Call(Box::new(g), out)
            },
            Expression::String(s) => Expression::String(s.clone()),
            Expression::Array(es) => {
                let mut out: Vec<Expression> = Vec::new();
                let mut i: usize = 0;
                while i < es.len()
                    invariant
                        *self == Expression::Array(*es),
                        i <= es.len(),
                        exprs_view(out@) == exprs_view(es@.subrange(0, i as int)),
                    decreases es.len() - i,
                {
                    proof {
                        vstd::std_specs::vec::axiom_vec_index_decreases(*es, i as int);
                        assert(decreases_to!(*self => (*self)->Array_0));
                    }
                    let ghost before = out@;
                    out.push(es[i].duplicate());
                    proof {
                        assert(out@.drop_last() =~= before);
                        assert(es@.subrange(0, i + 1).drop_last() =~= es@.subrange(0, i as int));
                    }
                    i = i + 1;
                }
                assert(es@.subrange(0, es.len() as int) =~= es@);
                Expression::Array(out)
            },
            Expression::Index(a, i) => Expression::Index(Box::new(a.duplicate()), Box::new(i.duplicate())),
            Expression::Hash(ps) => {
                let mut out: Vec<(Expression, Expression)> = Vec::new();
                let mut i: usize = 0;
                while i < ps.len()
                    invariant
                        *self == Expression::Hash(*ps),
                        i <= ps.len(),
                        pairs_view(out@) == pairs_view(ps@.subrange(0, i as int)),
                    decreases ps.len() - i,
                {
                    proof {
                        vstd::std_specs::vec::axiom_vec_index_decreases(*ps, i as int);
                        assert(decreases_to!(*self => (*self)->Hash_0));
                        assert(decreases_to!(ps[i as int] => ps[i as int].0));
                        assert(decreases_to!(ps[i as int] => ps[i as int].1));
                    }
                    let ghost before = out@;
                    out.push((ps[i].0.duplicate(), ps[i].1.duplicate()));
                    proof {
                        assert(out@.drop_last() =~= before);
                        assert(ps@.subrange(0, i + 1).drop_last() =~= ps@.subrange(0, i as int));
                    }
                    i = i + 1;
                }
                assert(ps@.subrange(0, ps.len() as int) =~= ps@);
                Expression::Hash(out)
            },
        }
    }
}

impl Statement {
    /// A copy of the statement.
    pub fn duplicate(&self) -> (r: Statement)
        ensures
            r@ == self@,
        decreases self,
    {
        match self {
            Statement::Let(n, e) => Statement::Let(n.clone(), e.duplicate()),
            Statement::Ret(e) => Statement::Ret(e.duplicate()),
            Statement::BlockStatement(ss) => {
                let mut out: Vec<Statement> = Vec::new();
                let mut i: usize = 0;
                while i < ss.len()
                    invariant
                        *self == Statement::BlockStatement(*ss),
                        i <= ss.len(),
                        stmts_view(out@) == stmts_view(ss@.subrange(0, i as int)),
                    decreases ss.len() - i,
                {
                    proof {
                        vstd::std_specs::vec::axiom_vec_index_decreases(*ss, i as int);
                        assert(decreases_to!(*self => (*self)->BlockStatement_0));
                    }
                    let ghost before = out@;
                    out.push(ss[i].duplicate());
                    proof {
                        assert(out@.drop_last() =~= before);
                        assert(ss@.subrange(0, i + 1).drop_last() =~= ss@.subrange(0, i as int));
                    }
                    i = i + 1;
                }
                assert(ss@.subrange(0, ss.len() as int) =~= ss@);
                Statement::BlockStatement(out)
            },
            Statement::ExprStatement(e) => Statement::ExprStatement(e.duplicate()),
        }
    }
}

/// A copy of a list of names.
pub fn copy_names(ns: &Vec<String>) -> (r: Vec<String>)
    ensures
        strings_view(r@) == strings_view(ns@),
{
    let mut out: Vec<String> = Vec::new();
    let mut i: usize = 0;
    while i < ns.len()
        invariant
            i <= ns.len(),
            out@.len() == i,
            forall|j: int| 0 <= j < i ==> #[trigger] out@[j]@ == ns@[j]@,
        decreases ns.len() - i,
    {
        out.push(ns[i].clone());
        i = i + 1;
    }
    assert(strings_view(out@) =~= strings_view(ns@));
    out
}

pub proof fn lemma_exprs_view(es: Seq<Expression>)
    ensures
        exprs_view(es).len() == es.len(),
        forall|i: int| 0 <= i < es.len() ==> #[trigger] exprs_view(es)[i] == expr_view(es[i]),
    decreases es.len(),
{
    if es.len() > 0 {
        lemma_exprs_view(es.drop_last());
    }
}

pub proof fn lemma_pairs_view(ps: Seq<(Expression, Expression)>)
    ensures
        pairs_view(ps).len() == ps.len(),
        forall|i: int| 0 <= i < ps.len() ==> #[trigger] pairs_view(ps)[i] == (expr_view(ps[i].0), expr_view(ps[i].1)),
    decreases ps.len(),
{
    if ps.len() > 0 {
        lemma_pairs_view(ps.drop_last());
    }
}

pub proof fn lemma_stmts_view(ss: Seq<Statement>)
    ensures
        stmts_view(ss).len() == ss.len(),
        forall|i: int| 0 <= i < ss.len() ==> #[trigger] stmts_view(ss)[i] == stmt_view(ss[i]),
    decreases ss.len(),
{
    if ss.len() > 0 {
        lemma_stmts_view(ss.drop_last());
    }
}

pub proof fn lemma_boxed_view(ss: Seq<Box<Statement>>)
    ensures
        boxed_view(ss).len() == ss.len(),
        forall|i: int| 0 <= i < ss.len() ==> #[trigger] boxed_view(ss)[i] == stmt_view(*ss[i]),
{
}

} // verus!
