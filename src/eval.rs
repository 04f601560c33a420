use vstd::prelude::*;
use vstd::string::StringExecFns;
use crate::ast::{
    BinOp, Expression, Program, SExpr, SStmt, Statement, UnOp, boxed_view, copy_names, exprs_view,
    lemma_boxed_view, lemma_exprs_view, lemma_pairs_view, lemma_stmts_view, pairs_view, stmts_view,
    strings_view,
};
use crate::lexer::{Lexer, full_stream};
use crate::parser::{Parser, parse_tokens};
use crate::value::{
    Builtin, SValue, Table, Value, bind, copy_entries, entries_view, get_entry, lemma_values_view,
    lookup, printed, set_entry, unique_names, unret, values_view,
};

verus! {

/// A fatal condition that aborts an evaluation: the program does not parse,
/// an integer is divided by zero, an integer result does not fit an `i32`,
/// or calls nest deeper than the evaluator allows.
#[derive(Debug, PartialEq, Eq, Structural, Clone, Copy)]
pub enum Fault {
    Syntax,
    DivisionByZero,
    Overflow,
    StackExhausted,
}

/// How deeply calls of functions of the language nest by default. The
/// bound stands in for the exhaustion of the host's call stack, which is
/// fatal: 200 nested calls fit the 2 MiB stack of a spawned thread. A caller
/// that runs on a larger stack passes its own bound to `eval_with_depth`.
pub const MAX_DEPTH: u64 = 200;

/// What evaluating a construct yields: its result, the table of bindings
/// after it, and the text that it emitted; or the fault that aborted it.
pub type Outcome<T> = Result<(T, Table, Seq<char>), Fault>;

pub open spec fn value_or_null(v: Option<SValue>) -> SValue {
    match v {
        Some(x) => x,
        None => SValue::Null,
    }
}

pub open spec fn checked(x: int) -> Result<SValue, Fault> {
    if i32::MIN <= x <= i32::MAX {
        Ok(SValue::Int(x as i32))
    } else {
        Err(Fault::Overflow)
    }
}

pub open spec fn abs(a: int) -> nat {
    if a < 0 { (-a) as nat } else { a as nat }
}

/// Integer division rounding toward zero.
pub open spec fn trunc_div(a: int, b: int) -> int {
    let q = (abs(a) / abs(b)) as int;
    if (a < 0) != (b < 0) { -q } else { q }
}

/// A binary operator applied to two integers.
pub open spec fn arith(op: BinOp, a: int, b: int) -> Result<SValue, Fault> {
    match op {
        BinOp::Plus => checked(a + b),
        BinOp::Minus => checked(a - b),
        BinOp::Mul => checked(a * b),
        BinOp::Div => if b == 0 { Err(Fault::DivisionByZero) } else { checked(trunc_div(a, b)) },
        BinOp::Eq => Ok(SValue::Bool(a == b)),
        BinOp::Ne => Ok(SValue::Bool(a != b)),
        BinOp::Lt => Ok(SValue::Bool(a < b)),
        BinOp::Gt => Ok(SValue::Bool(a > b)),
    }
}

/// A binary operator applied to two values: `+` joins two arrays, and joins
/// a string with the printed form of the other operand; otherwise both
/// operands must be integers, and anything else gives `Null`.
pub open spec fn binary_value(op: BinOp, l: SValue, r: SValue) -> Result<SValue, Fault> {
    if op == BinOp::Plus && l is Array && r is Array {
        Ok(SValue::Array(l->Array_0 + r->Array_0))
    } else if op == BinOp::Plus && l is Str {
        Ok(SValue::Str(l->Str_0 + printed(r)))
    } else if op == BinOp::Plus && r is Str {
        Ok(SValue::Str(printed(l) + r->Str_0))
    } else if l is Int && r is Int {
        arith(op, l->Int_0 as int, r->Int_0 as int)
    } else {
        Ok(SValue::Null)
    }
}

/// `-` needs an integer and `!` a boolean; anything else gives `Null`.
pub open spec fn unary_value(op: UnOp, v: SValue) -> Result<SValue, Fault> {
    match (op, v) {
        (UnOp::Neg, SValue::Int(i)) => checked(-(i as int)),
        (UnOp::Not, SValue::Bool(b)) => Ok(SValue::Bool(!b)),
        _ => Ok(SValue::Null),
    }
}

/// Indexing: an array by an integer in range, a hash by the printed form of
/// any value; anything else gives `Null`.
pub open spec fn index_value(a: SValue, i: SValue) -> SValue {
    match (a, i) {
        (SValue::Array(vs), SValue::Int(n)) => if 0 <= n < vs.len() { vs[n as int] } else { SValue::Null },
        (SValue::Hash(es), k) => value_or_null(lookup(es, printed(k))),
        _ => SValue::Null,
    }
}

/// The number of bytes of the UTF-8 encoding of a text.
pub open spec fn utf8_len(s: Seq<char>) -> usize {
    vstd::utf8::encode_utf8(s).len() as usize
}

/// The printed forms of values, each followed by a newline when `nl`.
pub open spec fn printed_all(vs: Seq<SValue>, nl: bool) -> Seq<char>
    decreases vs.len(),
{
    if vs.len() == 0 {
        Seq::empty()
    } else {
        printed_all(vs.drop_last(), nl) + printed(vs.last()) + if nl { "\n"@ } else { Seq::empty() }
    }
}

/// What a native function returns for its arguments, and the text it emits.
pub open spec fn builtin_value(b: Builtin, args: Seq<SValue>) -> (SValue, Seq<char>) {
    match b {
        Builtin::Len => (
            if args.len() == 0 {
                SValue::Null
            } else {
                match args[0] {
                    SValue::Str(s) => SValue::Int(utf8_len(s) as i32),
                    SValue::Array(a) => SValue::Int(a.len() as i32),
                    _ => SValue::Null,
                }
            },
            Seq::empty(),
        ),
        Builtin::Print => (SValue::Null, printed_all(args, false)),
        Builtin::Println => (SValue::Null, printed_all(args, true)),
        Builtin::Insert => (
            if args.len() == 3 && args[0] is Hash {
                SValue::Hash(bind(args[0]->Hash_0, printed(args[1]), args[2]))
            } else {
                SValue::Null
            },
            Seq::empty(),
        ),
    }
}

/// Binds the first `vs.len()` parameter names to the values, in order.
pub open spec fn bind_all(env: Table, ps: Seq<Seq<char>>, vs: Seq<SValue>) -> Table
    decreases vs.len(),
{
    if vs.len() == 0 {
        env
    } else {
        bind(bind_all(env, ps, vs.drop_last()), ps[vs.len() - 1], vs.last())
    }
}

/// Evaluation of an expression against a table, with `fuel` calls of
/// language functions left to nest.
pub open spec fn eval_expr(e: SExpr, env: Table, fuel: nat) -> Outcome<SValue>
    decreases fuel, e, 0nat,
{
    match e {
        SExpr::Int(i) => Ok((SValue::Int(i), env, Seq::empty())),
        SExpr::Bool(b) => Ok((SValue::Bool(b), env, Seq::empty())),
        SExpr::Str(s) => Ok((SValue::Str(s), env, Seq::empty())),
        SExpr::Ident(n) => Ok((value_or_null(lookup(env, n)), env, Seq::empty())),
        SExpr::FnDecl(ps, body) => Ok((SValue::FnDecl(ps, *body), env, Seq::empty())),
        SExpr::Un(op, x) => match eval_expr(*x, env, fuel) {
            Ok((v, env1, o)) => match unary_value(op, v) {
                Ok(r) => Ok((r, env1, o)),
                Err(f) => Err(f),
            },
            Err(f) => Err(f),
        },
        SExpr::Bin(op, l, r) => match eval_expr(*l, env, fuel) {
            Ok((lv, env1, o1)) => match eval_expr(*r, env1, fuel) {
                Ok((rv, env2, o2)) => match binary_value(op, lv, rv) {
                    Ok(v) => Ok((v, env2, o1 + o2)),
                    Err(f) => Err(f),
                },
                Err(f) => Err(f),
            },
            Err(f) => Err(f),
        },
        SExpr::If(c, t, f) => match eval_expr(*c, env, fuel) {
            Ok((cv, env1, o1)) => match cv {
                SValue::Bool(b) => match eval_stmt(if b { *t } else { *f }, env1, fuel) {
                    Ok((sv, env2, o2)) => Ok((value_or_null(sv), env2, o1 + o2)),
                    Err(x) => Err(x),
                },
                _ => Ok((SValue::Null, env1, o1)),
            },
            Err(x) => Err(x),
        },
        SExpr::Array(es) => match eval_args(es, 0, es.len() as int, env, fuel) {
            Ok((vs, env1, o)) => Ok((SValue::Array(vs), env1, o)),
            Err(f) => Err(f),
        },
        SExpr::Index(a, i) => match eval_expr(*a, env, fuel) {
            Ok((av, env1, o1)) => match eval_expr(*i, env1, fuel) {
                Ok((iv, env2, o2)) => Ok((index_value(av, iv), env2, o1 + o2)),
                Err(f) => Err(f),
            },
            Err(f) => Err(f),
        },
        SExpr::Hash(ps) => match eval_pairs(ps, 0, Seq::empty(), env, fuel) {
            Ok((h, env1, o)) => Ok((SValue::Hash(h), env1, o)),
            Err(f) => Err(f),
        },
        SExpr::Call(f, args) => match eval_expr(*f, env, fuel) {
            Ok((fv, env1, o1)) => match fv {
                SValue::FnDecl(ps, body) => {
                    let n = if args.len() < ps.len() { args.len() } else { ps.len() };
                    match eval_args(args, 0, n as int, env1, fuel) {
                        Ok((vs, env2, o2)) => if fuel == 0 {
                            Err(Fault::StackExhausted)
                        } else {
                            match eval_stmt(body, bind_all(env1, ps, vs), (fuel - 1) as nat) {
                                Ok((rv, _, o3)) => Ok((unret(value_or_null(rv)), env2, o1 + o2 + o3)),
                                Err(x) => Err(x),
                            }
                        },
                        Err(x) => Err(x),
                    }
                },
                SValue::FnBuiltin(_, b) => match eval_args(args, 0, args.len() as int, env1, fuel) {
                    Ok((vs, env2, o2)) => Ok((builtin_value(b, vs).0, env2, o1 + o2 + builtin_value(b, vs).1)),
                    Err(x) => Err(x),
                },
                _ => Ok((SValue::Null, env1, o1)),
            },
            Err(x) => Err(x),
        },
    }
}

/// Evaluation of the expressions `es[i..n]` in order.
pub open spec fn eval_args(es: Seq<SExpr>, i: int, n: int, env: Table, fuel: nat) -> Outcome<Seq<SValue>>
    decreases fuel, es, n - i,
{
    if 0 <= i < n && n <= es.len() {
        match eval_expr(es[i], env, fuel) {
            Ok((v, env1, o1)) => match eval_args(es, i + 1, n, env1, fuel) {
                Ok((vs, env2, o2)) => Ok((seq![v] + vs, env2, o1 + o2)),
                Err(f) => Err(f),
            },
            Err(f) => Err(f),
        }
    } else {
        Ok((Seq::empty(), env, Seq::empty()))
    }
}

/// Evaluation of the `key: value` pairs `ps[i..]` in order, each setting the
/// printed form of its key in the hash `acc`.
pub open spec fn eval_pairs(ps: Seq<(SExpr, SExpr)>, i: int, acc: Table, env: Table, fuel: nat) -> Outcome<Table>
    decreases fuel, ps, ps.len() - i,
{
    if 0 <= i < ps.len() {
        match eval_expr(ps[i].0, env, fuel) {
            Ok((k, env1, o1)) => match eval_expr(ps[i].1, env1, fuel) {
                Ok((v, env2, o2)) => match eval_pairs(ps, i + 1, bind(acc, printed(k), v), env2, fuel) {
                    Ok((h, env3, o3)) => Ok((h, env3, o1 + o2 + o3)),
                    Err(f) => Err(f),
                },
                Err(f) => Err(f),
            },
            Err(f) => Err(f),
        }
    } else {
        Ok((acc, env, Seq::empty()))
    }
}

/// Evaluation of a statement: `let` binds and yields no value, `return`
/// wraps its value as a pending return.
pub open spec fn eval_stmt(s: SStmt, env: Table, fuel: nat) -> Outcome<Option<SValue>>
    decreases fuel, s, 0nat,
{
    match s {
        SStmt::Let(n, e) => match eval_expr(e, env, fuel) {
            Ok((v, env1, o)) => Ok((None, bind(env1, n, unret(v)), o)),
            Err(f) => Err(f),
        },
        SStmt::Ret(e) => match eval_expr(e, env, fuel) {
            Ok((v, env1, o)) => Ok((Some(SValue::RetVal(Box::new(unret(v)))), env1, o)),
            Err(f) => Err(f),
        },
        SStmt::Block(ss) => eval_block(ss, 0, env, fuel),
        SStmt::Expr(e) => match eval_expr(e, env, fuel) {
            Ok((v, env1, o)) => Ok((Some(v), env1, o)),
            Err(f) => Err(f),
        },
    }
}

/// Whether a statement's result is a pending return.
pub open spec fn is_return(v: Option<SValue>) -> bool {
    v is Some && v->0 is RetVal
}

/// Evaluation of the statements `ss[i..]` of a block: the last result, or
/// the first pending return, which stops the block.
pub open spec fn eval_block(ss: Seq<SStmt>, i: int, env: Table, fuel: nat) -> Outcome<Option<SValue>>
    decreases fuel, ss, ss.len() - i,
{
    if 0 <= i < ss.len() {
        match eval_stmt(ss[i], env, fuel) {
            Ok((v, env1, o1)) => if is_return(v) || i + 1 == ss.len() {
                Ok((v, env1, o1))
            } else {
                match eval_block(ss, i + 1, env1, fuel) {
                    Ok((v2, env2, o2)) => Ok((v2, env2, o1 + o2)),
                    Err(f) => Err(f),
                }
            },
            Err(f) => Err(f),
        }
    } else {
        Ok((None, env, Seq::empty()))
    }
}

/// Evaluation of the top-level statements `ss[i..]`: the last result, or
/// the first pending return, which stops the program.
pub open spec fn eval_program(ss: Seq<SStmt>, i: int, env: Table, fuel: nat) -> Outcome<Option<SValue>>
    decreases ss.len() - i,
{
    if 0 <= i < ss.len() {
        match eval_stmt(ss[i], env, fuel) {
            Ok((v, env1, o1)) => if is_return(v) || i + 1 == ss.len() {
                Ok((v, env1, o1))
            } else {
                match eval_program(ss, i + 1, env1, fuel) {
                    Ok((v2, env2, o2)) => Ok((v2, env2, o1 + o2)),
                    Err(f) => Err(f),
                }
            },
            Err(f) => Err(f),
        }
    } else {
        Ok((None, env, Seq::empty()))
    }
}

/// Parsing and evaluating a source text against a table of bindings, with
/// calls nesting at most `depth` deep.
pub open spec fn run_with(env: Table, src: Seq<char>, depth: nat) -> Outcome<Option<SValue>> {
    match parse_tokens(full_stream(src, 0)) {
        Some(prog) => eval_program(prog, 0, env, depth),
        None => Err(Fault::Syntax),
    }
}

/// Parsing and evaluating a source text, with the default bound on nesting.
pub open spec fn run(env: Table, src: Seq<char>) -> Outcome<Option<SValue>> {
    run_with(env, src, MAX_DEPTH as nat)
}

/// `r` is the result that the model `m` describes.
pub open spec fn value_result(r: Result<Value, Fault>, m: Result<SValue, Fault>) -> bool {
    match m {
        Ok(v) => r is Ok && r->Ok_0@ == v,
        Err(f) => r is Err && r->Err_0 == f,
    }
}

fn checked_int(x: i64) -> (r: Result<Value, Fault>)
    ensures
        value_result(r, checked(x as int)),
{
    if x < -2147483648 || x > 2147483647 {
        Err(Fault::Overflow)
    } else {
        Ok(Value::Int(x as i32))
    }
}

fn abs_u64(x: i64) -> (r: u64)
    requires
        x > i64::MIN,
    ensures
        r as int == abs(x as int),
{
    if x < 0 {
        (0 - x) as u64
    } else {
        x as u64
    }
}

/// A binary operator applied to two integers.
fn int_op(op: BinOp, a: i32, b: i32) -> (r: Result<Value, Fault>)
    ensures
        value_result(r, arith(op, a as int, b as int)),
{
    let x = a as i64;
    let y = b as i64;
    match op {
        BinOp::Plus => checked_int(x + y),
        BinOp::Minus => checked_int(x - y),
        BinOp::Mul => {
            assert(-0x4000_0000_0000_0000 <= x * y <= 0x4000_0000_0000_0000) by (nonlinear_arith)
                requires
                    -0x8000_0000 <= x <= 0x7fff_ffff,
                    -0x8000_0000 <= y <= 0x7fff_ffff,
            ;
            checked_int(x * y)
        },
        BinOp::Div => {
            if b == 0 {
                Err(Fault::DivisionByZero)
            } else {
                let ax = abs_u64(x);
                let ay = abs_u64(y);
                let q = ax / ay;
                assert(q <= ax) by (nonlinear_arith)
                    requires
                        q == ax / ay,
                        ay >= 1,
                ;
                if (x < 0) != (y < 0) {
                    checked_int(0 - (q as i64))
                } else {
                    checked_int(q as i64)
                }
            }
        },
        BinOp::Eq => Ok(Value::Bool(a == b)),
        BinOp::Ne => Ok(Value::Bool(a != b)),
        BinOp::Lt => Ok(Value::Bool(a < b)),
        BinOp::Gt => Ok(Value::Bool(a > b)),
    }
}

/// A binary operator applied to two values.
pub fn binary_op(op: BinOp, l: Value, r: Value) -> (res: Result<Value, Fault>)
    ensures
        value_result(res, binary_value(op, l@, r@)),
{
    let plus = op == BinOp::Plus;
    match (l, r) {
        (Value::Array(a), Value::Array(b)) if plus => {
            let ghost (av, bv) = (a@, b@);
            let mut a = a;
            let mut b = b;
            a.append(&mut b);
            proof {
                lemma_values_view(av);
                lemma_values_view(bv);
                lemma_values_view(a@);
                assert(values_view(a@) =~= values_view(av) + values_view(bv));
            }
            Ok(Value::Array(a))
        },
        (Value::Str(s), r) if plus => {
            let mut s = s;
            r.write_printed(&mut s);
            Ok(Value::Str(s))
        },
        (l, Value::Str(s)) if plus => {
            let mut t = l.printed();
            t.append(s.as_str());
            Ok(Value::Str(t))
        },
        (Value::Int(a), Value::Int(b)) => int_op(op, a, b),
        _ => Ok(Value::Null),
    }
}

/// A prefix operator applied to a value.
pub fn unary_op(op: UnOp, v: Value) -> (res: Result<Value, Fault>)
    ensures
        value_result(res, unary_value(op, v@)),
{
    match (op, v) {
        (UnOp::Neg, Value::Int(i)) => checked_int(0 - (i as i64)),
        (UnOp::Not, Value::Bool(b)) => Ok(Value::Bool(!b)),
        _ => Ok(Value::Null),
    }
}

/// Indexing a value by another.
pub fn index_op(a: Value, i: Value) -> (r: Value)
    ensures
        r@ == index_value(a@, i@),
{
    match (a, i) {
        (Value::Array(vs), Value::Int(n)) => {
            proof {
                lemma_values_view(vs@);
            }
            if 0 <= n && (n as usize) < vs.len() {
                vs[n as usize].duplicate()
            } else {
                Value::Null
            }
        },
        (Value::Hash(es), k) => get_entry(&es, &k.printed()),
        _ => Value::Null,
    }
}

impl Value {
    /// The value with a pending return unwrapped.
    pub fn unret(self) -> (r: Value)
        ensures
            r@ == unret(self@),
    {
        match self {
            Value::RetVal(x) => *x,
            other => other,
        }
    }
}

/// Calls a native function: appends the text it emits and returns its
/// value.
pub fn call_builtin(b: Builtin, args: Vec<Value>, out: &mut String) -> (r: Value)
    ensures
        r@ == builtin_value(b, values_view(args@)).0,
        final(out)@ == old(out)@ + builtin_value(b, values_view(args@)).1,
{
    proof {
        lemma_values_view(args@);
    }
    match b {
        Builtin::Len => {
            let r = if args.len() == 0 {
                Value::Null
            } else {
                match &args[0] {
                    Value::Str(s) => {
                        let n = s.as_str().len();
                        Value::Int(#[verifier::truncate] (n as i32))
                    },
                    Value::Array(a) => {
                        proof {
                            lemma_values_view(a@);
                        }
                        Value::Int(#[verifier::truncate] (a.len() as i32))
                    },
                    _ => Value::Null,
                }
            };
            assert(out@ =~= old(out)@ + Seq::<char>::empty());
            r
        },
        Builtin::Print | Builtin::Println => {
            let nl = b == Builtin::Println;
            let ghost sv = values_view(args@);
            let mut i: usize = 0;
            while i < args.len()
                invariant
                    i <= args.len(),
                    sv == values_view(args@),
                    sv.len() == args.len(),
                    forall|j: int| 0 <= j < args.len() ==> #[trigger] sv[j] == args@[j]@,
                    out@ == old(out)@ + printed_all(sv.subrange(0, i as int), nl),
                decreases args.len() - i,
            {
                args[i].write_printed(out);
                if nl {
                    out.append("\n");
                }
                proof {
                    assert(sv.subrange(0, i + 1).drop_last() =~= sv.subrange(0, i as int));
                    assert(out@ =~= old(out)@ + printed_all(sv.subrange(0, i + 1), nl));
                }
                i = i + 1;
            }
            assert(sv.subrange(0, args.len() as int) =~= sv);
            Value::Null
        },
        Builtin::Insert => {
            let r = if args.len() == 3 && matches!(args[0], Value::Hash(_)) {
                let ghost sv = values_view(args@);
                let mut args = args;
                let v = args.pop();
                let k = args.pop();
                let h = args.pop();
                match (h, k, v) {
                    (Some(Value::Hash(es)), Some(k), Some(v)) => {
                        let mut es = es;
                        set_entry(&mut es, k.printed(), v);
                        Value::Hash(es)
                    },
                    _ => Value::Null,
                }
            } else {
                Value::Null
            };
            assert(out@ =~= old(out)@ + Seq::<char>::empty());
            r
        },
    }
}

/// An outcome with the results `vs0` and the text `o0` of earlier steps put
/// in front.
pub open spec fn after_values(vs0: Seq<SValue>, o0: Seq<char>, r: Outcome<Seq<SValue>>) -> Outcome<Seq<SValue>> {
    match r {
        Ok((vs, env, o)) => Ok((vs0 + vs, env, o0 + o)),
        Err(f) => Err(f),
    }
}

/// An outcome with the text `o0` of earlier steps put in front.
pub open spec fn after_text<T>(o0: Seq<char>, r: Outcome<T>) -> Outcome<T> {
    match r {
        Ok((v, env, o)) => Ok((v, env, o0 + o)),
        Err(f) => Err(f),
    }
}

/// The bindings of an evaluation session: one value per name.
pub struct State {
    state: Vec<(String, Value)>,
}

impl View for State {
    type V = Table;

    closed spec fn view(&self) -> Table {
        entries_view(self.state@)
    }
}

impl State {
    /// At most one value is bound per name.
    pub open spec fn wf(&self) -> bool {
        unique_names(self@)
    }

    /// Binds `name` to `value`, replacing an earlier binding of it.
    pub fn set(&mut self, name: &String, value: Value)
        ensures
            final(self)@ == bind(old(self)@, name@, value@),
            old(self).wf() ==> final(self).wf(),
    {
        set_entry(&mut self.state, name.clone(), value);
    }

    /// The value bound to `name`, or `Null`.
    pub fn get(&self, name: &String) -> (r: Value)
        ensures
            r@ == value_or_null(lookup(self@, name@)),
    {
        get_entry(&self.state, name)
    }

    /// A copy of the bindings, for a new invocation frame.
    pub fn copy(&self) -> (r: State)
        ensures
            r@ == self@,
    {
        State { state: copy_entries(&self.state) }
    }
}

impl Expression {
    /// Evaluates the expression, with `fuel` calls of language functions
    /// left to nest.
    pub fn eval(&self, state: &mut State, out: &mut String, fuel: u64) -> (r: Result<Value, Fault>)
        ensures
            old(state).wf() ==> final(state).wf(),
            match eval_expr(self@, old(state)@, fuel as nat) {
                Ok((v, env, o)) => r is Ok && r->Ok_0@ == v && final(state)@ == env && final(out)@ == old(out)@ + o,
                Err(f) => r is Err && r->Err_0 == f,
            },
        decreases fuel, self, 1nat,
    {
        match self {
            Expression::Int(i) => Ok(Value::Int(*i)),
            Expression::True => Ok(Value::Bool(true)),
            Expression::False => Ok(Value::Bool(false)),
            Expression::String(s) => Ok(Value::Str(s.clone())),
            Expression::Ident(n) => Ok(state.get(n)),
            Expression::FnDecl(ps, body) => Ok(Value::FnDecl(copy_names(ps), Box::new(body.duplicate()))),
            Expression::Neg(x) => match x.eval(state, out, fuel) {
                Ok(v) => unary_op(UnOp::Neg, v),
                Err(f) => Err(f),
            },
            Expression::Not(x) => match x.eval(state, out, fuel) {
                Ok(v) => unary_op(UnOp::Not, v),
                Err(f) => Err(f),
            },
            Expression::Plus(..) | Expression::Minus(..) | Expression::Div(..) | Expression::Mul(..)
            | Expression::Eq(..) | Expression::Ne(..) | Expression::Lt(..) | Expression::Gt(..) => {
                eval_binary(self, state, out, fuel)
            },
            Expression::If(..) => eval_cond(self, state, out, fuel),
            Expression::Array(es) => {
                proof {
                    assert(decreases_to!(*self => (*self)->Array_0));
                    lemma_exprs_view(es@);
                }
                match eval_arguments(es, es.len(), state, out, fuel) {
                    Ok(vs) => Ok(Value::Array(vs)),
                    Err(x) => Err(x),
                }
            },
            Expression::Index(..) => eval_index(self, state, out, fuel),
            Expression::Hash(ps) => {
                proof {
                    assert(decreases_to!(*self => (*self)->Hash_0));
                }
                match eval_hash_pairs(ps, state, out, fuel) {
                    Ok(h) => Ok(Value::Hash(h)),
                    Err(x) => Err(x),
                }
            },
            Expression::Call(..) => eval_call(self, state, out, fuel),
        }
    }
}

/// Evaluates a conditional: only a boolean condition runs a branch, and a
/// branch without a value gives `Null`.
fn eval_cond(e: &Expression, state: &mut State, out: &mut String, fuel: u64) -> (res: Result<Value, Fault>)
    requires
        e@ is If,
    ensures
        old(state).wf() ==> final(state).wf(),
        match eval_expr(e@, old(state)@, fuel as nat) {
            Ok((v, env, o)) => res is Ok && res->Ok_0@ == v && final(state)@ == env && final(out)@ == old(out)@ + o,
            Err(f) => res is Err && res->Err_0 == f,
        },
    decreases fuel, e, 0nat,
{
    let (c, t, f) = match e {
        Expression::If(c, t, f) => (c, t, f),
        _ => {
            return Ok(Value::Null);
        },
    };
    match c.eval(state, out, fuel) {
        Ok(Value::Bool(b)) => {
            let res = if b {
                t.eval(state, out, fuel)
            } else {
                f.eval(state, out, fuel)
            };
            match res {
                Ok(Some(v)) => Ok(v),
                Ok(None) => Ok(Value::Null),
                Err(x) => Err(x),
            }
        },
        Ok(_) => Ok(Value::Null),
        Err(x) => Err(x),
    }
}

/// Evaluates an index expression: the target, then the index.
fn eval_index(e: &Expression, state: &mut State, out: &mut String, fuel: u64) -> (res: Result<Value, Fault>)
    requires
        e@ is Index,
    ensures
        old(state).wf() ==> final(state).wf(),
        match eval_expr(e@, old(state)@, fuel as nat) {
            Ok((v, env, o)) => res is Ok && res->Ok_0@ == v && final(state)@ == env && final(out)@ == old(out)@ + o,
            Err(f) => res is Err && res->Err_0 == f,
        },
    decreases fuel, e, 0nat,
{
    let (a, i) = match e {
        Expression::Index(a, i) => (a, i),
        _ => {
            return Ok(Value::Null);
        },
    };
    match a.eval(state, out, fuel) {
        Ok(av) => match i.eval(state, out, fuel) {
            Ok(iv) => Ok(index_op(av, iv)),
            Err(x) => Err(x),
        },
        Err(x) => Err(x),
    }
}

/// Evaluates a call: the callee, then the arguments in the caller's table.
/// A language function runs in a copy of the caller's table (taken before
/// the arguments run) with its parameters bound; its pending return is
/// unwrapped. A native function gets every argument.
fn eval_call(e: &Expression, state: &mut State, out: &mut String, fuel: u64) -> (res: Result<Value, Fault>)
    requires
        e@ is Call,
    ensures
        old(state).wf() ==> final(state).wf(),
        match eval_expr(e@, old(state)@, fuel as nat) {
            Ok((v, env, o)) => res is Ok && res->Ok_0@ == v && final(state)@ == env && final(out)@ == old(out)@ + o,
            Err(f) => res is Err && res->Err_0 == f,
        },
    decreases fuel, e, 0nat,
{
    let (f, args) = match e {
        Expression::Call(f, args) => (f, args),
        _ => {
            return Ok(Value::Null);
        },
    };
    proof {
        lemma_exprs_view(args@);
    }
    match f.eval(state, out, fuel) {
        Ok(Value::FnDecl(ps, body)) => {
            let n = if args.len() < ps.len() { args.len() } else { ps.len() };
            let mut frame = state.copy();
            let ghost env1 = state@;
            let vs = match eval_arguments(args, n, state, out, fuel) {
                Ok(vs) => vs,
                Err(x) => {
                    return Err(x);
                },
            };
            proof {
                lemma_eval_args_len(exprs_view(args@), 0, n as int, env1, fuel as nat);
                lemma_values_view(vs@);
            }
            bind_params(&mut frame, &ps, &vs);
            if fuel == 0 {
                return Err(Fault::StackExhausted);
            }
            match body.eval(&mut frame, out, fuel - 1) {
                Ok(Some(v)) => Ok(v.unret()),
                Ok(None) => Ok(Value::Null),
                Err(x) => Err(x),
            }
        },
        Ok(Value::FnBuiltin(_, b)) => match eval_arguments(args, args.len(), state, out, fuel) {
            Ok(vs) => Ok(call_builtin(b, vs, out)),
            Err(x) => Err(x),
        },
        Ok(_) => Ok(Value::Null),
        Err(x) => Err(x),
    }
}

/// Evaluates both operands of a binary expression, left first, and applies
/// the operator.
fn eval_binary(e: &Expression, state: &mut State, out: &mut String, fuel: u64) -> (res: Result<Value, Fault>)
    requires
        e@ is Bin,
    ensures
        old(state).wf() ==> final(state).wf(),
        match eval_expr(e@, old(state)@, fuel as nat) {
            Ok((v, env, o)) => res is Ok && res->Ok_0@ == v && final(state)@ == env && final(out)@ == old(out)@ + o,
            Err(f) => res is Err && res->Err_0 == f,
        },
    decreases fuel, e, 0nat,
{
    let (op, l, r) = match e {
        Expression::Plus(l, r) => (BinOp::Plus, l, r),
        Expression::Minus(l, r) => (BinOp::Minus, l, r),
        Expression::Div(l, r) => (BinOp::Div, l, r),
        Expression::Mul(l, r) => (BinOp::Mul, l, r),
        Expression::Eq(l, r) => (BinOp::Eq, l, r),
        Expression::Ne(l, r) => (BinOp::Ne, l, r),
        Expression::Lt(l, r) => (BinOp::Lt, l, r),
        Expression::Gt(l, r) => (BinOp::Gt, l, r),
        _ => {
            return Ok(Value::Null);
        },
    };
    match l.eval(state, out, fuel) {
        Ok(a) => match r.eval(state, out, fuel) {
            Ok(b) => binary_op(op, a, b),
            Err(f) => Err(f),
        },
        Err(f) => Err(f),
    }
}

/// Evaluates the first `n` expressions of `es` in order.
fn eval_arguments(es: &Vec<Expression>, n: usize, state: &mut State, out: &mut String, fuel: u64) -> (r: Result<Vec<Value>, Fault>)
    requires
        n <= es.len(),
    ensures
        old(state).wf() ==> final(state).wf(),
        match eval_args(exprs_view(es@), 0, n as int, old(state)@, fuel as nat) {
            Ok((vs, env, o)) => r is Ok && values_view(r->Ok_0@) == vs && final(state)@ == env && final(out)@ == old(out)@ + o,
            Err(f) => r is Err && r->Err_0 == f,
        },
    decreases fuel, es, 0nat,
{
    let ghost sv = exprs_view(es@);
    let ghost env0 = state@;
    let ghost out0 = out@;
    proof {
        lemma_exprs_view(es@);
    }
    let mut vs: Vec<Value> = Vec::new();
    let mut i: usize = 0;
    while i < n
        invariant
            n <= es.len(),
            i <= n,
            sv == exprs_view(es@),
            sv.len() == es.len(),
            forall|j: int| 0 <= j < es.len() ==> #[trigger] sv[j] == es@[j]@,
            eval_args(sv, 0, n as int, env0, fuel as nat) == after_values(
                values_view(vs@),
                out@.subrange(out0.len() as int, out@.len() as int),
                eval_args(sv, i as int, n as int, state@, fuel as nat),
            ),
            out0.len() <= out@.len(),
            out@.subrange(0, out0.len() as int) == out0,
            env0 == old(state)@,
            old(state).wf() ==> state.wf(),
            out0 == old(out)@,
        decreases n - i,
    {
        proof {
            vstd::std_specs::vec::axiom_vec_index_decreases(*es, i as int);
        }
        let ghost before = out@;
        let ghost vs_before = vs@;
        let ghost env_i = state@;
        match es[i].eval(state, out, fuel) {
            Ok(v) => {
                vs.push(v);
            },
            Err(f) => {
                return Err(f);
            },
        }
        proof {
            assert(vs@.drop_last() =~= vs_before);
            let o1 = eval_expr(sv[i as int], env_i, fuel as nat)->Ok_0.2;
            assert(out@ == before + o1);
            assert(out@.subrange(out0.len() as int, out@.len() as int) =~= before.subrange(out0.len() as int, before.len() as int) + o1);
            assert(out@.subrange(0, out0.len() as int) =~= before.subrange(0, out0.len() as int));
            match eval_args(sv, i + 1, n as int, state@, fuel as nat) {
                Ok((rest, env2, o2)) => {
                    assert(values_view(vs_before) + (seq![vs@.last()@] + rest) =~= values_view(vs@) + rest);
                    assert(before.subrange(out0.len() as int, before.len() as int) + (o1 + o2)
                        =~= out@.subrange(out0.len() as int, out@.len() as int) + o2);
                },
                Err(_) => {},
            }
        }
        i = i + 1;
    }
    proof {
        assert(values_view(vs@) + Seq::<SValue>::empty() =~= values_view(vs@));
        assert(out@ =~= out0 + out@.subrange(out0.len() as int, out@.len() as int));
        assert(out@.subrange(out0.len() as int, out@.len() as int) + Seq::<char>::empty() =~= out@.subrange(out0.len() as int, out@.len() as int));
    }
    Ok(vs)
}

/// Binds the first `vs.len()` parameter names to the values, in order.
fn bind_params(frame: &mut State, ps: &Vec<String>, vs: &Vec<Value>)
    requires
        vs.len() <= ps.len(),
    ensures
        old(frame).wf() ==> final(frame).wf(),
        final(frame)@ == bind_all(old(frame)@, strings_view(ps@), values_view(vs@)),
{
    let ghost sp = strings_view(ps@);
    let ghost sv = values_view(vs@);
    proof {
        lemma_values_view(vs@);
    }
    let mut i: usize = 0;
    while i < vs.len()
        invariant
            vs.len() <= ps.len(),
            i <= vs.len(),
            sp == strings_view(ps@),
            sv == values_view(vs@),
            sv.len() == vs.len(),
            forall|j: int| 0 <= j < vs.len() ==> #[trigger] sv[j] == vs@[j]@,
            frame@ == bind_all(old(frame)@, sp, sv.subrange(0, i as int)),
            old(frame).wf() ==> frame.wf(),
        decreases vs.len() - i,
    {
        frame.set(&ps[i], vs[i].duplicate());
        proof {
            assert(sv.subrange(0, i + 1).drop_last() =~= sv.subrange(0, i as int));
        }
        i = i + 1;
    }
    assert(sv.subrange(0, vs.len() as int) =~= sv);
}

/// Evaluates the `key: value` pairs of a hash literal in order.
fn eval_hash_pairs(ps: &Vec<(Expression, Expression)>, state: &mut State, out: &mut String, fuel: u64) -> (r: Result<Vec<(String, Value)>, Fault>)
    ensures
        old(state).wf() ==> final(state).wf(),
        match eval_pairs(pairs_view(ps@), 0, Seq::empty(), old(state)@, fuel as nat) {
            Ok((h, env, o)) => r is Ok && entries_view(r->Ok_0@) == h && final(state)@ == env && final(out)@ == old(out)@ + o,
            Err(f) => r is Err && r->Err_0 == f,
        },
    decreases fuel, ps, 0nat,
{
    let ghost sp = pairs_view(ps@);
    let ghost env0 = state@;
    let ghost out0 = out@;
    proof {
        lemma_pairs_view(ps@);
    }
    let mut h: Vec<(String, Value)> = Vec::new();
    assert(entries_view(h@) =~= Seq::empty());
    let mut i: usize = 0;
    while i < ps.len()
        invariant
            i <= ps.len(),
            sp == pairs_view(ps@),
            sp.len() == ps.len(),
            forall|j: int| 0 <= j < ps.len() ==> #[trigger] sp[j] == (ps@[j].0@, ps@[j].1@),
            eval_pairs(sp, 0, Seq::empty(), env0, fuel as nat) == after_text(
                out@.subrange(out0.len() as int, out@.len() as int),
                eval_pairs(sp, i as int, entries_view(h@), state@, fuel as nat),
            ),
            out0.len() <= out@.len(),
            out@.subrange(0, out0.len() as int) == out0,
            env0 == old(state)@,
            old(state).wf() ==> state.wf(),
            out0 == old(out)@,
        decreases ps.len() - i,
    {
        proof {
            vstd::std_specs::vec::axiom_vec_index_decreases(*ps, i as int);
            assert(decreases_to!(ps[i as int] => ps[i as int].0));
            assert(decreases_to!(ps[i as int] => ps[i as int].1));
        }
        let ghost before = out@;
        let ghost env_i = state@;
        let ghost h_i = entries_view(h@);
        let k = match ps[i].0.eval(state, out, fuel) {
            Ok(k) => k,
            Err(f) => {
                return Err(f);
            },
        };
        let ghost mid = out@;
        let ghost env_k = state@;
        let v = match ps[i].1.eval(state, out, fuel) {
            Ok(v) => v,
            Err(f) => {
                return Err(f);
            },
        };
        let ghost (kv, vv) = (k@, v@);
        set_entry(&mut h, k.printed(), v);
        proof {
            let o1 = eval_expr(sp[i as int].0, env_i, fuel as nat)->Ok_0.2;
            let o2 = eval_expr(sp[i as int].1, env_k, fuel as nat)->Ok_0.2;
            assert(out@ == before + o1 + o2);
            assert(out@.subrange(0, out0.len() as int) =~= before.subrange(0, out0.len() as int));
            match eval_pairs(sp, i + 1, entries_view(h@), state@, fuel as nat) {
                Ok((hh, env3, o3)) => {
                    assert(before.subrange(out0.len() as int, before.len() as int) + (o1 + o2 + o3)
                        =~= out@.subrange(out0.len() as int, out@.len() as int) + o3);
                },
                Err(_) => {},
            }
        }
        i = i + 1;
    }
    proof {
        assert(out@ =~= out0 + out@.subrange(out0.len() as int, out@.len() as int));
        assert(out@.subrange(out0.len() as int, out@.len() as int) + Seq::<char>::empty() =~= out@.subrange(out0.len() as int, out@.len() as int));
    }
    Ok(h)
}

impl Statement {
    /// Evaluates the statement: `Some` value, or `None` for a `let`.
    pub fn eval(&self, state: &mut State, out: &mut String, fuel: u64) -> (r: Result<Option<Value>, Fault>)
        ensures
            old(state).wf() ==> final(state).wf(),
            match eval_stmt(self@, old(state)@, fuel as nat) {
                Ok((v, env, o)) => r is Ok && option_view(r->Ok_0) == v && final(state)@ == env && final(out)@ == old(out)@ + o,
                Err(f) => r is Err && r->Err_0 == f,
            },
        decreases fuel, self, 1nat,
    {
        match self {
            Statement::Let(n, e) => match e.eval(state, out, fuel) {
                Ok(v) => {
                    state.set(n, v.unret());
                    Ok(None)
                },
                Err(f) => Err(f),
            },
            Statement::Ret(e) => match e.eval(state, out, fuel) {
                Ok(v) => Ok(Some(Value::RetVal(Box::new(v.unret())))),
                Err(f) => Err(f),
            },
            Statement::BlockStatement(ss) => {
                proof {
                    assert(decreases_to!(*self => (*self)->BlockStatement_0));
                }
                eval_statements(ss, state, out, fuel)
            },
            Statement::ExprStatement(e) => match e.eval(state, out, fuel) {
                Ok(v) => Ok(Some(v)),
                Err(f) => Err(f),
            },
        }
    }
}

/// The model of an optional value.
pub open spec fn option_view(v: Option<Value>) -> Option<SValue> {
    match v {
        Some(x) => Some(x@),
        None => None,
    }
}

fn is_return_value(v: &Option<Value>) -> (r: bool)
    ensures
        r == is_return(option_view(*v)),
{
    matches!(v, Some(Value::RetVal(_)))
}

/// Evaluates the statements of a block in order, up to the first pending
/// return.
fn eval_statements(ss: &Vec<Statement>, state: &mut State, out: &mut String, fuel: u64) -> (r: Result<Option<Value>, Fault>)
    ensures
        old(state).wf() ==> final(state).wf(),
        match eval_block(stmts_view(ss@), 0, old(state)@, fuel as nat) {
            Ok((v, env, o)) => r is Ok && option_view(r->Ok_0) == v && final(state)@ == env && final(out)@ == old(out)@ + o,
            Err(f) => r is Err && r->Err_0 == f,
        },
    decreases fuel, ss, 0nat,
{
    let ghost sv = stmts_view(ss@);
    let ghost env0 = state@;
    let ghost out0 = out@;
    proof {
        lemma_stmts_view(ss@);
    }
    if ss.len() == 0 {
        assert(out@ =~= out0 + Seq::<char>::empty());
        return Ok(None);
    }
    let mut i: usize = 0;
    loop
        invariant
            i < ss.len(),
            sv == stmts_view(ss@),
            sv.len() == ss.len(),
            forall|j: int| 0 <= j < ss.len() ==> #[trigger] sv[j] == ss@[j]@,
            eval_block(sv, 0, env0, fuel as nat) == after_text(
                out@.subrange(out0.len() as int, out@.len() as int),
                eval_block(sv, i as int, state@, fuel as nat),
            ),
            out0.len() <= out@.len(),
            out@.subrange(0, out0.len() as int) == out0,
            env0 == old(state)@,
            old(state).wf() ==> state.wf(),
            out0 == old(out)@,
        decreases ss.len() - i,
    {
        proof {
            vstd::std_specs::vec::axiom_vec_index_decreases(*ss, i as int);
        }
        let ghost before = out@;
        let ghost env_i = state@;
        let v = match ss[i].eval(state, out, fuel) {
            Ok(v) => v,
            Err(f) => {
                return Err(f);
            },
        };
        proof {
            let o1 = eval_stmt(sv[i as int], env_i, fuel as nat)->Ok_0.2;
            assert(out@ == before + o1);
            assert(out@.subrange(0, out0.len() as int) =~= before.subrange(0, out0.len() as int));
            assert(before.subrange(out0.len() as int, before.len() as int) + o1
                =~= out@.subrange(out0.len() as int, out@.len() as int));
            assert(out@ =~= out0 + out@.subrange(out0.len() as int, out@.len() as int));
            match eval_block(sv, i + 1, state@, fuel as nat) {
                Ok((v2, env2, o2)) => {
                    assert(before.subrange(out0.len() as int, before.len() as int) + (o1 + o2)
                        =~= out@.subrange(out0.len() as int, out@.len() as int) + o2);
                },
                Err(_) => {},
            }
        }
        if is_return_value(&v) || i + 1 == ss.len() {
            return Ok(v);
        }
        i = i + 1;
    }
}

impl Program {
    /// Evaluates the top-level statements in order, up to the first pending
    /// return; the last result is the program's.
    #[verifier::rlimit(100)]
    pub fn eval(&self, state: &mut State, out: &mut String, fuel: u64) -> (r: Result<Option<Value>, Fault>)
        ensures
            old(state).wf() ==> final(state).wf(),
            match eval_program(self@, 0, old(state)@, fuel as nat) {
                Ok((v, env, o)) => r is Ok && option_view(r->Ok_0) == v && final(state)@ == env && final(out)@ == old(out)@ + o,
                Err(f) => r is Err && r->Err_0 == f,
            },
    {
        let ss = self.statements();
        let ghost sv = self@;
        let ghost env0 = state@;
        let ghost out0 = out@;
        proof {
            lemma_boxed_view(ss@);
        }
        if ss.len() == 0 {
            assert(out@ =~= out0 + Seq::<char>::empty());
            return Ok(None);
        }
        let mut i: usize = 0;
        loop
            invariant
                i < ss.len(),
                sv == self@,
                sv == boxed_view(ss@),
                sv.len() == ss.len(),
                forall|j: int| 0 <= j < ss.len() ==> #[trigger] sv[j] == (*ss@[j])@,
                eval_program(sv, 0, env0, fuel as nat) == after_text(
                    out@.subrange(out0.len() as int, out@.len() as int),
                    eval_program(sv, i as int, state@, fuel as nat),
                ),
                out0.len() <= out@.len(),
                out@.subrange(0, out0.len() as int) == out0,
                env0 == old(state)@,
                old(state).wf() ==> state.wf(),
            old(state).wf() ==> state.wf(),
                out0 == old(out)@,
            decreases ss.len() - i,
        {
            let ghost before = out@;
            let ghost env_i = state@;
            let st: &Statement = &ss[i];
            assert(st@ == sv[i as int]);
            let v = match st.eval(state, out, fuel) {
                Ok(v) => v,
                Err(f) => {
                    assert(eval_program(sv, i as int, env_i, fuel as nat) == Err::<(Option<SValue>, Table, Seq<char>), Fault>(f));
                    return Err(f);
                },
            };
            proof {
                let o1 = eval_stmt(sv[i as int], env_i, fuel as nat)->Ok_0.2;
                lemma_emitted_step(out0, before, o1, out@);
            }
            if is_return_value(&v) || i + 1 == ss.len() {
                return Ok(v);
            }
            i = i + 1;
        }
    }
}

/// Text appended after text appended: the part after `out0` grows by `o1`,
/// and anything appended after it associates.
pub proof fn lemma_emitted_step(out0: Seq<char>, before: Seq<char>, o1: Seq<char>, after: Seq<char>)
    requires
        out0.len() <= before.len(),
        before.subrange(0, out0.len() as int) == out0,
        after == before + o1,
    ensures
        out0.len() <= after.len(),
        after.subrange(0, out0.len() as int) == out0,
        after.subrange(out0.len() as int, after.len() as int) == before.subrange(out0.len() as int, before.len() as int) + o1,
        after == out0 + after.subrange(out0.len() as int, after.len() as int),
        forall|o2: Seq<char>| #[trigger] (before.subrange(out0.len() as int, before.len() as int) + (o1 + o2))
            == after.subrange(out0.len() as int, after.len() as int) + o2,
{
    assert(after.subrange(0, out0.len() as int) =~= before.subrange(0, out0.len() as int));
    assert(after.subrange(out0.len() as int, after.len() as int) =~= before.subrange(out0.len() as int, before.len() as int) + o1);
    assert(after =~= out0 + after.subrange(out0.len() as int, after.len() as int));
    assert forall|o2: Seq<char>| #[trigger] (before.subrange(out0.len() as int, before.len() as int) + (o1 + o2))
        == after.subrange(out0.len() as int, after.len() as int) + o2 by {
        assert(before.subrange(out0.len() as int, before.len() as int) + (o1 + o2)
            =~= after.subrange(out0.len() as int, after.len() as int) + o2);
    }
}

/// Evaluating `n - i` expressions yields `n - i` values.
pub proof fn lemma_eval_args_len(es: Seq<SExpr>, i: int, n: int, env: Table, fuel: nat)
    requires
        0 <= i <= n <= es.len(),
    ensures
        eval_args(es, i, n, env, fuel) is Ok ==> eval_args(es, i, n, env, fuel)->Ok_0.0.len() == n - i,
    decreases n - i,
{
    if i < n {
        match eval_expr(es[i], env, fuel) {
            Ok((v, env1, o1)) => {
                lemma_eval_args_len(es, i + 1, n, env1, fuel);
            },
            Err(_) => {},
        }
    }
}

/// The standard library that each session defines in the language itself.
pub const FIRST_SRC: &'static str = "let first = fn(a) a[0]";

pub const LAST_SRC: &'static str = "let last = fn(a) a[len(a)-1]";

pub const TAIL_SRC: &'static str = "let tail = fn(a) {let x = fn(a, i) {if (i < len(a)) [a[i]] + x(a, i+1) else []}; x(a, 1)}";

pub const PUSH_SRC: &'static str = "let push = fn(a, x) a + [x]";

pub const MAP_SRC: &'static str = "let map = fn(a, f) if (len(a) > 0) [f(first(a))] + map(tail(a), f) else []";

/// The native functions, bound under their names; each prints as `builtin`
/// and its own name (`println` too, by design).
pub open spec fn native_env() -> Table {
    let t0 = bind(Seq::empty(), "len"@, SValue::FnBuiltin("len"@, Builtin::Len));
    let t1 = bind(t0, "print"@, SValue::FnBuiltin("print"@, Builtin::Print));
    let t2 = bind(t1, "println"@, SValue::FnBuiltin("println"@, Builtin::Println));
    bind(t2, "insert"@, SValue::FnBuiltin("insert"@, Builtin::Insert))
}

/// The bindings after running `src`, which a fault leaves as they were.
pub open spec fn after(env: Table, src: Seq<char>) -> Table {
    match run(env, src) {
        Ok((_, e, _)) => e,
        Err(_) => env,
    }
}

/// The bindings of a fresh session: the native functions, then the
/// standard library defined on top of them.
pub open spec fn fresh_env() -> Table {
    let t1 = after(native_env(), FIRST_SRC@);
    let t2 = after(t1, LAST_SRC@);
    let t3 = after(t2, TAIL_SRC@);
    let t4 = after(t3, PUSH_SRC@);
    after(t4, MAP_SRC@)
}

impl State {
    /// A fresh session: the native functions and the standard library.
    pub fn new() -> (r: State)
        ensures
            r@ == fresh_env(),
            r.wf(),
    {
        let mut state = State { state: Vec::new() };
        assert(state@ =~= Seq::<(Seq<char>, SValue)>::empty());
        state.set(&"len".to_owned(), Value::FnBuiltin("len".to_owned(), Builtin::Len));
        state.set(&"print".to_owned(), Value::FnBuiltin("print".to_owned(), Builtin::Print));
        state.set(&"println".to_owned(), Value::FnBuiltin("println".to_owned(), Builtin::Println));
        state.set(&"insert".to_owned(), Value::FnBuiltin("insert".to_owned(), Builtin::Insert));
        let mut out = String::new();
        let _ = state.eval(FIRST_SRC, &mut out);
        let _ = state.eval(LAST_SRC, &mut out);
        let _ = state.eval(TAIL_SRC, &mut out);
        let _ = state.eval(PUSH_SRC, &mut out);
        let _ = state.eval(MAP_SRC, &mut out);
        state
    }

    /// Parses and evaluates `input` against the session. On success the
    /// session keeps the new bindings and `out` gets the emitted text; a
    /// fault leaves both as they were. Calls nest at most `MAX_DEPTH` deep,
    /// so `map` or `tail` over an array of about 190 elements or more ends
    /// in `StackExhausted`; `eval_with_depth` takes a larger bound.
    pub fn eval(&mut self, input: &str, out: &mut String) -> (r: Result<Option<Value>, Fault>)
        ensures
            old(self).wf() ==> final(self).wf(),
            match run(old(self)@, input@) {
                Ok((v, env, o)) => r is Ok && option_view(r->Ok_0) == v && final(self)@ == env
                    && final(out)@ == old(out)@ + o,
                Err(f) => r is Err && r->Err_0 == f && final(self)@ == old(self)@ && final(out)@ == old(out)@,
            },
    {
        self.eval_with_depth(input, out, MAX_DEPTH)
    }

    /// As `eval`, with calls nesting at most `depth` deep: the bound that the
    /// caller's stack allows.
    pub fn eval_with_depth(&mut self, input: &str, out: &mut String, depth: u64) -> (r: Result<Option<Value>, Fault>)
        ensures
            old(self).wf() ==> final(self).wf(),
            match run_with(old(self)@, input@, depth as nat) {
                Ok((v, env, o)) => r is Ok && option_view(r->Ok_0) == v && final(self)@ == env
                    && final(out)@ == old(out)@ + o,
                Err(f) => r is Err && r->Err_0 == f && final(self)@ == old(self)@ && final(out)@ == old(out)@,
            },
    {
        let lexer = Lexer::new(input.to_owned());
        let mut parser = Parser::new(lexer);
        let program = match parser.parse_program() {
            Ok(p) => p,
            Err(_) => {
                return Err(Fault::Syntax);
            },
        };
        let mut frame = self.copy();
        let mut buf = String::new();
        match program.eval(&mut frame, &mut buf, depth) {
            Ok(v) => {
                *self = frame;
                out.append(buf.as_str());
                assert(buf@ =~= Seq::<char>::empty() + buf@);
                Ok(v)
            },
            Err(f) => Err(f),
        }
    }
}

/// Evaluates `input` in a fresh session; `out` gets the emitted text. Calls
/// nest at most `MAX_DEPTH` deep, so `map` or `tail` over an array of about
/// 190 elements or more ends in `StackExhausted`.
pub fn eval(input: &str, out: &mut String) -> (r: Result<Option<Value>, Fault>)
    ensures
        match run(fresh_env(), input@) {
            Ok((v, env, o)) => r is Ok && option_view(r->Ok_0) == v && final(out)@ == old(out)@ + o,
            Err(f) => r is Err && r->Err_0 == f && final(out)@ == old(out)@,
        },
{
    let mut state = State::new();
    state.eval(input, out)
}

} // verus!
