use vstd::prelude::*;
use vstd::string::StringExecFns;
use crate::ast::{Statement, SStmt, copy_names, strings_view, stmt_view};
use crate::text::push_char;

verus! {

/// The natively implemented functions.
#[derive(PartialEq, Eq, Structural, Clone, Copy, Debug)]
pub enum Builtin {
    Len,
    Print,
    Println,
    Insert,
}

/// A runtime value.
#[derive(Debug, PartialEq)]
pub enum Value {
    Int(i32),
    Bool(bool),
    Str(String),
    FnDecl(Vec<String>, Box<Statement>),
    FnBuiltin(String, Builtin),
    RetVal(Box<Value>),
    Array(Vec<Value>),
    /// Entries keyed by the printed form of the key it was given, in the order
    /// in which their keys were first set.
    Hash(Vec<(String, Value)>),
    Null,
}

/// Mathematical model of a value.
pub ghost enum SValue {
    Int(i32),
    Bool(bool),
    Str(Seq<char>),
    FnDecl(Seq<Seq<char>>, SStmt),
    FnBuiltin(Seq<char>, Builtin),
    RetVal(Box<SValue>),
    Array(Seq<SValue>),
    Hash(Seq<(Seq<char>, SValue)>),
    Null,
}

/// A table of named values, in the order in which their names were first
/// bound; the first entry with a name is the one that counts.
pub type Table = Seq<(Seq<char>, SValue)>;

pub open spec fn value_view(v: Value) -> SValue
    decreases v,
{
    match v {
        Value::Int(i) => SValue::Int(i),
        Value::Bool(b) => SValue::Bool(b),
        Value::Str(s) => SValue::Str(s@),
        Value::FnDecl(ps, body) => SValue::FnDecl(strings_view(ps@), stmt_view(*body)),
        Value::FnBuiltin(n, b) => SValue::FnBuiltin(n@, b),
        Value::RetVal(x) => SValue::RetVal(Box::new(value_view(*x))),
        Value::Array(vs) => SValue::Array(values_view(vs@)),
        Value::Hash(es) => SValue::Hash(entries_view(es@)),
        Value::Null => SValue::Null,
    }
}

pub open spec fn values_view(vs: Seq<Value>) -> Seq<SValue>
    decreases vs,
{
    if vs.len() == 0 {
        Seq::empty()
    } else {
        values_view(vs.drop_last()).push(value_view(vs.last()))
    }
}

pub open spec fn entries_view(es: Seq<(String, Value)>) -> Table
    decreases es,
{
    if es.len() == 0 {
        Seq::empty()
    } else {
        entries_view(es.drop_last()).push((es.last().0@, value_view(es.last().1)))
    }
}

impl View for Value {
    type V = SValue;

    open spec fn view(&self) -> SValue {
        value_view(*self)
    }
}

pub proof fn lemma_values_view(vs: Seq<Value>)
    ensures
        values_view(vs).len() == vs.len(),
        forall|i: int| 0 <= i < vs.len() ==> #[trigger] values_view(vs)[i] == value_view(vs[i]),
    decreases vs.len(),
{
    if vs.len() > 0 {
        lemma_values_view(vs.drop_last());
    }
}

pub proof fn lemma_entries_view(es: Seq<(String, Value)>)
    ensures
        entries_view(es).len() == es.len(),
        forall|i: int| 0 <= i < es.len() ==> #[trigger] entries_view(es)[i] == (es[i].0@, value_view(es[i].1)),
    decreases es.len(),
{
    if es.len() > 0 {
        lemma_entries_view(es.drop_last());
    }
}

/// The index of the first entry named `k`, or -1.
pub open spec fn find_from(t: Table, k: Seq<char>, i: int) -> int
    decreases t.len() - i,
{
    if i < 0 || i >= t.len() {
        -1
    } else if t[i].0 == k {
        i
    } else {
        find_from(t, k, i + 1)
    }
}

pub open spec fn find(t: Table, k: Seq<char>) -> int {
    find_from(t, k, 0)
}

/// The value named `k`, if any.
pub open spec fn lookup(t: Table, k: Seq<char>) -> Option<SValue> {
    if find(t, k) >= 0 {
        Some(t[find(t, k)].1)
    } else {
        None
    }
}

/// The table with `k` bound to `v`: the entry named `k` is replaced in
/// place, or a new one is added at the end.
pub open spec fn bind(t: Table, k: Seq<char>, v: SValue) -> Table {
    if find(t, k) >= 0 {
        t.update(find(t, k), (k, v))
    } else {
        t.push((k, v))
    }
}

pub proof fn lemma_find_from(t: Table, k: Seq<char>, i: int)
    requires
        0 <= i,
    ensures
        -1 <= find_from(t, k, i) < t.len(),
        find_from(t, k, i) >= 0 ==> find_from(t, k, i) >= i && t[find_from(t, k, i)].0 == k,
    decreases t.len() - i,
{
    if i < t.len() && t[i].0 != k {
        lemma_find_from(t, k, i + 1);
    }
}

/// No two entries of a table share a name: at most one value is bound per
/// name.
pub open spec fn unique_names(t: Table) -> bool {
    forall|i: int, j: int| 0 <= i < j < t.len() ==> #[trigger] t[i].0 != #[trigger] t[j].0
}

/// A name that `find` does not find is in no entry.
pub proof fn lemma_find_absent(t: Table, k: Seq<char>, i: int)
    requires
        0 <= i,
        find_from(t, k, i) == -1,
    ensures
        forall|j: int| i <= j < t.len() ==> #[trigger] t[j].0 != k,
    decreases t.len() - i,
{
    if i < t.len() {
        lemma_find_absent(t, k, i + 1);
    }
}

/// Binding a name keeps the names of a table unique.
pub proof fn lemma_bind_unique(t: Table, k: Seq<char>, v: SValue)
    requires
        unique_names(t),
    ensures
        unique_names(bind(t, k, v)),
{
    lemma_find_from(t, k, 0);
    if find(t, k) < 0 {
        lemma_find_absent(t, k, 0);
        let b = bind(t, k, v);
        assert forall|i: int, j: int| 0 <= i < j < b.len() implies #[trigger] b[i].0 != #[trigger] b[j].0 by {
            if j == t.len() {
                assert(b[i].0 == t[i].0);
            } else {
                assert(b[i] == t[i] && b[j] == t[j]);
            }
        }
    } else {
        let b = bind(t, k, v);
        assert forall|i: int, j: int| 0 <= i < j < b.len() implies #[trigger] b[i].0 != #[trigger] b[j].0 by {
            assert(b[i].0 == t[i].0 && b[j].0 == t[j].0);
        }
    }
}

/// The digit character of `d`.
pub open spec fn digit_char(d: nat) -> char {
    seq!['0', '1', '2', '3', '4', '5', '6', '7', '8', '9'][d as int]
}

/// Decimal text of a natural number.
pub open spec fn nat_text(n: nat) -> Seq<char>
    decreases n,
{
    if n < 10 {
        seq![digit_char(n)]
    } else {
        nat_text(n / 10).push(digit_char(n % 10))
    }
}

/// Decimal text of an integer, with a leading `-` when negative.
pub open spec fn int_text(i: int) -> Seq<char> {
    if i < 0 {
        seq!['-'] + nat_text((-i) as nat)
    } else {
        nat_text(i as nat)
    }
}

/// Texts joined with `", "`.
pub open spec fn join(ts: Seq<Seq<char>>) -> Seq<char>
    decreases ts.len(),
{
    if ts.len() == 0 {
        Seq::empty()
    } else if ts.len() == 1 {
        ts[0]
    } else {
        join(ts.drop_last()) + ", "@ + ts.last()
    }
}

/// The printed form of a value, which string concatenation, hash keys and
/// the output functions use.
pub open spec fn printed(v: SValue) -> Seq<char>
    decreases v,
{
    match v {
        SValue::Int(i) => int_text(i as int),
        SValue::Bool(b) => if b { "true"@ } else { "false"@ },
        SValue::Str(s) => s,
        SValue::FnDecl(ps, _) => "fn("@ + join(ps) + ")"@,
        SValue::FnBuiltin(n, _) => "builtin "@ + n,
        SValue::RetVal(x) => printed(*x),
        SValue::Array(vs) => "["@ + printed_list(vs) + "]"@,
        SValue::Hash(es) => "{"@ + printed_entries(es) + "}"@,
        SValue::Null => "null"@,
    }
}

pub open spec fn printed_list(vs: Seq<SValue>) -> Seq<char>
    decreases vs,
{
    if vs.len() == 0 {
        Seq::empty()
    } else if vs.len() == 1 {
        printed(vs[0])
    } else {
        printed_list(vs.drop_last()) + ", "@ + printed(vs.last())
    }
}

pub open spec fn printed_entries(es: Table) -> Seq<char>
    decreases es,
{
    if es.len() == 0 {
        Seq::empty()
    } else if es.len() == 1 {
        es[0].0 + ": "@ + printed(es[0].1)
    } else {
        printed_entries(es.drop_last()) + ", "@ + es.last().0 + ": "@ + printed(es.last().1)
    }
}

/// A value with a pending return unwrapped.
pub open spec fn unret(v: SValue) -> SValue {
    match v {
        SValue::RetVal(x) => *x,
        _ => v,
    }
}

fn digit(d: u64) -> (c: char)
    requires
        d < 10,
    ensures
        c == digit_char(d as nat),
{
    match d {
        0 => '0',
        1 => '1',
        2 => '2',
        3 => '3',
        4 => '4',
        5 => '5',
        6 => '6',
        7 => '7',
        8 => '8',
        _ => '9',
    }
}

fn write_nat(n: u64, s: &mut String)
    ensures
        final(s)@ == old(s)@ + nat_text(n as nat),
    decreases n,
{
    if n >= 10 {
        write_nat(n / 10, s);
    }
    push_char(s, digit(n % 10));
    assert(final(s)@ =~= old(s)@ + nat_text(n as nat));
}

/// Appends the decimal text of `i`.
pub fn write_int(i: i32, s: &mut String)
    ensures
        final(s)@ == old(s)@ + int_text(i as int),
{
    if i < 0 {
        push_char(s, '-');
        let ghost mid = s@;
        let n: u64 = (0 - (i as i64)) as u64;
        write_nat(n, s);
        assert(final(s)@ =~= old(s)@ + int_text(i as int));
    } else {
        write_nat(i as u64, s);
    }
}

/// A copy of a table of entries.
pub fn copy_entries(es: &Vec<(String, Value)>) -> (r: Vec<(String, Value)>)
    ensures
        entries_view(r@) == entries_view(es@),
    decreases es,
{
    let mut out: Vec<(String, Value)> = Vec::new();
    let mut i: usize = 0;
    while i < es.len()
        invariant
            i <= es.len(),
            entries_view(out@) == entries_view(es@.subrange(0, i as int)),
        decreases es.len() - i,
    {
        proof {
            vstd::std_specs::vec::axiom_vec_index_decreases(*es, i as int);
            assert(decreases_to!(es[i as int] => es[i as int].1));
        }
        let ghost before = out@;
        out.push((es[i].0.clone(), es[i].1.duplicate()));
        proof {
            assert(out@.drop_last() =~= before);
            assert(es@.subrange(0, i + 1).drop_last() =~= es@.subrange(0, i as int));
        }
        i = i + 1;
    }
    assert(es@.subrange(0, es.len() as int) =~= es@);
    out
}

/// The index of the first entry named `k`.
pub fn find_entry(es: &Vec<(String, Value)>, k: &String) -> (r: Option<usize>)
    ensures
        match r {
            Some(i) => find(entries_view(es@), k@) == i as int,
            None => find(entries_view(es@), k@) == -1,
        },
{
    let ghost t = entries_view(es@);
    proof {
        lemma_entries_view(es@);
    }
    let mut i: usize = 0;
    while i < es.len()
        invariant
            i <= es.len(),
            t == entries_view(es@),
            t.len() == es.len(),
            forall|j: int| 0 <= j < es.len() ==> #[trigger] t[j] == (es@[j].0@, value_view(es@[j].1)),
            find_from(t, k@, 0) == find_from(t, k@, i as int),
        decreases es.len() - i,
    {
        if es[i].0 == *k {
            return Some(i);
        }
        i = i + 1;
    }
    None
}

/// A copy of the value of the entry named `k`, or `Null`.
pub fn get_entry(es: &Vec<(String, Value)>, k: &String) -> (r: Value)
    ensures
        r@ == match lookup(entries_view(es@), k@) {
            Some(v) => v,
            None => SValue::Null,
        },
{
    proof {
        lemma_entries_view(es@);
        lemma_find_from(entries_view(es@), k@, 0);
    }
    match find_entry(es, k) {
        Some(i) => es[i].1.duplicate(),
        None => Value::Null,
    }
}

/// Binds `k` to `v`: the entry named `k` is replaced in place, or a new one
/// is added at the end.
pub fn set_entry(es: &mut Vec<(String, Value)>, k: String, v: Value)
    ensures
        entries_view(final(es)@) == bind(entries_view(old(es)@), k@, v@),
        unique_names(entries_view(old(es)@)) ==> unique_names(entries_view(final(es)@)),
{
    proof {
        if unique_names(entries_view(es@)) {
            lemma_bind_unique(entries_view(es@), k@, v@);
        }
    }
    proof {
        lemma_entries_view(es@);
        lemma_find_from(entries_view(es@), k@, 0);
    }
    let ghost kv = k@;
    let ghost vv = v@;
    match find_entry(es, &k) {
        Some(i) => {
            es.set(i, (k, v));
            proof {
                lemma_entries_view(es@);
                assert(entries_view(es@) =~= bind(entries_view(old(es)@), kv, vv));
            }
        },
        None => {
            let ghost before = es@;
            es.push((k, v));
            proof {
                assert(es@.drop_last() =~= before);
            }
        },
    }
}

/// Appends the texts of `names` joined with `", "`.
fn write_joined(names: &Vec<String>, s: &mut String)
    ensures
        final(s)@ == old(s)@ + join(strings_view(names@)),
{
    let ghost ns = strings_view(names@);
    let mut i: usize = 0;
    while i < names.len()
        invariant
            i <= names.len(),
            ns == strings_view(names@),
            s@ == old(s)@ + join(ns.subrange(0, i as int)),
        decreases names.len() - i,
    {
        let ghost before = s@;
        if i > 0 {
            s.append(", ");
        }
        s.append(names[i].as_str());
        proof {
            let pre = ns.subrange(0, i as int);
            let now = ns.subrange(0, i + 1);
            assert(now.drop_last() =~= pre);
            assert(now.last() == names@[i as int]@);
            if i == 0 {
                assert(join(pre) =~= Seq::<char>::empty());
            }
            assert(s@ =~= old(s)@ + join(now));
        }
        i = i + 1;
    }
    assert(ns.subrange(0, names.len() as int) =~= ns);
}

impl Value {
    /// Appends the printed form of the value.
    pub fn write_printed(&self, s: &mut String)
        ensures
            final(s)@ == old(s)@ + printed(self@),
        decreases self,
    {
        match self {
            Value::Int(i) => write_int(*i, s),
            Value::Bool(b) => {
                if *b {
                    s.append("true");
                } else {
                    s.append("false");
                }
            },
            Value::Str(x) => s.append(x.as_str()),
            Value::FnDecl(ps, _) => {
                s.append("fn(");
                write_joined(ps, s);
                s.append(")");
                assert(final(s)@ =~= old(s)@ + printed(self@));
            },
            Value::FnBuiltin(n, _) => {
                s.append("builtin ");
                s.append(n.as_str());
            },
            Value::RetVal(x) => x.write_printed(s),
            Value::Array(vs) => {
                s.append("[");
                let ghost start = s@;
                let ghost svs = values_view(vs@);
                proof {
                    lemma_values_view(vs@);
                }
                let mut i: usize = 0;
                while i < vs.len()
                    invariant
                        i <= vs.len(),
                        *self == Value::Array(*vs),
                        svs == values_view(vs@),
                        svs.len() == vs.len(),
                        forall|j: int| 0 <= j < vs.len() ==> #[trigger] svs[j] == value_view(vs@[j]),
                        s@ == start + printed_list(svs.subrange(0, i as int)),
                    decreases vs.len() - i,
                {
                    if i > 0 {
                        s.append(", ");
                    }
                    proof {
                        vstd::std_specs::vec::axiom_vec_index_decreases(*vs, i as int);
                        assert(decreases_to!(*self => (*self)->Array_0));
                        assert(decreases_to!(*vs => vs[i as int]));
                        assert(decreases_to!(*self => vs[i as int]));
                    }
                    vs[i].write_printed(s);
                    proof {
                        let pre = svs.subrange(0, i as int);
                        let now = svs.subrange(0, i + 1);
                        assert(now.drop_last() =~= pre);
                        if i == 0 {
                            assert(printed_list(pre) =~= Seq::<char>::empty());
                        }
                        assert(s@ =~= start + printed_list(now));
                    }
                    i = i + 1;
                }
                s.append("]");
                assert(svs.subrange(0, vs.len() as int) =~= svs);
                assert(final(s)@ =~= old(s)@ + printed(self@));
            },
            Value::Hash(es) => {
                s.append("{");
                let ghost start = s@;
                let ghost ses = entries_view(es@);
                proof {
                    lemma_entries_view(es@);
                }
                let mut i: usize = 0;
                while i < es.len()
                    invariant
                        i <= es.len(),
                        *self == Value::Hash(*es),
                        ses == entries_view(es@),
                        ses.len() == es.len(),
                        forall|j: int| 0 <= j < es.len() ==> #[trigger] ses[j] == (es@[j].0@, value_view(es@[j].1)),
                        s@ == start + printed_entries(ses.subrange(0, i as int)),
                    decreases es.len() - i,
                {
                    if i > 0 {
                        s.append(", ");
                    }
                    s.append(es[i].0.as_str());
                    s.append(": ");
                    proof {
                        vstd::std_specs::vec::axiom_vec_index_decreases(*es, i as int);
                        assert(decreases_to!(*self => (*self)->Hash_0));
                        assert(decreases_to!(*es => es[i as int]));
                        assert(decreases_to!(es[i as int] => es[i as int].1));
                        assert(decreases_to!(*self => es[i as int].1));
                    }
                    es[i].1.write_printed(s);
                    proof {
                        let pre = ses.subrange(0, i as int);
                        let now = ses.subrange(0, i + 1);
                        assert(now.drop_last() =~= pre);
                        if i == 0 {
                            assert(printed_entries(pre) =~= Seq::<char>::empty());
                        }
                        assert(s@ =~= start + printed_entries(now));
                    }
                    i = i + 1;
                }
                s.append("}");
                assert(ses.subrange(0, es.len() as int) =~= ses);
                assert(final(s)@ =~= old(s)@ + printed(self@));
            },
            Value::Null => s.append("null"),
        }
    }

    /// A copy of the value.
    pub fn duplicate(&self) -> (r: Value)
        ensures
            r@ == self@,
        decreases self,
    {
        match self {
            Value::Int(i) => Value::Int(*i),
            Value::Bool(b) => Value::Bool(*b),
            Value::Str(s) => Value::Str(s.clone()),
            Value::FnDecl(ps, body) => Value::FnDecl(copy_names(ps), Box::new(body.duplicate())),
            Value::FnBuiltin(n, b) => Value::FnBuiltin(n.clone(), *b),
            Value::RetVal(x) => Value::RetVal(Box::new(x.duplicate())),
            Value::Array(vs) => {
                let mut out: Vec<Value> = Vec::new();
                let mut i: usize = 0;
                while i < vs.len()
                    invariant
                        *self == Value::Array(*vs),
                        i <= vs.len(),
                        values_view(out@) == values_view(vs@.subrange(0, i as int)),
                    decreases vs.len() - i,
                {
                    proof {
                        vstd::std_specs::vec::axiom_vec_index_decreases(*vs, i as int);
                        assert(decreases_to!(*self => (*self)->Array_0));
                    }
                    let ghost before = out@;
                    out.push(vs[i].duplicate());
                    proof {
                        assert(out@.drop_last() =~= before);
                        assert(vs@.subrange(0, i + 1).drop_last() =~= vs@.subrange(0, i as int));
                    }
                    i = i + 1;
                }
                assert(vs@.subrange(0, vs.len() as int) =~= vs@);
                Value::Array(out)
            },
            Value::Hash(es) => Value::Hash(copy_entries(es)),
            Value::Null => Value::Null,
        }
    }

    /// The printed form of the value.
    pub fn printed(&self) -> (r: String)
        ensures
            r@ == printed(self@),
    {
        let mut s = String::new();
        self.write_printed(&mut s);
        assert(s@ =~= printed(self@));
        s
    }
}

} // verus!
