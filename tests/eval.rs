use monkeylang::eval::{eval, Fault, State};
use monkeylang::value::Value;
use monkeylang::value::Value::{Array, Bool, Int, Null, RetVal, Str};

fn value_of(src: &str) -> Value {
    let mut out = String::new();
    eval(src, &mut out).unwrap().unwrap()
}

#[test]
fn test_prims() {
    assert_eq!(value_of("1"), Int(1));
    assert_eq!(value_of("true"), Bool(true));
}

#[test]
fn test_call() {
    assert_eq!(value_of("let abs = fn (x) { if (x > 0) { return x; } return -x; }; abs(1) + abs(-1);"), Int(2));
}

#[test]
fn test_recursive() {
    assert_eq!(value_of("let fib = fn (x) { if (x < 2) { return x; } else { fib(x-1) + fib(x-2); } }; fib(10);"), Int(55));
}

#[test]
fn test_stack() {
    assert_eq!(value_of("let x = 10; let f = fn (x) { let x = 2*x+1; x }; let y = f(x); y + x;"), Int(31));
}

#[test]
fn eval_test_str() {
    assert_eq!(value_of("let a = \" hello \"; let b = \"world \"; a + b + 1"), Str(String::from(" hello world 1")));
}

#[test]
fn test_higher_order() {
    assert_eq!(value_of("let twice = fn (f, x) f(f(x)); twice(fn(x) x*2, 10)"), Int(40));
}

#[test]
fn test_arr() {
    assert_eq!(value_of("let x = [1, 2, \"a\", \"b\", 5]; let y = x[0] + x[1] + x[4]; x[2] + x[3] + y"), Str(String::from("ab8")));
}

#[test]
fn test_len() {
    assert_eq!(value_of("let x = \"a\"; let x = x + \" \"; len(x + 1)"), Int(3));
    assert_eq!(value_of("let x = [1,2,3]; len(x + [\"a\", 5])"), Int(5));
}

#[test]
fn test_print() {
    let mut out = String::new();
    let _ = State::new().eval("print(1, \"a\")", &mut out);
    assert_eq!(out, "1a");
}

#[test]
fn test_arr_fns() {
    assert_eq!(value_of("let x = [1,2,3,4]; let x = push(x, 0); [first(x), last(x), tail(x)]"), Array(vec![Int(1), Int(0), Array(vec![Int(2), Int(3), Int(4), Int(0)])]));
}

#[test]
fn test_arr_map() {
    assert_eq!(value_of("map([1,2,3,4], fn(x) x*2+1)"), Array(vec![Int(3), Int(5), Int(7), Int(9)]));
}

#[test]
fn hash_insert_and_nested_index() {
    assert_eq!(value_of("let h = {\"a\": 1, true: 2}; let hh = insert(h, true, 1); insert(hh, 0, hh)[0][true]"), Int(1));
}

#[test]
fn arithmetic_follows_precedence() {
    assert_eq!(value_of("1 + 2 * 3 / 4 - 5 == 0"), Bool(false));
    assert_eq!(value_of("1 + 2 * 3 / 4 - 5"), Int(-3));
    assert_eq!(value_of("-1-2-3"), Int(-6));
    assert_eq!(value_of("(1 + 2) * 3"), Int(9));
    assert_eq!(value_of("7 / 2"), Int(3));
    assert_eq!(value_of("-7 / 2"), Int(-3));
    assert_eq!(value_of("7 / -2"), Int(-3));
    assert_eq!(value_of("3 < 4"), Bool(true));
    assert_eq!(value_of("3 > 4"), Bool(false));
    assert_eq!(value_of("3 != 4"), Bool(true));
    assert_eq!(value_of("!true"), Bool(false));
}

#[test]
fn division_by_zero_faults_while_type_mismatch_is_null() {
    let mut out = String::new();
    assert_eq!(eval("5 / 0", &mut out), Err(Fault::DivisionByZero));
    assert_eq!(value_of("5 + true"), Null);
    assert_eq!(value_of("5 - \"a\" "), Null);
    assert_eq!(value_of("-true"), Null);
    assert_eq!(value_of("!5"), Null);
    assert_eq!(value_of("true == true"), Null);
}

#[test]
fn overflow_faults() {
    let mut out = String::new();
    assert_eq!(eval("2147483647 + 1", &mut out), Err(Fault::Overflow));
    assert_eq!(eval("-2147483647 - 2", &mut out), Err(Fault::Overflow));
    assert_eq!(eval("65536 * 65536", &mut out), Err(Fault::Overflow));
    assert_eq!(value_of("-2147483647 - 1"), Int(-2147483648));
    assert_eq!(eval("(-2147483647 - 1) / -1", &mut out), Err(Fault::Overflow));
    assert_eq!(eval("-(-2147483647 - 1)", &mut out), Err(Fault::Overflow));
}

#[test]
fn syntax_errors_fault() {
    let mut out = String::new();
    assert_eq!(eval("let x = ;", &mut out), Err(Fault::Syntax));
    assert_eq!(eval("1 @ 2", &mut out), Err(Fault::Syntax));
    assert_eq!(eval("99999999999", &mut out), Err(Fault::Syntax));
}

#[test]
fn unbounded_recursion_faults() {
    let mut out = String::new();
    assert_eq!(eval("let f = fn(x) f(x); f(1)", &mut out), Err(Fault::StackExhausted));
}

#[test]
fn unbound_names_and_bad_calls_give_null() {
    assert_eq!(value_of("nothing"), Null);
    assert_eq!(value_of("nothing + 1"), Null);
    assert_eq!(value_of("5(1)"), Null);
    assert_eq!(value_of("[1, 2][5]"), Null);
    assert_eq!(value_of("[1, 2][-1]"), Null);
    assert_eq!(value_of("let h = {\"a\": 1}; h[\"b\"]"), Null);
    assert_eq!(value_of("if (1) { 2 }"), Null);
    assert_eq!(value_of("if (false) { 2 }"), Null);
    assert_eq!(value_of("len(5)"), Null);
    assert_eq!(value_of("len()"), Null);
    assert_eq!(value_of("insert(1, 2, 3)"), Null);
}

#[test]
fn hash_keys_compare_by_printed_form() {
    assert_eq!(value_of("let h = {\"a\": 1, true: 2}; h[true] == h[\"true\"]"), Bool(true));
    assert_eq!(value_of("let h = {\"a\": 1, true: 2}; h[\"true\"]"), Int(2));
    assert_eq!(value_of("let h = {1: 5}; h[\"1\"]"), Int(5));
    assert_eq!(value_of("let h = {1: 5, \"1\": 6}; h[1]"), Int(6));
}

#[test]
fn insert_leaves_the_given_hash() {
    assert_eq!(value_of("let h = {\"a\": 1}; let g = insert(h, \"a\", 2); h[\"a\"] * 10 + g[\"a\"]"), Int(12));
}

#[test]
fn printed_forms() {
    assert_eq!(value_of("\"\" + [1, \"a\", [true]]"), Str(String::from("[1, a, [true]]")));
    assert_eq!(value_of("\"\" + {\"a\": 1, 2: null}"), Str(String::from("{a: 1, 2: null}")));
    assert_eq!(value_of("\"\" + fn(a, b) a"), Str(String::from("fn(a, b)")));
    assert_eq!(value_of("\"\" + len"), Str(String::from("builtin len")));
    assert_eq!(value_of("\"\" + println"), Str(String::from("builtin println")));
    assert_eq!(value_of("-12 + \"x\""), Str(String::from("-12x")));
    assert_eq!(Int(-2147483647 - 1).printed(), "-2147483648");
    assert_eq!(Null.printed(), "null");
}

#[test]
fn println_writes_each_argument_on_a_line() {
    let mut out = String::new();
    let r = eval("println(1, \"a\", [2]); 7", &mut out);
    assert_eq!(r, Ok(Some(Int(7))));
    assert_eq!(out, "1\na\n[2]\n");
}

#[test]
fn fault_discards_output_and_bindings() {
    let mut state = State::new();
    let mut out = String::new();
    assert_eq!(state.eval("let z = 3; print(1); 1 / 0", &mut out), Err(Fault::DivisionByZero));
    assert_eq!(out, "");
    assert_eq!(state.eval("z", &mut out), Ok(Some(Null)));
    assert_eq!(state.eval("let z = 4;", &mut out), Ok(None));
    assert_eq!(state.eval("z", &mut out), Ok(Some(Int(4))));
}

#[test]
fn fresh_sessions_agree() {
    let src = "let f = fn(x) { print(x); x * 2 }; f(3) + f(4)";
    let mut out1 = String::new();
    let mut out2 = String::new();
    let r1 = State::new().eval(src, &mut out1);
    let r2 = State::new().eval(src, &mut out2);
    assert_eq!(r1, r2);
    assert_eq!(r1, Ok(Some(Int(14))));
    assert_eq!(out1, out2);
    assert_eq!(out1, "34");
}

#[test]
fn calls_copy_the_callers_bindings() {
    assert_eq!(value_of("let f = fn() y; let g = fn(y) f(); g(5)"), Int(5));
    assert_eq!(value_of("let y = 1; let f = fn() { let y = 2; y }; f() + y"), Int(3));
    assert_eq!(value_of("let f = fn(a, b) b; f(1)"), Null);
    assert_eq!(value_of("let f = fn(a) a; f(1, 2)"), Int(1));
}

#[test]
fn return_stops_a_block_and_the_program() {
    assert_eq!(value_of("let f = fn() { return 1; 2 }; f()"), Int(1));
    assert_eq!(value_of("return 1; 2"), RetVal(Box::new(Int(1))));
    let mut printed = String::new();
    assert_eq!(eval("print(1); return 2; print(3); 4", &mut printed), Ok(Some(RetVal(Box::new(Int(2))))));
    assert_eq!(printed, "1");
    let mut out = String::new();
    assert_eq!(eval("let x = 1", &mut out), Ok(None));
}

#[test]
fn let_inside_a_branch_binds_in_the_caller() {
    assert_eq!(value_of("if (true) { let q = 9; }; q"), Int(9));
}

#[test]
fn len_counts_bytes_of_strings() {
    assert_eq!(value_of("len(\"abc\")"), Int(3));
    assert_eq!(value_of("len(\"é\")"), Int(2));
    assert_eq!(value_of("len([])"), Int(0));
}

#[test]
fn session_preseeding() {
    let mut state = State::new();
    state.set(&String::from("get"), Value::Hash(vec![(String::from("n"), Int(4))]));
    let mut out = String::new();
    assert_eq!(state.eval("get[\"n\"] + 1", &mut out), Ok(Some(Int(5))));
    assert_eq!(state.get(&String::from("get")), Value::Hash(vec![(String::from("n"), Int(4))]));
}

#[test]
fn the_session_chooses_the_call_depth() {
    let src = "let f = fn(n) if (n > 0) f(n - 1) else 7; f(4)";
    let mut out = String::new();
    assert_eq!(State::new().eval_with_depth(src, &mut out, 5), Ok(Some(Int(7))));
    assert_eq!(State::new().eval_with_depth(src, &mut out, 4), Err(Fault::StackExhausted));
    assert_eq!(value_of("map([1,2,3,4,5,6,7,8,9,10,11,12,13,14,15,16,17,18,19,20], fn(x) x)"),
        value_of("[1,2,3,4,5,6,7,8,9,10,11,12,13,14,15,16,17,18,19,20]"));
}
