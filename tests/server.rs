use monkeylang::eval::{Fault, MAX_DEPTH};
use monkeylang::lexer::Token;
use monkeylang::server::{
    parse_form_args, parse_get_args, parse_value, render_template, response_text, route_request,
    template_tokens, text_lines,
};
use monkeylang::value::Value;

fn pair(a: &str, b: &str) -> (String, String) {
    (String::from(a), String::from(b))
}

#[test]
fn form_args_split_on_ampersand_and_equals() {
    assert_eq!(parse_form_args(" a=1&b=&c&d=x=y \n"), vec![
        pair("a", "1"), pair("b", ""), pair("c", ""), pair("d", "x"),
    ]);
    assert_eq!(parse_form_args(""), vec![pair("", "")]);
}

#[test]
fn get_args_split_path_and_query() {
    assert_eq!(parse_get_args("/"), (String::from("index.ml"), vec![]));
    assert_eq!(parse_get_args("/page.ml?x=5&y=z"), (String::from("page.ml"), vec![pair("x", "5"), pair("y", "z")]));
    assert_eq!(parse_get_args("/?q=1"), (String::from("index.ml"), vec![pair("q", "1")]));
    assert_eq!(parse_get_args(""), (String::from(""), vec![]));
}

#[test]
fn param_values() {
    assert_eq!(parse_value("true"), Value::Bool(true));
    assert_eq!(parse_value("false"), Value::Bool(false));
    assert_eq!(parse_value(" 42 "), Value::Int(42));
    assert_eq!(parse_value("-7"), Value::Int(-7));
    assert_eq!(parse_value("+7"), Value::Int(7));
    assert_eq!(parse_value("-2147483648"), Value::Int(-2147483648));
    assert_eq!(parse_value("2147483648"), Value::Str(String::from("2147483648")));
    assert_eq!(parse_value("12a"), Value::Str(String::from("12a")));
    assert_eq!(parse_value("-"), Value::Str(String::from("-")));
    assert_eq!(parse_value("TRUE"), Value::Str(String::from("TRUE")));
}

#[test]
fn lines_of_a_text() {
    assert_eq!(text_lines("a\r\nb\n\nc\n"), vec![String::from("a"), String::from("b"), String::from(""), String::from("c")]);
    assert_eq!(text_lines(""), Vec::<String>::new());
}

#[test]
fn page_lines_become_tokens() {
    let toks = template_tokens("<h1>\n<%\nlet x = 1;\n%>\nend");
    assert_eq!(toks, vec![
        Token::Ident(String::from("println")), Token::Lparen, Token::String(String::from("<h1>")), Token::Rparen,
        Token::Let, Token::Ident(String::from("x")), Token::Assign, Token::Int(1), Token::Semicolon,
        Token::Ident(String::from("println")), Token::Lparen, Token::String(String::from("end")), Token::Rparen,
    ]);
}

#[test]
fn pages_render_with_parameters() {
    let page = "Hello\n<%\nprintln(get[\"name\"] + \"!\")\nprintln(post[\"n\"] + 1)\n%>\nBye";
    let r = render_template(page, &vec![pair("name", "Ann")], &vec![pair("n", "41")], MAX_DEPTH);
    assert_eq!(r, Ok(Some(String::from("Hello\nAnn!\n42\nBye\n"))));
    let quiet = render_template("<%\nlet x = 1;\n%>", &vec![], &vec![], MAX_DEPTH);
    assert_eq!(quiet, Ok(None));
    assert_eq!(render_template("<%\n1 / 0\n%>", &vec![], &vec![], MAX_DEPTH), Err(Fault::DivisionByZero));
    assert_eq!(render_template("<%\nlet = 1\n%>", &vec![], &vec![], MAX_DEPTH), Err(Fault::Syntax));
}

#[test]
fn requests_are_routed() {
    let r = route_request("GET /a.ml?x=1 HTTP/1.1\r\nHost: h\r\n\r\n").unwrap();
    assert_eq!(r.path, "a.ml");
    assert_eq!(r.get_args, vec![pair("x", "1")]);
    assert_eq!(r.post_args, vec![]);
    let r = route_request("POST / HTTP/1.1\r\nHost: h\r\n\r\nn=5&m=6").unwrap();
    assert_eq!(r.path, "index.ml");
    assert_eq!(r.post_args, vec![pair("n", "5"), pair("m", "6")]);
    assert!(route_request("PUT / HTTP/1.1\r\n").is_none());
    assert!(route_request("GET").is_none());
    assert!(route_request("").is_none());
}

#[test]
fn responses() {
    assert_eq!(response_text(Some(String::from("hi"))), "HTTP/1.1 200 OK\r\n\r\nhi");
    assert_eq!(response_text(None), "HTTP/1.1 404 NOT FOUND\r\n\r\nNot found\r\n");
}

#[test]
fn page_depth_bounds_calls() {
    let page = "<%\nlet f = fn(n) if (n > 0) f(n - 1) else 0;\nprint(f(3))\n%>";
    assert_eq!(render_template(page, &vec![], &vec![], 4), Ok(Some(String::from("0"))));
    assert_eq!(render_template(page, &vec![], &vec![], 3), Err(Fault::StackExhausted));
}
