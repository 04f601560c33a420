use monkeylang::ast::{Expression, Statement};
use monkeylang::lexer::{Lexer, Token};
use monkeylang::parser::{Parser, ParseError, prefix_parser, infix_parser};
use monkeylang::ast::{BinOp, UnOp};

#[test]
fn identifiers_do_not_take_digits() {
    let lexer = Lexer::new(String::from("f1(2)"));
    let mut parser = Parser::new(lexer);
    assert_eq!(parser.parse_program().unwrap().statements(), &vec![
        Box::new(Statement::ExprStatement(Expression::Ident(String::from("f")))),
        Box::new(Statement::ExprStatement(Expression::Call(
            Box::new(Expression::Int(1)), vec![Expression::Int(2)]))),
    ]);
}

#[test]
fn parser_test_let() {
    let lexer = Lexer::new(String::from("let x = 10;let y=11;"));
    let mut parser = Parser::new(lexer);
    assert_eq!(parser.parse_program().unwrap().statements(), &vec![
        Box::new(Statement::Let(String::from("x"), Expression::Int(10))),
        Box::new(Statement::Let(String::from("y"), Expression::Int(11)))
    ]);
}

#[test]
fn mod_test_let() {
    let lexer = Lexer::new(String::from("let x = 10;let y=11;"));
    let mut parser = Parser::new(lexer);
    assert_eq!(parser.parse_program().unwrap().statements(), &vec![
        Box::new(Statement::Let(String::from("x"), Expression::Int(10))),
        Box::new(Statement::Let(String::from("y"), Expression::Int(11)))
    ]);
}

#[test]
fn test_ret() {
    let lexer = Lexer::new(String::from("return x; return 1;"));
    let mut parser = Parser::new(lexer);
    assert_eq!(parser.parse_program().unwrap().statements(), &vec![
        Box::new(Statement::Ret(Expression::Ident(String::from("x")))),
        Box::new(Statement::Ret(Expression::Int(1)))
    ]);
}

#[test]
fn test_prefix_stmts() {
    let lexer = Lexer::new(String::from("x; 10 ; -1;"));
    let mut parser = Parser::new(lexer);
    assert_eq!(parser.parse_program().unwrap().statements(), &vec![
        Box::new(Statement::ExprStatement(
            Expression::Ident(String::from("x")))),
        Box::new(Statement::ExprStatement(
            Expression::Int(10))),
        Box::new(Statement::ExprStatement(
            Expression::Neg(Box::new(Expression::Int(1)))))
    ]);
}

#[test]
fn test_infix_stmts() {
    let lexer = Lexer::new(String::from("x + 10;y < z; 1 + 2 * 3 / 4 - 5 == 0; -1-2-3"));
    let mut parser = Parser::new(lexer);
    assert_eq!(parser.parse_program().unwrap().statements(), &vec![
        Box::new(Statement::ExprStatement(
            Expression::Plus(
                Box::new(Expression::Ident(String::from("x"))),
                Box::new(Expression::Int(10))))),
        Box::new(Statement::ExprStatement(
            Expression::Lt(
                Box::new(Expression::Ident(String::from("y"))),
                Box::new(Expression::Ident(String::from("z")))))),
        Box::new(Statement::ExprStatement(
            Expression::Eq(
                Box::new(Expression::Minus(
                    Box::new(Expression::Plus(
                        Box::new(Expression::Int(1)),
                        Box::new(Expression::Div(
                            Box::new(Expression::Mul(
                                Box::new(Expression::Int(2)),
                                Box::new(Expression::Int(3))
                            )),
                            Box::new(Expression::Int(4)))),
                    )),
                    Box::new(Expression::Int(5))
                )),
                Box::new(Expression::Int(0))))),
        Box::new(Statement::ExprStatement(
            Expression::Minus(
                Box::new(Expression::Minus(
                    Box::new(Expression::Neg(Box::new(Expression::Int(1)))),
                    Box::new(Expression::Int(2))
                )),
                Box::new(Expression::Int(3))
            )
        ))
    ]);
}

#[test]
fn test_paren() {
    let lexer = Lexer::new(String::from("(x * (y + z)) == true"));
    let mut parser = Parser::new(lexer);
    assert_eq!(parser.parse_program().unwrap().statements(), &vec![
        Box::new(Statement::ExprStatement(Expression::Eq(Box::new(
            Expression::Mul(
                Box::new(Expression::Ident(String::from("x"))),
                Box::new(Expression::Plus(
                    Box::new(Expression::Ident(String::from("y"))),
                    Box::new(Expression::Ident(String::from("z"))),
                ))
            )
        ), Box::new(Expression::True))))
    ]);
}

#[test]
fn test_cond() {
    let lexer = Lexer::new(String::from("if (x > 0) {let x = 1; x + 1} else (1+2)*3"));
    let mut parser = Parser::new(lexer);
    assert_eq!(parser.parse_program().unwrap().statements(), &vec![
        Box::new(Statement::ExprStatement(Expression::If(
            Box::new(Expression::Gt(
                Box::new(Expression::Ident(String::from("x"))),
                Box::new(Expression::Int(0)))),
            Box::new(Statement::BlockStatement(vec![
                Statement::Let(String::from("x"), Expression::Int(1)),
                Statement::ExprStatement(Expression::Plus(
                    Box::new(Expression::Ident(String::from("x"))),
                    Box::new(Expression::Int(1)),
                )),
            ])),
            Box::new(Statement::ExprStatement(Expression::Mul(
                Box::new(Expression::Plus(
                    Box::new(Expression::Int(1)),
                    Box::new(Expression::Int(2)),
                )),
                Box::new(Expression::Int(3))))),
        )))
    ]);
}

#[test]
fn test_only_if() {
    let lexer = Lexer::new(String::from("if (((0))) let x = (1);"));
    let mut parser = Parser::new(lexer);
    assert_eq!(parser.parse_program().unwrap().statements(), &vec![
        Box::new(Statement::ExprStatement(Expression::If(
            Box::new(Expression::Int(0)),
            Box::new(Statement::Let(String::from("x"), Expression::Int(1))),
            Box::new(Statement::BlockStatement(Vec::new()))
        )))
    ]);
}

#[test]
fn test_if_precedence() {
    let lexer = Lexer::new(String::from("1 == -(if (0) 1)*2"));
    let mut parser = Parser::new(lexer);
    assert_eq!(parser.parse_program().unwrap().statements(), &vec![
        Box::new(Statement::ExprStatement(Expression::Eq(
            Box::new(Expression::Int(1)),
            Box::new(Expression::Mul(
                Box::new(Expression::Neg(
                    Box::new(Expression::If(
                        Box::new(Expression::Int(0)),
                        Box::new(Statement::ExprStatement(Expression::Int(1))),
                        Box::new(Statement::BlockStatement(Vec::new()))
                    ))
                )),
                Box::new(Expression::Int(2)),
            ))
        )))
    ]);
}

#[test]
fn test_fn_decl() {
    let lexer = Lexer::new(String::from("let x = fn() 1; let y = fn(a,b) { let x = 1; a+b }"));
    let mut parser = Parser::new(lexer);
    assert_eq!(parser.parse_program().unwrap().statements(), &vec![
        Box::new(Statement::Let(
            String::from("x"),
            Expression::FnDecl(Vec::new(), Box::new(Statement::ExprStatement(Expression::Int(1)))))),
        Box::new(Statement::Let(
            String::from("y"),
            Expression::FnDecl(
                vec![String::from("a"), String::from("b")],
                Box::new(Statement::BlockStatement(vec![
                    Statement::Let(String::from("x"), Expression::Int(1)),
                    Statement::ExprStatement(Expression::Plus(
                        Box::new(Expression::Ident(String::from("a"))),
                        Box::new(Expression::Ident(String::from("b"))),
                ))]))))),
    ]);
}

#[test]
fn parse_calls() {
    let lexer = Lexer::new(String::from("func(); funca(1); funcb(1,2);"));
    let mut parser = Parser::new(lexer);
    assert_eq!(parser.parse_program().unwrap().statements(), &vec![
        Box::new(Statement::ExprStatement(Expression::Call(
            Box::new(Expression::Ident(String::from("func"))), vec![]))),
        Box::new(Statement::ExprStatement(Expression::Call(
            Box::new(Expression::Ident(String::from("funca"))),
            vec![Expression::Int(1)]))),
        Box::new(Statement::ExprStatement(Expression::Call(
            Box::new(Expression::Ident(String::from("funcb"))),
            vec![Expression::Int(1), Expression::Int(2)]))),
    ]);
}

#[test]
fn mod_test_str() {
    let lexer = Lexer::new(String::from("let x = \"a b \" + \" c d \""));
    let mut parser = Parser::new(lexer);
    assert_eq!(parser.parse_program().unwrap().statements(), &vec![
        Box::new(Statement::Let(
            String::from("x"),
            Expression::Plus(
                Box::new(Expression::String(String::from("a b "))),
                Box::new(Expression::String(String::from(" c d ")))))),
    ]);
}

fn parse_result_is_err(src: &str) -> bool {
    let lexer = Lexer::new(String::from(src));
    let mut parser = Parser::new(lexer);
    parser.parse_program().is_err()
}

#[test]
fn unary_minus_binds_tighter_than_binary_operators() {
    let lexer = Lexer::new(String::from("-1-2-3; -1*2; -a(1)"));
    let mut parser = Parser::new(lexer);
    assert_eq!(parser.parse_program().unwrap().statements(), &vec![
        Box::new(Statement::ExprStatement(Expression::Minus(
            Box::new(Expression::Minus(
                Box::new(Expression::Neg(Box::new(Expression::Int(1)))),
                Box::new(Expression::Int(2)))),
            Box::new(Expression::Int(3))))),
        Box::new(Statement::ExprStatement(Expression::Mul(
            Box::new(Expression::Neg(Box::new(Expression::Int(1)))),
            Box::new(Expression::Int(2))))),
        Box::new(Statement::ExprStatement(Expression::Neg(Box::new(Expression::Call(
            Box::new(Expression::Ident(String::from("a"))),
            vec![Expression::Int(1)]))))),
    ]);
}

#[test]
fn parse_index_and_hash() {
    let lexer = Lexer::new(String::from("let h = {\"a\": 1, true: [2]}; h[true][0]"));
    let mut parser = Parser::new(lexer);
    assert_eq!(parser.parse_program().unwrap().statements(), &vec![
        Box::new(Statement::Let(String::from("h"), Expression::Hash(vec![
            (Expression::String(String::from("a")), Expression::Int(1)),
            (Expression::True, Expression::Array(vec![Expression::Int(2)])),
        ]))),
        Box::new(Statement::ExprStatement(Expression::Index(
            Box::new(Expression::Index(
                Box::new(Expression::Ident(String::from("h"))),
                Box::new(Expression::True))),
            Box::new(Expression::Int(0))))),
    ]);
}

#[test]
fn parse_comparison_precedence() {
    let lexer = Lexer::new(String::from("a < b == c > d != e"));
    let mut parser = Parser::new(lexer);
    let id = |s: &str| Box::new(Expression::Ident(String::from(s)));
    assert_eq!(parser.parse_program().unwrap().statements(), &vec![
        Box::new(Statement::ExprStatement(Expression::Ne(
            Box::new(Expression::Eq(
                Box::new(Expression::Lt(id("a"), id("b"))),
                Box::new(Expression::Gt(id("c"), id("d"))))),
            id("e")))),
    ]);
}

#[test]
fn parse_errors_are_reported() {
    assert!(parse_result_is_err("let x = 1 #"));
    assert!(parse_result_is_err("(1 + 2"));
    assert!(parse_result_is_err("let = 5;"));
    assert!(parse_result_is_err("let x 5;"));
    assert!(parse_result_is_err("if 1 { 2 }"));
    assert!(parse_result_is_err("fn (1) 2"));
    assert!(parse_result_is_err("[1, 2"));
    assert!(parse_result_is_err("let h = {\"a\" 1}"));
    assert!(parse_result_is_err("1 +"));
    assert!(parse_result_is_err("99999999999"));
    assert!(!parse_result_is_err(""));
}

#[test]
fn parse_empty_program() {
    let lexer = Lexer::new(String::from(""));
    let mut parser = Parser::new(lexer);
    assert_eq!(parser.parse_program().unwrap().statements(), &Vec::<Box<Statement>>::new());
}

#[test]
fn parse_from_given_tokens() {
    let mut parser = Parser::from_tokens(vec![
        Token::Ident(String::from("println")), Token::Lparen,
        Token::String(String::from("hi")), Token::Rparen,
    ]);
    assert_eq!(parser.parse_program().unwrap().statements(), &vec![
        Box::new(Statement::ExprStatement(Expression::Call(
            Box::new(Expression::Ident(String::from("println"))),
            vec![Expression::String(String::from("hi"))]))),
    ]);
}

#[test]
fn operator_tables() {
    assert_eq!(prefix_parser(&Token::Minus), Some(UnOp::Neg));
    assert_eq!(prefix_parser(&Token::Not), Some(UnOp::Not));
    assert_eq!(prefix_parser(&Token::Plus), None);
    assert_eq!(infix_parser(&Token::Div), Some(BinOp::Div));
    assert_eq!(infix_parser(&Token::Ne), Some(BinOp::Ne));
    assert_eq!(infix_parser(&Token::Lparen), None);
}

#[test]
fn not_binds_tighter_and_tiers_group() {
    let lexer = Lexer::new(String::from("!a == b; x * y + z; x + y * z; x - y - z"));
    let mut parser = Parser::new(lexer);
    let id = |s: &str| Box::new(Expression::Ident(String::from(s)));
    assert_eq!(parser.parse_program().unwrap().statements(), &vec![
        Box::new(Statement::ExprStatement(Expression::Eq(Box::new(Expression::Not(id("a"))), id("b")))),
        Box::new(Statement::ExprStatement(Expression::Plus(Box::new(Expression::Mul(id("x"), id("y"))), id("z")))),
        Box::new(Statement::ExprStatement(Expression::Plus(id("x"), Box::new(Expression::Mul(id("y"), id("z")))))),
        Box::new(Statement::ExprStatement(Expression::Minus(Box::new(Expression::Minus(id("x"), id("y"))), id("z")))),
    ]);
}

#[test]
fn parser_takes_two_tokens_from_the_lexer() {
    let parser = Parser::new(Lexer::new(String::from(";;;")));
    let mut lexer = parser.into_lexer().unwrap();
    assert_eq!(lexer.next_token(), Token::Semicolon);
    assert_eq!(lexer.next_token(), Token::Eof);
    let parser = Parser::new(Lexer::new(String::from("a b # c")));
    let mut lexer = parser.into_lexer().unwrap();
    assert_eq!(lexer.next_token(), Token::Illegal);
    assert_eq!(lexer.next_token(), Token::Ident(String::from("c")));
    assert!(Parser::from_tokens(vec![Token::Int(1)]).into_lexer().is_none());
}

#[test]
fn parse_stops_at_an_illegal_token() {
    let mut parser = Parser::new(Lexer::new(String::from("a b # c")));
    assert!(parser.parse_program().is_err());
}
