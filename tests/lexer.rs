use monkeylang::lexer::{Lexer, Token};

#[test]
fn test_read() {
    let input = String::from("hello");
    let mut lex = Lexer::new(input);
    lex.read_char();
    assert_eq!(lex.get_char().unwrap(), 'h');
    lex.read_char();
    assert_eq!(lex.get_char().unwrap(), 'e');
}

#[test]
fn test_lexer() {
    let mut lex = Lexer::new(String::from("let a+b = 32;"));
    let expected = vec![Token::Let, Token::Ident(String::from("a")),
        Token::Plus, Token::Ident(String::from("b")), Token::Assign,
        Token::Int(32), Token::Semicolon];
    let mut tokens = Vec::new();
    lex.read_char();
    let mut tok = lex.next_token();
    while tok != Token::Eof {
        tokens.push(tok);
        tok = lex.next_token();
    }
    assert_eq!(tokens, expected);
}

#[test]
fn test_lexer_2() {
    let input = "let five = 5;
                       let ten = 10;
                       let add = fn(x, y) {
                       x + y;
                       };
                       let result = add(five, ten);
                       !-/*5;
                       5 < 10 > 5;
                       if (5 < 10) {
                       return true;
                       } else {
                       return false;
                       }
                       10 == 10;
                       10 != 9;";
    let mut lex = Lexer::new(String::from(input));
    lex.read_char();
    let mut tokens = Vec::new();
    while let Some(t) = lex.next() {
        tokens.push(t);
    }
    assert_eq!(tokens.len(), 73);
    assert!(!tokens.iter().any(|t| *t == Token::Illegal));
}

#[test]
fn lexer_unprimed_answers_eof() {
    let mut lex = Lexer::new(String::from("let"));
    assert_eq!(lex.next_token(), Token::Eof);
    assert_eq!(lex.get_char(), None);
}

#[test]
fn lexer_peek_char() {
    let mut lex = Lexer::new(String::from("ab"));
    lex.read_char();
    assert_eq!(lex.peek_char(), Some('b'));
    lex.read_char();
    assert_eq!(lex.peek_char(), None);
}

#[test]
fn lexer_strings_brackets_and_colons() {
    let toks = Lexer::lex_str("{\"a b\": [1, x_y]}");
    assert_eq!(toks, vec![
        Token::Lbrace, Token::String(String::from("a b")), Token::Colon,
        Token::Lbracket, Token::Int(1), Token::Comma, Token::Ident(String::from("x_y")),
        Token::Rbracket, Token::Rbrace,
    ]);
}

#[test]
fn lexer_two_character_operators() {
    let toks = Lexer::lex_str("a == b != c = !d");
    assert_eq!(toks, vec![
        Token::Ident(String::from("a")), Token::Eq, Token::Ident(String::from("b")), Token::Ne,
        Token::Ident(String::from("c")), Token::Assign, Token::Not, Token::Ident(String::from("d")),
    ]);
}

#[test]
fn lexer_keywords() {
    let toks = Lexer::lex_str("let fn true false if else return lets");
    assert_eq!(toks, vec![
        Token::Let, Token::Function, Token::True, Token::False, Token::If, Token::Else,
        Token::Ret, Token::Ident(String::from("lets")),
    ]);
}

#[test]
fn lexer_stops_at_illegal_character() {
    let toks = Lexer::lex_str("1 + 2 # 3");
    assert_eq!(toks, vec![Token::Int(1), Token::Plus, Token::Int(2)]);
    let mut lex = Lexer::new(String::from("#"));
    lex.read_char();
    assert_eq!(lex.next_token(), Token::Illegal);
}

#[test]
fn lexer_largest_integer_and_overflow() {
    assert_eq!(Lexer::lex_str("2147483647"), vec![Token::Int(2147483647)]);
    let mut lex = Lexer::new(String::from("2147483648"));
    lex.read_char();
    assert_eq!(lex.next_token(), Token::Illegal);
}

#[test]
fn lexer_unterminated_string_is_illegal() {
    let mut lex = Lexer::new(String::from("\"abc"));
    lex.read_char();
    assert_eq!(lex.next_token(), Token::Illegal);
    assert_eq!(lex.next_token(), Token::Eof);
}

#[test]
fn lexer_empty_input() {
    assert_eq!(Lexer::lex_str(""), Vec::<Token>::new());
    assert_eq!(Lexer::lex_str("   \n\t "), Vec::<Token>::new());
}

#[test]
fn lexer_tokens_and_drain() {
    let mut lex = Lexer::new(String::from("x;"));
    lex.read_char();
    assert_eq!(lex.tokens(), vec![Token::Ident(String::from("x")), Token::Semicolon]);
    let mut lex = Lexer::new(String::from("x #"));
    lex.read_char();
    assert_eq!(lex.drain(), vec![Token::Ident(String::from("x")), Token::Illegal]);
}

#[test]
fn lexer_identifiers_stop_at_digits() {
    assert_eq!(Lexer::lex_str("x1"), vec![Token::Ident(String::from("x")), Token::Int(1)]);
}
