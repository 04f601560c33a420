use vstd::prelude::*;
use vstd::string::StrSliceExecFns;
use crate::text::{alphabetic, whitespace, push_char, is_letter, is_space};

verus! {

/// A token of the language.
#[derive(Debug, PartialEq)]
pub enum Token {
    Illegal,
    Eof,
    Ident(String),
    Int(i32),
    String(String),
    Assign,
    Plus,
    Comma,
    Semicolon,
    Colon,
    Lparen,
    Rparen,
    Lbrace,
    Rbrace,
    Lbracket,
    Rbracket,
    Function,
    Let,
    Eq,
    Not,
    Ne,
    Minus,
    Div,
    Mul,
    Lt,
    Gt,
    True,
    False,
    If,
    Else,
    Ret,
}

/// Mathematical model of a token: text payloads are character sequences.
pub ghost enum SToken {
    Illegal,
    Eof,
    Ident(Seq<char>),
    Int(i32),
    Str(Seq<char>),
    Assign,
    Plus,
    Comma,
    Semicolon,
    Colon,
    Lparen,
    Rparen,
    Lbrace,
    Rbrace,
    Lbracket,
    Rbracket,
    Function,
    Let,
    Eq,
    Not,
    Ne,
    Minus,
    Div,
    Mul,
    Lt,
    Gt,
    True,
    False,
    If,
    Else,
    Ret,
}

impl View for Token {
    type V = SToken;

    open spec fn view(&self) -> SToken {
        match self {
            Token::Illegal => SToken::Illegal,
            Token::Eof => SToken::Eof,
            Token::Ident(s) => SToken::Ident(s@),
            Token::Int(i) => SToken::Int(*i),
            Token::String(s) => SToken::Str(s@),
            Token::Assign => SToken::Assign,
            Token::Plus => SToken::Plus,
            Token::Comma => SToken::Comma,
            Token::Semicolon => SToken::Semicolon,
            Token::Colon => SToken::Colon,
            Token::Lparen => SToken::Lparen,
            Token::Rparen => SToken::Rparen,
            Token::Lbrace => SToken::Lbrace,
            Token::Rbrace => SToken::Rbrace,
            Token::Lbracket => SToken::Lbracket,
            Token::Rbracket => SToken::Rbracket,
            Token::Function => SToken::Function,
            Token::Let => SToken::Let,
            Token::Eq => SToken::Eq,
            Token::Not => SToken::Not,
            Token::Ne => SToken::Ne,
            Token::Minus => SToken::Minus,
            Token::Div => SToken::Div,
            Token::Mul => SToken::Mul,
            Token::Lt => SToken::Lt,
            Token::Gt => SToken::Gt,
            Token::True => SToken::True,
            Token::False => SToken::False,
            Token::If => SToken::If,
            Token::Else => SToken::Else,
            Token::Ret => SToken::Ret,
        }
    }
}

impl Token {
    /// A copy of the token.
    pub fn duplicate(&self) -> (r: Token)
        ensures
            r@ == self@,
    {
        match self {
            Token::Ident(s) => Token::Ident(s.clone()),
            Token::Int(i) => Token::Int(*i),
            Token::String(s) => Token::String(s.clone()),
            Token::Illegal => Token::Illegal,
            Token::Eof => Token::Eof,
            Token::Assign => Token::Assign,
            Token::Plus => Token::Plus,
            Token::Comma => Token::Comma,
            Token::Semicolon => Token::Semicolon,
            Token::Colon => Token::Colon,
            Token::Lparen => Token::Lparen,
            Token::Rparen => Token::Rparen,
            Token::Lbrace => Token::Lbrace,
            Token::Rbrace => Token::Rbrace,
            Token::Lbracket => Token::Lbracket,
            Token::Rbracket => Token::Rbracket,
            Token::Function => Token::Function,
            Token::Let => Token::Let,
            Token::Eq => Token::Eq,
            Token::Not => Token::Not,
            Token::Ne => Token::Ne,
            Token::Minus => Token::Minus,
            Token::Div => Token::Div,
            Token::Mul => Token::Mul,
            Token::Lt => Token::Lt,
            Token::Gt => Token::Gt,
            Token::True => Token::True,
            Token::False => Token::False,
            Token::If => Token::If,
            Token::Else => Token::Else,
            Token::Ret => Token::Ret,
        }
    }
}

/// The character classes that the lexer scans runs of.
pub ghost enum CharClass {
    Word,
    Digit,
    Space,
    NotQuote,
}

pub open spec fn is_digit(c: char) -> bool {
    '0' <= c && c <= '9'
}

pub open spec fn is_word_char(c: char) -> bool {
    is_letter(c) || c == '_'
}

pub open spec fn in_class(c: char, cls: CharClass) -> bool {
    match cls {
        CharClass::Word => is_word_char(c),
        CharClass::Digit => is_digit(c),
        CharClass::Space => is_space(c),
        CharClass::NotQuote => c != '"',
    }
}

/// The end of the longest run of characters of class `cls` that starts at `i`.
pub open spec fn run_end(input: Seq<char>, i: int, cls: CharClass) -> int
    decreases input.len() - i,
{
    if 0 <= i < input.len() && in_class(input[i], cls) {
        run_end(input, i + 1, cls)
    } else {
        i
    }
}

/// The value of a run of decimal digits.
pub open spec fn digits_value(s: Seq<char>) -> nat
    decreases s.len(),
{
    if s.len() == 0 {
        0
    } else {
        digits_value(s.drop_last()) * 10 + (s.last() as nat - '0' as nat) as nat
    }
}

/// A scanned word: a keyword token or an identifier.
pub open spec fn word_token(s: Seq<char>) -> SToken {
    if s == "let"@ {
        SToken::Let
    } else if s == "fn"@ {
        SToken::Function
    } else if s == "true"@ {
        SToken::True
    } else if s == "false"@ {
        SToken::False
    } else if s == "if"@ {
        SToken::If
    } else if s == "else"@ {
        SToken::Else
    } else if s == "return"@ {
        SToken::Ret
    } else {
        SToken::Ident(s)
    }
}

/// The token of a punctuation character that stands alone.
pub open spec fn punct(c: char) -> Option<SToken> {
    if c == '+' {
        Some(SToken::Plus)
    } else if c == ',' {
        Some(SToken::Comma)
    } else if c == ';' {
        Some(SToken::Semicolon)
    } else if c == ':' {
        Some(SToken::Colon)
    } else if c == '(' {
        Some(SToken::Lparen)
    } else if c == ')' {
        Some(SToken::Rparen)
    } else if c == '{' {
        Some(SToken::Lbrace)
    } else if c == '}' {
        Some(SToken::Rbrace)
    } else if c == '[' {
        Some(SToken::Lbracket)
    } else if c == ']' {
        Some(SToken::Rbracket)
    } else if c == '-' {
        Some(SToken::Minus)
    } else if c == '/' {
        Some(SToken::Div)
    } else if c == '*' {
        Some(SToken::Mul)
    } else if c == '<' {
        Some(SToken::Lt)
    } else if c == '>' {
        Some(SToken::Gt)
    } else {
        None
    }
}

/// The token that starts at or after index `i` (after whitespace), and the
/// index of the first character after it.
pub open spec fn lex_token(input: Seq<char>, i: int) -> (SToken, int) {
    let k = run_end(input, i, CharClass::Space);
    if k >= input.len() {
        (SToken::Eof, input.len() as int)
    } else {
        let c = input[k];
        let eq_next = k + 1 < input.len() && input[k + 1] == '=';
        if c == '=' {
            if eq_next { (SToken::Eq, k + 2) } else { (SToken::Assign, k + 1) }
        } else if c == '!' {
            if eq_next { (SToken::Ne, k + 2) } else { (SToken::Not, k + 1) }
        } else if punct(c) is Some {
            (punct(c)->0, k + 1)
        } else if c == '"' {
            let e = run_end(input, k + 1, CharClass::NotQuote);
            if e < input.len() {
                (SToken::Str(input.subrange(k + 1, e)), e + 1)
            } else {
                (SToken::Illegal, input.len() as int)
            }
        } else if is_word_char(c) {
            let e = run_end(input, k, CharClass::Word);
            (word_token(input.subrange(k, e)), e)
        } else if is_digit(c) {
            let e = run_end(input, k, CharClass::Digit);
            let v = digits_value(input.subrange(k, e));
            if v <= i32::MAX {
                (SToken::Int(v as i32), e)
            } else {
                (SToken::Illegal, e)
            }
        } else {
            (SToken::Illegal, k + 1)
        }
    }
}

/// Whether a token ends a token stream.
pub open spec fn is_terminal(t: SToken) -> bool {
    t is Eof || t is Illegal
}

/// The tokens from index `i` on, up to and without the first terminal one.
pub open spec fn tokens_from(input: Seq<char>, i: int) -> Seq<SToken>
    decreases input.len() - i,
{
    if 0 <= i <= input.len() {
        let (t, j) = lex_token(input, i);
        if is_terminal(t) {
            Seq::empty()
        } else {
            proof {
                lemma_lex_progress(input, i);
            }
            seq![t] + tokens_from(input, j)
        }
    } else {
        Seq::empty()
    }
}

/// The terminal token that ends the stream started at index `i`.
pub open spec fn terminal_from(input: Seq<char>, i: int) -> SToken
    decreases input.len() - i,
{
    if 0 <= i <= input.len() {
        let (t, j) = lex_token(input, i);
        if is_terminal(t) {
            t
        } else {
            proof {
                lemma_lex_progress(input, i);
            }
            terminal_from(input, j)
        }
    } else {
        SToken::Eof
    }
}

/// Every token from index `i` on, an `Illegal` one included, up to and with
/// the first `Eof`: what a lexer hands out one call at a time.
pub open spec fn full_stream(input: Seq<char>, i: int) -> Seq<SToken>
    decreases input.len() - i,
{
    if 0 <= i <= input.len() {
        let (t, j) = lex_token(input, i);
        if t is Eof {
            seq![SToken::Eof]
        } else {
            proof {
                lemma_lex_progress(input, i);
            }
            seq![t] + full_stream(input, j)
        }
    } else {
        seq![SToken::Eof]
    }
}

/// A stream ends with its only `Eof`.
pub proof fn lemma_full_stream(input: Seq<char>, i: int)
    ensures
        full_stream(input, i).len() >= 1,
        full_stream(input, i).last() == SToken::Eof,
        i >= input.len() ==> full_stream(input, i) == seq![SToken::Eof],
    decreases input.len() - i,
{
    if 0 <= i <= input.len() {
        lemma_lex_progress(input, i);
        let (t, j) = lex_token(input, i);
        if !(t is Eof) {
            lemma_full_stream(input, j);
            assert((seq![t] + full_stream(input, j)).last() == full_stream(input, j).last());
        }
    }
}

/// The index after the first terminal token of the stream started at `i`.
pub open spec fn stream_end(input: Seq<char>, i: int) -> int
    decreases input.len() - i,
{
    if 0 <= i <= input.len() {
        let (t, j) = lex_token(input, i);
        if is_terminal(t) {
            j
        } else {
            proof {
                lemma_lex_progress(input, i);
            }
            stream_end(input, j)
        }
    } else {
        i
    }
}

/// The tokens of a whole text, up to and without the first terminal one.
pub open spec fn lex(input: Seq<char>) -> Seq<SToken> {
    tokens_from(input, 0)
}

pub proof fn lemma_run_end_bounds(input: Seq<char>, i: int, cls: CharClass)
    requires
        0 <= i <= input.len(),
    ensures
        i <= run_end(input, i, cls) <= input.len(),
        run_end(input, i, cls) < input.len() ==> !in_class(input[run_end(input, i, cls)], cls),
    decreases input.len() - i,
{
    if i < input.len() && in_class(input[i], cls) {
        lemma_run_end_bounds(input, i + 1, cls);
    }
}

/// Each token but a terminal one consumes at least one character.
pub proof fn lemma_lex_progress(input: Seq<char>, i: int)
    requires
        0 <= i <= input.len(),
    ensures
        i <= lex_token(input, i).1 <= input.len(),
        !is_terminal(lex_token(input, i).0) ==> i < lex_token(input, i).1,
        !(lex_token(input, i).0 is Eof) ==> i < lex_token(input, i).1,
        lex_token(input, i).0 is Eof ==> lex_token(input, i).1 == input.len(),
{
    let k = run_end(input, i, CharClass::Space);
    lemma_run_end_bounds(input, i, CharClass::Space);
    if k < input.len() {
        lemma_run_end_bounds(input, k + 1, CharClass::NotQuote);
        lemma_run_end_bounds(input, k, CharClass::Word);
        lemma_run_end_bounds(input, k, CharClass::Digit);
    }
}

/// The state of a lexer: its input, the index of the next character to read,
/// and the current character (`None` before the first read and at the end).
pub ghost struct LexerState {
    pub input: Seq<char>,
    pub read_pos: int,
    pub ch: Option<char>,
}

/// The state of a lexer whose current character is at index `j` (at the end
/// when `j` is the input's length).
pub open spec fn at_index(input: Seq<char>, j: int) -> LexerState {
    if j < input.len() {
        LexerState { input, read_pos: j + 1, ch: Some(input[j]) }
    } else {
        LexerState { input, read_pos: input.len() as int, ch: None }
    }
}

/// The index from which the next token is scanned.
pub open spec fn cursor(s: LexerState) -> int {
    if s.ch is Some {
        s.read_pos - 1
    } else {
        s.input.len() as int
    }
}

/// Scans text into tokens, one character of lookahead at a time.
pub struct Lexer {
    input: Vec<char>,
    read_pos: usize,
    ch: Option<char>,
}

impl View for Lexer {
    type V = LexerState;

    closed spec fn view(&self) -> LexerState {
        LexerState { input: self.input@, read_pos: self.read_pos as int, ch: self.ch }
    }
}

/// Whether two texts hold the same characters.
fn same_text(a: &str, b: &str) -> (r: bool)
    ensures
        r == (a@ == b@),
{
    let n = a.unicode_len();
    if n != b.unicode_len() {
        return false;
    }
    let mut i: usize = 0;
    while i < n
        invariant
            n == a@.len(),
            n == b@.len(),
            i <= n,
            forall|j: int| 0 <= j < i ==> a@[j] == b@[j],
        decreases n - i,
    {
        if a.get_char(i) != b.get_char(i) {
            return false;
        }
        i = i + 1;
    }
    assert(a@ =~= b@);
    true
}

/// The keyword token spelled by `ident`, if it is one.
fn keyword(ident: &String) -> (r: Option<Token>)
    ensures
        match r {
            Some(t) => word_token(ident@) == t@ && !(t@ is Ident),
            None => word_token(ident@) == SToken::Ident(ident@),
        },
{
    let s = ident.as_str();
    if same_text(s, "let") {
        Some(Token::Let)
    } else if same_text(s, "fn") {
        Some(Token::Function)
    } else if same_text(s, "true") {
        Some(Token::True)
    } else if same_text(s, "false") {
        Some(Token::False)
    } else if same_text(s, "if") {
        Some(Token::If)
    } else if same_text(s, "else") {
        Some(Token::Else)
    } else if same_text(s, "return") {
        Some(Token::Ret)
    } else {
        None
    }
}

/// The token of a punctuation character that stands alone.
fn punct_token(c: char) -> (r: Option<Token>)
    ensures
        match r {
            Some(t) => punct(c) == Some(t@),
            None => punct(c) is None,
        },
{
    match c {
        '+' => Some(Token::Plus),
        ',' => Some(Token::Comma),
        ';' => Some(Token::Semicolon),
        ':' => Some(Token::Colon),
        '(' => Some(Token::Lparen),
        ')' => Some(Token::Rparen),
        '{' => Some(Token::Lbrace),
        '}' => Some(Token::Rbrace),
        '[' => Some(Token::Lbracket),
        ']' => Some(Token::Rbracket),
        '-' => Some(Token::Minus),
        '/' => Some(Token::Div),
        '*' => Some(Token::Mul),
        '<' => Some(Token::Lt),
        '>' => Some(Token::Gt),
        _ => None,
    }
}

impl Lexer {
    /// Where a consistent lexer stands: at most at the end of its input.
    pub proof fn lemma_cursor(&self)
        requires
            self.wf(),
        ensures
            0 <= self@.read_pos <= self@.input.len(),
            0 <= cursor(self@) <= self@.input.len(),
    {
    }

    /// The lexer's internal consistency.
    pub closed spec fn wf(&self) -> bool {
        &&& self.read_pos <= self.input.len()
        &&& self.ch is Some ==> self.read_pos >= 1 && self.ch == Some(self.input@[self.read_pos - 1])
    }

    /// A lexer over `input`, before its first character: `read_char` moves
    /// to it.
    pub fn new(input: String) -> (r: Lexer)
        ensures
            r.wf(),
            r@ == (LexerState { input: input@, read_pos: 0, ch: None }),
    {
        let mut chars: Vec<char> = Vec::new();
        let s = input.as_str();
        for c in it: s.chars()
            invariant
                chars@ == it.seq().take(it.index() as int),
        {
            chars.push(c);
        }
        proof {
            assert(chars@ =~= s@);
        }
        Lexer { input: chars, read_pos: 0, ch: None }
    }

    /// Moves to the next character; at the end the current character becomes
    /// `None` and the position stays.
    pub fn read_char(&mut self)
        requires
            old(self).wf(),
        ensures
            final(self).wf(),
            final(self)@.input == old(self)@.input,
            old(self)@.read_pos < old(self)@.input.len() ==> final(self)@ == at_index(
                old(self)@.input,
                old(self)@.read_pos,
            ),
            old(self)@.read_pos >= old(self)@.input.len() ==> final(self)@ == (LexerState {
                ch: None,
                ..old(self)@
            }),
    {
        if self.read_pos < self.input.len() {
            self.ch = Some(self.input[self.read_pos]);
            self.read_pos = self.read_pos + 1;
        } else {
            self.ch = None;
        }
    }

    /// The current character.
    pub fn get_char(&self) -> (r: Option<char>)
        ensures
            r == self@.ch,
    {
        self.ch
    }

    /// The character after the current one, if any.
    pub fn peek_char(&self) -> (r: Option<char>)
        requires
            self.wf(),
        ensures
            r == (if self@.read_pos < self@.input.len() {
                Some(self@.input[self@.read_pos])
            } else {
                None
            }),
    {
        if self.read_pos < self.input.len() {
            Some(self.input[self.read_pos])
        } else {
            None
        }
    }

    /// Scans the run of word characters that starts at the current character.
    fn read_ident(&mut self) -> (r: String)
        requires
            old(self).wf(),
            old(self)@.ch is Some,
        ensures
            final(self).wf(),
            ({
                let input = old(self)@.input;
                let k = cursor(old(self)@);
                let e = run_end(input, k, CharClass::Word);
                &&& r@ == input.subrange(k, e)
                &&& final(self)@ == at_index(input, e)
            }),
    {
        let ghost input = self@.input;
        let ghost k = cursor(self@);
        let mut ident = String::new();
        let ghost mut cur: int = k;
        proof {
            lemma_run_end_bounds(input, k, CharClass::Word);
        }
        loop
            invariant
                self.wf(),
                self@.input == input,
                k <= cur <= run_end(input, k, CharClass::Word),
                run_end(input, cur, CharClass::Word) == run_end(input, k, CharClass::Word),
                run_end(input, k, CharClass::Word) <= input.len(),
                ident@ == input.subrange(k, cur),
                self@ == at_index(input, cur),
            ensures
                cur == run_end(input, k, CharClass::Word),
            decreases input.len() - cur,
        {
            match self.ch {
                Some(c) => {
                    if !(alphabetic(c) || c == '_') {
                        assert(run_end(input, cur, CharClass::Word) == cur);
                        break;
                    }
                    push_char(&mut ident, c);
                    self.read_char();
                    proof {
                        lemma_run_end_bounds(input, cur + 1, CharClass::Word);
                        assert(input.subrange(k, cur + 1) =~= input.subrange(k, cur).push(c));
                        cur = cur + 1;
                    }
                },
                None => {
                    assert(run_end(input, cur, CharClass::Word) == cur);
                    break;
                },
            }
        }
        ident
    }

    /// Scans the run of decimal digits that starts at the current character;
    /// `None` when its value does not fit an `i32`.
    fn read_num(&mut self) -> (r: Option<i32>)
        requires
            old(self).wf(),
            old(self)@.ch is Some,
        ensures
            final(self).wf(),
            ({
                let input = old(self)@.input;
                let k = cursor(old(self)@);
                let e = run_end(input, k, CharClass::Digit);
                let v = digits_value(input.subrange(k, e));
                &&& r == (if v <= i32::MAX { Some(v as i32) } else { None })
                &&& final(self)@ == at_index(input, e)
            }),
    {
        let ghost input = self@.input;
        let ghost k = cursor(self@);
        let mut acc: u32 = 0;
        let mut over = false;
        let ghost mut cur: int = k;
        proof {
            lemma_run_end_bounds(input, k, CharClass::Digit);
        }
        loop
            invariant
                self.wf(),
                self@.input == input,
                k <= cur <= run_end(input, k, CharClass::Digit),
                run_end(input, cur, CharClass::Digit) == run_end(input, k, CharClass::Digit),
                run_end(input, k, CharClass::Digit) <= input.len(),
                over == (digits_value(input.subrange(k, cur)) > i32::MAX),
                !over ==> acc == digits_value(input.subrange(k, cur)),
                self@ == at_index(input, cur),
            ensures
                cur == run_end(input, k, CharClass::Digit),
            decreases input.len() - cur,
        {
            match self.ch {
                Some(c) => {
                    if !('0' <= c && c <= '9') {
                        assert(run_end(input, cur, CharClass::Digit) == cur);
                        break;
                    }
                    let d = (c as u32) - ('0' as u32);
                    proof {
                        let sub = input.subrange(k, cur + 1);
                        assert(sub.drop_last() =~= input.subrange(k, cur));
                        assert(digits_value(sub) == digits_value(input.subrange(k, cur)) * 10 + d);
                    }
                    if !over {
                        let next: u64 = (acc as u64) * 10 + (d as u64);
                        if next > 2147483647 {
                            over = true;
                        } else {
                            acc = next as u32;
                        }
                    }
                    self.read_char();
                    proof {
                        lemma_run_end_bounds(input, cur + 1, CharClass::Digit);
                        cur = cur + 1;
                    }
                },
                None => {
                    assert(run_end(input, cur, CharClass::Digit) == cur);
                    break;
                },
            }
        }
        if over {
            None
        } else {
            Some(acc as i32)
        }
    }

    /// Scans a quoted text; the current character is the opening quote.
    fn read_string(&mut self) -> (r: Token)
        requires
            old(self).wf(),
            old(self)@.ch == Some('"'),
        ensures
            final(self).wf(),
            ({
                let input = old(self)@.input;
                let e = run_end(input, cursor(old(self)@) + 1, CharClass::NotQuote);
                if e < input.len() {
                    &&& r@ == SToken::Str(input.subrange(cursor(old(self)@) + 1, e))
                    &&& final(self)@ == at_index(input, e + 1)
                } else {
                    &&& r@ == SToken::Illegal
                    &&& final(self)@ == at_index(input, input.len() as int)
                }
            }),
    {
        let ghost input = self@.input;
        let ghost k = cursor(self@);
        self.read_char();
        let mut text = String::new();
        let ghost mut cur: int = k + 1;
        proof {
            lemma_run_end_bounds(input, k + 1, CharClass::NotQuote);
        }
        loop
            invariant
                self.wf(),
                self@.input == input,
                k + 1 <= cur <= run_end(input, k + 1, CharClass::NotQuote),
                run_end(input, cur, CharClass::NotQuote) == run_end(input, k + 1, CharClass::NotQuote),
                run_end(input, k + 1, CharClass::NotQuote) <= input.len(),
                text@ == input.subrange(k + 1, cur),
                self@ == at_index(input, cur),
            ensures
                cur == run_end(input, k + 1, CharClass::NotQuote),
            decreases input.len() - cur,
        {
            match self.ch {
                Some(c) => {
                    if c == '"' {
                        assert(run_end(input, cur, CharClass::NotQuote) == cur);
                        break;
                    }
                    push_char(&mut text, c);
                    self.read_char();
                    proof {
                        lemma_run_end_bounds(input, cur + 1, CharClass::NotQuote);
                        assert(input.subrange(k + 1, cur + 1) =~= input.subrange(k + 1, cur).push(c));
                        cur = cur + 1;
                    }
                },
                None => {
                    assert(run_end(input, cur, CharClass::NotQuote) == cur);
                    break;
                },
            }
        }
        match self.ch {
            Some(_) => {
                self.read_char();
                Token::String(text)
            },
            None => Token::Illegal,
        }
    }

    /// Scans the next token, skipping whitespace before it. A lexer that has
    /// no current character (before its first read, or at the end) answers
    /// `Eof` and stays as it is.
    pub fn next_token(&mut self) -> (r: Token)
        requires
            old(self).wf(),
        ensures
            final(self).wf(),
            final(self)@.input == old(self)@.input,
            old(self)@.ch is None ==> r@ == SToken::Eof && final(self)@ == old(self)@,
            old(self)@.ch is Some ==> ({
                let (t, j) = lex_token(old(self)@.input, cursor(old(self)@));
                &&& r@ == t
                &&& final(self)@ == at_index(old(self)@.input, j)
            }),
    {
        if self.ch.is_none() {
            return Token::Eof;
        }
        let ghost input = self@.input;
        let ghost i = cursor(self@);
        let ghost mut cur: int = i;
        proof {
            lemma_run_end_bounds(input, i, CharClass::Space);
        }
        loop
            invariant
                self.wf(),
                self@.input == input,
                i <= cur <= run_end(input, i, CharClass::Space),
                run_end(input, cur, CharClass::Space) == run_end(input, i, CharClass::Space),
                run_end(input, i, CharClass::Space) <= input.len(),
                self@ == at_index(input, cur),
            ensures
                cur == run_end(input, i, CharClass::Space),
            decreases input.len() - cur,
        {
            match self.ch {
                Some(c) => {
                    if !whitespace(c) {
                        assert(run_end(input, cur, CharClass::Space) == cur);
                        break;
                    }
                    self.read_char();
                    proof {
                        lemma_run_end_bounds(input, cur + 1, CharClass::Space);
                        cur = cur + 1;
                    }
                },
                None => {
                    assert(run_end(input, cur, CharClass::Space) == cur);
                    break;
                },
            }
        }
        let c = match self.ch {
            Some(c) => c,
            None => {
                return Token::Eof;
            },
        };
        assert(c == input[cur]);
        if c == '=' || c == '!' {
            let two = match self.peek_char() {
                Some(n) => n == '=',
                None => false,
            };
            if two {
                self.read_char();
            }
            self.read_char();
            if c == '=' {
                if two { Token::Eq } else { Token::Assign }
            } else {
                if two { Token::Ne } else { Token::Not }
            }
        } else if let Some(t) = punct_token(c) {
            self.read_char();
            t
        } else if c == '"' {
            self.read_string()
        } else if alphabetic(c) || c == '_' {
            let ident = self.read_ident();
            match keyword(&ident) {
                Some(t) => t,
                None => Token::Ident(ident),
            }
        } else if '0' <= c && c <= '9' {
            match self.read_num() {
                Some(v) => Token::Int(v),
                None => Token::Illegal,
            }
        } else {
            self.read_char();
            Token::Illegal
        }
    }

    /// The next token, or `None` at a terminal one (`Eof` or `Illegal`).
    pub fn next(&mut self) -> (r: Option<Token>)
        requires
            old(self).wf(),
        ensures
            final(self).wf(),
            final(self)@.input == old(self)@.input,
            old(self)@.ch is None ==> r is None && final(self)@ == old(self)@,
            old(self)@.ch is Some ==> ({
                let (t, j) = lex_token(old(self)@.input, cursor(old(self)@));
                &&& final(self)@ == at_index(old(self)@.input, j)
                &&& if is_terminal(t) { r is None } else { r is Some && r->0@ == t }
            }),
    {
        let tok = self.next_token();
        match tok {
            Token::Eof | Token::Illegal => None,
            _ => Some(tok),
        }
    }

    /// All tokens up to the first terminal one, which is kept as the last
    /// element (`[Eof]` for a lexer with no current character).
    pub fn drain(&mut self) -> (r: Vec<Token>)
        requires
            old(self).wf(),
        ensures
            final(self).wf(),
            old(self)@.ch is None ==> tokens_view(r@) == seq![SToken::Eof] && final(self)@ == old(self)@,
            old(self)@.ch is Some ==> tokens_view(r@) == tokens_from(old(self)@.input, cursor(old(self)@))
                + seq![terminal_from(old(self)@.input, cursor(old(self)@))],
            old(self)@.ch is Some ==> final(self)@ == at_index(
                old(self)@.input,
                stream_end(old(self)@.input, cursor(old(self)@)),
            ),
    {
        let mut v: Vec<Token> = Vec::new();
        if self.ch.is_none() {
            v.push(Token::Eof);
            assert(tokens_view(v@) =~= seq![SToken::Eof]);
            return v;
        }
        let ghost input = self@.input;
        let ghost c0 = cursor(self@);
        let ghost mut cur: int = c0;
        loop
            invariant_except_break
                self@ == at_index(input, cur),
                tokens_view(v@) + tokens_from(input, cur) == tokens_from(input, c0),
            invariant
                self.wf(),
                self@.input == input,
                0 <= cur <= input.len(),
                terminal_from(input, cur) == terminal_from(input, c0),
                stream_end(input, cur) == stream_end(input, c0),
            ensures
                tokens_view(v@) == tokens_from(input, c0) + seq![terminal_from(input, c0)],
                self@ == at_index(input, stream_end(input, c0)),
            decreases input.len() - cur,
        {
            let ghost before = v@;
            let tok = self.next_token();
            proof {
                lemma_lex_progress(input, cur);
            }
            let done = match tok {
                Token::Eof | Token::Illegal => true,
                _ => false,
            };
            v.push(tok);
            if done {
                proof {
                    assert(tokens_from(input, cur) == Seq::<SToken>::empty());
                    assert(tokens_view(v@) =~= tokens_view(before).push(terminal_from(input, cur)));
                    assert(tokens_view(before) =~= tokens_view(before) + tokens_from(input, cur));
                }
                break;
            }
            proof {
                let j = lex_token(input, cur).1;
                assert(tokens_view(v@) =~= tokens_view(before).push(lex_token(input, cur).0));
                assert(tokens_from(input, cur) == seq![lex_token(input, cur).0] + tokens_from(input, j));
                assert(tokens_view(v@) + tokens_from(input, j) =~= tokens_view(before) + tokens_from(input, cur));
                cur = j;
            }
        }
        v
    }

    /// All tokens up to and without the first terminal one.
    pub fn tokens(&mut self) -> (r: Vec<Token>)
        requires
            old(self).wf(),
        ensures
            final(self).wf(),
            old(self)@.ch is None ==> r@.len() == 0,
            old(self)@.ch is Some ==> tokens_view(r@) == tokens_from(old(self)@.input, cursor(old(self)@)),
    {
        let mut v = self.drain();
        let ghost all = v@;
        v.pop();
        proof {
            assert(tokens_view(v@) =~= tokens_view(all).drop_last());
        }
        v
    }

    /// The tokens of a text, up to and without the first terminal one.
    pub fn lex_str(s: &str) -> (r: Vec<Token>)
        ensures
            tokens_view(r@) == lex(s@),
    {
        let mut lexer = Lexer::new(s.to_owned());
        lexer.read_char();
        if lexer.ch.is_none() {
            let v: Vec<Token> = Vec::new();
            assert(tokens_view(v@) =~= lex(s@));
            return v;
        }
        lexer.tokens()
    }
}

pub open spec fn tokens_view(v: Seq<Token>) -> Seq<SToken> {
    v.map_values(|t: Token| t@)
}

} // verus!
