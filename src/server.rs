use vstd::prelude::*;
use vstd::string::StringExecFns;
use crate::ast::strings_view;
use crate::eval::{Fault, State, eval_program, fresh_env};
use crate::lexer::{Lexer, SToken, Token, digits_value, lex, tokens_view};
use crate::parser::{Parser, parse_tokens};
use crate::text_ops::{
    chars_of, chars_view, lemma_split_len, lines, split, split_chars, string_of, strip_cr, stripped, trim,
    trim_chars,
};
use crate::value::{SValue, Table, Value, bind, entries_view, set_entry, unique_names};

verus! {

/// Whether every character is an ASCII digit.
pub open spec fn all_digits(s: Seq<char>) -> bool {
    forall|i: int| 0 <= i < s.len() ==> '0' <= #[trigger] s[i] && s[i] <= '9'
}

/// A decimal integer with an optional leading `+` or `-`, as `i32` reads it
/// from text; `None` for anything else or a value out of range.
pub open spec fn parse_i32(s: Seq<char>) -> Option<i32> {
    let signed = s.len() > 0 && (s[0] == '-' || s[0] == '+');
    let digits = if signed { s.skip(1) } else { s };
    let v = if signed && s[0] == '-' { -(digits_value(digits) as int) } else { digits_value(digits) as int };
    if digits.len() > 0 && all_digits(digits) && i32::MIN <= v <= i32::MAX {
        Some(v as i32)
    } else {
        None
    }
}

/// The value that a request parameter stands for: `true`, `false`, an
/// integer (around which whitespace is allowed), or else the text itself.
pub open spec fn param_value(s: Seq<char>) -> SValue {
    if s == "true"@ {
        SValue::Bool(true)
    } else if s == "false"@ {
        SValue::Bool(false)
    } else if parse_i32(trim(s)) is Some {
        SValue::Int(parse_i32(trim(s))->0)
    } else {
        SValue::Str(s)
    }
}

/// Reads an integer as `parse_i32` describes.
fn read_i32(s: &Vec<char>) -> (r: Option<i32>)
    ensures
        r == parse_i32(s@),
{
    let signed = s.len() > 0 && (s[0] == '-' || s[0] == '+');
    let neg = signed && s[0] == '-';
    let start: usize = if signed { 1 } else { 0 };
    let ghost digits = s@.skip(start as int);
    assert(digits =~= if signed { s@.skip(1) } else { s@ });
    if start >= s.len() {
        return None;
    }
    let mut acc: u64 = 0;
    let mut over = false;
    let mut i: usize = start;
    while i < s.len()
        invariant
            start <= i <= s.len(),
            digits == s@.skip(start as int),
            digits == (if signed { s@.skip(1) } else { s@ }),
            signed == (s.len() > 0 && (s@[0] == '-' || s@[0] == '+')),
            neg == (signed && s@[0] == '-'),
            start == (if signed { 1usize } else { 0usize }),
            over == (digits_value(s@.subrange(start as int, i as int)) > 0x8000_0000),
            !over ==> acc == digits_value(s@.subrange(start as int, i as int)),
            acc <= 0x8000_0000,
            forall|j: int| start <= j < i ==> '0' <= #[trigger] s@[j] && s@[j] <= '9',
        decreases s.len() - i,
    {
        let c = s[i];
        if !('0' <= c && c <= '9') {
            assert(!all_digits(digits)) by {
                assert(digits[i - start] == c);
            }
            return None;
        }
        proof {
            let sub = s@.subrange(start as int, i + 1);
            assert(sub.drop_last() =~= s@.subrange(start as int, i as int));
        }
        if !over {
            let next = acc * 10 + ((c as u64) - ('0' as u64));
            if next > 0x8000_0000 {
                over = true;
            } else {
                acc = next;
            }
        }
        i = i + 1;
    }
    assert(s@.subrange(start as int, s.len() as int) =~= digits);
    assert(all_digits(digits)) by {
        assert forall|k: int| 0 <= k < digits.len() implies '0' <= #[trigger] digits[k] && digits[k] <= '9' by {
            assert(digits[k] == s@[start + k]);
        }
    }
    if over {
        None
    } else if neg {
        Some((0 - (acc as i64)) as i32)
    } else if acc > 0x7fff_ffff {
        None
    } else {
        Some(acc as i32)
    }
}

/// The value of a request parameter: `true`, `false`, an integer, or the
/// text itself.
pub fn parse_value(val: &str) -> (r: Value)
    ensures
        r@ == param_value(val@),
{
    let chars = chars_of(val);
    let owned = val.to_owned();
    let t = String::from_str("true");
    let f = String::from_str("false");
    if owned == t {
        Value::Bool(true)
    } else if owned == f {
        Value::Bool(false)
    } else {
        match read_i32(&trim_chars(&chars)) {
            Some(i) => Value::Int(i),
            None => Value::Str(owned),
        }
    }
}

/// A `name=value` piece: the text before the first `=`, and the text
/// between it and the next `=` (empty without one).
pub open spec fn form_pair(piece: Seq<char>) -> (Seq<char>, Seq<char>) {
    let parts = split(piece, '=');
    (parts[0], if parts.len() > 1 { parts[1] } else { Seq::empty() })
}

/// The `&`-separated pairs of a form text, around which whitespace is
/// allowed.
pub open spec fn form_args(s: Seq<char>) -> Seq<(Seq<char>, Seq<char>)> {
    split(trim(s), '&').map_values(|p: Seq<char>| form_pair(p))
}

pub open spec fn pairs_of(v: Seq<(String, String)>) -> Seq<(Seq<char>, Seq<char>)> {
    v.map_values(|p: (String, String)| (p.0@, p.1@))
}

/// The pairs of a form text: `a=1&b=2` is `[(a, 1), (b, 2)]`.
pub fn parse_form_args(args: &str) -> (r: Vec<(String, String)>)
    ensures
        pairs_of(r@) == form_args(args@),
{
    let trimmed = trim_chars(&chars_of(args));
    let pieces = split_chars(&trimmed, '&');
    let ghost want = form_args(args@);
    let mut r: Vec<(String, String)> = Vec::new();
    let mut i: usize = 0;
    while i < pieces.len()
        invariant
            i <= pieces.len(),
            chars_view(pieces@) == split(trimmed@, '&'),
            trimmed@ == trim(args@),
            want == form_args(args@),
            pairs_of(r@) == want.take(i as int),
        decreases pieces.len() - i,
    {
        let parts = split_chars(&pieces[i], '=');
        proof {
            lemma_split_len(pieces@[i as int]@, '=');
        }
        let name = string_of(&parts[0]);
        let val = if parts.len() > 1 {
            string_of(&parts[1])
        } else {
            String::new()
        };
        let ghost before = r@;
        r.push((name, val));
        proof {
            assert(want.len() == pieces.len());
            assert(pairs_of(r@) =~= pairs_of(before).push((name@, val@)));
            assert(chars_view(pieces@)[i as int] == pieces@[i as int]@);
            assert(chars_view(parts@)[0] == parts@[0]@);
            if parts.len() > 1 {
                assert(chars_view(parts@)[1] == parts@[1]@);
            }
            assert(want[i as int] == form_pair(pieces@[i as int]@));
            assert(pairs_of(r@) =~= want.take(i + 1));
        }
        i = i + 1;
    }
    assert(want.take(pieces.len() as int) =~= want);
    r
}

/// The file path and the query pairs of a request target: `/` is
/// `index.ml`, and any other path loses its leading character.
pub open spec fn get_args(target: Seq<char>) -> (Seq<char>, Seq<(Seq<char>, Seq<char>)>) {
    let parts = split(target, '?');
    let path = parts[0];
    let file = if path == "/"@ { "index.ml"@ } else if path.len() > 0 { path.skip(1) } else { path };
    (file, if parts.len() > 1 { form_args(parts[1]) } else { Seq::empty() })
}

/// The file path and the query pairs of a request target.
pub fn parse_get_args(req: &str) -> (r: (String, Vec<(String, String)>))
    ensures
        (r.0@, pairs_of(r.1@)) == get_args(req@),
{
    let parts = split_chars(&chars_of(req), '?');
    proof {
        lemma_split_len(req@, '?');
        assert(parts.len() == split(req@, '?').len());
        assert(chars_view(parts@)[0] == parts@[0]@);
    }
    let path = string_of(&parts[0]);
    let slash = String::from_str("/");
    let file = if path == slash {
        String::from_str("index.ml")
    } else if parts[0].len() > 0 {
        let mut rest: Vec<char> = Vec::new();
        let mut i: usize = 1;
        while i < parts[0].len()
            invariant
                parts.len() >= 1,
                1 <= i <= parts@[0]@.len(),
                rest@ == parts@[0]@.subrange(1, i as int),
            decreases parts@[0]@.len() - i,
        {
            rest.push(parts[0][i]);
            assert(parts@[0]@.subrange(1, i + 1) =~= parts@[0]@.subrange(1, i as int).push(parts@[0]@[i as int]));
            i = i + 1;
        }
        string_of(&rest)
    } else {
        path
    };
    let args = if parts.len() > 1 {
        assert(chars_view(parts@)[1] == parts@[1]@);
        parse_form_args(string_of(&parts[1]).as_str())
    } else {
        let v: Vec<(String, String)> = Vec::new();
        assert(pairs_of(v@) =~= Seq::empty());
        v
    };
    (file, args)
}

/// The tokens of a page: outside `<%` ... `%>` each line is printed as it
/// stands; inside, each line is code.
pub open spec fn template_from(ls: Seq<Seq<char>>, i: int, code: bool) -> Seq<SToken>
    decreases ls.len() - i,
{
    if !(0 <= i < ls.len()) {
        Seq::empty()
    } else if code {
        if ls[i] == "%>"@ {
            template_from(ls, i + 1, false)
        } else {
            lex(ls[i]) + template_from(ls, i + 1, true)
        }
    } else if ls[i] == "<%"@ {
        template_from(ls, i + 1, true)
    } else {
        seq![SToken::Ident("println"@), SToken::Lparen, SToken::Str(ls[i]), SToken::Rparen]
            + template_from(ls, i + 1, false)
    }
}

pub open spec fn template(text: Seq<char>) -> Seq<SToken> {
    template_from(lines(text), 0, false)
}

/// The lines of a text.
pub fn text_lines(text: &str) -> (r: Vec<String>)
    ensures
        strings_view(r@) == lines(text@),
{
    let mut parts = split_chars(&chars_of(text), '\n');
    proof {
        lemma_split_len(text@, '\n');
    }
    let ghost all = chars_view(parts@);
    if parts[parts.len() - 1].len() == 0 {
        parts.pop();
    }
    let ghost kept = chars_view(parts@);
    assert(kept =~= if all.last().len() == 0 { all.drop_last() } else { all });
    let mut r: Vec<String> = Vec::new();
    let mut i: usize = 0;
    while i < parts.len()
        invariant
            i <= parts.len(),
            kept == chars_view(parts@),
            strings_view(r@) == stripped(kept.take(i as int)),
        decreases parts.len() - i,
    {
        let line = &parts[i];
        let n = line.len();
        let cut = n > 0 && line[n - 1] == '\r';
        let mut s = String::new();
        let mut j: usize = 0;
        let stop = if cut { n - 1 } else { n };
        while j < stop
            invariant
                j <= stop <= n,
                n == line@.len(),
                s@ == line@.take(j as int),
            decreases stop - j,
        {
            crate::text::push_char(&mut s, line[j]);
            assert(line@.take(j + 1) =~= line@.take(j as int).push(line@[j as int]));
            j = j + 1;
        }
        proof {
            assert(kept[i as int] == line@);
            assert(s@ =~= strip_cr(line@));
        }
        let ghost before = r@;
        r.push(s);
        proof {
            assert(kept.len() == parts.len());
            assert(strings_view(before).len() == before.len());
            assert(stripped(kept.take(i as int)).len() == i);
            assert(before.len() == i);
            assert(r@.len() == i + 1);
            assert(strings_view(r@).len() == i + 1);
            assert forall|k: int| 0 <= k < i + 1 implies #[trigger] strings_view(r@)[k] == stripped(kept.take(i + 1))[k] by {
                if k < i {
                    assert(r@[k] == before[k]);
                    assert(strings_view(before)[k] == stripped(kept.take(i as int))[k]);
                }
            }
            assert(strings_view(r@) =~= stripped(kept.take(i + 1)));
        }
        i = i + 1;
    }
    assert(kept.take(parts.len() as int) =~= kept);
    r
}

/// The tokens of a page, as `template` describes them.
pub fn template_tokens(text: &str) -> (r: Vec<Token>)
    ensures
        tokens_view(r@) == template(text@),
{
    let ls = text_lines(text);
    let ghost sl = strings_view(ls@);
    let close = String::from_str("%>");
    let open = String::from_str("<%");
    let mut acc: Vec<Token> = Vec::new();
    let mut code = false;
    let mut i: usize = 0;
    assert(tokens_view(acc@) + template_from(sl, 0, false) =~= template(text@));
    while i < ls.len()
        invariant
            i <= ls.len(),
            sl == strings_view(ls@),
            sl == lines(text@),
            close@ == "%>"@,
            open@ == "<%"@,
            tokens_view(acc@) + template_from(sl, i as int, code) == template(text@),
        decreases ls.len() - i,
    {
        let ghost before = tokens_view(acc@);
        let ghost was = code;
        assert(sl[i as int] == ls@[i as int]@);
        if code {
            if ls[i] == close {
                code = false;
            } else {
                let mut toks = Lexer::lex_str(ls[i].as_str());
                let ghost tv = tokens_view(toks@);
                acc.append(&mut toks);
                assert(tokens_view(acc@) =~= before + tv);
            }
        } else if ls[i] == open {
            code = true;
        } else {
            acc.push(Token::Ident(String::from_str("println")));
            acc.push(Token::Lparen);
            acc.push(Token::String(ls[i].clone()));
            acc.push(Token::Rparen);
            assert(tokens_view(acc@) =~= before + seq![SToken::Ident("println"@), SToken::Lparen, SToken::Str(sl[i as int]), SToken::Rparen]);
        }
        proof {
            assert(tokens_view(acc@) + template_from(sl, i + 1, code) =~= before + template_from(sl, i as int, was));
        }
        i = i + 1;
    }
    assert(tokens_view(acc@) + Seq::<SToken>::empty() =~= tokens_view(acc@));
    acc
}

/// A hash of request parameters, each value read by `param_value`.
pub open spec fn param_table(ps: Seq<(Seq<char>, Seq<char>)>) -> Table
    decreases ps.len(),
{
    if ps.len() == 0 {
        Seq::empty()
    } else {
        bind(param_table(ps.drop_last()), ps.last().0, param_value(ps.last().1))
    }
}

/// The bindings a page runs with: a fresh session with the query
/// parameters bound to `get` and the form parameters to `post`.
pub open spec fn page_env(get: Seq<(Seq<char>, Seq<char>)>, post: Seq<(Seq<char>, Seq<char>)>) -> Table {
    bind(bind(fresh_env(), "get"@, SValue::Hash(param_table(get))), "post"@, SValue::Hash(param_table(post)))
}

/// What serving a page gives: the text it emitted when its last statement
/// has a value, `None` when it has none, or the fault that aborted it.
pub open spec fn render(
    text: Seq<char>,
    get: Seq<(Seq<char>, Seq<char>)>,
    post: Seq<(Seq<char>, Seq<char>)>,
    depth: nat,
) -> Result<Option<Seq<char>>, Fault> {
    match parse_tokens(template(text).push(SToken::Eof)) {
        None => Err(Fault::Syntax),
        Some(prog) => match eval_program(prog, 0, page_env(get, post), depth) {
            Ok((v, _, o)) => Ok(if v is Some { Some(o) } else { None }),
            Err(f) => Err(f),
        },
    }
}

/// A hash of request parameters.
fn param_hash(ps: &Vec<(String, String)>) -> (r: Vec<(String, Value)>)
    ensures
        entries_view(r@) == param_table(pairs_of(ps@)),
        unique_names(entries_view(r@)),
{
    let mut h: Vec<(String, Value)> = Vec::new();
    let mut i: usize = 0;
    assert(entries_view(h@) =~= Seq::empty());
    assert(pairs_of(ps@).take(0) =~= Seq::empty());
    while i < ps.len()
        invariant
            i <= ps.len(),
            entries_view(h@) == param_table(pairs_of(ps@).take(i as int)),
            unique_names(entries_view(h@)),
        decreases ps.len() - i,
    {
        set_entry(&mut h, ps[i].0.clone(), parse_value(ps[i].1.as_str()));
        assert(pairs_of(ps@).take(i + 1).drop_last() =~= pairs_of(ps@).take(i as int));
        i = i + 1;
    }
    assert(pairs_of(ps@).take(ps.len() as int) =~= pairs_of(ps@));
    h
}

/// Serves a page: its lines become tokens, which run in a fresh session
/// with the request's parameters, calls nesting at most `depth` deep.
pub fn render_template(text: &str, get: &Vec<(String, String)>, post: &Vec<(String, String)>, depth: u64) -> (r: Result<Option<String>, Fault>)
    ensures
        match render(text@, pairs_of(get@), pairs_of(post@), depth as nat) {
            Ok(Some(o)) => r is Ok && r->Ok_0 is Some && r->Ok_0->0@ == o,
            Ok(None) => r is Ok && r->Ok_0 is None,
            Err(f) => r is Err && r->Err_0 == f,
        },
{
    let tokens = template_tokens(text);
    let mut parser = Parser::from_tokens(tokens);
    let program = match parser.parse_program() {
        Ok(p) => p,
        Err(_) => {
            return Err(Fault::Syntax);
        },
    };
    let mut state = State::new();
    state.set(&String::from_str("get"), Value::Hash(param_hash(get)));
    state.set(&String::from_str("post"), Value::Hash(param_hash(post)));
    let mut output = String::new();
    match program.eval(&mut state, &mut output, depth) {
        Ok(Some(_)) => {
            assert(output@ =~= Seq::<char>::empty() + output@);
            Ok(Some(output))
        },
        Ok(None) => Ok(None),
        Err(f) => Err(f),
    }
}

/// The line after the first blank one from index `j` on, if any.
pub open spec fn body_line(ls: Seq<Seq<char>>, j: int) -> Option<Seq<char>>
    decreases ls.len() - j,
{
    if !(0 <= j < ls.len()) {
        None
    } else if trim(ls[j]).len() == 0 {
        if j + 1 < ls.len() { Some(ls[j + 1]) } else { None }
    } else {
        body_line(ls, j + 1)
    }
}

/// What a request asks for: a file path, the query pairs, and the form
/// pairs of a `POST`.
pub struct Route {
    pub path: String,
    pub get_args: Vec<(String, String)>,
    pub post_args: Vec<(String, String)>,
}

/// The route of a request: its first line is `GET TARGET ...` or
/// `POST TARGET ...`; a `POST`'s form text is the line after the first
/// blank one.
pub open spec fn route(request: Seq<char>) -> Option<(Seq<char>, Seq<(Seq<char>, Seq<char>)>, Seq<(Seq<char>, Seq<char>)>)> {
    let ls = lines(request);
    if ls.len() == 0 {
        None
    } else {
        let parts = split(ls[0], ' ');
        let post = parts[0] == "POST"@;
        if !(parts[0] == "GET"@ || post) || parts.len() < 2 {
            None
        } else {
            let (path, get) = get_args(parts[1]);
            let form = if post {
                match body_line(ls, 1) {
                    Some(l) => form_args(l),
                    None => Seq::empty(),
                }
            } else {
                Seq::empty()
            };
            Some((path, get, form))
        }
    }
}

/// The route of a request, as `route` describes it.
pub fn route_request(request: &str) -> (r: Option<Route>)
    ensures
        match route(request@) {
            Some((path, get, form)) => r is Some && r->0.path@ == path && pairs_of(r->0.get_args@) == get
                && pairs_of(r->0.post_args@) == form,
            None => r is None,
        },
{
    let ls = text_lines(request);
    if ls.len() == 0 {
        return None;
    }
    let parts = split_chars(&chars_of(ls[0].as_str()), ' ');
    proof {
        lemma_split_len(ls@[0]@, ' ');
        assert(strings_view(ls@)[0] == ls@[0]@);
        assert(chars_view(parts@)[0] == parts@[0]@);
    }
    let verb = string_of(&parts[0]);
    let post = verb == String::from_str("POST");
    if !(verb == String::from_str("GET") || post) || parts.len() < 2 {
        return None;
    }
    assert(chars_view(parts@)[1] == parts@[1]@);
    let (path, get_args) = parse_get_args(string_of(&parts[1]).as_str());
    let post_args = if post {
        let mut j: usize = 1;
        let mut found: Option<usize> = None;
        while j < ls.len()
            invariant_except_break
                found is None,
            invariant
                1 <= j <= ls.len(),
                strings_view(ls@) == lines(request@),
                body_line(lines(request@), 1) == body_line(lines(request@), j as int),
            ensures
                match found {
                    Some(k) => k < ls.len() && body_line(lines(request@), 1) == Some(lines(request@)[k as int]),
                    None => body_line(lines(request@), 1) is None,
                },
            decreases ls.len() - j,
        {
            assert(strings_view(ls@)[j as int] == ls@[j as int]@);
            let t = trim_chars(&chars_of(ls[j].as_str()));
            if t.len() == 0 {
                if j + 1 < ls.len() {
                    found = Some(j + 1);
                }
                break;
            }
            j = j + 1;
        }
        match found {
            Some(k) => {
                assert(strings_view(ls@)[k as int] == ls@[k as int]@);
                parse_form_args(ls[k].as_str())
            },
            None => {
                let v: Vec<(String, String)> = Vec::new();
                assert(pairs_of(v@) =~= Seq::empty());
                v
            },
        }
    } else {
        let v: Vec<(String, String)> = Vec::new();
        assert(pairs_of(v@) =~= Seq::empty());
        v
    };
    Some(Route { path, get_args, post_args })
}

/// The status line, a blank line and the body of a response: `200 OK` with
/// the contents, or `404 NOT FOUND` with `Not found`.
pub open spec fn response(contents: Option<Seq<char>>) -> Seq<char> {
    match contents {
        Some(c) => "HTTP/1.1 "@ + "200 OK"@ + "\r\n\r\n"@ + c,
        None => "HTTP/1.1 "@ + "404 NOT FOUND"@ + "\r\n\r\n"@ + "Not found\r\n"@,
    }
}

/// The response text for what serving a request found.
pub fn response_text(contents: Option<String>) -> (r: String)
    ensures
        r@ == response(match contents {
            Some(c) => Some(c@),
            None => None,
        }),
{
    let mut r = String::from_str("HTTP/1.1 ");
    match contents {
        Some(c) => {
            r.append("200 OK");
            r.append("\r\n\r\n");
            r.append(c.as_str());
        },
        None => {
            r.append("404 NOT FOUND");
            r.append("\r\n\r\n");
            r.append("Not found\r\n");
        },
    }
    r
}

} // verus!
