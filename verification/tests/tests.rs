use combine_proc_macro::diagnostic::Incomplete;
use combine_proc_macro::input::{Delimiter, Ident, Input, Literal, Punct, Token, TokenTree};
use combine_proc_macro::parser::{
    delim, expected_message, ident, keyword, literal, punct, MatchError, Matcher,
};
use combine_proc_macro::input::SpanPosition;
use combine_proc_macro::text::usize_to_string;
use std::str::FromStr;

fn convert_tree(tt: proc_macro2::TokenTree) -> TokenTree {
    match tt {
        proc_macro2::TokenTree::Ident(i) => {
            let span = i.span();
            TokenTree::Ident(Ident { text: i.to_string(), span })
        }
        proc_macro2::TokenTree::Literal(l) => {
            let span = l.span();
            TokenTree::Literal(Literal { text: l.to_string(), span })
        }
        proc_macro2::TokenTree::Punct(p) => TokenTree::Punct(Punct {
            ch: p.as_char(),
            span: p.span(),
        }),
        proc_macro2::TokenTree::Group(g) => TokenTree::Group(
            match g.delimiter() {
                proc_macro2::Delimiter::Parenthesis => Delimiter::Parenthesis,
                proc_macro2::Delimiter::Brace => Delimiter::Brace,
                proc_macro2::Delimiter::Bracket => Delimiter::Bracket,
                proc_macro2::Delimiter::None => Delimiter::Invisible,
            },
            g.stream().into_iter().map(convert_tree).collect(),
            g.span(),
        ),
    }
}

fn convert_stream(ts: proc_macro2::TokenStream) -> Vec<TokenTree> {
    ts.into_iter().map(convert_tree).collect()
}

fn make_trees(text: &str) -> Vec<TokenTree> {
    convert_stream(proc_macro2::TokenStream::from_str(text).unwrap())
}

fn make_input(text: &str) -> Input {
    Input::from_tree(make_trees(text))
}

trait Rendered {
    fn rendered(&self) -> String;
}

impl Rendered for Ident {
    fn rendered(&self) -> String {
        self.text.clone()
    }
}

impl Rendered for Literal {
    fn rendered(&self) -> String {
        self.text.clone()
    }
}

impl Rendered for Token {
    fn rendered(&self) -> String {
        match self {
            Token::Delim(c, _) => c.to_string(),
            Token::Punct(p) => p.ch.to_string(),
            Token::Ident(i) => i.text.clone(),
            Token::Literal(l) => l.text.clone(),
        }
    }
}

fn msg_of<M: Matcher>(m: &M) -> String {
    let mut errs: Vec<String> = Vec::new();
    m.add_error(&mut errs);
    expected_message(&errs[0])
}

fn parse_ok<M: Matcher>(m: M, input: &'static str) -> String
where
    M::Output: Rendered,
{
    let mut inp = make_input(input);
    match m.parse_lazy(&mut inp) {
        Ok(o) => o.rendered(),
        Err(_) => panic!("expected the matcher to succeed on {:?}", input),
    }
}

fn parse_err<M: Matcher>(m: M, input: &'static str) -> String {
    let mut inp = make_input(input);
    match m.parse_lazy(&mut inp) {
        Ok(_) => panic!("expected the matcher to fail on {:?}", input),
        Err(_) => msg_of(&m),
    }
}

/// Parses `input` as open delimiter, identifier, close delimiter; returns
/// the identifier text, or the message of the first matcher that failed.
fn group_parse(open: char, close: char, input: &'static str) -> Result<String, String> {
    let mut inp = make_input(input);
    let open_m = delim(open);
    if open_m.parse_lazy(&mut inp).is_err() {
        return Err(msg_of(&open_m));
    }
    let word = match ident().parse_lazy(&mut inp) {
        Ok(node) => node.text,
        Err(_) => return Err(msg_of(&ident())),
    };
    let close_m = delim(close);
    if close_m.parse_lazy(&mut inp).is_err() {
        return Err(msg_of(&close_m));
    }
    Ok(word)
}

fn drain(input: &mut Input) -> Vec<Token> {
    let mut toks = Vec::new();
    while let Some(tok) = input.produce_next() {
        toks.push(tok);
    }
    toks
}

#[test]
fn test_ident() {
    assert_eq!(parse_ok(ident(), "foo+"), "foo");
    assert_eq!(parse_err(ident(), "+"), "Expected `IDENT`");
}

#[test]
fn test_keyword() {
    assert_eq!(parse_ok(keyword("foo"), "foo"), "foo");
    assert_eq!(parse_err(keyword("foo"), "bar"), "Expected `foo`");
}

#[test]
fn test_punct() {
    assert_eq!(parse_ok(punct('+'), "+ +"), "+",);
    assert_eq!(parse_ok(punct('+'), "++"), "+",);
}

#[test]
fn test_delim() {
    assert_eq!(group_parse('[', ']', "[foo]").unwrap(), "foo",);
    assert_eq!(group_parse('{', '}', "{foo}").unwrap(), "foo",);
    assert_eq!(group_parse('(', ')', "(foo)").unwrap(), "foo",);
    assert_eq!(
        group_parse('{', '}', "{\nfoo +\n}").unwrap_err(),
        "Expected `}`",
    );
    assert_eq!(
        group_parse('{', '}', "{\n+ foo\n}").unwrap_err(),
        "Expected `IDENT`",
    );
}

#[test]
fn test_literal() {
    assert_eq!(parse_ok(literal(), "42"), "42");
    assert_eq!(parse_ok(literal(), "\"hi\" x"), "\"hi\"");
    assert_eq!(parse_err(literal(), "foo"), "Expected `LITERAL`");
}

#[test]
fn test_round_trip_leaves() {
    let trees = make_trees("foo + 42");
    let input = Input::from_tree(trees);
    let out = input.into_tree();
    assert_eq!(out.len(), 3);
    assert!(matches!(&out[0], TokenTree::Ident(i) if i.text == "foo"));
    assert!(matches!(&out[1], TokenTree::Punct(p) if p.ch == '+'));
    assert!(matches!(&out[2], TokenTree::Literal(l) if l.text == "42"));
}

#[test]
fn test_round_trip_groups_unconsumed() {
    let input = Input::from_tree(make_trees("a { b } c"));
    let out = input.into_tree();
    assert_eq!(out.len(), 3);
    assert!(matches!(&out[0], TokenTree::Ident(i) if i.text == "a"));
    match &out[1] {
        TokenTree::Group(d, children, _) => {
            assert_eq!(*d, Delimiter::Brace);
            assert_eq!(children.len(), 1);
            assert!(matches!(&children[0], TokenTree::Ident(i) if i.text == "b"));
        }
        _ => panic!("expected a group"),
    }
    assert!(matches!(&out[2], TokenTree::Ident(i) if i.text == "c"));
}

#[test]
fn test_into_tree_rewraps_open_group() {
    let mut input = Input::from_tree(make_trees("{ foo bar }"));
    // Consume the open brace and the first identifier.
    assert_eq!(input.produce_next().unwrap().rendered(), "{");
    assert_eq!(input.produce_next().unwrap().rendered(), "foo");
    let out = input.into_tree();
    assert_eq!(out.len(), 1);
    match &out[0] {
        TokenTree::Group(d, children, _) => {
            assert_eq!(*d, Delimiter::Brace);
            assert_eq!(children.len(), 1);
            assert!(matches!(&children[0], TokenTree::Ident(i) if i.text == "bar"));
        }
        _ => panic!("expected the partly consumed group to be re-wrapped"),
    }
}

#[test]
fn test_flattening_order() {
    let mut input = Input::from_tree(make_trees("a ( b [ ] ) c"));
    let toks: Vec<String> = drain(&mut input).iter().map(Rendered::rendered).collect();
    assert_eq!(toks, vec!["a", "(", "b", "[", "]", ")", "c"]);
    assert_eq!(input.position(), 7);
    assert!(input.is_empty());
}

#[test]
fn test_invisible_group_flattens_to_children() {
    let span = proc_macro2::Span::call_site();
    let inner = TokenTree::Ident(Ident { text: "foo".to_string(), span });
    let tree = TokenTree::Group(Delimiter::Invisible, vec![inner], span);
    let mut input = Input::from_tree(vec![tree]);
    let toks: Vec<String> = drain(&mut input).iter().map(Rendered::rendered).collect();
    assert_eq!(toks, vec!["foo"]);
}

#[test]
fn test_empty_invisible_group_is_empty() {
    let span = proc_macro2::Span::call_site();
    let tree = TokenTree::Group(Delimiter::Invisible, Vec::new(), span);
    let mut input = Input::from_tree(vec![tree]);
    assert!(input.is_empty());
    assert!(input.produce_next().is_none());
    assert_eq!(input.position(), 0);
}

#[test]
fn test_checkpoint_restore() {
    let mut input = make_input("foo + bar");
    assert_eq!(input.produce_next().unwrap().rendered(), "foo");
    let cp = input.checkpoint();
    input.restore(cp);
    assert_eq!(input.position(), 1);
    let toks: Vec<String> = drain(&mut input).iter().map(Rendered::rendered).collect();
    assert_eq!(toks, vec!["+", "bar"]);
}

#[test]
fn test_checkpoint_survives_consumption() {
    let mut input = make_input("foo bar");
    let cp = input.checkpoint();
    assert_eq!(input.produce_next().unwrap().rendered(), "foo");
    assert_eq!(input.produce_next().unwrap().rendered(), "bar");
    assert!(input.is_empty());
    input.restore(cp);
    assert_eq!(input.position(), 0);
    let toks: Vec<String> = drain(&mut input).iter().map(Rendered::rendered).collect();
    assert_eq!(toks, vec!["foo", "bar"]);
}

#[test]
fn test_failed_match_does_not_advance() {
    let mut input = make_input("+ foo");
    let before = input.position();
    assert!(ident().parse_lazy(&mut input).is_err());
    assert_eq!(input.position(), before);
    assert!(keyword("bar").parse_lazy(&mut input).is_err());
    assert!(literal().parse_lazy(&mut input).is_err());
    assert!(punct('-').parse_lazy(&mut input).is_err());
    assert!(delim('(').parse_lazy(&mut input).is_err());
    assert_eq!(input.position(), before);
    let toks: Vec<String> = drain(&mut input).iter().map(Rendered::rendered).collect();
    assert_eq!(toks, vec!["+", "foo"]);
}

#[test]
fn test_ident_leaves_remainder() {
    let mut input = make_input("foo+");
    let node = ident().parse_lazy(&mut input).unwrap();
    assert_eq!(node.text, "foo");
    let rest: Vec<String> = drain(&mut input).iter().map(Rendered::rendered).collect();
    assert_eq!(rest, vec!["+"]);
}

#[test]
fn test_punct_leaves_remainder() {
    let mut input = make_input("+ +");
    let tok = punct('+').parse_lazy(&mut input).unwrap();
    assert_eq!(tok.rendered(), "+");
    let rest: Vec<String> = drain(&mut input).iter().map(Rendered::rendered).collect();
    assert_eq!(rest, vec!["+"]);
}

#[test]
fn test_error_variants_and_positions() {
    let mut empty = make_input("");
    match ident().parse_lazy(&mut empty) {
        Err(MatchError::EndOfStream { position }) => assert_eq!(position, 0),
        _ => panic!("expected end of stream"),
    }
    let mut wrong_kind = make_input("+");
    match ident().parse_lazy(&mut wrong_kind) {
        Err(MatchError::UnexpectedKind { position }) => assert_eq!(position, 0),
        _ => panic!("expected a kind mismatch"),
    }
    let mut wrong_value = make_input("bar");
    match keyword("foo").parse_lazy(&mut wrong_value) {
        Err(MatchError::UnexpectedValue { position }) => assert_eq!(position, 0),
        _ => panic!("expected a value mismatch"),
    }
    let mut wrong_delim = make_input("[x]");
    match delim('(').parse_lazy(&mut wrong_delim) {
        Err(e) => {
            assert!(matches!(e, MatchError::UnexpectedValue { .. }));
            assert_eq!(e.position(), 0);
        }
        _ => panic!("expected a value mismatch"),
    }
    // The grammar `{` IDENT `}` on `{ foo + }` fails at position 2: after
    // the open brace and the identifier were consumed.
    let mut seq_input = make_input("{\nfoo +\n}");
    assert!(delim('{').parse_lazy(&mut seq_input).is_ok());
    assert!(ident().parse_lazy(&mut seq_input).is_ok());
    match delim('}').parse_lazy(&mut seq_input) {
        Err(e) => {
            assert!(matches!(e, MatchError::UnexpectedKind { .. }));
            assert_eq!(e.position(), 2);
        }
        _ => panic!("expected the close delimiter to fail on `+`"),
    }
}

#[test]
fn test_punct_cannot_match_delimiter() {
    let mut input = make_input("(x)");
    match punct('(').parse_lazy(&mut input) {
        Err(MatchError::UnexpectedKind { .. }) => {}
        _ => panic!("a delimiter token must not match as punctuation"),
    }
}

#[test]
fn test_token_equality_and_accessors() {
    let mut a = make_input("foo foo bar + +");
    let t1 = a.produce_next().unwrap();
    let t2 = a.produce_next().unwrap();
    let t3 = a.produce_next().unwrap();
    let p1 = a.produce_next().unwrap();
    let p2 = a.produce_next().unwrap();
    assert!(t1 == t2);
    assert!(t1 != t3);
    assert!(p1 == p2);
    assert!(t1 != p1);
    assert_eq!(p1.to_char(), Some('+'));
    assert_eq!(t1.to_char(), None);
    let _ = t1.span();
}

#[test]
fn test_span_position() {
    let zero = SpanPosition::default();
    let one = SpanPosition::new(1, proc_macro2::Span::call_site());
    let other_one = SpanPosition::new(1, proc_macro2::Span::call_site());
    assert!(zero < one);
    assert!(one == other_one);
    assert!(one > zero);
    let _ = one.into_span();
}

#[test]
fn test_span_position_advance() {
    let mut input = make_input("foo bar");
    let mut pos = SpanPosition::default();
    while let Some(tok) = input.produce_next() {
        pos.advance(&tok);
    }
    assert!(pos == SpanPosition::new(2, proc_macro2::Span::call_site()));
    assert!(pos > SpanPosition::default());
}

#[test]
fn test_incomplete_exhausted_stream() {
    let mut input = make_input("foo");
    let _ = input.produce_next();
    assert!(Incomplete::from_stream(input).is_none());
    assert!(Incomplete::from_stream(make_input("")).is_none());
}

#[test]
fn test_incomplete_drops_delimiters() {
    // Only the close brace and the identifier remain; the report prints
    // the identifier alone.
    let mut input = make_input("{ x }");
    let _ = input.produce_next(); // `{`
    let report = Incomplete::from_stream(input).unwrap();
    assert_eq!(report.render(), "x");
}

#[test]
fn test_incomplete_short_trailing() {
    let input = make_input("foo + bar");
    let report = Incomplete::from_stream(input).unwrap();
    assert_eq!(report.render(), "foo + bar");
}

#[test]
fn test_incomplete_over_cap() {
    let text = "+ ".repeat(55);
    let input = make_input(&text);
    let report = Incomplete::from_stream(input).unwrap();
    let expected = format!("{} [and 5 more ...]", vec!["+"; 50].join(" "));
    assert_eq!(report.render(), expected);
    assert!(report.render().ends_with("[and 5 more ...]"));
}

#[test]
fn test_usize_to_string() {
    assert_eq!(usize_to_string(0), "0");
    assert_eq!(usize_to_string(7), "7");
    assert_eq!(usize_to_string(50), "50");
    assert_eq!(usize_to_string(10907), "10907");
}

#[test]
fn test_expected_message_builds_fresh_text() {
    assert_eq!(expected_message("IDENT"), "Expected `IDENT`");
    assert_eq!(expected_message("}"), "Expected `}`");
}
