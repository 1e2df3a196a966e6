//! The atomic token matchers: identifier, keyword, literal, punctuation and
//! delimiter. Each inspects exactly one token of the stream; it either
//! consumes that token and produces a typed output, or fails and leaves the
//! stream observably unchanged, so that an enclosing grammar may try an
//! alternative at the same position. Each matcher also contributes one
//! "expected ..." fragment to an accumulated error report.

use vstd::prelude::*;
use vstd::string::StringExecFns;

use crate::input::{Input, Token, TokenV};
use crate::text::push_char;

verus! {

/// Why a single-token match failed. Every failure carries the stream
/// position at which the matcher was attempted.
#[derive(Clone, Copy, Debug, PartialEq, Eq, Structural)]
pub enum MatchError {
    /// The stream had no token left to inspect.
    EndOfStream { position: usize },
    /// The next token was structurally of the wrong kind.
    UnexpectedKind { position: usize },
    /// The next token had the right kind but the wrong value.
    UnexpectedValue { position: usize },
}

impl MatchError {
    /// The stream position at which the failed match was attempted.
    pub open spec fn position_spec(self) -> nat {
        match self {
            MatchError::EndOfStream { position } => position as nat,
            MatchError::UnexpectedKind { position } => position as nat,
            MatchError::UnexpectedValue { position } => position as nat,
        }
    }

    /// The stream position at which the failed match was attempted.
    pub fn position(&self) -> (r: usize)
        ensures
            r == self.position_spec(),
    {
        match self {
            MatchError::EndOfStream { position } => *position,
            MatchError::UnexpectedKind { position } => *position,
            MatchError::UnexpectedValue { position } => *position,
        }
    }
}

/// The shared capability interface of the token matchers: attempt one
/// single-token match, and describe the expected token for error reports.
///
/// A matcher that fails never advances the stream: on every `Err`, the
/// stream's remaining tokens, position and unread content are exactly what
/// they were before the attempt.
pub trait Matcher: Sized {
    /// What a successful match produces.
    type Output;

    /// The tokens this matcher accepts.
    spec fn accepts(&self, t: TokenV) -> bool;

    /// The token kinds this matcher accepts; a token of an accepted kind
    /// whose value is still rejected fails with `UnexpectedValue` rather
    /// than `UnexpectedKind`.
    spec fn accepts_kind(&self, t: TokenV) -> bool;

    /// How the produced output relates to the consumed token.
    spec fn output_matches(&self, t: TokenV, o: Self::Output) -> bool;

    /// The "expected ..." fragment this matcher contributes to reports.
    spec fn expected(&self) -> Seq<char>;

    /// Attempts to match the next token of the stream. Succeeds if and only
    /// if a token is available and this matcher accepts it; exactly that one
    /// token is then consumed. On failure nothing is consumed, and the
    /// error says whether the stream was exhausted, the kind was wrong, or
    /// only the value was wrong, always at the attempted position.
    fn parse_lazy(&self, input: &mut Input) -> (r: Result<Self::Output, MatchError>)
        requires
            old(input).wf(),
            old(input).pos() < usize::MAX,
        ensures
            final(input).wf(),
            match r {
                Ok(o) => {
                    &&& old(input).toks().len() > 0
                    &&& self.accepts(old(input).toks()[0])
                    &&& self.output_matches(old(input).toks()[0], o)
                    &&& final(input).toks() == old(input).toks().drop_first()
                    &&& final(input).pos() == old(input).pos() + 1
                },
                Err(e) => {
                    &&& final(input).toks() == old(input).toks()
                    &&& final(input).pos() == old(input).pos()
                    &&& final(input).unread() == old(input).unread()
                    &&& e.position_spec() == old(input).pos()
                    &&& match e {
                        MatchError::EndOfStream { .. } => old(input).toks().len() == 0,
                        MatchError::UnexpectedKind { .. } => old(input).toks().len() > 0
                            && !self.accepts_kind(old(input).toks()[0]),
                        MatchError::UnexpectedValue { .. } => old(input).toks().len() > 0
                            && self.accepts_kind(old(input).toks()[0]) && !self.accepts(
                            old(input).toks()[0],
                        ),
                    }
                },
            },
    ;

    /// Contributes this matcher's expectation to an accumulated list of
    /// expected-token descriptions; merging them is the caller's business.
    fn add_error(&self, errors: &mut Vec<String>)
        ensures
            final(errors)@.len() == old(errors)@.len() + 1,
            final(errors)@[final(errors)@.len() - 1]@ == self.expected(),
            forall|i: int| 0 <= i < old(errors)@.len() ==> final(errors)@[i] == old(errors)@[i],
    ;
}

/// Builds the matcher for any identifier token.
pub fn ident() -> (r: Ident) {
    Ident
}

/// The matcher behind `ident`: accepts any identifier token and produces
/// the identifier node itself.
#[derive(Clone, Copy)]
pub struct Ident;

impl Matcher for Ident {
    type Output = crate::input::Ident;

    open spec fn accepts(&self, t: TokenV) -> bool {
        t is Ident
    }

    open spec fn accepts_kind(&self, t: TokenV) -> bool {
        t is Ident
    }

    open spec fn output_matches(&self, t: TokenV, o: crate::input::Ident) -> bool {
        o@ == t
    }

    open spec fn expected(&self) -> Seq<char> {
        "IDENT"@
    }

    fn parse_lazy(&self, input: &mut Input) -> (r: Result<crate::input::Ident, MatchError>) {
        let position = input.position();
        let cp = input.checkpoint();
        match input.produce_next() {
            None => {
                input.restore(cp);
                Err(MatchError::EndOfStream { position })
            }
            Some(tok) => match tok {
                Token::Ident(node) => Ok(node),
                _ => {
                    input.restore(cp);
                    Err(MatchError::UnexpectedKind { position })
                }
            },
        }
    }

    fn add_error(&self, errors: &mut Vec<String>) {
        errors.push("IDENT".to_owned());
    }
}

/// Builds the matcher for an identifier token whose text equals `word`.
pub fn keyword(word: &'static str) -> (r: Keyword)
    ensures
        r.word@ == word@,
{
    Keyword { word: word.to_owned() }
}

/// The matcher behind `keyword`: accepts an identifier token whose text
/// equals the expected word, and produces the matched token.
pub struct Keyword {
    pub word: String,
}

impl Clone for Keyword {
    fn clone(&self) -> (r: Self)
        ensures
            r.word@ == self.word@,
    {
        Keyword { word: self.word.clone() }
    }
}

impl Matcher for Keyword {
    type Output = Token;

    open spec fn accepts(&self, t: TokenV) -> bool {
        match t {
            TokenV::Ident(text, _) => text == self.word@,
            _ => false,
        }
    }

    open spec fn accepts_kind(&self, t: TokenV) -> bool {
        t is Ident
    }

    open spec fn output_matches(&self, t: TokenV, o: Token) -> bool {
        o@ == t
    }

    open spec fn expected(&self) -> Seq<char> {
        self.word@
    }

    fn parse_lazy(&self, input: &mut Input) -> (r: Result<Token, MatchError>) {
        let position = input.position();
        let cp = input.checkpoint();
        match input.produce_next() {
            None => {
                input.restore(cp);
                Err(MatchError::EndOfStream { position })
            }
            Some(tok) => match tok {
                Token::Ident(node) => {
                    if node.text == self.word {
                        Ok(Token::Ident(node))
                    } else {
                        input.restore(cp);
                        Err(MatchError::UnexpectedValue { position })
                    }
                }
                _ => {
                    input.restore(cp);
                    Err(MatchError::UnexpectedKind { position })
                }
            },
        }
    }

    fn add_error(&self, errors: &mut Vec<String>) {
        errors.push(self.word.clone());
    }
}

/// Builds the matcher for any literal token.
pub fn literal() -> (r: Literal) {
    Literal
}

/// The matcher behind `literal`: accepts any literal token (string, number,
/// ...) and produces the literal node itself.
#[derive(Clone, Copy)]
pub struct Literal;

impl Matcher for Literal {
    type Output = crate::input::Literal;

    open spec fn accepts(&self, t: TokenV) -> bool {
        t is Literal
    }

    open spec fn accepts_kind(&self, t: TokenV) -> bool {
        t is Literal
    }

    open spec fn output_matches(&self, t: TokenV, o: crate::input::Literal) -> bool {
        o@ == t
    }

    open spec fn expected(&self) -> Seq<char> {
        "LITERAL"@
    }

    fn parse_lazy(&self, input: &mut Input) -> (r: Result<crate::input::Literal, MatchError>) {
        let position = input.position();
        let cp = input.checkpoint();
        match input.produce_next() {
            None => {
                input.restore(cp);
                Err(MatchError::EndOfStream { position })
            }
            Some(tok) => match tok {
                Token::Literal(node) => Ok(node),
                _ => {
                    input.restore(cp);
                    Err(MatchError::UnexpectedKind { position })
                }
            },
        }
    }

    fn add_error(&self, errors: &mut Vec<String>) {
        errors.push("LITERAL".to_owned());
    }
}

/// Builds the matcher for a punctuation token whose character equals `c`.
///
/// A delimiter character (`(`, `)`, `{`, `}`, `[`, `]`) never appears as a
/// punctuation token; to match a delimiter use `delim` instead.
pub fn punct(c: char) -> (r: Punct)
    ensures
        r.ch == c,
{
    Punct { ch: c }
}

/// The matcher behind `punct`: accepts a punctuation token with the
/// expected character, and produces the matched token.
#[derive(Clone, Copy)]
pub struct Punct {
    pub ch: char,
}

impl Matcher for Punct {
    type Output = Token;

    open spec fn accepts(&self, t: TokenV) -> bool {
        match t {
            TokenV::Punct(c, _) => c == self.ch,
            _ => false,
        }
    }

    open spec fn accepts_kind(&self, t: TokenV) -> bool {
        t is Punct
    }

    open spec fn output_matches(&self, t: TokenV, o: Token) -> bool {
        o@ == t
    }

    open spec fn expected(&self) -> Seq<char> {
        seq![self.ch]
    }

    fn parse_lazy(&self, input: &mut Input) -> (r: Result<Token, MatchError>) {
        let position = input.position();
        let cp = input.checkpoint();
        match input.produce_next() {
            None => {
                input.restore(cp);
                Err(MatchError::EndOfStream { position })
            }
            Some(tok) => match tok {
                Token::Punct(node) => {
                    if node.ch == self.ch {
                        Ok(Token::Punct(node))
                    } else {
                        input.restore(cp);
                        Err(MatchError::UnexpectedValue { position })
                    }
                }
                _ => {
                    input.restore(cp);
                    Err(MatchError::UnexpectedKind { position })
                }
            },
        }
    }

    fn add_error(&self, errors: &mut Vec<String>) {
        let mut s = String::new();
        push_char(&mut s, self.ch);
        proof {
            assert(s@ =~= seq![self.ch]);
        }
        errors.push(s);
    }
}

/// True of the six surface delimiter characters.
pub open spec fn is_delim_char(c: char) -> bool {
    c == '(' || c == ')' || c == '[' || c == ']' || c == '{' || c == '}'
}

/// Builds the matcher for a delimiter token whose character equals `c`.
///
/// `c` must be one of `( ) { } [ ]`: a matcher for any other character is a
/// caller programming error, ruled out at construction time, never deferred
/// to match time.
pub fn delim(c: char) -> (r: Delim)
    requires
        is_delim_char(c),
    ensures
        r.ch == c,
{
    Delim { ch: c }
}

/// The matcher behind `delim`: accepts a delimiter token with the expected
/// character, and produces the matched token.
#[derive(Clone, Copy)]
pub struct Delim {
    pub ch: char,
}

impl Matcher for Delim {
    type Output = Token;

    open spec fn accepts(&self, t: TokenV) -> bool {
        match t {
            TokenV::Delim(c, _) => c == self.ch,
            _ => false,
        }
    }

    open spec fn accepts_kind(&self, t: TokenV) -> bool {
        t is Delim
    }

    open spec fn output_matches(&self, t: TokenV, o: Token) -> bool {
        o@ == t
    }

    open spec fn expected(&self) -> Seq<char> {
        seq![self.ch]
    }

    fn parse_lazy(&self, input: &mut Input) -> (r: Result<Token, MatchError>) {
        let position = input.position();
        let cp = input.checkpoint();
        match input.produce_next() {
            None => {
                input.restore(cp);
                Err(MatchError::EndOfStream { position })
            }
            Some(tok) => match tok {
                Token::Delim(c, span) => {
                    if c == self.ch {
                        Ok(Token::Delim(c, span))
                    } else {
                        input.restore(cp);
                        Err(MatchError::UnexpectedValue { position })
                    }
                }
                _ => {
                    input.restore(cp);
                    Err(MatchError::UnexpectedKind { position })
                }
            },
        }
    }

    fn add_error(&self, errors: &mut Vec<String>) {
        let mut s = String::new();
        push_char(&mut s, self.ch);
        proof {
            assert(s@ =~= seq![self.ch]);
        }
        errors.push(s);
    }
}

/// Renders one expected-token description the way a grammar engine reports
/// it: the description between backticks, after the word "Expected".
pub fn expected_message(desc: &str) -> (r: String)
    ensures
        r@ == "Expected `"@ + desc@ + "`"@,
{
    let mut s = String::new();
    s.append("Expected `");
    s.append(desc);
    s.append("`");
    proof {
        assert(s@ =~= "Expected `"@ + desc@ + "`"@);
    }
    s
}

} // verus!
