//! The incomplete-input diagnostic: drains whatever is left of a stream and
//! renders it as a bounded, human-readable report of trailing input.

use vstd::prelude::*;
use vstd::string::StringExecFns;

use crate::input::{Input, Token, TokenV};
use crate::text::{dec_str, push_char, usize_to_string};

verus! {

/// How many printable trailing tokens a report captures at most.
pub const DEFAULT_MAX_TRAILING: usize = 50;

/// The printable tokens of a stream suffix: every leaf token in order, with
/// delimiter tokens discarded rather than errored on, since a drained
/// suffix may hold close delimiters whose opens were already consumed.
pub open spec fn printable(ts: Seq<TokenV>) -> Seq<TokenV>
    decreases ts.len(),
{
    if ts.len() == 0 {
        Seq::empty()
    } else {
        printable(ts.drop_last()) + (if ts.last() is Delim {
            Seq::empty()
        } else {
            seq![ts.last()]
        })
    }
}

/// No more tokens are printable than there are tokens.
proof fn lemma_printable_len(ts: Seq<TokenV>)
    ensures
        printable(ts).len() <= ts.len(),
    decreases ts.len(),
{
    if ts.len() > 0 {
        lemma_printable_len(ts.drop_last());
    }
}

/// The surface-printable form of one token.
pub open spec fn surface(t: TokenV) -> Seq<char> {
    match t {
        TokenV::Delim(c, _) => seq![c],
        TokenV::Punct(c, _) => seq![c],
        TokenV::Ident(text, _) => text,
        TokenV::Literal(text, _) => text,
    }
}

/// The surface forms of a sequence of tokens, joined by single spaces.
pub open spec fn render_tokens(ts: Seq<TokenV>) -> Seq<char>
    decreases ts.len(),
{
    if ts.len() == 0 {
        Seq::empty()
    } else if ts.len() == 1 {
        surface(ts[0])
    } else {
        render_tokens(ts.drop_last()) + seq![' '] + surface(ts.last())
    }
}

/// The prefix of the printable tokens that a report captures.
pub open spec fn captured_prefix(p: Seq<TokenV>, cap: nat) -> Seq<TokenV> {
    if p.len() <= cap {
        p
    } else {
        p.take(cap as int)
    }
}

/// A report of unconsumed trailing input: the first printable tokens of the
/// drained suffix, up to a fixed cap, together with the true total count of
/// printable tokens found.
pub struct Incomplete {
    trailing: Vec<Token>,
    total: usize,
    max_trailing: usize,
}

impl Incomplete {
    /// The captured printable tokens, in stream order.
    pub closed spec fn captured(self) -> Seq<TokenV> {
        Seq::new(self.trailing@.len(), |i: int| self.trailing@[i]@)
    }

    /// The true number of printable tokens the drained stream held.
    pub closed spec fn total_count(self) -> nat {
        self.total as nat
    }

    /// The cap on captured tokens.
    pub closed spec fn cap(self) -> nat {
        self.max_trailing as nat
    }

    /// Drains the stream to completion and reports its printable trailing
    /// tokens: `None` when nothing printable remained, otherwise the first
    /// tokens up to the cap plus the true total count. Draining continues
    /// silently past the cap purely to compute that count. The stream's
    /// position counter must have room to count every remaining token;
    /// that is a machine limit, not a property of the stream.
    #[verifier::loop_isolation(false)]
    pub fn from_stream(input: Input) -> (r: Option<Incomplete>)
        requires
            input.wf(),
            input.pos() + input.toks().len() <= usize::MAX,
        ensures
            ({
                let p = printable(input.toks());
                match r {
                    Some(inc) => {
                        &&& p.len() > 0
                        &&& inc.total_count() == p.len()
                        &&& inc.cap() == DEFAULT_MAX_TRAILING
                        &&& inc.captured() == captured_prefix(p, DEFAULT_MAX_TRAILING as nat)
                    },
                    None => p.len() == 0,
                }
            }),
    {
        let ghost orig_toks = input.toks();
        let ghost orig_pos = input.pos();
        let mut input = input;
        let mut trailing: Vec<Token> = Vec::new();
        let mut total: usize = 0;
        let ghost mut done: Seq<TokenV> = Seq::empty();
        proof {
            assert(orig_toks =~= done + input.toks());
        }
        while !input.is_empty()
            invariant
                input.wf(),
                orig_toks == done + input.toks(),
                input.pos() == orig_pos + done.len(),
                total == printable(done).len(),
                Seq::new(trailing@.len(), |i: int| trailing@[i]@) == captured_prefix(
                    printable(done),
                    DEFAULT_MAX_TRAILING as nat,
                ),
            decreases input.toks().len(),
        {
            proof {
                assert(done.len() < orig_toks.len());
                lemma_printable_len(done);
            }
            let tok = match input.produce_next() {
                Some(tok) => tok,
                None => {
                    proof {
                        assert(false);
                    }
                    return None;
                }
            };
            let ghost pre_done = done;
            proof {
                done = done.push(tok@);
                assert(done.drop_last() =~= pre_done);
                assert(done.last() == tok@);
                assert(orig_toks =~= done + input.toks());
            }
            let is_delim = match &tok {
                Token::Delim(_, _) => true,
                _ => false,
            };
            if !is_delim {
                proof {
                    assert(printable(done) =~= printable(pre_done) + seq![tok@]);
                    assert(printable(done).len() <= done.len());
                }
                total = total + 1;
                if trailing.len() < DEFAULT_MAX_TRAILING {
                    trailing.push(tok);
                    proof {
                        assert(Seq::new(trailing@.len(), |i: int| trailing@[i]@)
                            =~= captured_prefix(printable(done), DEFAULT_MAX_TRAILING as nat));
                    }
                } else {
                    proof {
                        assert(Seq::new(trailing@.len(), |i: int| trailing@[i]@)
                            =~= captured_prefix(printable(done), DEFAULT_MAX_TRAILING as nat));
                    }
                }
            } else {
                proof {
                    assert(printable(done) =~= printable(pre_done));
                }
            }
        }
        proof {
            assert(done =~= orig_toks);
        }
        if total > 0 {
            Some(Incomplete { trailing, total, max_trailing: DEFAULT_MAX_TRAILING })
        } else {
            None
        }
    }

    /// Renders the report: the captured tokens' surface forms joined by
    /// spaces, followed by ` [and N more ...]` when the true total exceeds
    /// the cap, where N is exactly the excess.
    #[verifier::loop_isolation(false)]
    pub fn render(&self) -> (r: String)
        ensures
            r@ == render_tokens(self.captured()) + (if self.total_count() > self.cap() {
                " [and "@ + dec_str((self.total_count() - self.cap()) as nat) + " more ...]"@
            } else {
                Seq::<char>::empty()
            }),
    {
        let ghost captured = self.captured();
        let mut s = String::new();
        let mut i: usize = 0;
        while i < self.trailing.len()
            invariant
                0 <= i <= self.trailing@.len(),
                s@ == render_tokens(captured.take(i as int)),
            decreases self.trailing@.len() - i,
        {
            if i > 0 {
                push_char(&mut s, ' ');
            }
            match &self.trailing[i] {
                Token::Delim(c, _) => push_char(&mut s, *c),
                Token::Punct(p) => push_char(&mut s, p.ch),
                Token::Ident(node) => s.append(node.text.as_str()),
                Token::Literal(node) => s.append(node.text.as_str()),
            }
            i = i + 1;
            proof {
                let now = captured.take(i as int);
                assert(now.drop_last() =~= captured.take(i as int - 1));
                assert(now.last() == captured[i as int - 1]);
                assert(s@ =~= render_tokens(now));
            }
        }
        proof {
            assert(captured.take(self.trailing@.len() as int) =~= captured);
        }
        if self.total > self.max_trailing {
            s.append(" [and ");
            let n = usize_to_string(self.total - self.max_trailing);
            s.append(n.as_str());
            s.append(" more ...]");
            proof {
                assert(s@ =~= render_tokens(captured) + (" [and "@ + dec_str(
                    (self.total_count() - self.cap()) as nat,
                ) + " more ...]"@));
            }
        }
        s
    }
}

} // verus!
