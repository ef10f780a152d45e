use vstd::prelude::*;

use crate::error::Error;
use crate::token::{toks_view, SpecToken, Token};
use crate::Pattern;

verus! {

/// The compiled form of a pattern string, defined by recursion on its final
/// character: an ordinary character extends the trailing `Text` token
/// (opening a new one when the sequence is empty or ends with `Any`), and a
/// wildcard marker contributes an `Any` token unless the sequence already
/// ends with one, so that a run of markers collapses to a single `Any`. The
/// scanner builds exactly this sequence, one character at a time.
pub open spec fn compile_spec(p: Seq<char>) -> Seq<SpecToken>
    decreases p.len(),
{
    if p.len() == 0 {
        Seq::empty()
    } else {
        let front = compile_spec(p.drop_last());
        let c = p.last();
        if c == '*' {
            if front.len() > 0 && front.last() is Any {
                front
            } else {
                front.push(SpecToken::Any)
            }
        } else if front.len() > 0 && front.last() is Text {
            front.update(front.len() - 1, SpecToken::Text(front.last()->Text_0.push(c)))
        } else {
            front.push(SpecToken::Text(seq![c]))
        }
    }
}

/// Compilation establishes the pattern invariant: a non-empty pattern string
/// yields a non-empty token sequence with no two adjacent `Any` tokens and no
/// empty `Text` token.
pub proof fn lemma_compile_wf(p: Seq<char>)
    ensures
        crate::token::wf_tokens(compile_spec(p)),
        compile_spec(p).len() > 0 <==> p.len() > 0,
    decreases p.len(),
{
    if p.len() > 0 {
        let front = compile_spec(p.drop_last());
        let c = p.last();
        lemma_compile_wf(p.drop_last());
        if c == '*' {
            if !(front.len() > 0 && front.last() is Any) {
                crate::token::lemma_wf_push(front, SpecToken::Any);
            }
        } else if front.len() > 0 && front.last() is Text {
            crate::token::lemma_wf_update_last(front, front.last()->Text_0.push(c));
        } else {
            crate::token::lemma_wf_push(front, SpecToken::Text(seq![c]));
        }
    }
}

/// Scanner that turns a pattern string into a compiled token sequence.
pub struct Parser {}

impl Parser {
    /// A fresh scanner.
    pub fn new() -> Parser {
        Parser {}
    }

    /// Scans the pattern string into a `Pattern`. The empty string is the one
    /// input that is rejected; every other string compiles to the token
    /// sequence described by `compile_spec`.
    pub fn parse(self, input: &str) -> (r: Result<Pattern, Error>)
        ensures
            r is Ok <==> input@.len() > 0,
            r matches Ok(p) ==> p@ == compile_spec(input@),
            r matches Err(e) ==> e@ == "Input pattern is empty"@,
    {
        if input.is_empty() {
            return Err(Error::new("Input pattern is empty"));
        }
        let chars = crate::chars_of(input);
        let mut result: Vec<Token> = Vec::new();
        let mut i: usize = 0;
        while i < chars.len()
            invariant
                i <= chars@.len(),
                chars@ == input@,
                toks_view(result@) == compile_spec(input@.take(i as int)),
            decreases chars@.len() - i,
        {
            proof {
                assert(input@.take(i + 1 as int).drop_last() =~= input@.take(i as int));
                assert(input@.take(i + 1 as int).last() == input@[i as int]);
            }
            let ghost prev = toks_view(result@);
            let c = chars[i];
            if c == '*' {
                let mut push_any = true;
                if result.len() > 0 {
                    if result[result.len() - 1].is_any() {
                        push_any = false;
                    }
                }
                if push_any {
                    result.push(Token::Any);
                    proof {
                        assert(toks_view(result@) =~= prev.push(SpecToken::Any));
                    }
                }
            } else {
                let mut open_new = true;
                if result.len() > 0 {
                    if result[result.len() - 1].is_text() {
                        open_new = false;
                    }
                }
                if open_new {
                    result.push(Token::Text(String::new()));
                }
                let ghost mid = toks_view(result@);
                let mut tok = match result.pop() {
                    Some(t) => t,
                    None => {
                        proof {
                            assert(false);
                        }
                        return Err(Error::new("Invalid parser state: no token to extend"));
                    },
                };
                let ghost popped = tok@;
                match tok.append_char(c) {
                    Ok(()) => {},
                    Err(e) => {
                        proof {
                            assert(false);
                        }
                        return Err(e);
                    },
                }
                result.push(tok);
                proof {
                    let t0 = popped->Text_0;
                    assert(mid.last() == popped);
                    if open_new {
                        assert(mid =~= prev.push(SpecToken::Text(Seq::<char>::empty())));
                        assert(t0.push(input@[i as int]) =~= seq![input@[i as int]]);
                        assert(toks_view(result@) =~= prev.push(
                            SpecToken::Text(seq![input@[i as int]]),
                        ));
                    } else {
                        assert(toks_view(result@) =~= prev.update(
                            prev.len() - 1,
                            SpecToken::Text(prev.last()->Text_0.push(input@[i as int])),
                        ));
                    }
                }
            }
            i += 1;
        }
        proof {
            assert(input@.take(chars@.len() as int) =~= input@);
        }
        Ok(Pattern { tokens: result })
    }
}

} // verus!
