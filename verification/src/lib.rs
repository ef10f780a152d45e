//! Compiles a restricted wildcard pattern language — literal text
//! interspersed with `*`, a marker that matches any run of zero or more
//! characters — and matches candidate strings against the compiled form.
//! The pattern anchors implicitly at both ends: `some*text` is the analogue
//! of the conventional regular expression `^some.*text$`.

use vstd::prelude::*;

pub mod error;
pub mod parser;
pub mod semantics;
pub mod token;

pub use crate::error::Error;
pub use crate::parser::Parser;
pub use crate::token::Token;

use crate::token::{lemma_strip_any_match, strip_any, toks_match, toks_view, SpecToken};
use vstd::string::StrSliceExecFns;

verus! {

broadcast use vstd::seq_lib::lemma_seq_contains_after_push;

/// One matcher step on a literal token: position `e` survives the token
/// exactly when the token's text ends at `e` in the input and begins at a
/// previously surviving position — or, when `may_skip` licenses it, anywhere
/// at or after one.
pub open spec fn step_candidate(
    s: Seq<char>,
    cands: Seq<usize>,
    t: Seq<char>,
    may_skip: bool,
    e: usize,
) -> bool {
    &&& t.len() <= e <= s.len()
    &&& s.subrange(e - t.len(), e as int) == t
    &&& exists|c: usize|
        #[trigger] cands.contains(c) && c + t.len() <= e && (may_skip || e == c + t.len())
}

/// Pushing one more surviving position onto the candidate set extends the
/// step relation by exactly the occurrences that begin at (or, skipping,
/// after) that position.
proof fn lemma_step_push(
    s: Seq<char>,
    prev: Seq<usize>,
    c: usize,
    t: Seq<char>,
    may_skip: bool,
    e: usize,
)
    ensures
        step_candidate(s, prev.push(c), t, may_skip, e) <==> (step_candidate(
            s,
            prev,
            t,
            may_skip,
            e,
        ) || {
            &&& c + t.len() <= e <= s.len()
            &&& (may_skip || e == c + t.len())
            &&& s.subrange(e - t.len(), e as int) == t
        }),
{
    let next = prev.push(c);
    if step_candidate(s, next, t, may_skip, e) {
        let c2 = choose|c2: usize|
            #[trigger] next.contains(c2) && c2 + t.len() <= e && (may_skip || e == c2 + t.len());
        if c2 != c {
            assert(prev.contains(c2));
        }
    }
    if step_candidate(s, prev, t, may_skip, e) {
        let c2 = choose|c2: usize|
            #[trigger] prev.contains(c2) && c2 + t.len() <= e && (may_skip || e == c2 + t.len());
        assert(next.contains(c2));
    }
    if c + t.len() <= e <= s.len() && (may_skip || e == c + t.len()) && s.subrange(
        e - t.len(),
        e as int,
    ) == t {
        assert(next.contains(c));
    }
}

/// Appending a position that is not yet present keeps the candidate vector
/// free of duplicates.
proof fn lemma_push_no_dup(v: Seq<usize>, x: usize)
    requires
        v.no_duplicates(),
        !v.contains(x),
    ensures
        v.push(x).no_duplicates(),
{
    let r = v.push(x);
    assert forall|i: int, j: int|
        0 <= i < r.len() && 0 <= j < r.len() && i != j implies r[i] != r[j] by {
        if i < v.len() && j < v.len() {
            assert(r[i] == v[i] && r[j] == v[j]);
        } else if i < v.len() {
            assert(r[i] == v[i] && r[j] == x);
            if v[i] == x {
                assert(v.contains(x));
            }
        } else {
            assert(r[j] == v[j] && r[i] == x);
            if v[j] == x {
                assert(v.contains(x));
            }
        }
    }
}

/// Across one `Text` token, the step relation keeps exactly the positions
/// whose prefix of the input is matched by the token sequence extended with
/// that token.
proof fn lemma_text_step_semantics(
    s: Seq<char>,
    toks: Seq<SpecToken>,
    t: Seq<char>,
    may_skip: bool,
    cands: Seq<usize>,
    e: usize,
)
    requires
        may_skip == (toks.len() > 0 && toks.last() is Any),
        forall|x: usize| #[trigger]
            cands.contains(x) <==> (x <= s.len() && toks_match(
                strip_any(toks),
                s.take(x as int),
            )),
    ensures
        step_candidate(s, cands, t, may_skip, e) <==> (e <= s.len() && toks_match(
            strip_any(toks.push(SpecToken::Text(t))),
            s.take(e as int),
        )),
{
    let full = toks.push(SpecToken::Text(t));
    assert(full.drop_last() =~= toks);
    assert(full.last() == SpecToken::Text(t));
    assert(strip_any(full) == full);
    if step_candidate(s, cands, t, may_skip, e) {
        let c = choose|c: usize|
            #[trigger] cands.contains(c) && c + t.len() <= e && (may_skip || e == c + t.len());
        assert(c <= s.len() && toks_match(strip_any(toks), s.take(c as int)));
        let d = e - t.len();
        assert(s.take(e as int).skip(e - t.len()) =~= s.subrange(e - t.len(), e as int));
        assert(s.take(e as int).take(e - t.len()) =~= s.take(d));
        if may_skip {
            lemma_strip_any_match(toks, s.take(d));
            assert(s.take(d).take(c as int) =~= s.take(c as int));
            assert(0 <= c <= s.take(d).len() && toks_match(
                strip_any(toks),
                s.take(d).take(c as int),
            ));
            assert(toks_match(toks, s.take(d)));
        } else {
            assert(strip_any(toks) == toks);
            assert(c == d);
            assert(toks_match(toks, s.take(d)));
        }
        assert(s.take(e as int).len() == e);
        assert(toks_match(full, s.take(e as int)));
    }
    if e <= s.len() && toks_match(strip_any(full), s.take(e as int)) {
        assert(toks_match(full, s.take(e as int)));
        assert(s.take(e as int).len() == e);
        assert(t.len() <= e);
        let d = e - t.len();
        assert(s.take(e as int).skip(e - t.len()) =~= s.subrange(e - t.len(), e as int));
        assert(s.take(e as int).take(e - t.len()) =~= s.take(d));
        assert(toks_match(toks, s.take(d)));
        if may_skip {
            lemma_strip_any_match(toks, s.take(d));
            let j = choose|j: int|
                0 <= j <= s.take(d).len() && toks_match(strip_any(toks), s.take(d).take(j));
            assert(s.take(d).take(j) =~= s.take(j));
            let cw = j as usize;
            assert(cands.contains(cw));
            assert(cands.contains(cw) && cw + t.len() <= e && (may_skip || e == cw + t.len()));
        } else {
            assert(strip_any(toks) == toks);
            let cw = d as usize;
            assert(cands.contains(cw));
            assert(cands.contains(cw) && cw + t.len() <= e && (may_skip || e == cw + t.len()));
        }
    }
}

/// Whether the vector holds the given position.
fn contains_pos(v: &Vec<usize>, x: usize) -> (r: bool)
    ensures
        r == v@.contains(x),
{
    let mut i: usize = 0;
    while i < v.len()
        invariant
            i <= v@.len(),
            forall|k: int| 0 <= k < i ==> v@[k] != x,
        decreases v@.len() - i,
    {
        if v[i] == x {
            proof {
                assert(v@[i as int] == x);
            }
            return true;
        }
        i += 1;
    }
    false
}

/// Whether the text occurs in the input beginning exactly at `pos`.
fn text_at(chars: &Vec<char>, need: &str, pos: usize) -> (r: bool)
    requires
        pos + need@.len() <= chars@.len(),
    ensures
        r == (chars@.subrange(pos as int, pos + need@.len()) == need@),
{
    let n = chars.len();
    let tlen = need.unicode_len();
    let mut j: usize = 0;
    while j < tlen
        invariant
            j <= tlen,
            tlen == need@.len(),
            n == chars@.len(),
            pos + tlen <= chars@.len(),
            forall|m: int| 0 <= m < j ==> chars@[pos + m] == need@[m],
        decreases tlen - j,
    {
        let a = chars[pos + j];
        let b = need.get_char(j);
        if a != b {
            proof {
                let sub = chars@.subrange(pos as int, pos + need@.len());
                assert(sub[j as int] == chars@[pos + j]);
            }
            return false;
        }
        j += 1;
    }
    proof {
        assert(chars@.subrange(pos as int, pos + need@.len()) =~= need@);
    }
    true
}

/// The characters of a string, in order, as a vector.
pub(crate) fn chars_of(s: &str) -> (v: Vec<char>)
    ensures
        v@ == s@,
{
    let n = s.unicode_len();
    let mut v: Vec<char> = Vec::new();
    let mut i: usize = 0;
    while i < n
        invariant
            i <= n,
            n == s@.len(),
            v@ == s@.take(i as int),
        decreases n - i,
    {
        let c = s.get_char(i);
        v.push(c);
        proof {
            assert(v@ =~= s@.take(i + 1 as int));
        }
        i += 1;
    }
    proof {
        assert(v@ =~= s@);
    }
    v
}

/// A compiled pattern: an ordered, immutable sequence of tokens.
#[derive(Debug, Clone)]
pub struct Pattern {
    pub(crate) tokens: Vec<Token>,
}

impl View for Pattern {
    type V = Seq<SpecToken>;

    closed spec fn view(&self) -> Seq<SpecToken> {
        toks_view(self.tokens@)
    }
}

impl Pattern {
    /// The invariant every compiled pattern satisfies: at least one token,
    /// no two adjacent `Any` tokens, and no empty `Text` token.
    pub open spec fn wf(&self) -> bool {
        crate::token::wf_tokens(self@) && self@.len() > 0
    }

    /// Compiles the given pattern string. An empty pattern is rejected; any
    /// non-empty pattern compiles to its token sequence.
    pub fn new(input: &str) -> (r: Result<Pattern, Error>)
        ensures
            r is Ok <==> input@.len() > 0,
            r matches Ok(p) ==> p@ == crate::parser::compile_spec(input@) && p.wf(),
            r matches Err(e) ==> e@ == "Input pattern is empty"@,
    {
        let parser = Parser::new();
        let result = parser.parse(input)?;
        proof {
            crate::parser::lemma_compile_wf(input@);
        }
        Ok(result)
    }

    /// Whether the input string matches this pattern: true exactly when the
    /// compiled token sequence matches the whole input. Total and
    /// deterministic; the result is a function of the pattern and the input
    /// alone.
    pub fn is_match(&self, input: &str) -> (r: bool)
        ensures
            r == toks_match(self@, input@),
    {
        let ghost toks = self@;
        let ghost s = input@;
        let chars = chars_of(input);
        let n = chars.len();
        let mut inputs: Vec<usize> = Vec::new();
        inputs.push(0);
        let mut may_skip_chars = false;
        proof {
            assert(toks.take(0) =~= Seq::<SpecToken>::empty());
            assert forall|x: usize| #[trigger]
                inputs@.contains(x) <==> (x <= s.len() && toks_match(
                    strip_any(toks.take(0)),
                    s.take(x as int),
                )) by {
                assert(strip_any(Seq::<SpecToken>::empty()) == Seq::<SpecToken>::empty());
                if inputs@.contains(x) {
                    let i = choose|i: int| 0 <= i < inputs@.len() && inputs@[i] == x;
                    assert(x == 0);
                    assert(s.take(0).len() == 0);
                }
                if x <= s.len() && toks_match(strip_any(toks.take(0)), s.take(x as int)) {
                    assert(s.take(x as int).len() == x);
                    assert(inputs@[0] == 0usize);
                    assert(inputs@.contains(x));
                }
            }
        }
        let mut ti: usize = 0;
        while ti < self.tokens.len()
            invariant
                toks == self@,
                s == input@,
                chars@ == s,
                n == s.len(),
                self.tokens@.len() == toks.len(),
                ti <= toks.len(),
                may_skip_chars == (ti > 0 && toks[ti as int - 1] is Any),
                forall|x: usize| #[trigger]
                    inputs@.contains(x) <==> (x <= s.len() && toks_match(
                        strip_any(toks.take(ti as int)),
                        s.take(x as int),
                    )),
            decreases toks.len() - ti,
        {
            let ghost prefix = toks.take(ti as int);
            let ghost prefix1 = toks.take(ti as int + 1);
            proof {
                assert(prefix1.drop_last() =~= prefix);
                assert(prefix1.last() == toks[ti as int]);
                assert(toks[ti as int] == self.tokens@[ti as int]@);
            }
            let tok = &self.tokens[ti];
            match tok {
                Token::Text(text) => {
                    proof {
                        assert forall|k: int|
                            0 <= k < inputs@.len() implies inputs@[k] <= chars@.len() by {
                            assert(inputs@.contains(inputs@[k]));
                        }
                    }
                    let ghost old_cands = inputs@;
                    let ghost msk = may_skip_chars;
                    inputs = Self::handle_text(&chars, inputs, text, may_skip_chars);
                    may_skip_chars = false;
                    proof {
                        assert(prefix.push(SpecToken::Text(text@)) =~= prefix1);
                        assert forall|x: usize| #[trigger]
                            inputs@.contains(x) <==> (x <= s.len() && toks_match(
                                strip_any(prefix1),
                                s.take(x as int),
                            )) by {
                            if ti > 0 {
                                assert(prefix.last() == toks[ti as int - 1]);
                            }
                            lemma_text_step_semantics(s, prefix, text@, msk, old_cands, x);
                        }
                    }
                },
                Token::Any => {
                    may_skip_chars = true;
                    proof {
                        assert(prefix1.last() is Any);
                        assert(strip_any(prefix1) == strip_any(prefix));
                    }
                },
            }
            ti += 1;
        }
        proof {
            assert(toks.take(toks.len() as int) =~= toks);
        }
        if may_skip_chars {
            if inputs.len() > 0 {
                proof {
                    lemma_strip_any_match(toks, s);
                    let x0 = inputs@[0];
                    assert(inputs@.contains(x0));
                    assert(toks_match(strip_any(toks), s.take(x0 as int)));
                }
                return true;
            }
            proof {
                lemma_strip_any_match(toks, s);
                if toks_match(toks, s) {
                    let j = choose|j: int|
                        0 <= j <= s.len() && toks_match(strip_any(toks), s.take(j));
                    assert(inputs@.contains(j as usize));
                }
            }
            return false;
        }
        proof {
            assert(strip_any(toks) == toks);
            assert(s.take(n as int) =~= s);
        }
        contains_pos(&inputs, n)
    }

    /// Advances the candidate set across one `Text` token: every occurrence of
    /// `need` that begins at a surviving position — or, when `may_skip_chars`
    /// is set, at or after one — yields the position just past the occurrence
    /// as a new candidate. Duplicates are dropped to bound the set's size.
    fn handle_text(
        chars: &Vec<char>,
        inputs: Vec<usize>,
        need: &String,
        may_skip_chars: bool,
    ) -> (res: Vec<usize>)
        requires
            forall|k: int| 0 <= k < inputs@.len() ==> inputs@[k] <= chars@.len(),
        ensures
            forall|e: usize| #[trigger]
                res@.contains(e) <==> step_candidate(
                    chars@,
                    inputs@,
                    need@,
                    may_skip_chars,
                    e,
                ),
            res@.no_duplicates(),
    {
        let n = chars.len();
        let tlen = need.as_str().unicode_len();
        let mut res: Vec<usize> = Vec::new();
        let mut ci: usize = 0;
        while ci < inputs.len()
            invariant
                ci <= inputs@.len(),
                n == chars@.len(),
                tlen == need@.len(),
                forall|k: int| 0 <= k < inputs@.len() ==> inputs@[k] <= chars@.len(),
                forall|e: usize| #[trigger]
                    res@.contains(e) <==> step_candidate(
                        chars@,
                        inputs@.take(ci as int),
                        need@,
                        may_skip_chars,
                        e,
                    ),
                res@.no_duplicates(),
            decreases inputs@.len() - ci,
        {
            let c = inputs[ci];
            let ghost prev = inputs@.take(ci as int);
            let ghost next = inputs@.take(ci as int + 1);
            proof {
                assert(next =~= prev.push(c));
            }
            if tlen <= n && c <= n - tlen {
                if may_skip_chars {
                    let mut p: usize = c;
                    let mut run = true;
                    while run
                        invariant
                            n == chars@.len(),
                            tlen == need@.len(),
                            tlen <= n,
                            c <= n - tlen,
                            run ==> c <= p <= n - tlen,
                            forall|e: usize| #[trigger]
                                res@.contains(e) <==> (step_candidate(
                                    chars@,
                                    prev,
                                    need@,
                                    may_skip_chars,
                                    e,
                                ) || {
                                    &&& c + tlen <= e <= n
                                    &&& e < tlen + (if run {
                                        p as int
                                    } else {
                                        n - tlen + 1
                                    })
                                    &&& chars@.subrange(e - tlen, e as int) == need@
                                }),
                            res@.no_duplicates(),
                        decreases n - tlen - p + (if run {
                            1int
                        } else {
                            0int
                        }),
                    {
                        let e = p + tlen;
                        if text_at(chars, need.as_str(), p) {
                            if !contains_pos(&res, e) {
                                let ghost old_res = res@;
                                res.push(e);
                                proof {
                                    lemma_push_no_dup(old_res, e);
                                }
                            }
                        }
                        if p < n - tlen {
                            p += 1;
                        } else {
                            run = false;
                        }
                    }
                } else {
                    if text_at(chars, need.as_str(), c) {
                        let e = c + tlen;
                        if !contains_pos(&res, e) {
                            let ghost old_res = res@;
                            res.push(e);
                            proof {
                                lemma_push_no_dup(old_res, e);
                            }
                        }
                    }
                }
            }
            proof {
                assert forall|e: usize| #[trigger]
                    res@.contains(e) <==> step_candidate(
                        chars@,
                        next,
                        need@,
                        may_skip_chars,
                        e,
                    ) by {
                    lemma_step_push(chars@, prev, c, need@, may_skip_chars, e);
                }
            }
            ci += 1;
        }
        proof {
            assert(inputs@.take(inputs@.len() as int) =~= inputs@);
        }
        res
    }
}

} // verus!
