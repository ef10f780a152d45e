use vstd::prelude::*;

use crate::error::Error;

verus! {

/// A unit of compiled pattern structure: a wildcard marker or literal text.
#[derive(Debug, Clone)]
pub enum Token {
    /// Matches a run of zero or more characters.
    Any,
    /// Matches the contained text character for character; after compilation
    /// the text is never empty.
    Text(String),
}

/// The mathematical shape of a token: the wildcard, or a literal sequence of
/// characters.
pub enum SpecToken {
    Any,
    Text(Seq<char>),
}

impl View for Token {
    type V = SpecToken;

    open spec fn view(&self) -> SpecToken {
        match self {
            Token::Any => SpecToken::Any,
            Token::Text(s) => SpecToken::Text(s@),
        }
    }
}

/// The token sequence that a vector of tokens stands for.
pub open spec fn toks_view(v: Seq<Token>) -> Seq<SpecToken> {
    Seq::new(v.len(), |i: int| v[i]@)
}

/// What it means for a token sequence to match a string in full: every
/// character of `s` is consumed, an `Any` token standing for any run of zero
/// or more characters and a `Text` token for exactly its own characters.
pub open spec fn toks_match(toks: Seq<SpecToken>, s: Seq<char>) -> bool
    decreases toks.len(),
{
    if toks.len() == 0 {
        s.len() == 0
    } else {
        match toks.last() {
            SpecToken::Any => exists|k: int|
                0 <= k <= s.len() && toks_match(toks.drop_last(), s.take(k)),
            SpecToken::Text(t) => {
                &&& t.len() <= s.len()
                &&& s.skip(s.len() - t.len()) == t
                &&& toks_match(toks.drop_last(), s.take(s.len() - t.len()))
            },
        }
    }
}

/// The token sequence with every trailing `Any` token removed.
pub open spec fn strip_any(toks: Seq<SpecToken>) -> Seq<SpecToken>
    decreases toks.len(),
{
    if toks.len() > 0 && toks.last() is Any {
        strip_any(toks.drop_last())
    } else {
        toks
    }
}

/// The invariant of a compiled token sequence: no two adjacent `Any` tokens,
/// and no empty `Text` token.
pub open spec fn wf_tokens(toks: Seq<SpecToken>) -> bool {
    &&& forall|i: int|
        0 <= i && i + 1 < toks.len() ==> !((#[trigger] toks[i]) is Any && toks[i + 1] is Any)
    &&& forall|i: int|
        0 <= i < toks.len() ==> ((#[trigger] toks[i]) matches SpecToken::Text(t) ==> t.len() > 0)
}

/// Appending a token that respects the invariant keeps the invariant, as long
/// as the new token is a non-empty text, or a wildcard that does not follow
/// another wildcard.
pub proof fn lemma_wf_push(front: Seq<SpecToken>, x: SpecToken)
    requires
        wf_tokens(front),
        x is Any ==> front.len() == 0 || !(front.last() is Any),
        x matches SpecToken::Text(t) ==> t.len() > 0,
    ensures
        wf_tokens(front.push(x)),
{
    let r = front.push(x);
    assert forall|i: int| 0 <= i && i + 1 < r.len() implies !((#[trigger] r[i]) is Any && r[i
        + 1] is Any) by {
        assert(r[i] == front[i]);
        if i + 1 < front.len() {
            assert(r[i + 1] == front[i + 1]);
        } else {
            assert(r[i] == front.last());
            assert(r[i + 1] == x);
        }
    }
    assert forall|i: int|
        0 <= i < r.len() implies ((#[trigger] r[i]) matches SpecToken::Text(t) ==> t.len()
        > 0) by {
        if i < front.len() {
            assert(r[i] == front[i]);
        } else {
            assert(r[i] == x);
        }
    }
}

/// Replacing the trailing text token by another non-empty text token keeps
/// the invariant.
pub proof fn lemma_wf_update_last(front: Seq<SpecToken>, t: Seq<char>)
    requires
        wf_tokens(front),
        front.len() > 0,
        front.last() is Text,
        t.len() > 0,
    ensures
        wf_tokens(front.update(front.len() - 1, SpecToken::Text(t))),
{
    let r = front.update(front.len() - 1, SpecToken::Text(t));
    assert forall|i: int| 0 <= i && i + 1 < r.len() implies !((#[trigger] r[i]) is Any && r[i
        + 1] is Any) by {
        if i < front.len() - 1 {
            assert(r[i] == front[i]);
        }
        if i + 1 < front.len() - 1 {
            assert(r[i + 1] == front[i + 1]);
        }
    }
    assert forall|i: int|
        0 <= i < r.len() implies ((#[trigger] r[i]) matches SpecToken::Text(u) ==> u.len()
        > 0) by {
        if i < front.len() - 1 {
            assert(r[i] == front[i]);
        }
    }
}

/// A token sequence that ends in a wildcard matches a string exactly when the
/// sequence without its trailing wildcards matches some prefix of the string:
/// the trailing wildcards absorb whatever remains.
pub proof fn lemma_strip_any_match(toks: Seq<SpecToken>, s: Seq<char>)
    requires
        toks.len() > 0,
        toks.last() is Any,
    ensures
        toks_match(toks, s) <==> exists|j: int|
            0 <= j <= s.len() && toks_match(strip_any(toks), s.take(j)),
    decreases toks.len(),
{
    let front = toks.drop_last();
    if front.len() > 0 && front.last() is Any {
        if toks_match(toks, s) {
            let k = choose|k: int| 0 <= k <= s.len() && toks_match(front, s.take(k));
            lemma_strip_any_match(front, s.take(k));
            let j = choose|j: int|
                0 <= j <= s.take(k).len() && toks_match(strip_any(front), s.take(k).take(j));
            assert(s.take(k).take(j) =~= s.take(j));
            assert(toks_match(strip_any(toks), s.take(j)));
        }
        if exists|j: int| 0 <= j <= s.len() && toks_match(strip_any(toks), s.take(j)) {
            let j = choose|j: int| 0 <= j <= s.len() && toks_match(strip_any(toks), s.take(j));
            lemma_strip_any_match(front, s.take(j));
            assert(s.take(j).take(j) =~= s.take(j));
            assert(toks_match(strip_any(front), s.take(j).take(j)));
            assert(toks_match(front, s.take(j)));
            assert(toks_match(toks, s));
        }
    } else {
        reveal_with_fuel(strip_any, 2);
        assert(strip_any(toks) == front);
    }
}

/// Relies on `String::push`: appends the given character to the end of the
/// string.
pub assume_specification[ String::push ](s: &mut String, ch: char)
    ensures
        final(s)@ == old(s)@.push(ch),
;

impl Token {
    /// True iff this token is a literal-text token.
    pub(crate) fn is_text(&self) -> (r: bool)
        ensures
            r == (self@ is Text),
    {
        match self {
            Token::Text(..) => true,
            _ => false,
        }
    }

    /// True iff this token is the wildcard token.
    pub(crate) fn is_any(&self) -> (r: bool)
        ensures
            r == (self@ is Any),
    {
        match self {
            Token::Any => true,
            _ => false,
        }
    }

    /// Appends a character to a literal-text token. The wildcard token cannot
    /// take characters; asking for that is reported as an error and leaves the
    /// token unchanged.
    pub(crate) fn append_char(&mut self, ch: char) -> (r: Result<(), Error>)
        ensures
            old(self)@ is Text ==> {
                &&& r is Ok
                &&& final(self)@ == SpecToken::Text(old(self)@->Text_0.push(ch))
            },
            old(self)@ is Any ==> r is Err && final(self)@ == old(self)@,
    {
        match self {
            Token::Text(text) => {
                text.push(ch);
                Ok(())
            },
            Token::Any => Err(Error::new("Unable append char to non-text token")),
        }
    }
}

} // verus!
