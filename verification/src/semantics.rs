use vstd::prelude::*;

use crate::parser::compile_spec;
use crate::token::{toks_match, SpecToken};

verus! {

/// The meaning of a pattern string, read character by character from the
/// back: a wildcard marker absorbs any run of zero or more characters at its
/// position, and any other character must equal the corresponding input
/// character. The pattern anchors at both ends.
pub open spec fn pat_match(p: Seq<char>, s: Seq<char>) -> bool
    decreases p.len(),
{
    if p.len() == 0 {
        s.len() == 0
    } else if p.last() == '*' {
        exists|k: int| 0 <= k <= s.len() && pat_match(p.drop_last(), s.take(k))
    } else {
        s.len() > 0 && s.last() == p.last() && pat_match(p.drop_last(), s.drop_last())
    }
}

/// A token sequence that ends in a wildcard matches a string exactly when it
/// matches some prefix of that string: the wildcard absorbs the rest.
proof fn lemma_any_absorb(toks: Seq<SpecToken>, s: Seq<char>)
    requires
        toks.len() > 0,
        toks.last() is Any,
    ensures
        toks_match(toks, s) <==> exists|k: int| 0 <= k <= s.len() && toks_match(toks, s.take(k)),
{
    if exists|k: int| 0 <= k <= s.len() && toks_match(toks, s.take(k)) {
        let k = choose|k: int| 0 <= k <= s.len() && toks_match(toks, s.take(k));
        let k2 = choose|k2: int|
            0 <= k2 <= s.take(k).len() && toks_match(toks.drop_last(), s.take(k).take(k2));
        assert(s.take(k).take(k2) =~= s.take(k2));
        assert(toks_match(toks.drop_last(), s.take(k2)));
        assert(toks_match(toks, s));
    }
    if toks_match(toks, s) {
        assert(s.take(s.len() as int) =~= s);
        assert(toks_match(toks, s.take(s.len() as int)));
    }
}

/// Compilation preserves meaning: the compiled token sequence matches exactly
/// the strings that the pattern string itself matches.
pub proof fn lemma_compile_matches(p: Seq<char>, s: Seq<char>)
    ensures
        toks_match(compile_spec(p), s) == pat_match(p, s),
    decreases p.len(),
{
    if p.len() > 0 {
        let q = p.drop_last();
        let c = p.last();
        let front = compile_spec(q);
        let r = compile_spec(p);
        if c == '*' {
            assert forall|k: int| 0 <= k <= s.len() implies (toks_match(front, s.take(k))
                == pat_match(q, s.take(k))) by {
                lemma_compile_matches(q, s.take(k));
            }
            if front.len() > 0 && front.last() is Any {
                lemma_any_absorb(front, s);
            } else {
                assert(r.drop_last() =~= front);
                assert(r.last() == SpecToken::Any);
            }
        } else if front.len() > 0 && front.last() is Text {
            let t = front.last()->Text_0;
            assert(r == front.update(front.len() - 1, SpecToken::Text(t.push(c))));
            assert(r.drop_last() =~= front.drop_last());
            assert(r.last() == SpecToken::Text(t.push(c)));
            let bl = t.len() + 1 <= s.len();
            if s.len() > 0 {
                lemma_compile_matches(q, s.drop_last());
            }
            if bl {
                let cut = s.len() - t.len() - 1;
                assert(s.drop_last().take(cut) =~= s.take(cut));
                assert(s.drop_last().skip(cut) =~= s.skip(cut).drop_last());
                if s.skip(cut) == t.push(c) {
                    assert(s.skip(cut)[t.len() as int] == s.last());
                    assert(s.last() == c);
                    assert(s.drop_last().skip(cut) =~= t);
                }
                if s.last() == c && s.drop_last().skip(cut) == t {
                    assert forall|i: int| 0 <= i < t.len() + 1 implies s.skip(cut)[i] == t.push(
                        c,
                    )[i] by {
                        if i < t.len() {
                            assert(s.skip(cut)[i] == s.drop_last().skip(cut)[i]);
                        } else {
                            assert(s.skip(cut)[i] == s.last());
                        }
                    }
                    assert(s.skip(cut) =~= t.push(c));
                }
            }
        } else {
            assert(r.drop_last() =~= front);
            assert(r.last() == SpecToken::Text(seq![c]));
            if s.len() > 0 {
                lemma_compile_matches(q, s.drop_last());
                let cut = s.len() - 1;
                assert(s.take(cut) =~= s.drop_last());
                assert(s.skip(cut).len() == 1);
                assert(s.skip(cut)[0] == s.last());
                assert(seq![c][0] == c);
                if s.last() == c {
                    assert(s.skip(cut) =~= seq![c]);
                }
                if s.skip(cut) == seq![c] {
                    assert(s.last() == c);
                }
            }
        }
    }
}

/// A pattern string with no wildcard marker in it.
pub open spec fn is_literal(p: Seq<char>) -> bool {
    forall|i: int| 0 <= i < p.len() ==> p[i] != '*'
}

/// A wildcard-free pattern matches exactly the input that is character for
/// character identical to it.
pub proof fn lemma_literal_exact(p: Seq<char>, s: Seq<char>)
    requires
        is_literal(p),
    ensures
        pat_match(p, s) <==> s == p,
    decreases p.len(),
{
    if p.len() == 0 {
        if s.len() == 0 {
            assert(s =~= p);
        }
    } else {
        assert(p[p.len() - 1] != '*');
        let q = p.drop_last();
        assert forall|i: int| 0 <= i < q.len() implies q[i] != '*' by {
            assert(q[i] == p[i]);
        }
        if s.len() > 0 {
            lemma_literal_exact(q, s.drop_last());
            if s.len() > 0 && s.last() == p.last() && s.drop_last() == q {
                assert forall|i: int| 0 <= i < p.len() implies s[i] == p[i] by {
                    if i < p.len() - 1 {
                        assert(s[i] == s.drop_last()[i]);
                        assert(q[i] == p[i]);
                    } else {
                        assert(s[i] == s.last());
                    }
                }
                assert(s =~= p);
            }
            if s == p {
                assert(s.drop_last() =~= q);
            }
        }
    }
}

/// The sole-wildcard pattern matches every input, the empty one included.
pub proof fn lemma_star_matches_all(s: Seq<char>)
    ensures
        pat_match(seq!['*'], s),
{
    let p = seq!['*'];
    assert(p.last() == '*');
    assert(p.drop_last() =~= Seq::<char>::empty());
    assert(s.take(0).len() == 0);
    assert(pat_match(p.drop_last(), s.take(0)));
}

/// A literal followed by a wildcard matches exactly the inputs that begin
/// with the literal.
pub proof fn lemma_prefix_wildcard(a: Seq<char>, s: Seq<char>)
    requires
        is_literal(a),
    ensures
        pat_match(a.push('*'), s) <==> (a.len() <= s.len() && s.take(a.len() as int) == a),
{
    let p = a.push('*');
    assert(p.last() == '*');
    assert(p.drop_last() =~= a);
    if pat_match(p, s) {
        let k = choose|k: int| 0 <= k <= s.len() && pat_match(a, s.take(k));
        lemma_literal_exact(a, s.take(k));
        assert(s.take(k).len() == k);
        assert(s.take(k) == a);
    }
    if a.len() <= s.len() && s.take(a.len() as int) == a {
        lemma_literal_exact(a, s.take(a.len() as int));
        assert(pat_match(a, s.take(a.len() as int)));
    }
}

/// A wildcard followed by a literal matches exactly the inputs that end with
/// the literal.
pub proof fn lemma_suffix_wildcard(a: Seq<char>, s: Seq<char>)
    requires
        is_literal(a),
    ensures
        pat_match(seq!['*'] + a, s) <==> (a.len() <= s.len() && s.skip(s.len() - a.len()) == a),
    decreases a.len(),
{
    let p = seq!['*'] + a;
    if a.len() == 0 {
        assert(p =~= seq!['*']);
        lemma_star_matches_all(s);
        assert(s.skip(s.len() as int) =~= a);
    } else {
        assert(p.last() == a.last());
        assert(a[a.len() - 1] != '*');
        let b = a.drop_last();
        assert forall|i: int| 0 <= i < b.len() implies b[i] != '*' by {
            assert(b[i] == a[i]);
        }
        assert(p.drop_last() =~= seq!['*'] + b);
        if s.len() > 0 {
            lemma_suffix_wildcard(b, s.drop_last());
            let cut = s.len() - a.len();
            if a.len() <= s.len() {
                assert(s.drop_last().skip(cut) =~= s.skip(cut).drop_last());
                if s.skip(cut) == a {
                    assert(s.skip(cut)[a.len() - 1] == s.last());
                    assert(s.last() == a.last());
                    assert(s.drop_last().skip(cut) =~= b);
                }
                if s.last() == a.last() && s.drop_last().skip(cut) == b {
                    assert forall|i: int| 0 <= i < a.len() implies s.skip(cut)[i] == a[i] by {
                        if i < a.len() - 1 {
                            assert(s.skip(cut)[i] == s.drop_last().skip(cut)[i]);
                        } else {
                            assert(s.skip(cut)[i] == s.last());
                        }
                    }
                    assert(s.skip(cut) =~= a);
                }
            }
        }
    }
}

/// A literal, a wildcard, then a second literal: the pattern matches exactly
/// the inputs that begin with the first literal and end with the second, the
/// two occurrences not overlapping.
pub proof fn lemma_mid_wildcard(a: Seq<char>, b: Seq<char>, s: Seq<char>)
    requires
        is_literal(a),
        is_literal(b),
    ensures
        pat_match(a + seq!['*'] + b, s) <==> {
            &&& a.len() + b.len() <= s.len()
            &&& s.take(a.len() as int) == a
            &&& s.skip(s.len() - b.len()) == b
        },
    decreases b.len(),
{
    let p = a + seq!['*'] + b;
    if b.len() == 0 {
        assert(p =~= a.push('*'));
        lemma_prefix_wildcard(a, s);
        assert(s.skip(s.len() as int) =~= b);
    } else {
        assert(p.last() == b.last());
        assert(b[b.len() - 1] != '*');
        let b2 = b.drop_last();
        assert forall|i: int| 0 <= i < b2.len() implies b2[i] != '*' by {
            assert(b2[i] == b[i]);
        }
        assert(p.drop_last() =~= a + seq!['*'] + b2);
        if s.len() > 0 {
            lemma_mid_wildcard(a, b2, s.drop_last());
            let cut = s.len() - b.len();
            if a.len() + b.len() <= s.len() {
                assert(s.drop_last().take(a.len() as int) =~= s.take(a.len() as int));
                assert(s.drop_last().skip(cut) =~= s.skip(cut).drop_last());
                if s.skip(cut) == b {
                    assert(s.skip(cut)[b.len() - 1] == s.last());
                    assert(s.last() == b.last());
                    assert(s.drop_last().skip(cut) =~= b2);
                }
                if s.last() == b.last() && s.drop_last().skip(cut) == b2 {
                    assert forall|i: int| 0 <= i < b.len() implies s.skip(cut)[i] == b[i] by {
                        if i < b.len() - 1 {
                            assert(s.skip(cut)[i] == s.drop_last().skip(cut)[i]);
                        } else {
                            assert(s.skip(cut)[i] == s.last());
                        }
                    }
                    assert(s.skip(cut) =~= b);
                }
            }
        }
    }
}

/// Collapsing wildcards is exact at the token level: a doubled wildcard
/// marker compiles to the very same token sequence as a single one, wherever
/// it stands.
pub proof fn lemma_collapse_stars(a: Seq<char>, b: Seq<char>)
    ensures
        compile_spec(a + seq!['*', '*'] + b) == compile_spec(a + seq!['*'] + b),
    decreases b.len(),
{
    let p1 = a + seq!['*', '*'] + b;
    let p2 = a + seq!['*'] + b;
    if b.len() == 0 {
        assert(p1 =~= a.push('*').push('*'));
        assert(p2 =~= a.push('*'));
        let f1 = compile_spec(a.push('*'));
        assert(f1.len() > 0 && f1.last() is Any);
        assert(p1.drop_last() =~= a.push('*'));
        assert(p1.last() == '*');
        assert(compile_spec(p1) == f1);
    } else {
        assert(p1.drop_last() =~= a + seq!['*', '*'] + b.drop_last());
        assert(p2.drop_last() =~= a + seq!['*'] + b.drop_last());
        assert(p1.last() == b.last());
        assert(p2.last() == b.last());
        lemma_collapse_stars(a, b.drop_last());
    }
}

/// The behavioral reading of wildcard collapsing: doubling a wildcard marker
/// changes no matching outcome, for any input.
pub proof fn lemma_collapse_stars_behavior(a: Seq<char>, b: Seq<char>, s: Seq<char>)
    ensures
        pat_match(a + seq!['*', '*'] + b, s) == pat_match(a + seq!['*'] + b, s),
{
    lemma_collapse_stars(a, b);
    lemma_compile_matches(a + seq!['*', '*'] + b, s);
    lemma_compile_matches(a + seq!['*'] + b, s);
}

/// Matching is deterministic: any two results of evaluating the same token
/// sequence against the same input are the same.
pub proof fn lemma_match_deterministic(toks: Seq<SpecToken>, s: Seq<char>, r1: bool, r2: bool)
    requires
        r1 == toks_match(toks, s),
        r2 == toks_match(toks, s),
    ensures
        r1 == r2,
{
}

} // verus!
