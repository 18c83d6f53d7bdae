//! Scanning free-form log text for every place where a literal prefix is
//! followed by a captured token — a maximal non-empty run of non-blank
//! characters — and then by a literal suffix. Matches are found leftmost
//! first and do not overlap: the search resumes right after each match.

use vstd::prelude::*;

verus! {

/// The blank characters that end a captured token.
pub open spec fn is_space(c: char) -> bool {
    c == ' ' || c == '\t' || c == '\n' || c == '\r' || c == '\x0b' || c == '\x0c'
}

pub fn is_space_exec(c: char) -> (r: bool)
    ensures
        r == is_space(c),
{
    c == ' ' || c == '\t' || c == '\n' || c == '\r' || c == '\x0b' || c == '\x0c'
}

/// End of the non-blank run starting at `j`: the first blank position at or
/// after `j`, or the end of `s`.
pub open spec fn token_end(s: Seq<char>, j: int) -> int
    decreases s.len() - j,
{
    if !(0 <= j < s.len()) {
        s.len() as int
    } else if is_space(s[j]) {
        j
    } else {
        token_end(s, j + 1)
    }
}

pub proof fn lemma_token_end(s: Seq<char>, j: int)
    requires
        0 <= j <= s.len(),
    ensures
        j <= token_end(s, j) <= s.len(),
        forall|i: int| j <= i < token_end(s, j) ==> !is_space(s[i]),
        token_end(s, j) < s.len() ==> is_space(s[token_end(s, j)]),
    decreases s.len() - j,
{
    if j < s.len() && !is_space(s[j]) {
        lemma_token_end(s, j + 1);
    }
}

/// A match of `pre`, then a non-empty token, then `suf`, starting at `i`.
pub open spec fn match_at(s: Seq<char>, pre: Seq<char>, suf: Seq<char>, i: int) -> bool {
    let j = i + pre.len();
    let k = token_end(s, j);
    &&& 0 <= i
    &&& j <= s.len()
    &&& s.subrange(i, j) == pre
    &&& k > j
    &&& k + suf.len() <= s.len()
    &&& s.subrange(k, k + suf.len() as int) == suf
}

/// The token captured by a match at `i`.
pub open spec fn match_token(s: Seq<char>, pre: Seq<char>, i: int) -> Seq<char> {
    s.subrange(i + pre.len(), token_end(s, i + pre.len()))
}

/// The position right after a match at `i`, where the search resumes.
pub open spec fn match_end(s: Seq<char>, pre: Seq<char>, suf: Seq<char>, i: int) -> int {
    token_end(s, i + pre.len()) + suf.len()
}

/// All captured tokens from `pos` on, leftmost first, non-overlapping.
pub open spec fn captures_from(s: Seq<char>, pre: Seq<char>, suf: Seq<char>, pos: int) -> Seq<
    Seq<char>,
>
    decreases s.len() - pos,
    when 0 <= pos <= s.len()
    via captures_from_decreases
{
    if pos >= s.len() {
        Seq::empty()
    } else if match_at(s, pre, suf, pos) {
        seq![match_token(s, pre, pos)] + captures_from(s, pre, suf, match_end(s, pre, suf, pos))
    } else {
        captures_from(s, pre, suf, pos + 1)
    }
}

#[via_fn]
proof fn captures_from_decreases(s: Seq<char>, pre: Seq<char>, suf: Seq<char>, pos: int) {
    if pos < s.len() && match_at(s, pre, suf, pos) {
        lemma_token_end(s, pos + pre.len());
    }
}

/// The subranges of `s` named by a list of index spans.
pub open spec fn span_seqs(s: Seq<char>, spans: Seq<(usize, usize)>) -> Seq<Seq<char>> {
    spans.map_values(|p: (usize, usize)| s.subrange(p.0 as int, p.1 as int))
}

/// Whether `pat` occurs in `chars` starting at `at`.
fn eq_range(chars: &Vec<char>, at: usize, pat: &Vec<char>) -> (r: bool)
    requires
        at <= chars@.len(),
        pat@.len() <= chars@.len() - at,
    ensures
        r == (chars@.subrange(at as int, at + pat@.len()) == pat@),
{
    let m: usize = pat.len();
    let n: usize = chars.len();
    let mut i: usize = 0;
    while i < m
        invariant
            i <= m,
            m == pat@.len(),
            n == chars@.len(),
            at + m <= n,
            forall|x: int| 0 <= x < i ==> chars@[at + x] == pat@[x],
        decreases m - i,
    {
        if chars[at + i] != pat[i] {
            proof {
                let sr = chars@.subrange(at as int, at + pat@.len());
                assert(sr[i as int] == chars@[at + i]);
                assert(sr != pat@);
            }
            return false;
        }
        i = i + 1;
    }
    proof {
        assert(chars@.subrange(at as int, at + pat@.len()) =~= pat@);
    }
    true
}

/// Exec mirror of `token_end`.
fn token_end_exec(chars: &Vec<char>, j: usize) -> (r: usize)
    requires
        j <= chars@.len(),
    ensures
        r as int == token_end(chars@, j as int),
        j <= r <= chars@.len(),
{
    let n: usize = chars.len();
    let mut i: usize = j;
    while i < n && !is_space_exec(chars[i])
        invariant
            j <= i <= n,
            n == chars@.len(),
            token_end(chars@, j as int) == token_end(chars@, i as int),
        decreases n - i,
    {
        i = i + 1;
    }
    proof {
        lemma_token_end(chars@, j as int);
    }
    i
}

/// Checks for a match at `i`; returns the token span on success.
fn match_here(chars: &Vec<char>, pre: &Vec<char>, suf: &Vec<char>, i: usize) -> (r: Option<
    (usize, usize),
>)
    requires
        i <= chars@.len(),
    ensures
        r matches Some(span) ==> {
            &&& match_at(chars@, pre@, suf@, i as int)
            &&& span.0 as int == i + pre@.len()
            &&& span.1 as int == token_end(chars@, i + pre@.len())
            &&& span.0 <= span.1 <= chars@.len()
        },
        r is None ==> !match_at(chars@, pre@, suf@, i as int),
{
    let n: usize = chars.len();
    if pre.len() > n - i {
        return None;
    }
    if !eq_range(chars, i, pre) {
        return None;
    }
    let j: usize = i + pre.len();
    let te: usize = token_end_exec(chars, j);
    if te == j {
        return None;
    }
    if suf.len() > n - te {
        proof {
            lemma_token_end(chars@, j as int);
        }
        return None;
    }
    if !eq_range(chars, te, suf) {
        return None;
    }
    Some((j, te))
}

/// Finds every capture in `chars`, leftmost first and non-overlapping, and
/// returns the index span of each captured token.
pub fn find_captures(chars: &Vec<char>, pre: &Vec<char>, suf: &Vec<char>) -> (r: Vec<
    (usize, usize),
>)
    ensures
        forall|t: int|
            0 <= t < r@.len() ==> (#[trigger] r@[t]).0 <= r@[t].1 && r@[t].1 <= chars@.len(),
        span_seqs(chars@, r@) == captures_from(chars@, pre@, suf@, 0),
{
    let n: usize = chars.len();
    let mut r: Vec<(usize, usize)> = Vec::new();
    let mut pos: usize = 0;
    while pos < n
        invariant
            pos <= n,
            n == chars@.len(),
            forall|t: int|
                0 <= t < r@.len() ==> (#[trigger] r@[t]).0 <= r@[t].1 && r@[t].1 <= chars@.len(),
            captures_from(chars@, pre@, suf@, 0) == span_seqs(chars@, r@) + captures_from(
                chars@,
                pre@,
                suf@,
                pos as int,
            ),
        decreases n - pos,
    {
        match match_here(chars, pre, suf, pos) {
            Some(span) => {
                let ghost old_r = r@;
                proof {
                    lemma_token_end(chars@, pos + pre@.len());
                }
                r.push(span);
                let next: usize = span.1 + suf.len();
                proof {
                    assert(captures_from(chars@, pre@, suf@, pos as int) == seq![
                        match_token(chars@, pre@, pos as int),
                    ] + captures_from(chars@, pre@, suf@, next as int));
                    assert(chars@.subrange(span.0 as int, span.1 as int) == match_token(
                        chars@,
                        pre@,
                        pos as int,
                    ));
                    assert(span_seqs(chars@, r@) =~= span_seqs(chars@, old_r).push(
                        chars@.subrange(span.0 as int, span.1 as int),
                    ));
                    assert(span_seqs(chars@, old_r) + captures_from(chars@, pre@, suf@, pos as int)
                        =~= span_seqs(chars@, r@) + captures_from(chars@, pre@, suf@, next as int));
                }
                pos = next;
            },
            None => {
                proof {
                    assert(captures_from(chars@, pre@, suf@, pos as int) == captures_from(
                        chars@,
                        pre@,
                        suf@,
                        pos as int + 1,
                    ));
                }
                pos = pos + 1;
            },
        }
    }
    proof {
        assert(captures_from(chars@, pre@, suf@, n as int) =~= Seq::<Seq<char>>::empty());
        assert(span_seqs(chars@, r@) + Seq::<Seq<char>>::empty() =~= span_seqs(chars@, r@));
    }
    r
}

/// Whether `chars[from..to)` holds a non-blank character.
pub fn has_nonspace(chars: &Vec<char>, from: usize, to: usize) -> (r: bool)
    requires
        from <= to && to <= chars@.len(),
    ensures
        r == exists|x: int| from <= x < to && !is_space(#[trigger] chars@[x]),
{
    let mut i: usize = from;
    while i < to
        invariant
            from <= i <= to,
            to <= chars@.len(),
            forall|x: int| from <= x < i ==> is_space(#[trigger] chars@[x]),
        decreases to - i,
    {
        if !is_space_exec(chars[i]) {
            return true;
        }
        i = i + 1;
    }
    false
}

} // verus!
