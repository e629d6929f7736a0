//! The matcher: decides whether a line of text matches a compiled pattern.
//!
//! The top-level search tries every start position of the line; at a fixed
//! start the fragment sequence must cover a contiguous span with every
//! fragment evaluated strictly inside the line, and quantified fragments
//! are resolved by trying every split (full backtracking), so the result is
//! exactly the `pattern_matches` relation.

use vstd::prelude::*;

use crate::pattern::chars_of;
use crate::pattern::frag_view;
use crate::pattern::frags_view;
use crate::pattern::Class;
use crate::pattern::Frag;
use crate::pattern::Match;
use crate::pattern::Matcher;
use crate::parser::parse_spec;
use crate::parser::ParseError;
use crate::semantics::class_matches;
use crate::semantics::frag_matches;
use crate::semantics::frags_match;
use crate::semantics::lemma_frag_matches_bounds;
use crate::semantics::lemma_tail_matches_split;
use crate::semantics::lemma_tail_matches_step;
use crate::semantics::pattern_matches;
use crate::semantics::rep_cut;
use crate::semantics::tail_matches;

verus! {

fn check_class(cl: Class, c: char) -> (b: bool)
    ensures
        b == class_matches(cl, c),
{
    let u = c as u32;
    match cl {
        Class::Digit => ('0' as u32) <= u && u <= ('9' as u32),
        Class::Word => (('0' as u32) <= u && u <= ('9' as u32)) || (('a' as u32) <= u && u <= ('z'
            as u32)) || (('A' as u32) <= u && u <= ('Z' as u32)),
    }
}

fn contains_char(ms: &Vec<char>, c: char) -> (b: bool)
    ensures
        b == ms@.contains(c),
{
    let mut j: usize = 0;
    while j < ms.len()
        invariant
            j <= ms@.len(),
            forall|k: int| 0 <= k < j ==> ms@[k] != c,
        decreases ms@.len() - j,
    {
        if ms[j] == c {
            return true;
        }
        j = j + 1;
    }
    assert(!ms@.contains(c));
    false
}

impl Match {
    /// Decides whether this fragment, evaluated at position `pos` of
    /// `line`, can cover exactly `n` characters.
    #[verifier::loop_isolation(false)]
    pub fn match_at(&self, line: &Vec<char>, pos: usize, n: usize) -> (b: bool)
        ensures
            b == frag_matches(self@, line@, pos as int, n as int),
        decreases *self, n,
    {
        if pos > line.len() || n > line.len() - pos {
            proof {
                if frag_matches(self@, line@, pos as int, n as int) {
                    lemma_frag_matches_bounds(self@, line@, pos as int, n as int);
                }
            }
            return false;
        }
        match self {
            Match::Literal(s) => {
                if n != s.len() {
                    return false;
                }
                let mut j: usize = 0;
                while j < n
                    invariant
                        j <= n,
                        n == s@.len(),
                        pos + n <= line@.len(),
                        forall|k: int| 0 <= k < j ==> line@[pos + k] == s@[k],
                    decreases n - j,
                {
                    if line[pos + j] != s[j] {
                        proof {
                            assert(line@.subrange(pos as int, pos + n)[j as int] == line@[pos + j]);
                        }
                        return false;
                    }
                    j = j + 1;
                }
                proof {
                    assert(line@.subrange(pos as int, pos + n) =~= s@);
                }
                true
            },
            Match::CharClass(cl) => n == 1 && check_class(*cl, line[pos]),
            Match::PositiveGroup(ms) => n == 1 && contains_char(ms, line[pos]),
            Match::NegativeGroup(ms) => n == 1 && !contains_char(ms, line[pos]),
            Match::StartAnchor(f0) => pos == 0 && f0.match_at(line, pos, n),
            Match::EndAnchor(f0) => f0.match_at(line, pos, n) && pos + n == line.len(),
            Match::OneOrMore(f0) => {
                if f0.match_at(line, pos, n) {
                    return true;
                }
                let mut m: usize = 1;
                while m < n
                    invariant
                        1 <= m,
                        pos + n <= line@.len(),
                        !frag_matches(frag_view(**f0), line@, pos as int, n as int),
                        self@ == Frag::OneOrMore(Box::new(frag_view(**f0))),
                        forall|q: int|
                            1 <= q < m ==> !(frag_matches(frag_view(**f0), line@, pos as int, q)
                                && frag_matches(self@, line@, pos + q, n - q)),
                    decreases n - m,
                {
                    if f0.match_at(line, pos, m) {
                        if self.match_at(line, pos + m, n - m) {
                            proof {
                                assert(rep_cut(m as int));
                            }
                            return true;
                        }
                    }
                    m = m + 1;
                }
                proof {
                    assert forall|q: int|
                        !(rep_cut(q) && 1 <= q < n && frag_matches(
                            frag_view(**f0),
                            line@,
                            pos as int,
                            q,
                        ) && frag_matches(self@, line@, pos as int + q, n - q)) by {
                        if 1 <= q < n {
                            assert(!(frag_matches(frag_view(**f0), line@, pos as int, q)
                                && frag_matches(self@, line@, pos as int + q, n - q)));
                        }
                    }
                    assert(!frag_matches(self@, line@, pos as int, n as int));
                }
                false
            },
            Match::ZeroOrOne(f0) => {
                if n == 0 {
                    true
                } else {
                    f0.match_at(line, pos, n)
                }
            },
            Match::AnyChar => n == 1,
        }
    }
}

/// Decides whether the fragments of `frags` from index `k` on can cover
/// some contiguous span of `line` starting at `pos`.
#[verifier::loop_isolation(false)]
fn match_tail(frags: &Vec<Match>, k: usize, line: &Vec<char>, pos: usize) -> (b: bool)
    requires
        k <= frags@.len(),
        pos <= line@.len(),
    ensures
        b == tail_matches(frags_view(frags@).skip(k as int), line@, pos as int),
    decreases frags@.len() - k,
{
    let ghost tail = frags_view(frags@).skip(k as int);
    if k == frags.len() {
        proof {
            assert(tail =~= Seq::<Frag>::empty());
            assert(frags_match(tail, line@, pos as int, pos as int));
        }
        return true;
    }
    let ghost fk = frag_view(frags@[k as int]);
    proof {
        assert(tail[0] == fk);
        assert(tail.drop_first() =~= frags_view(frags@).skip(k + 1));
    }
    if pos == line.len() {
        // Fragments remain but the position has reached the end of the
        // line: the sequence fails here by definition.
        proof {
            if tail_matches(tail, line@, pos as int) {
                let to = choose|to: int| frags_match(tail, line@, pos as int, to);
                assert(false);
            }
        }
        return false;
    }
    let llen = line.len();
    let mut n: usize = 0;
    loop
        invariant
            k < frags@.len(),
            pos <= line@.len(),
            llen == line@.len(),
            n <= llen - pos,
            tail == frags_view(frags@).skip(k as int),
            fk == frag_view(frags@[k as int]),
            tail.len() > 0,
            tail[0] == fk,
            tail.drop_first() == frags_view(frags@).skip(k + 1),
            forall|q: int|
                0 <= q < n ==> !(frag_matches(fk, line@, pos as int, q) && tail_matches(
                    frags_view(frags@).skip(k + 1),
                    line@,
                    pos as int + q,
                )),
        decreases line@.len() - pos - n,
    {
        if frags[k].match_at(line, pos, n) {
            if match_tail(frags, k + 1, line, pos + n) {
                proof {
                    lemma_tail_matches_step(tail, line@, pos as int, n as int, pos + n);
                }
                return true;
            }
        }
        if n == llen - pos {
            break ;
        }
        n = n + 1;
    }
    proof {
        if tail_matches(tail, line@, pos as int) {
            let n0 = lemma_tail_matches_split(tail, line@, pos as int);
            lemma_frag_matches_bounds(fk, line@, pos as int, n0);
            assert(tail_matches(frags_view(frags@).skip(k + 1), line@, pos as int + n0));
            assert(false);
        }
    }
    false
}

impl Matcher {
    /// Decides whether `input_line` matches this pattern: whether some
    /// contiguous span of the line is covered by the fragment sequence.
    #[verifier::loop_isolation(false)]
    pub fn match_line(&self, input_line: &str) -> (b: bool)
        ensures
            b == pattern_matches(self@, input_line@),
    {
        let line = chars_of(input_line);
        proof {
            assert(frags_view(self.fragments@).skip(0) =~= self@);
        }
        let mut start: usize = 0;
        loop
            invariant
                start <= line@.len(),
                line@ == input_line@,
                frags_view(self.fragments@).skip(0) == self@,
                forall|q: int| 0 <= q < start ==> !tail_matches(self@, line@, q),
            decreases line@.len() - start,
        {
            if match_tail(&self.fragments, 0, &line, start) {
                proof {
                    let to = choose|to: int| frags_match(self@, line@, start as int, to);
                    crate::semantics::lemma_frags_match_bounds(self@, line@, start as int, to);
                }
                return true;
            }
            if start == line.len() {
                break ;
            }
            start = start + 1;
        }
        proof {
            if pattern_matches(self@, line@) {
                let (from, to) = choose|from: int, to: int|
                    0 <= from <= to <= line@.len() && frags_match(self@, line@, from, to);
                assert(tail_matches(self@, line@, from));
                assert(false);
            }
        }
        false
    }
}

/// Compiles `pattern` and matches `input_line` against it in one call:
/// the match result of the parsed pattern, or the parse error.
pub fn match_pattern(input_line: &str, pattern: &str) -> (r: Result<bool, ParseError>)
    ensures
        parse_spec(pattern@) is Ok ==> r == Ok::<bool, ParseError>(
            pattern_matches(parse_spec(pattern@)->Ok_0, input_line@),
        ),
        parse_spec(pattern@) is Err ==> r == Err::<bool, ParseError>(parse_spec(pattern@)->Err_0),
{
    match Matcher::from_pattern(pattern) {
        Ok(m) => Ok(m.match_line(input_line)),
        Err(e) => Err(e),
    }
}

} // verus!
