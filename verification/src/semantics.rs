//! The meaning of a pattern: which spans of a line each fragment can cover,
//! and when a whole fragment sequence matches a line.

use vstd::prelude::*;

use crate::pattern::Class;
use crate::pattern::Frag;

verus! {

/// An ASCII digit, `'0'` through `'9'`.
pub open spec fn is_digit_char(c: char) -> bool {
    ('0' as u32) <= (c as u32) && (c as u32) <= ('9' as u32)
}

/// An ASCII letter or digit; `'_'` is deliberately not a word character in
/// this grammar.
pub open spec fn is_word_char(c: char) -> bool {
    is_digit_char(c) || (('a' as u32) <= (c as u32) && (c as u32) <= ('z' as u32)) || (('A' as u32)
        <= (c as u32) && (c as u32) <= ('Z' as u32))
}

pub open spec fn class_matches(cl: Class, c: char) -> bool {
    match cl {
        Class::Digit => is_digit_char(c),
        Class::Word => is_word_char(c),
    }
}

/// Always true. The decomposition of a `OneOrMore` into a first repetition
/// of `m` characters and a remainder quantifies over `rep_cut(m)` as its
/// trigger, so that proofs can name a decomposition point directly; a proof
/// that exhibits a decomposition asserts `rep_cut(m)` for its chosen `m`.
pub open spec fn rep_cut(m: int) -> bool {
    true
}

/// Fragment `f`, evaluated at position `pos` of `line`, can cover exactly
/// `n` characters. Quantified fragments are a relation, not a function: a
/// `OneOrMore` can cover any sum of one or more consecutive repetitions, so
/// the matcher may pick whichever length lets the rest of the pattern
/// succeed (full backtracking).
pub open spec fn frag_matches(f: Frag, line: Seq<char>, pos: int, n: int) -> bool
    decreases f, n,
{
    match f {
        Frag::Literal(s) => n == s.len() && 0 <= pos && pos + n <= line.len() && line.subrange(
            pos,
            pos + n,
        ) == s,
        Frag::CharClass(cl) => n == 1 && 0 <= pos < line.len() && class_matches(cl, line[pos]),
        Frag::PositiveGroup(ms) => n == 1 && 0 <= pos < line.len() && ms.contains(line[pos]),
        Frag::NegativeGroup(ms) => n == 1 && 0 <= pos < line.len() && !ms.contains(line[pos]),
        Frag::StartAnchor(f0) => pos == 0 && frag_matches(*f0, line, pos, n),
        Frag::EndAnchor(f0) => frag_matches(*f0, line, pos, n) && pos + n == line.len(),
        Frag::OneOrMore(f0) => frag_matches(*f0, line, pos, n) || (exists|m: int|
            #![trigger rep_cut(m)]
            rep_cut(m) && 1 <= m < n && frag_matches(*f0, line, pos, m) && frag_matches(
                f,
                line,
                pos + m,
                n - m,
            )),
        Frag::ZeroOrOne(f0) => (n == 0 && 0 <= pos <= line.len()) || frag_matches(
            *f0,
            line,
            pos,
            n,
        ),
        Frag::AnyChar => n == 1 && 0 <= pos < line.len(),
    }
}

/// The fragments of `frags`, in order, cover exactly the span of `line`
/// from position `from` to position `to`. Every fragment is evaluated at a
/// position strictly inside the line: when fragments remain and the
/// position has reached the end of the line, the sequence fails, even if
/// the next fragment could cover an empty span there.
pub open spec fn frags_match(frags: Seq<Frag>, line: Seq<char>, from: int, to: int) -> bool
    decreases frags.len(),
{
    if frags.len() == 0 {
        from == to
    } else {
        from < line.len() && (exists|n: int|
            frag_matches(frags[0], line, from, n) && frags_match(
                frags.drop_first(),
                line,
                from + n,
                to,
            ))
    }
}

/// The whole pattern matches the line: some span of the line is covered by
/// the fragment sequence. The start of the span is free (search anywhere in
/// the line); anchors constrain it from inside the fragments.
pub open spec fn pattern_matches(frags: Seq<Frag>, line: Seq<char>) -> bool {
    exists|from: int, to: int|
        0 <= from <= to <= line.len() && frags_match(frags, line, from, to)
}

/// Every span a fragment covers lies inside the line.
pub proof fn lemma_frag_matches_bounds(f: Frag, line: Seq<char>, pos: int, n: int)
    requires
        frag_matches(f, line, pos, n),
    ensures
        0 <= pos,
        0 <= n,
        pos + n <= line.len(),
    decreases f, n,
{
    match f {
        Frag::StartAnchor(f0) => lemma_frag_matches_bounds(*f0, line, pos, n),
        Frag::EndAnchor(f0) => lemma_frag_matches_bounds(*f0, line, pos, n),
        Frag::OneOrMore(f0) => {
            if frag_matches(*f0, line, pos, n) {
                lemma_frag_matches_bounds(*f0, line, pos, n);
            } else {
                let m = choose|m: int|
                    #![trigger rep_cut(m)]
                    rep_cut(m) && 1 <= m < n && frag_matches(*f0, line, pos, m) && frag_matches(
                        f,
                        line,
                        pos + m,
                        n - m,
                    );
                lemma_frag_matches_bounds(*f0, line, pos, m);
                lemma_frag_matches_bounds(f, line, pos + m, n - m);
            }
        },
        Frag::ZeroOrOne(f0) => {
            if !(n == 0 && 0 <= pos <= line.len()) {
                lemma_frag_matches_bounds(*f0, line, pos, n);
            }
        },
        _ => {},
    }
}

/// A `OneOrMore` span that is not a single repetition splits into a first
/// repetition and a remaining `OneOrMore` span.
pub proof fn lemma_one_or_more_elim(f0: Frag, line: Seq<char>, pos: int, n: int)
    requires
        frag_matches(Frag::OneOrMore(Box::new(f0)), line, pos, n),
        !frag_matches(f0, line, pos, n),
    ensures
        exists|m: int|
            #![trigger rep_cut(m)]
            rep_cut(m) && 1 <= m < n && frag_matches(f0, line, pos, m) && frag_matches(
                Frag::OneOrMore(Box::new(f0)),
                line,
                pos + m,
                n - m,
            ),
{
}

/// A first repetition followed by a `OneOrMore` span forms a `OneOrMore`
/// span.
pub proof fn lemma_one_or_more_intro(f0: Frag, line: Seq<char>, pos: int, m: int, n: int)
    requires
        1 <= m < n,
        frag_matches(f0, line, pos, m),
        frag_matches(Frag::OneOrMore(Box::new(f0)), line, pos + m, n - m),
    ensures
        frag_matches(Frag::OneOrMore(Box::new(f0)), line, pos, n),
{
    assert(rep_cut(m));
}

/// A span of the first fragment followed by a span of the rest forms a span
/// of the whole sequence.
pub proof fn lemma_frags_match_intro(frags: Seq<Frag>, line: Seq<char>, from: int, n: int, to: int)
    requires
        frags.len() > 0,
        from < line.len(),
        frag_matches(frags[0], line, from, n),
        frags_match(frags.drop_first(), line, from + n, to),
    ensures
        frags_match(frags, line, from, to),
{
}

/// A span of a nonempty sequence splits into a span of the first fragment
/// and a span of the rest.
pub proof fn lemma_frags_match_elim(frags: Seq<Frag>, line: Seq<char>, from: int, to: int)
    requires
        frags.len() > 0,
        frags_match(frags, line, from, to),
    ensures
        from < line.len(),
        exists|n: int|
            frag_matches(frags[0], line, from, n) && frags_match(
                frags.drop_first(),
                line,
                from + n,
                to,
            ),
{
}

/// The fragments of `frags`, in order, can cover some contiguous span of
/// `line` that starts at `pos`.
pub open spec fn tail_matches(frags: Seq<Frag>, line: Seq<char>, pos: int) -> bool {
    exists|to: int| frags_match(frags, line, pos, to)
}

/// A span of the first fragment followed by a covered tail starting where
/// that span ends gives a covered tail.
pub proof fn lemma_tail_matches_step(
    frags: Seq<Frag>,
    line: Seq<char>,
    from: int,
    n: int,
    rest_from: int,
)
    requires
        frags.len() > 0,
        from < line.len(),
        frag_matches(frags[0], line, from, n),
        rest_from == from + n,
        tail_matches(frags.drop_first(), line, rest_from),
    ensures
        tail_matches(frags, line, from),
{
    let to = choose|to: int| frags_match(frags.drop_first(), line, rest_from, to);
    lemma_frags_match_intro(frags, line, from, n, to);
}

/// A covered tail of a nonempty sequence yields a span of its first
/// fragment and a covered tail of the rest; returns the first span's
/// length.
pub proof fn lemma_tail_matches_split(frags: Seq<Frag>, line: Seq<char>, from: int) -> (n: int)
    requires
        frags.len() > 0,
        tail_matches(frags, line, from),
    ensures
        from < line.len(),
        frag_matches(frags[0], line, from, n),
        tail_matches(frags.drop_first(), line, from + n),
{
    let to = choose|to: int| frags_match(frags, line, from, to);
    lemma_frags_match_elim(frags, line, from, to);
    let n0 = choose|n0: int|
        frag_matches(frags[0], line, from, n0) && frags_match(
            frags.drop_first(),
            line,
            from + n0,
            to,
        );
    n0
}

/// Every span a fragment sequence covers lies inside the line.
pub proof fn lemma_frags_match_bounds(frags: Seq<Frag>, line: Seq<char>, from: int, to: int)
    requires
        frags_match(frags, line, from, to),
        0 <= from,
        from <= line.len(),
    ensures
        from <= to,
        to <= line.len(),
    decreases frags.len(),
{
    if frags.len() > 0 {
        let n = choose|n: int|
            frag_matches(frags[0], line, from, n) && frags_match(
                frags.drop_first(),
                line,
                from + n,
                to,
            );
        lemma_frag_matches_bounds(frags[0], line, from, n);
        lemma_frags_match_bounds(frags.drop_first(), line, from + n, to);
    }
}

} // verus!
