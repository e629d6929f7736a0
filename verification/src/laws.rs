//! General laws of the engine, stated over the fragment model and proved
//! once and for all: what anchors, groups, classes, quantifiers and plain
//! literal patterns mean at the level of whole lines.

use vstd::prelude::*;

use crate::parser::is_meta_char;
use crate::parser::parse_loop;
use crate::parser::parse_spec;
use crate::parser::ParseError;
use crate::pattern::Class;
use crate::pattern::Frag;
use crate::semantics::frag_matches;
use crate::semantics::frags_match;
use crate::semantics::is_digit_char;
use crate::semantics::is_word_char;
use crate::semantics::lemma_frag_matches_bounds;
use crate::semantics::lemma_frags_match_elim;
use crate::semantics::lemma_frags_match_intro;
use crate::semantics::lemma_one_or_more_elim;
use crate::semantics::lemma_one_or_more_intro;
use crate::semantics::pattern_matches;
use crate::semantics::rep_cut;

verus! {

/// An empty pattern matches every line: the fragment sequence is exhausted
/// at once.
pub proof fn lemma_empty_pattern_matches(line: Seq<char>)
    ensures
        pattern_matches(Seq::<Frag>::empty(), line),
        parse_spec(Seq::<char>::empty()) == Ok::<Seq<Frag>, ParseError>(Seq::<Frag>::empty()),
{
    assert(frags_match(Seq::<Frag>::empty(), line, 0, 0));
}

/// A one-fragment pattern matches a line exactly when the fragment covers
/// some span of it that starts strictly inside the line.
pub proof fn lemma_single_fragment(f: Frag, line: Seq<char>)
    ensures
        pattern_matches(seq![f], line) <==> exists|pos: int, n: int|
            0 <= pos < line.len() && pos + n <= line.len() && frag_matches(f, line, pos, n),
{
    assert(seq![f][0] == f);
    assert(seq![f].drop_first() =~= Seq::<Frag>::empty());
    if pattern_matches(seq![f], line) {
        let (from, to) = choose|from: int, to: int|
            0 <= from <= to <= line.len() && frags_match(seq![f], line, from, to);
        lemma_frags_match_elim(seq![f], line, from, to);
        let n = choose|n: int|
            frag_matches(seq![f][0], line, from, n) && frags_match(
                seq![f].drop_first(),
                line,
                from + n,
                to,
            );
        lemma_frag_matches_bounds(f, line, from, n);
        assert(0 <= from < line.len() && from + n <= line.len() && frag_matches(f, line, from, n));
    }
    if exists|pos: int, n: int| 0 <= pos < line.len() && pos + n <= line.len() && frag_matches(
        f,
        line,
        pos,
        n,
    ) {
        let (pos, n) = choose|pos: int, n: int|
            0 <= pos < line.len() && pos + n <= line.len() && frag_matches(f, line, pos, n);
        lemma_frag_matches_bounds(f, line, pos, n);
        assert(frags_match(seq![f].drop_first(), line, pos + n, pos + n));
        lemma_frags_match_intro(seq![f], line, pos, n, pos + n);
        assert(0 <= pos <= pos + n <= line.len() && frags_match(seq![f], line, pos, pos + n));
    }
}

/// A start anchor binds its fragment to position 0: the anchored pattern
/// matches exactly when the line is nonempty and the wrapped fragment
/// covers a span at the very start of the line, never anywhere else.
pub proof fn lemma_start_anchor(f: Frag, line: Seq<char>)
    ensures
        pattern_matches(seq![Frag::StartAnchor(Box::new(f))], line) <==> (line.len() > 0 && (exists|
            n: int,
        | frag_matches(f, line, 0, n))),
{
    let a = Frag::StartAnchor(Box::new(f));
    lemma_single_fragment(a, line);
    if exists|pos: int, n: int| 0 <= pos < line.len() && pos + n <= line.len() && frag_matches(
        a,
        line,
        pos,
        n,
    ) {
        let (pos, n) = choose|pos: int, n: int|
            0 <= pos < line.len() && pos + n <= line.len() && frag_matches(a, line, pos, n);
        assert(frag_matches(f, line, 0, n));
    }
    if line.len() > 0 && (exists|n: int| frag_matches(f, line, 0, n)) {
        let n = choose|n: int| frag_matches(f, line, 0, n);
        lemma_frag_matches_bounds(f, line, 0, n);
        assert(frag_matches(a, line, 0, n));
        assert(0 <= 0 < line.len() && 0 + n <= line.len() && frag_matches(a, line, 0, n));
    }
}

/// `^` before a single literal character matches exactly the lines whose
/// first character is that literal.
pub proof fn lemma_start_anchor_literal(c: char, line: Seq<char>)
    ensures
        pattern_matches(seq![Frag::StartAnchor(Box::new(Frag::Literal(seq![c])))], line) <==> (
        line.len() > 0 && line[0] == c),
{
    let lit = Frag::Literal(seq![c]);
    lemma_start_anchor(lit, line);
    if line.len() > 0 && line[0] == c {
        assert(line.subrange(0, 1) =~= seq![c]);
        assert(frag_matches(lit, line, 0, 1));
    }
    if exists|n: int| frag_matches(lit, line, 0, n) {
        let n = choose|n: int| frag_matches(lit, line, 0, n);
        assert(n == 1);
        assert(line.subrange(0, 1)[0] == line[0]);
    }
}

/// A positive group matches a line exactly when some character of the line
/// is one of its members.
pub proof fn lemma_positive_group(ms: Seq<char>, line: Seq<char>)
    ensures
        pattern_matches(seq![Frag::PositiveGroup(ms)], line) <==> exists|i: int|
            0 <= i < line.len() && ms.contains(line[i]),
{
    let g = Frag::PositiveGroup(ms);
    lemma_single_fragment(g, line);
    if exists|i: int| 0 <= i < line.len() && ms.contains(line[i]) {
        let i = choose|i: int| 0 <= i < line.len() && ms.contains(line[i]);
        assert(frag_matches(g, line, i, 1));
        assert(0 <= i && i + 1 <= line.len() && frag_matches(g, line, i, 1));
    }
    if exists|pos: int, n: int| 0 <= pos < line.len() && pos + n <= line.len() && frag_matches(
        g,
        line,
        pos,
        n,
    ) {
        let (pos, n) = choose|pos: int, n: int|
            0 <= pos < line.len() && pos + n <= line.len() && frag_matches(g, line, pos, n);
        assert(0 <= pos < line.len() && ms.contains(line[pos]));
    }
}

/// A negative group matches a line exactly when some character of the line
/// is none of its members.
pub proof fn lemma_negative_group(ms: Seq<char>, line: Seq<char>)
    ensures
        pattern_matches(seq![Frag::NegativeGroup(ms)], line) <==> exists|i: int|
            0 <= i < line.len() && !ms.contains(line[i]),
{
    let g = Frag::NegativeGroup(ms);
    lemma_single_fragment(g, line);
    if exists|i: int| 0 <= i < line.len() && !ms.contains(line[i]) {
        let i = choose|i: int| 0 <= i < line.len() && !ms.contains(line[i]);
        assert(frag_matches(g, line, i, 1));
        assert(0 <= i && i + 1 <= line.len() && frag_matches(g, line, i, 1));
    }
    if exists|pos: int, n: int| 0 <= pos < line.len() && pos + n <= line.len() && frag_matches(
        g,
        line,
        pos,
        n,
    ) {
        let (pos, n) = choose|pos: int, n: int|
            0 <= pos < line.len() && pos + n <= line.len() && frag_matches(g, line, pos, n);
        assert(0 <= pos < line.len() && !ms.contains(line[pos]));
    }
}

/// The digit class covers exactly `'0'` through `'9'`; the word class
/// covers exactly the ASCII letters and digits, and in particular never
/// `'_'`.
pub proof fn lemma_char_classes(line: Seq<char>, pos: int, n: int)
    ensures
        frag_matches(Frag::CharClass(Class::Digit), line, pos, n) <==> (n == 1 && 0 <= pos
            < line.len() && is_digit_char(line[pos])),
        frag_matches(Frag::CharClass(Class::Word), line, pos, n) <==> (n == 1 && 0 <= pos
            < line.len() && is_word_char(line[pos])),
        !is_word_char('_'),
{
}

/// A `OneOrMore` of a single literal character covers exactly the nonempty
/// runs of that character: the quantifier is able to consume a whole run in
/// one evaluation.
pub proof fn lemma_one_or_more_literal(c: char, line: Seq<char>, pos: int, n: int)
    ensures
        frag_matches(Frag::OneOrMore(Box::new(Frag::Literal(seq![c]))), line, pos, n) <==> (n >= 1
            && 0 <= pos && pos + n <= line.len() && (forall|j: int|
            pos <= j < pos + n ==> line[j] == c)),
    decreases n,
{
    let lit = Frag::Literal(seq![c]);
    let plus = Frag::OneOrMore(Box::new(lit));
    if frag_matches(plus, line, pos, n) {
        lemma_frag_matches_bounds(plus, line, pos, n);
        if frag_matches(lit, line, pos, n) {
            assert(n == 1);
            assert(line.subrange(pos, pos + 1)[0] == line[pos]);
        } else {
            lemma_one_or_more_elim(lit, line, pos, n);
            let m = choose|m: int|
                #![trigger rep_cut(m)]
                rep_cut(m) && 1 <= m < n && frag_matches(lit, line, pos, m) && frag_matches(
                    plus,
                    line,
                    pos + m,
                    n - m,
                );
            assert(m == 1);
            assert(line.subrange(pos, pos + 1)[0] == line[pos]);
            lemma_one_or_more_literal(c, line, pos + 1, n - 1);
        }
    }
    if n >= 1 && 0 <= pos && pos + n <= line.len() && (forall|j: int|
        pos <= j < pos + n ==> line[j] == c) {
        assert(line.subrange(pos, pos + 1) =~= seq![c]);
        assert(frag_matches(lit, line, pos, 1));
        if n == 1 {
            assert(frag_matches(plus, line, pos, n));
        } else {
            lemma_one_or_more_literal(c, line, pos + 1, n - 1);
            assert(frag_matches(plus, line, pos + 1, n - 1));
            lemma_one_or_more_intro(lit, line, pos, 1, n);
        }
    }
}

/// Every fragment of the sequence is a literal.
pub open spec fn all_literals(frags: Seq<Frag>) -> bool {
    forall|i: int| 0 <= i < frags.len() ==> frags[i] is Literal
}

/// The text that a sequence of literal fragments spells out.
pub open spec fn concat_literals(frags: Seq<Frag>) -> Seq<char>
    decreases frags.len(),
{
    if frags.len() == 0 {
        Seq::empty()
    } else {
        frags[0]->Literal_0 + concat_literals(frags.drop_first())
    }
}

/// `needle` occurs contiguously somewhere in `hay`.
pub open spec fn is_substring(needle: Seq<char>, hay: Seq<char>) -> bool {
    exists|s: int, e: int|
        0 <= s && e <= hay.len() && e - s == needle.len() && hay.subrange(s, e) == needle
}

/// A sequence of nonempty literal fragments covers exactly the spans that
/// spell out its concatenation.
pub proof fn lemma_literal_chain(frags: Seq<Frag>, line: Seq<char>, from: int, to: int)
    requires
        all_literals(frags),
        forall|i: int| 0 <= i < frags.len() ==> frags[i]->Literal_0.len() > 0,
        0 <= from <= line.len(),
    ensures
        frags_match(frags, line, from, to) <==> (from <= to <= line.len() && line.subrange(
            from,
            to,
        ) == concat_literals(frags)),
    decreases frags.len(),
{
    if frags.len() == 0 {
        assert(line.subrange(from, from) =~= Seq::<char>::empty());
        if from <= to <= line.len() && line.subrange(from, to) == concat_literals(frags) {
            assert(line.subrange(from, to).len() == to - from);
        }
    } else {
        let s0 = frags[0]->Literal_0;
        let drop = frags.drop_first();
        assert(frags[0] is Literal);
        assert(all_literals(drop) && (forall|i: int|
            0 <= i < drop.len() ==> drop[i]->Literal_0.len() > 0)) by {
            assert(forall|i: int| 0 <= i < drop.len() ==> drop[i] == frags[i + 1]);
        }
        if frags_match(frags, line, from, to) {
            lemma_frags_match_elim(frags, line, from, to);
            let n = choose|n: int|
                frag_matches(frags[0], line, from, n) && frags_match(drop, line, from + n, to);
            lemma_frag_matches_bounds(frags[0], line, from, n);
            lemma_literal_chain(drop, line, from + n, to);
            assert(line.subrange(from, to) =~= line.subrange(from, from + n) + line.subrange(
                from + n,
                to,
            ));
        }
        if from <= to <= line.len() && line.subrange(from, to) == concat_literals(frags) {
            let n = s0.len() as int;
            let rest = concat_literals(drop);
            assert(line.subrange(from, to).len() == to - from);
            assert((s0 + rest).len() == n + rest.len());
            assert(line.subrange(from, from + n) =~= s0) by {
                assert forall|j: int| 0 <= j < n implies line.subrange(from, from + n)[j] == s0[j] by {
                    assert(line.subrange(from, to)[j] == (s0 + rest)[j]);
                }
            }
            assert(frag_matches(frags[0], line, from, n));
            assert(line.subrange(from + n, to) =~= rest) by {
                assert forall|j: int| 0 <= j < to - from - n implies line.subrange(from + n, to)[j]
                    == rest[j] by {
                    assert(line.subrange(from, to)[n + j] == (s0 + rest)[n + j]);
                }
            }
            lemma_literal_chain(drop, line, from + n, to);
            assert(from < line.len());
            lemma_frags_match_intro(frags, line, from, n, to);
        }
    }
}

/// The fragments a pattern of plain characters parses to: one
/// single-character literal per character.
pub open spec fn singles(p: Seq<char>, i: int) -> Seq<Frag> {
    Seq::new((p.len() - i) as nat, |t: int| Frag::Literal(seq![p[i + t]]))
}

/// A pattern with no metacharacters from `i` on parses by appending one
/// single-character literal per character.
pub proof fn lemma_parse_plain(p: Seq<char>, i: int, acc: Seq<Frag>)
    requires
        0 <= i <= p.len(),
        forall|j: int| i <= j < p.len() ==> !is_meta_char(p[j]),
    ensures
        parse_loop(p, i, acc) == Ok::<Seq<Frag>, ParseError>(acc + singles(p, i)),
    decreases p.len() - i,
{
    if i >= p.len() {
        assert(acc + singles(p, i) =~= acc);
    } else {
        let c = p[i];
        assert(!is_meta_char(c));
        lemma_parse_plain(p, i + 1, acc.push(Frag::Literal(seq![c])));
        assert(acc.push(Frag::Literal(seq![c])) + singles(p, i + 1) =~= acc + singles(p, i));
    }
}

/// The single-character literals of a plain pattern spell out exactly its
/// text.
pub proof fn lemma_concat_singles(p: Seq<char>, i: int)
    requires
        0 <= i <= p.len(),
    ensures
        concat_literals(singles(p, i)) == p.subrange(i, p.len() as int),
        all_literals(singles(p, i)),
    decreases p.len() - i,
{
    if i == p.len() {
        assert(concat_literals(singles(p, i)) =~= p.subrange(i, p.len() as int));
    } else {
        lemma_concat_singles(p, i + 1);
        assert(singles(p, i).drop_first() =~= singles(p, i + 1));
        assert(singles(p, i)[0] == Frag::Literal(seq![p[i]]));
        assert(seq![p[i]] + p.subrange(i + 1, p.len() as int) =~= p.subrange(i, p.len() as int));
    }
}

/// A pattern of plain characters (no metacharacters) matches a line exactly
/// when it occurs in the line as a contiguous substring.
pub proof fn lemma_plain_pattern_is_substring(pattern: Seq<char>, line: Seq<char>)
    requires
        forall|j: int| 0 <= j < pattern.len() ==> !is_meta_char(pattern[j]),
    ensures
        parse_spec(pattern) == Ok::<Seq<Frag>, ParseError>(singles(pattern, 0)),
        pattern_matches(singles(pattern, 0), line) <==> is_substring(pattern, line),
{
    lemma_parse_plain(pattern, 0, Seq::empty());
    assert(Seq::<Frag>::empty() + singles(pattern, 0) =~= singles(pattern, 0));
    lemma_concat_singles(pattern, 0);
    assert(pattern.subrange(0, pattern.len() as int) =~= pattern);
    let frags = singles(pattern, 0);
    assert(forall|i: int| 0 <= i < frags.len() ==> frags[i]->Literal_0.len() > 0);
    if pattern_matches(frags, line) {
        let (from, to) = choose|from: int, to: int|
            0 <= from <= to <= line.len() && frags_match(frags, line, from, to);
        lemma_literal_chain(frags, line, from, to);
        assert(line.subrange(from, to).len() == to - from);
        assert(is_substring(pattern, line));
    }
    if is_substring(pattern, line) {
        let (st, e) = choose|st: int, e: int|
            0 <= st && e <= line.len() && e - st == pattern.len() && line.subrange(st, e)
                == pattern;
        lemma_literal_chain(frags, line, st, e);
        assert(0 <= st <= e <= line.len() && frags_match(frags, line, st, e));
    }
}

/// Wrapping the last fragment of a sequence in an end anchor restricts its
/// spans to those that end exactly at the end of the line.
pub proof fn lemma_wrap_last_end_chain(frags: Seq<Frag>, line: Seq<char>, from: int, to: int)
    requires
        frags.len() > 0,
    ensures
        frags_match(
            frags.update(frags.len() - 1, Frag::EndAnchor(Box::new(frags.last()))),
            line,
            from,
            to,
        ) <==> (frags_match(frags, line, from, to) && to == line.len()),
    decreases frags.len(),
{
    let w = frags.update(frags.len() - 1, Frag::EndAnchor(Box::new(frags.last())));
    if frags.len() == 1 {
        assert(w[0] == Frag::EndAnchor(Box::new(frags[0])));
        assert(w.drop_first() =~= Seq::<Frag>::empty());
        assert(frags.drop_first() =~= Seq::<Frag>::empty());
        if frags_match(w, line, from, to) {
            lemma_frags_match_elim(w, line, from, to);
            let n = choose|n: int|
                frag_matches(w[0], line, from, n) && frags_match(w.drop_first(), line, from + n, to);
            lemma_frags_match_intro(frags, line, from, n, to);
        }
        if frags_match(frags, line, from, to) && to == line.len() {
            lemma_frags_match_elim(frags, line, from, to);
            let n = choose|n: int|
                frag_matches(frags[0], line, from, n) && frags_match(
                    frags.drop_first(),
                    line,
                    from + n,
                    to,
                );
            assert(frag_matches(w[0], line, from, n));
            lemma_frags_match_intro(w, line, from, n, to);
        }
    } else {
        let dropw = frags.drop_first().update(
            frags.drop_first().len() - 1,
            Frag::EndAnchor(Box::new(frags.drop_first().last())),
        );
        assert(w[0] == frags[0]);
        assert(w.drop_first() =~= dropw);
        if frags_match(w, line, from, to) {
            lemma_frags_match_elim(w, line, from, to);
            let n = choose|n: int|
                frag_matches(w[0], line, from, n) && frags_match(w.drop_first(), line, from + n, to);
            lemma_wrap_last_end_chain(frags.drop_first(), line, from + n, to);
            lemma_frags_match_intro(frags, line, from, n, to);
        }
        if frags_match(frags, line, from, to) && to == line.len() {
            lemma_frags_match_elim(frags, line, from, to);
            let n = choose|n: int|
                frag_matches(frags[0], line, from, n) && frags_match(
                    frags.drop_first(),
                    line,
                    from + n,
                    to,
                );
            lemma_wrap_last_end_chain(frags.drop_first(), line, from + n, to);
            assert(frags_match(w.drop_first(), line, from + n, to));
            lemma_frags_match_intro(w, line, from, n, to);
        }
    }
}

/// A pattern whose last fragment is wrapped in an end anchor matches a line
/// exactly when the unwrapped pattern can cover a span that ends at the end
/// of the line: the line ends with what the wrapped pattern matches.
pub proof fn lemma_end_anchor(frags: Seq<Frag>, line: Seq<char>)
    requires
        frags.len() > 0,
    ensures
        pattern_matches(
            frags.update(frags.len() - 1, Frag::EndAnchor(Box::new(frags.last()))),
            line,
        ) <==> exists|from: int|
            0 <= from <= line.len() && frags_match(frags, line, from, line.len() as int),
{
    let w = frags.update(frags.len() - 1, Frag::EndAnchor(Box::new(frags.last())));
    if pattern_matches(w, line) {
        let (from, to) = choose|from: int, to: int|
            0 <= from <= to <= line.len() && frags_match(w, line, from, to);
        lemma_wrap_last_end_chain(frags, line, from, to);
        assert(0 <= from <= line.len() && frags_match(frags, line, from, line.len() as int));
    }
    if exists|from: int| 0 <= from <= line.len() && frags_match(frags, line, from, line.len() as int) {
        let from = choose|from: int|
            0 <= from <= line.len() && frags_match(frags, line, from, line.len() as int);
        lemma_wrap_last_end_chain(frags, line, from, line.len() as int);
        assert(0 <= from <= line.len() <= line.len() && frags_match(
            w,
            line,
            from,
            line.len() as int,
        ));
    }
}

} // verus!
