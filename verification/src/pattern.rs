use vstd::prelude::*;
use vstd::string::StrSliceExecFns;

verus! {

/// A predefined single-character class: ASCII digits, or ASCII letters and
/// digits (the word class deliberately excludes `'_'`).
#[derive(Clone, Copy, Debug, PartialEq, Eq, Structural)]
pub enum Class {
    Digit,
    Word,
}

/// One node of a parsed pattern: the atomic unit the matcher evaluates.
///
/// Group members are kept as the characters they stand for: in this grammar
/// a group member is always a single-character literal.
#[derive(Debug)]
pub enum Match {
    /// An exact character sequence.
    Literal(Vec<char>),
    /// A predefined single-character class.
    CharClass(Class),
    /// Matches one character contained in the member set.
    PositiveGroup(Vec<char>),
    /// Matches one character not contained in the member set.
    NegativeGroup(Vec<char>),
    /// The wrapped fragment, constrained to start at position 0.
    StartAnchor(Box<Match>),
    /// The wrapped fragment, constrained to end at the end of the line.
    EndAnchor(Box<Match>),
    /// One or more consecutive repetitions of the wrapped fragment.
    OneOrMore(Box<Match>),
    /// Zero or one occurrence of the wrapped fragment.
    ZeroOrOne(Box<Match>),
    /// Any single character.
    AnyChar,
}

/// The mathematical model of a fragment, over `Seq<char>` instead of
/// `Vec<char>`; all contracts of this crate speak of this type.
pub enum Frag {
    Literal(Seq<char>),
    CharClass(Class),
    PositiveGroup(Seq<char>),
    NegativeGroup(Seq<char>),
    StartAnchor(Box<Frag>),
    EndAnchor(Box<Frag>),
    OneOrMore(Box<Frag>),
    ZeroOrOne(Box<Frag>),
    AnyChar,
}

pub open spec fn frag_view(m: Match) -> Frag
    decreases m,
{
    match m {
        Match::Literal(s) => Frag::Literal(s@),
        Match::CharClass(cl) => Frag::CharClass(cl),
        Match::PositiveGroup(ms) => Frag::PositiveGroup(ms@),
        Match::NegativeGroup(ms) => Frag::NegativeGroup(ms@),
        Match::StartAnchor(f) => Frag::StartAnchor(Box::new(frag_view(*f))),
        Match::EndAnchor(f) => Frag::EndAnchor(Box::new(frag_view(*f))),
        Match::OneOrMore(f) => Frag::OneOrMore(Box::new(frag_view(*f))),
        Match::ZeroOrOne(f) => Frag::ZeroOrOne(Box::new(frag_view(*f))),
        Match::AnyChar => Frag::AnyChar,
    }
}

impl View for Match {
    type V = Frag;

    open spec fn view(&self) -> Frag {
        frag_view(*self)
    }
}

pub open spec fn frags_view(ms: Seq<Match>) -> Seq<Frag> {
    ms.map_values(|m: Match| frag_view(m))
}

/// A compiled pattern: the ordered sequence of top-level fragments that one
/// parse produced, ready to be evaluated against lines of text.
#[derive(Debug)]
pub struct Matcher {
    pub fragments: Vec<Match>,
}

impl View for Matcher {
    type V = Seq<Frag>;

    open spec fn view(&self) -> Seq<Frag> {
        frags_view(self.fragments@)
    }
}

/// Appending a fragment appends its model.
pub proof fn lemma_frags_view_push(s: Seq<Match>, m: Match)
    ensures
        frags_view(s.push(m)) == frags_view(s).push(frag_view(m)),
{
    assert(frags_view(s.push(m)) =~= frags_view(s).push(frag_view(m)));
}

/// Dropping the last fragment drops its model.
pub proof fn lemma_frags_view_drop_last(s: Seq<Match>)
    requires
        s.len() > 0,
    ensures
        frags_view(s.drop_last()) == frags_view(s).drop_last(),
        frag_view(s.last()) == frags_view(s).last(),
{
    assert(frags_view(s.drop_last()) =~= frags_view(s).drop_last());
}

/// The characters of a string slice, in order, as a vector.
pub fn chars_of(s: &str) -> (r: Vec<char>)
    ensures
        r@ == s@,
{
    let n = s.unicode_len();
    let mut r: Vec<char> = Vec::new();
    let mut i: usize = 0;
    while i < n
        invariant
            i <= n,
            n == s@.len(),
            r@ == s@.subrange(0, i as int),
        decreases n - i,
    {
        r.push(s.get_char(i));
        assert(r@ =~= s@.subrange(0, i + 1));
        i = i + 1;
    }
    assert(r@ =~= s@);
    r
}

} // verus!
