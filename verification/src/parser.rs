//! The parser: turns pattern text into the fragment sequence the matcher
//! evaluates, by one left-to-right scan with no lookahead beyond one
//! character.
//!
//! `parse_spec` is the reference description of the grammar; the executable
//! parser is proved to return exactly its result, so the contract also says
//! on which patterns each error is reported.

use vstd::prelude::*;

use crate::pattern::chars_of;
use crate::pattern::frag_view;
use crate::pattern::frags_view;
use crate::pattern::lemma_frags_view_drop_last;
use crate::pattern::lemma_frags_view_push;
use crate::pattern::Class;
use crate::pattern::Frag;
use crate::pattern::Match;
use crate::pattern::Matcher;

verus! {

/// Why a pattern was rejected; parsing is the only part of the engine that
/// can fail.
#[derive(Debug, Clone, Copy, PartialEq, Eq)]
pub enum ParseError {
    /// The pattern ends immediately after a `\`.
    UnterminatedEscape,
    /// An escape letter other than `d` or `w`.
    UnsupportedEscape(char),
    /// A `[` with no matching `]` before the end of the pattern.
    UnterminatedGroup,
    /// A `$`, `+` or `?` with no fragment before it, or a `^` with nothing
    /// after it to bind to.
    DanglingQuantifier,
}

/// The characters that cannot stand for themselves in a pattern.
pub open spec fn is_meta_char(c: char) -> bool {
    c == '\\' || c == '[' || c == '^' || c == '$' || c == '+' || c == '?' || c == '.'
}

/// What an escape starting at index `i` of the pattern (the index of the
/// `\` itself) stands for.
pub open spec fn spec_escape(p: Seq<char>, i: int) -> Result<Frag, ParseError> {
    if i + 1 >= p.len() {
        Err(ParseError::UnterminatedEscape)
    } else if p[i + 1] == 'd' {
        Ok(Frag::CharClass(Class::Digit))
    } else if p[i + 1] == 'w' {
        Ok(Frag::CharClass(Class::Word))
    } else {
        Err(ParseError::UnsupportedEscape(p[i + 1]))
    }
}

/// What a single character parses to when `^` binds to it: the one unit
/// that a start anchor wraps.
pub open spec fn parse_single(c: char) -> Result<Frag, ParseError> {
    if c == '\\' {
        Err(ParseError::UnterminatedEscape)
    } else if c == '[' {
        Err(ParseError::UnterminatedGroup)
    } else if c == '^' || c == '$' || c == '+' || c == '?' {
        Err(ParseError::DanglingQuantifier)
    } else if c == '.' {
        Ok(Frag::AnyChar)
    } else {
        Ok(Frag::Literal(seq![c]))
    }
}

/// The index of the first `]` at or after `j`, if any.
pub open spec fn find_close(p: Seq<char>, j: int) -> Option<int>
    decreases p.len() - j,
{
    if j < 0 || j >= p.len() {
        None
    } else if p[j] == ']' {
        Some(j)
    } else {
        find_close(p, j + 1)
    }
}

/// A found closing bracket lies between the scan start and the end of the
/// pattern.
pub proof fn lemma_find_close_in_range(p: Seq<char>, j: int)
    requires
        find_close(p, j) is Some,
    ensures
        j <= find_close(p, j)->Some_0 < p.len(),
        p[find_close(p, j)->Some_0] == ']',
    decreases p.len() - j,
{
    if 0 <= j < p.len() && p[j] != ']' {
        lemma_find_close_in_range(p, j + 1);
    }
}

/// The group fragment for member text running from `i` (the index right
/// after `[`) up to the closing bracket at `k`: a `^` in first position
/// negates the group, every other character is a member.
pub open spec fn spec_group(p: Seq<char>, i: int, k: int) -> Frag {
    let neg = i < k && p[i] == '^';
    if neg {
        Frag::NegativeGroup(p.subrange(i + 1, k))
    } else {
        Frag::PositiveGroup(p.subrange(i, k))
    }
}

/// The reference parse: one left-to-right scan of `p` from index `i` with
/// the fragments built so far in `acc`. A quantifier or end anchor wraps
/// the fragment that precedes it; a start anchor wraps exactly the one
/// character that follows it.
pub open spec fn parse_loop(p: Seq<char>, i: int, acc: Seq<Frag>) -> Result<
    Seq<Frag>,
    ParseError,
>
    decreases p.len() - i,
        via parse_loop_decreases
{
    if i < 0 || i >= p.len() {
        Ok(acc)
    } else {
        let c = p[i];
        if c == '\\' {
            match spec_escape(p, i) {
                Ok(f) => parse_loop(p, i + 2, acc.push(f)),
                Err(e) => Err(e),
            }
        } else if c == '[' {
            match find_close(p, i + 1) {
                Some(k) => parse_loop(p, k + 1, acc.push(spec_group(p, i + 1, k))),
                None => Err(ParseError::UnterminatedGroup),
            }
        } else if c == '^' {
            if i + 1 >= p.len() {
                Err(ParseError::DanglingQuantifier)
            } else {
                match parse_single(p[i + 1]) {
                    Ok(f) => parse_loop(p, i + 2, acc.push(Frag::StartAnchor(Box::new(f)))),
                    Err(e) => Err(e),
                }
            }
        } else if c == '$' {
            if acc.len() == 0 {
                Err(ParseError::DanglingQuantifier)
            } else {
                parse_loop(p, i + 1, acc.drop_last().push(Frag::EndAnchor(Box::new(acc.last()))))
            }
        } else if c == '+' {
            if acc.len() == 0 {
                Err(ParseError::DanglingQuantifier)
            } else {
                parse_loop(p, i + 1, acc.drop_last().push(Frag::OneOrMore(Box::new(acc.last()))))
            }
        } else if c == '?' {
            if acc.len() == 0 {
                Err(ParseError::DanglingQuantifier)
            } else {
                parse_loop(p, i + 1, acc.drop_last().push(Frag::ZeroOrOne(Box::new(acc.last()))))
            }
        } else if c == '.' {
            parse_loop(p, i + 1, acc.push(Frag::AnyChar))
        } else {
            parse_loop(p, i + 1, acc.push(Frag::Literal(seq![c])))
        }
    }
}

#[via_fn]
proof fn parse_loop_decreases(p: Seq<char>, i: int, acc: Seq<Frag>) {
    if 0 <= i < p.len() && p[i] == '[' && find_close(p, i + 1) is Some {
        lemma_find_close_in_range(p, i + 1);
    }
}

/// What a whole pattern parses to.
pub open spec fn parse_spec(p: Seq<char>) -> Result<Seq<Frag>, ParseError> {
    parse_loop(p, 0, Seq::empty())
}

fn single_token(c: char) -> (r: Result<Match, ParseError>)
    ensures
        r is Ok ==> parse_single(c) == Ok::<Frag, ParseError>(frag_view(r->Ok_0)),
        r is Err ==> parse_single(c) == Err::<Frag, ParseError>(r->Err_0),
{
    if c == '\\' {
        Err(ParseError::UnterminatedEscape)
    } else if c == '[' {
        Err(ParseError::UnterminatedGroup)
    } else if c == '^' || c == '$' || c == '+' || c == '?' {
        Err(ParseError::DanglingQuantifier)
    } else if c == '.' {
        Ok(Match::AnyChar)
    } else {
        let mut v: Vec<char> = Vec::new();
        v.push(c);
        proof {
            assert(v@ =~= seq![c]);
        }
        Ok(Match::Literal(v))
    }
}

impl Matcher {
    /// Parses `pattern` and compiles it, or reports why it is rejected.
    pub fn from_pattern(pattern: &str) -> (r: Result<Matcher, ParseError>)
        ensures
            r is Ok ==> parse_spec(pattern@) == Ok::<Seq<Frag>, ParseError>(r->Ok_0@),
            r is Err ==> parse_spec(pattern@) == Err::<Seq<Frag>, ParseError>(r->Err_0),
    {
        match Self::parse_pattern(pattern) {
            Ok(fragments) => Ok(Matcher { fragments }),
            Err(e) => Err(e),
        }
    }

    /// Handles an escape: `p[i]` is the `\`; on success the class fragment
    /// is appended and the index after the escape is returned.
    pub fn parse_character_class(p: &Vec<char>, i: usize, fragments: &mut Vec<Match>) -> (r: Result<
        usize,
        ParseError,
    >)
        requires
            i < p@.len(),
        ensures
            r is Ok ==> spec_escape(p@, i as int) is Ok && r->Ok_0 == i + 2 && frags_view(
                final(fragments)@,
            ) == frags_view(old(fragments)@).push(spec_escape(p@, i as int)->Ok_0),
            r is Err ==> spec_escape(p@, i as int) == Err::<Frag, ParseError>(r->Err_0)
                && final(fragments)@ == old(fragments)@,
    {
        let len = p.len();
        if i + 1 >= len {
            return Err(ParseError::UnterminatedEscape);
        }
        let c = p[i + 1];
        let ghost fs0 = fragments@;
        if c == 'd' {
            fragments.push(Match::CharClass(Class::Digit));
            proof {
                lemma_frags_view_push(fs0, Match::CharClass(Class::Digit));
            }
            Ok(i + 2)
        } else if c == 'w' {
            fragments.push(Match::CharClass(Class::Word));
            proof {
                lemma_frags_view_push(fs0, Match::CharClass(Class::Word));
            }
            Ok(i + 2)
        } else {
            Err(ParseError::UnsupportedEscape(c))
        }
    }

    /// Handles a character group: `p[i]` is the `[`; scans to the closing
    /// `]`, reading a leading `^` as the negation marker and every other
    /// character as a member. On success the group fragment is appended and
    /// the index after the `]` is returned.
    #[verifier::loop_isolation(false)]
    pub fn parse_positive_character_group(
        p: &Vec<char>,
        i: usize,
        fragments: &mut Vec<Match>,
    ) -> (r: Result<usize, ParseError>)
        requires
            i < p@.len(),
        ensures
            r is Ok ==> find_close(p@, i + 1) is Some && r->Ok_0 == find_close(p@, i + 1)->Some_0
                + 1 && frags_view(final(fragments)@) == frags_view(old(fragments)@).push(
                spec_group(p@, i + 1, find_close(p@, i + 1)->Some_0),
            ),
            r is Err ==> r->Err_0 == ParseError::UnterminatedGroup && find_close(p@, i + 1) is None
                && final(fragments)@ == old(fragments)@,
    {
        let len = p.len();
        let mut j = i + 1;
        let mut neg = false;
        if j < len && p[j] == '^' {
            neg = true;
            j = j + 1;
        }
        let ghost mstart = j as int;
        let mut members: Vec<char> = Vec::new();
        proof {
            assert(members@ =~= p@.subrange(mstart, j as int));
        }
        while j < len
            invariant
                i + 1 <= mstart <= j <= p@.len(),
                fragments@ == old(fragments)@,
                find_close(p@, i + 1) == find_close(p@, j as int),
                members@ == p@.subrange(mstart, j as int),
                neg == (i + 1 < p@.len() && p@[i + 1] == '^'),
                mstart == if neg {
                    i + 2
                } else {
                    i + 1
                },
            decreases p@.len() - j,
        {
            let c = p[j];
            if c == ']' {
                let g = if neg {
                    Match::NegativeGroup(members)
                } else {
                    Match::PositiveGroup(members)
                };
                let ghost fs0 = fragments@;
                fragments.push(g);
                proof {
                    lemma_frags_view_push(fs0, g);
                    assert(frag_view(g) == spec_group(p@, i + 1, j as int));
                }
                return Ok(j + 1);
            }
            members.push(c);
            proof {
                assert(members@ =~= p@.subrange(mstart, j + 1));
            }
            j = j + 1;
        }
        Err(ParseError::UnterminatedGroup)
    }

    /// Parses `pattern` into its fragment sequence: exactly the result of
    /// `parse_spec` on the pattern text.
    #[verifier::loop_isolation(false)]
    pub fn parse_pattern(pattern: &str) -> (r: Result<Vec<Match>, ParseError>)
        ensures
            r is Ok ==> parse_spec(pattern@) == Ok::<Seq<Frag>, ParseError>(frags_view(r->Ok_0@)),
            r is Err ==> parse_spec(pattern@) == Err::<Seq<Frag>, ParseError>(r->Err_0),
    {
        let p = chars_of(pattern);
        let mut fragments: Vec<Match> = Vec::new();
        let mut i: usize = 0;
        proof {
            assert(frags_view(fragments@) =~= Seq::<Frag>::empty());
        }
        while i < p.len()
            invariant
                i <= p@.len(),
                parse_loop(pattern@, i as int, frags_view(fragments@)) == parse_spec(pattern@),
            decreases p@.len() - i,
        {
            let ghost acc = frags_view(fragments@);
            let c = p[i];
            if c == '\\' {
                match Self::parse_character_class(&p, i, &mut fragments) {
                    Ok(ni) => {
                        assert(i + 1 < p@.len());
                        i = ni;
                    },
                    Err(e) => {
                        return Err(e);
                    },
                }
            } else if c == '[' {
                match Self::parse_positive_character_group(&p, i, &mut fragments) {
                    Ok(ni) => {
                        proof {
                            lemma_find_close_in_range(p@, i + 1);
                        }
                        i = ni;
                    },
                    Err(e) => {
                        return Err(e);
                    },
                }
            } else if c == '^' {
                if i + 1 >= p.len() {
                    return Err(ParseError::DanglingQuantifier);
                }
                match single_token(p[i + 1]) {
                    Ok(f) => {
                        let m = Match::StartAnchor(Box::new(f));
                        let ghost fs0 = fragments@;
                        fragments.push(m);
                        proof {
                            lemma_frags_view_push(fs0, m);
                        }
                        i = i + 2;
                    },
                    Err(e) => {
                        return Err(e);
                    },
                }
            } else if c == '$' || c == '+' || c == '?' {
                if fragments.len() == 0 {
                    return Err(ParseError::DanglingQuantifier);
                }
                let ghost fs0 = fragments@;
                proof {
                    lemma_frags_view_drop_last(fs0);
                }
                let prev = match fragments.pop() {
                    Some(m) => m,
                    None => {
                        return Err(ParseError::DanglingQuantifier);
                    },
                };
                let wrapped = if c == '$' {
                    Match::EndAnchor(Box::new(prev))
                } else if c == '+' {
                    Match::OneOrMore(Box::new(prev))
                } else {
                    Match::ZeroOrOne(Box::new(prev))
                };
                let ghost fs1 = fragments@;
                fragments.push(wrapped);
                proof {
                    lemma_frags_view_push(fs1, wrapped);
                }
                i = i + 1;
            } else {
                let m = if c == '.' {
                    Match::AnyChar
                } else {
                    let mut v: Vec<char> = Vec::new();
                    v.push(c);
                    proof {
                        assert(v@ =~= seq![c]);
                    }
                    Match::Literal(v)
                };
                let ghost fs0 = fragments@;
                fragments.push(m);
                proof {
                    lemma_frags_view_push(fs0, m);
                }
                i = i + 1;
            }
        }
        Ok(fragments)
    }
}

} // verus!
