//! How hard a race is.

use crate::text::{ascii_lowered, eq_text};
use vstd::prelude::*;

verus! {

#[derive(Clone, Copy, Debug, PartialEq, Eq, Structural)]
pub enum Difficulty {
    Easy,
    Medium,
    Hard,
}

impl Difficulty {
    pub open spec fn spec_parse(s: Seq<char>) -> Difficulty {
        if s == "hard"@ {
            Difficulty::Hard
        } else if s == "medium"@ {
            Difficulty::Medium
        } else {
            Difficulty::Easy
        }
    }

    /// The difficulty of a name. What is not known is easy.
    pub fn parse(s: &str) -> (r: Difficulty)
        ensures
            r == Self::spec_parse(s@),
    {
        if eq_text(s, "hard") {
            Difficulty::Hard
        } else if eq_text(s, "medium") {
            Difficulty::Medium
        } else {
            Difficulty::Easy
        }
    }

    /// The in-degree above which articles are banned.
    pub open spec fn ban(self) -> Option<usize> {
        match self {
            Difficulty::Easy => None,
            Difficulty::Medium => Some(5_000),
            Difficulty::Hard => Some(1_000),
        }
    }

    /// The fewest clicks that make a race worth playing.
    pub open spec fn min_len(self) -> usize {
        match self {
            Difficulty::Easy | Difficulty::Medium => 3,
            Difficulty::Hard => 4,
        }
    }

    /// The hub ban, and the fewest clicks that make a race worth playing.
    ///
    /// Without a ban two articles are almost always two clicks apart, so that
    /// difficulty comes from banning hubs and not from picking obscure
    /// articles.
    pub fn rules(self) -> (r: (Option<usize>, usize))
        ensures
            r == (self.ban(), self.min_len()),
    {
        match self {
            Difficulty::Easy => (None, 3),
            Difficulty::Medium => (Some(5_000), 3),
            Difficulty::Hard => (Some(1_000), 4),
        }
    }

    pub open spec fn spec_name(self) -> Seq<char> {
        match self {
            Difficulty::Easy => "Easy"@,
            Difficulty::Medium => "Medium"@,
            Difficulty::Hard => "Hard"@,
        }
    }

    pub open spec fn spec_number(self) -> u64 {
        match self {
            Difficulty::Easy => 0,
            Difficulty::Medium => 1,
            Difficulty::Hard => 2,
        }
    }

    /// The number of the difficulty, from the easiest.
    pub fn number(self) -> (r: u64)
        ensures
            r == self.spec_number(),
    {
        match self {
            Difficulty::Easy => 0,
            Difficulty::Medium => 1,
            Difficulty::Hard => 2,
        }
    }

    /// The name, as it is written in logs.
    pub fn name(self) -> (r: &'static str)
        ensures
            r@ == self.spec_name(),
    {
        match self {
            Difficulty::Easy => "Easy",
            Difficulty::Medium => "Medium",
            Difficulty::Hard => "Hard",
        }
    }
}

/// Harder puzzles ban more hubs and are no shorter: easy ones ban none, medium
/// ones those with more than five thousand incoming links, hard ones those with
/// more than a thousand, and hard ones have four steps at least.
pub proof fn law_difficulties_get_harder(a: Difficulty, b: Difficulty)
    ensures
        a.ban() is None <==> a is Easy,
        a is Medium <==> a.ban() == Some(5000usize),
        a is Hard <==> a.ban() == Some(1000usize),
        a is Hard <==> a.min_len() == 4,
        !(a is Hard) <==> a.min_len() == 3,
        a.spec_number() == b.spec_number() ==> a == b,
        a.spec_number() < b.spec_number() ==> a.min_len() <= b.min_len() && (b.ban() matches Some(l)
            && (a.ban() matches Some(k) ==> k > l)),
        a.spec_number() <= 2,
{
}

/// A difficulty is read by its name in lower case, and whatever is no name of
/// one means easy.
pub proof fn law_difficulties_are_read(s: Seq<char>, d: Difficulty)
    ensures
        Difficulty::spec_parse(ascii_lowered(d.spec_name())) == d,
        Difficulty::spec_parse(s) != Difficulty::Easy ==> s == ascii_lowered(
            Difficulty::spec_parse(s).spec_name(),
        ),
{
    reveal_strlit("Easy");
    reveal_strlit("Medium");
    reveal_strlit("Hard");
    reveal_strlit("easy");
    reveal_strlit("medium");
    reveal_strlit("hard");
    assert(ascii_lowered("Medium"@) =~= "medium"@);
    assert(ascii_lowered("Hard"@) =~= "hard"@);
    assert(ascii_lowered("Easy"@)[0] == 'e');
    assert("medium"@[0] == 'm');
    assert("hard"@[0] == 'h');
}
} // verus!
