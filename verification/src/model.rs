use vstd::prelude::*;
use crate::time::Timestamp;

verus! {

/// Outcome of a single match.
#[derive(PartialEq, Eq, Structural, Clone, Copy, Debug)]
pub enum MatchResult {
    Win,
    Loss,
}

/// The game mode a match was played in.
#[derive(PartialEq, Eq, Structural, Clone, Copy, Debug)]
pub enum MatchType {
    Ranked,
    Casual,
    Friendly,
}

impl MatchResult {
    /// The textual label used for this outcome in documents and reports.
    pub fn label(&self) -> (s: &'static str)
        ensures
            *self == MatchResult::Win ==> s@ == "Win"@,
            *self == MatchResult::Loss ==> s@ == "Loss"@,
    {
        match self {
            MatchResult::Win => "Win",
            MatchResult::Loss => "Loss",
        }
    }
}

impl MatchType {
    /// The textual label used for this game mode in documents and reports.
    pub fn label(&self) -> (s: &'static str)
        ensures
            *self == MatchType::Ranked ==> s@ == "Ranked"@,
            *self == MatchType::Casual ==> s@ == "Casual"@,
            *self == MatchType::Friendly ==> s@ == "Friendly"@,
    {
        match self {
            MatchType::Ranked => "Ranked",
            MatchType::Casual => "Casual",
            MatchType::Friendly => "Friendly",
        }
    }
}

/// One recorded game: outcome, metadata, and an optional timestamp.
#[derive(Debug)]
pub struct Match {
    pub id: i64,
    pub deck: String,
    pub opponent: String,
    pub result: MatchResult,
    pub kind: MatchType,
    pub datetime: Option<Timestamp>,
}

/// The mathematical value of a `Match`.
pub struct MatchView {
    pub id: int,
    pub deck: Seq<char>,
    pub opponent: Seq<char>,
    pub result: MatchResult,
    pub kind: MatchType,
    pub datetime: Option<Timestamp>,
}

impl View for Match {
    type V = MatchView;

    open spec fn view(&self) -> MatchView {
        MatchView {
            id: self.id as int,
            deck: self.deck@,
            opponent: self.opponent@,
            result: self.result,
            kind: self.kind,
            datetime: self.datetime,
        }
    }
}

/// The match every field update starts from: empty strings, a win in a
/// casual game, no timestamp.
pub open spec fn default_match(id: int) -> MatchView {
    MatchView {
        id: id,
        deck: Seq::empty(),
        opponent: Seq::empty(),
        result: MatchResult::Win,
        kind: MatchType::Casual,
        datetime: None,
    }
}

impl Match {
    /// A fully defaulted match under the given id.
    pub fn new(id: i64) -> (m: Match)
        ensures
            m@ == default_match(id as int),
    {
        let m = Match {
            id: id,
            deck: String::new(),
            opponent: String::new(),
            result: MatchResult::Win,
            kind: MatchType::Casual,
            datetime: None,
        };
        proof {
            assert(m@.deck =~= default_match(id as int).deck);
            assert(m@.opponent =~= default_match(id as int).opponent);
        }
        m
    }
}

impl Clone for Match {
    fn clone(&self) -> (m: Match)
        ensures
            m@ == self@,
    {
        Match {
            id: self.id,
            deck: self.deck.clone(),
            opponent: self.opponent.clone(),
            result: self.result,
            kind: self.kind,
            datetime: self.datetime,
        }
    }
}

/// One reporting period: a numbered season owning its matches in
/// document order.
#[derive(Debug)]
pub struct Season {
    pub num: i64,
    pub matches: Vec<Match>,
}

/// The mathematical value of a `Season`.
pub struct SeasonView {
    pub num: int,
    pub matches: Seq<MatchView>,
}

impl View for Season {
    type V = SeasonView;

    open spec fn view(&self) -> SeasonView {
        SeasonView { num: self.num as int, matches: self.matches@.map_values(|m: Match| m@) }
    }
}

impl Season {
    /// A season with the given number and matches.
    pub fn new(num: i64, matches: Vec<Match>) -> (s: Season)
        ensures
            s@.num == num as int,
            s@.matches == matches@.map_values(|m: Match| m@),
    {
        Season { num, matches }
    }
}

} // verus!
