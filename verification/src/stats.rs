use vstd::prelude::*;
use vstd::arithmetic::div_mod::{lemma_div_by_multiple, lemma_div_is_ordered, lemma_div_pos_is_pos};
use crate::model::{Match, MatchResult, MatchView, Season};
use crate::text::{fold_lower, lower_of, str_eq};
use crate::time::Timestamp;

verus! {

/// Why an aggregation failed.
#[derive(PartialEq, Eq, Structural, Clone, Copy, Debug)]
pub enum AggregationError {
    /// A win rate was asked of zero matches.
    EmptySeason,
}

/// A win rate, held exactly as the ratio `100 * wins / total`.
#[derive(PartialEq, Eq, Structural, Clone, Copy, Debug)]
pub struct Percentage {
    pub wins: usize,
    pub total: usize,
}

impl Percentage {
    /// A well-formed percentage counts at least one match and never
    /// more wins than matches.
    pub open spec fn wf(self) -> bool {
        self.wins <= self.total && self.total > 0
    }
}

/// How many of the given matches were won.
pub open spec fn win_count(ms: Seq<MatchView>) -> int
    decreases ms.len(),
{
    if ms.len() == 0 {
        0
    } else {
        win_count(ms.drop_last()) + if ms.last().result == MatchResult::Win {
            1int
        } else {
            0int
        }
    }
}

pub proof fn lemma_win_count_bounds(ms: Seq<MatchView>)
    ensures
        0 <= win_count(ms) <= ms.len(),
    decreases ms.len(),
{
    if ms.len() > 0 {
        lemma_win_count_bounds(ms.drop_last());
    }
}

/// The win rate owed to a list of matches: an error on zero matches,
/// else the exact ratio of wins to matches.
pub open spec fn win_rate_of(ms: Seq<MatchView>) -> Result<Percentage, AggregationError> {
    if ms.len() == 0 {
        Err(AggregationError::EmptySeason)
    } else {
        Ok(Percentage { wins: win_count(ms) as usize, total: ms.len() as usize })
    }
}

/// The deck key a name and class build: their lowercased joining.
pub open spec fn deck_key(name: Seq<char>, class: Seq<char>) -> Seq<char> {
    lower_of(name + seq![' '] + class)
}

/// The matches whose lowercased deck equals `key`, in their original
/// order.
pub open spec fn filter_deck(ms: Seq<MatchView>, key: Seq<char>) -> Seq<MatchView>
    decreases ms.len(),
{
    if ms.len() == 0 {
        Seq::empty()
    } else {
        let rest = filter_deck(ms.drop_last(), key);
        if lower_of(ms.last().deck) == key {
            rest.push(ms.last())
        } else {
            rest
        }
    }
}

/// Whether `m` carries a timestamp on the same day and month as `ts`.
pub open spec fn same_day(m: MatchView, ts: Timestamp) -> bool {
    m.datetime matches Some(t) && t.day == ts.day && t.month == ts.month
}

/// The matches played on the day and month of `ts`, in their original
/// order; matches without a timestamp are excluded.
pub open spec fn filter_day(ms: Seq<MatchView>, ts: Timestamp) -> Seq<MatchView>
    decreases ms.len(),
{
    if ms.len() == 0 {
        Seq::empty()
    } else {
        let rest = filter_day(ms.drop_last(), ts);
        if same_day(ms.last(), ts) {
            rest.push(ms.last())
        } else {
            rest
        }
    }
}

/// Per-opponent totals: the first-seen spelling of the opponent's name,
/// how many matches were played against them, and how many were won.
#[derive(Debug)]
pub struct OpponentStats {
    pub opponent: String,
    pub count: usize,
    pub wins: usize,
}

/// The mathematical value of an `OpponentStats`.
pub struct OpponentStatsView {
    pub opponent: Seq<char>,
    pub count: int,
    pub wins: int,
}

impl View for OpponentStats {
    type V = OpponentStatsView;

    open spec fn view(&self) -> OpponentStatsView {
        OpponentStatsView {
            opponent: self.opponent@,
            count: self.count as int,
            wins: self.wins as int,
        }
    }
}

impl OpponentStats {
    /// The win rate within this opponent group.
    pub fn rate(&self) -> (r: Result<Percentage, AggregationError>)
        ensures
            self.count == 0 ==> r == Err::<Percentage, AggregationError>(
                AggregationError::EmptySeason,
            ),
            self.count > 0 ==> r == Ok::<Percentage, AggregationError>(
                Percentage { wins: self.wins, total: self.count },
            ),
    {
        if self.count == 0 {
            Err(AggregationError::EmptySeason)
        } else {
            Ok(Percentage { wins: self.wins, total: self.count })
        }
    }
}

/// The index of the first group whose lowercased opponent name is
/// `opp_low`, or -1 if there is none.
pub open spec fn find_group(gs: Seq<OpponentStatsView>, opp_low: Seq<char>) -> int
    decreases gs.len(),
{
    if gs.len() == 0 {
        -1
    } else if lower_of(gs[0].opponent) == opp_low {
        0
    } else {
        let r = find_group(gs.skip(1), opp_low);
        if r == -1 {
            -1
        } else {
            r + 1
        }
    }
}

/// One match added to its opponent group: the first group with the same
/// lowercased opponent name is advanced, or a new group is opened.
pub open spec fn add_match(gs: Seq<OpponentStatsView>, m: MatchView) -> Seq<OpponentStatsView> {
    let i = find_group(gs, lower_of(m.opponent));
    let w: int = if m.result == MatchResult::Win {
        1
    } else {
        0
    };
    if i == -1 {
        gs.push(OpponentStatsView { opponent: m.opponent, count: 1, wins: w })
    } else {
        gs.update(
            i,
            OpponentStatsView {
                opponent: gs[i].opponent,
                count: gs[i].count + 1,
                wins: gs[i].wins + w,
            },
        )
    }
}

/// The opponent groups of a list of matches, in first-seen order.
pub open spec fn groups_of(ms: Seq<MatchView>) -> Seq<OpponentStatsView>
    decreases ms.len(),
{
    if ms.len() == 0 {
        Seq::empty()
    } else {
        add_match(groups_of(ms.drop_last()), ms.last())
    }
}

/// The total match count across groups.
pub open spec fn sum_counts(gs: Seq<OpponentStatsView>) -> int
    decreases gs.len(),
{
    if gs.len() == 0 {
        0
    } else {
        sum_counts(gs.drop_last()) + gs.last().count
    }
}

proof fn lemma_find_group_at(gs: Seq<OpponentStatsView>, opp_low: Seq<char>, j: int)
    requires
        0 <= j < gs.len(),
        forall|k: int| 0 <= k < j ==> #[trigger] lower_of(gs[k].opponent) != opp_low,
        lower_of(gs[j].opponent) == opp_low,
    ensures
        find_group(gs, opp_low) == j,
    decreases j,
{
    if j > 0 {
        assert(lower_of(gs[0].opponent) != opp_low);
        let t = gs.skip(1);
        assert forall|k: int| 0 <= k < j - 1 implies #[trigger] lower_of(t[k].opponent)
            != opp_low by {
            assert(t[k] == gs[k + 1]);
        }
        assert(t[j - 1] == gs[j]);
        lemma_find_group_at(t, opp_low, j - 1);
    }
}

proof fn lemma_find_group_none(gs: Seq<OpponentStatsView>, opp_low: Seq<char>)
    requires
        forall|k: int| 0 <= k < gs.len() ==> #[trigger] lower_of(gs[k].opponent) != opp_low,
    ensures
        find_group(gs, opp_low) == -1,
    decreases gs.len(),
{
    if gs.len() > 0 {
        let t = gs.skip(1);
        assert forall|k: int| 0 <= k < t.len() implies #[trigger] lower_of(t[k].opponent)
            != opp_low by {
            assert(t[k] == gs[k + 1]);
        }
        lemma_find_group_none(t, opp_low);
    }
}

proof fn lemma_sum_counts_update(gs: Seq<OpponentStatsView>, i: int, g: OpponentStatsView)
    requires
        0 <= i < gs.len(),
    ensures
        sum_counts(gs.update(i, g)) == sum_counts(gs) - gs[i].count + g.count,
    decreases gs.len(),
{
    let u = gs.update(i, g);
    if i == gs.len() - 1 {
        assert(u.drop_last() =~= gs.drop_last());
        assert(u.last() == g);
    } else {
        assert(u.drop_last() =~= gs.drop_last().update(i, g));
        assert(u.last() == gs.last());
        lemma_sum_counts_update(gs.drop_last(), i, g);
    }
}

proof fn lemma_sum_counts_add_match(gs: Seq<OpponentStatsView>, m: MatchView)
    ensures
        sum_counts(add_match(gs, m)) == sum_counts(gs) + 1,
{
    let opp_low = lower_of(m.opponent);
    let i = find_group(gs, opp_low);
    let w: int = if m.result == MatchResult::Win {
        1
    } else {
        0
    };
    lemma_find_group_in_range(gs, opp_low);
    if i == -1 {
        let g = OpponentStatsView { opponent: m.opponent, count: 1, wins: w };
        let p = gs.push(g);
        assert(p.drop_last() =~= gs);
        assert(p.last() == g);
    } else {
        let g = OpponentStatsView {
            opponent: gs[i].opponent,
            count: gs[i].count + 1,
            wins: gs[i].wins + w,
        };
        lemma_sum_counts_update(gs, i, g);
    }
}

proof fn lemma_find_group_in_range(gs: Seq<OpponentStatsView>, opp_low: Seq<char>)
    ensures
        -1 <= find_group(gs, opp_low) < gs.len(),
        find_group(gs, opp_low) >= 0 ==> lower_of(
            gs[find_group(gs, opp_low)].opponent,
        ) == opp_low,
    decreases gs.len(),
{
    if gs.len() > 0 && lower_of(gs[0].opponent) != opp_low {
        let t = gs.skip(1);
        lemma_find_group_in_range(t, opp_low);
        let r = find_group(t, opp_low);
        if r >= 0 {
            assert(t[r] == gs[r + 1]);
        }
    }
}

proof fn lemma_find_group_miss(gs: Seq<OpponentStatsView>, opp_low: Seq<char>)
    requires
        find_group(gs, opp_low) == -1,
    ensures
        forall|k: int| 0 <= k < gs.len() ==> #[trigger] lower_of(gs[k].opponent) != opp_low,
    decreases gs.len(),
{
    if gs.len() > 0 {
        assert(lower_of(gs[0].opponent) != opp_low);
        let t = gs.skip(1);
        lemma_find_group_in_range(t, opp_low);
        lemma_find_group_miss(t, opp_low);
        assert forall|k: int| 1 <= k < gs.len() implies #[trigger] lower_of(gs[k].opponent)
            != opp_low by {
            assert(t[k - 1] == gs[k]);
        }
    }
}

/// No two opponent groups share a lowercased opponent name: together
/// with the count sum below, grouping is a partition of the matches.
pub proof fn lemma_groups_distinct(ms: Seq<MatchView>)
    ensures
        forall|j: int, k: int|
            0 <= j < k < groups_of(ms).len() ==> #[trigger] lower_of(groups_of(ms)[j].opponent)
                != #[trigger] lower_of(groups_of(ms)[k].opponent),
    decreases ms.len(),
{
    if ms.len() > 0 {
        lemma_groups_distinct(ms.drop_last());
        let gs = groups_of(ms.drop_last());
        let m = ms.last();
        let opp_low = lower_of(m.opponent);
        let i = find_group(gs, opp_low);
        lemma_find_group_in_range(gs, opp_low);
        let r = groups_of(ms);
        if i == -1 {
            lemma_find_group_miss(gs, opp_low);
            let g = OpponentStatsView {
                opponent: m.opponent,
                count: 1,
                wins: if m.result == MatchResult::Win {
                    1int
                } else {
                    0int
                },
            };
            assert(r == gs.push(g));
            assert forall|j: int, k: int| 0 <= j < k < r.len() implies #[trigger] lower_of(
                r[j].opponent,
            ) != #[trigger] lower_of(r[k].opponent) by {
                if k < gs.len() {
                    assert(r[j] == gs[j]);
                    assert(r[k] == gs[k]);
                } else {
                    assert(r[k] == g);
                    assert(r[j] == gs[j]);
                    assert(lower_of(gs[j].opponent) != opp_low);
                }
            }
        } else {
            assert forall|j: int, k: int| 0 <= j < k < r.len() implies #[trigger] lower_of(
                r[j].opponent,
            ) != #[trigger] lower_of(r[k].opponent) by {
                assert(r[j].opponent == gs[j].opponent);
                assert(r[k].opponent == gs[k].opponent);
            }
        }
    }
}

/// Opponent grouping partitions a season's matches: every match is
/// counted in exactly one group, so the group counts sum to the number
/// of matches.
pub proof fn lemma_group_counts_partition(ms: Seq<MatchView>)
    ensures
        sum_counts(groups_of(ms)) == ms.len(),
    decreases ms.len(),
{
    if ms.len() > 0 {
        lemma_group_counts_partition(ms.drop_last());
        lemma_sum_counts_add_match(groups_of(ms.drop_last()), ms.last());
    }
}

/// A defined win rate lies between zero and one hundred percent; an
/// empty season has no win rate, only the empty-season error.
pub proof fn lemma_win_rate_range(ms: Seq<MatchView>)
    requires
        ms.len() <= usize::MAX,
    ensures
        ms.len() == 0 ==> win_rate_of(ms) == Err::<Percentage, AggregationError>(
            AggregationError::EmptySeason,
        ),
        ms.len() > 0 ==> (win_rate_of(ms) matches Ok(p) && p.wf() && 0 <= 100 * (p.wins as int) / (
        p.total as int) <= 100),
{
    if ms.len() > 0 {
        lemma_win_count_bounds(ms);
        let w = win_count(ms);
        let t = ms.len() as int;
        lemma_div_pos_is_pos(100 * w, t);
        lemma_div_is_ordered(100 * w, 100 * t, t);
        lemma_div_by_multiple(100, t);
    }
}

/// A deck filter that selects nothing leaves an empty season, whose win
/// rate is the empty-season error.
pub proof fn lemma_empty_filter_win_rate(ms: Seq<MatchView>, key: Seq<char>)
    requires
        filter_deck(ms, key).len() == 0,
    ensures
        win_rate_of(filter_deck(ms, key)) == Err::<Percentage, AggregationError>(
            AggregationError::EmptySeason,
        ),
{
}

/// Deck filtering is idempotent: filtering an already filtered season
/// by the same deck key selects every match of it again.
pub proof fn lemma_filter_deck_idempotent(ms: Seq<MatchView>, key: Seq<char>)
    ensures
        filter_deck(filter_deck(ms, key), key) == filter_deck(ms, key),
    decreases ms.len(),
{
    if ms.len() > 0 {
        let rest = filter_deck(ms.drop_last(), key);
        lemma_filter_deck_idempotent(ms.drop_last(), key);
        if lower_of(ms.last().deck) == key {
            let whole = rest.push(ms.last());
            assert(whole.drop_last() =~= rest);
            assert(whole.last() == ms.last());
        }
    }
}

impl Season {
    /// The overall win rate of this season's matches.
    pub fn win_rate(&self) -> (r: Result<Percentage, AggregationError>)
        ensures
            r == win_rate_of(self@.matches),
    {
        let n = self.matches.len();
        if n == 0 {
            return Err(AggregationError::EmptySeason);
        }
        let mut wins: usize = 0;
        let mut i: usize = 0;
        proof {
            assert(self@.matches.take(0) =~= Seq::<MatchView>::empty());
        }
        while i < n
            invariant
                n == self.matches@.len(),
                i <= n,
                wins <= i,
                wins as int == win_count(self@.matches.take(i as int)),
            decreases n - i,
        {
            proof {
                assert(self@.matches.take(i as int + 1).drop_last() =~= self@.matches.take(
                    i as int,
                ));
                assert(self@.matches.take(i as int + 1).last() == self@.matches[i as int]);
            }
            let m = &self.matches[i];
            if m.result == MatchResult::Win {
                wins = wins + 1;
            }
            i = i + 1;
        }
        proof {
            assert(self@.matches.take(n as int) =~= self@.matches);
        }
        Ok(Percentage { wins, total: n })
    }

    /// A new season holding the matches played with the given deck,
    /// compared case-insensitively, in their original order.
    pub fn filter_by_deck(&self, name: &str, class: &str) -> (r: Season)
        ensures
            r@.num == self@.num,
            r@.matches == filter_deck(self@.matches, deck_key(name@, class@)),
    {
        let mut key_src = String::from_str(name);
        key_src.append(" ");
        key_src.append(class);
        proof {
            reveal_strlit(" ");
            assert(" "@ =~= seq![' ']);
            assert(key_src@ =~= name@ + seq![' '] + class@);
        }
        let key = fold_lower(key_src.as_str());
        let mut out: Vec<Match> = Vec::new();
        let n = self.matches.len();
        let mut i: usize = 0;
        proof {
            assert(self@.matches.take(0) =~= Seq::<MatchView>::empty());
            assert(out@.map_values(|mm: Match| mm@) =~= Seq::<MatchView>::empty());
        }
        while i < n
            invariant
                n == self.matches@.len(),
                i <= n,
                key@ == deck_key(name@, class@),
                out@.map_values(|mm: Match| mm@) == filter_deck(
                    self@.matches.take(i as int),
                    key@,
                ),
            decreases n - i,
        {
            proof {
                assert(self@.matches.take(i as int + 1).drop_last() =~= self@.matches.take(
                    i as int,
                ));
                assert(self@.matches.take(i as int + 1).last() == self@.matches[i as int]);
            }
            let m = &self.matches[i];
            let md = fold_lower(m.deck.as_str());
            if str_eq(md.as_str(), key.as_str()) {
                let ghost old_out = out@;
                out.push(m.clone());
                proof {
                    assert(out@.map_values(|mm: Match| mm@) =~= old_out.map_values(
                        |mm: Match| mm@,
                    ).push(self@.matches[i as int]));
                }
            }
            i = i + 1;
        }
        proof {
            assert(self@.matches.take(n as int) =~= self@.matches);
        }
        Season::new(self.num, out)
    }

    /// A new season holding the matches whose timestamp falls on the
    /// same day and month as `ts`, in their original order.
    pub fn filter_by_day(&self, ts: Timestamp) -> (r: Season)
        ensures
            r@.num == self@.num,
            r@.matches == filter_day(self@.matches, ts),
    {
        let mut out: Vec<Match> = Vec::new();
        let n = self.matches.len();
        let mut i: usize = 0;
        proof {
            assert(self@.matches.take(0) =~= Seq::<MatchView>::empty());
            assert(out@.map_values(|mm: Match| mm@) =~= Seq::<MatchView>::empty());
        }
        while i < n
            invariant
                n == self.matches@.len(),
                i <= n,
                out@.map_values(|mm: Match| mm@) == filter_day(self@.matches.take(i as int), ts),
            decreases n - i,
        {
            proof {
                assert(self@.matches.take(i as int + 1).drop_last() =~= self@.matches.take(
                    i as int,
                ));
                assert(self@.matches.take(i as int + 1).last() == self@.matches[i as int]);
            }
            let m = &self.matches[i];
            let keep: bool = match m.datetime {
                Some(t) => t.day == ts.day && t.month == ts.month,
                None => false,
            };
            if keep {
                let ghost old_out = out@;
                out.push(m.clone());
                proof {
                    assert(out@.map_values(|mm: Match| mm@) =~= old_out.map_values(
                        |mm: Match| mm@,
                    ).push(self@.matches[i as int]));
                }
            }
            i = i + 1;
        }
        proof {
            assert(self@.matches.take(n as int) =~= self@.matches);
        }
        Season::new(self.num, out)
    }

    /// Groups this season's matches by opponent, case-insensitively,
    /// keeping the first-seen spelling of each opponent's name.
    pub fn group_by_opponent(&self) -> (r: Vec<OpponentStats>)
        ensures
            r@.map_values(|g: OpponentStats| g@) == groups_of(self@.matches),
            sum_counts(r@.map_values(|g: OpponentStats| g@)) == self@.matches.len(),
            forall|j: int|
                0 <= j < r@.len() ==> 1 <= (#[trigger] r@[j])@.count && r@[j]@.wins
                    <= r@[j]@.count && r@[j]@.count <= self@.matches.len(),
    {
        let mut gs: Vec<OpponentStats> = Vec::new();
        let n = self.matches.len();
        let mut i: usize = 0;
        proof {
            assert(self@.matches.take(0) =~= Seq::<MatchView>::empty());
            assert(gs@.map_values(|g: OpponentStats| g@) =~= Seq::<OpponentStatsView>::empty());
        }
        while i < n
            invariant
                n == self.matches@.len(),
                i <= n,
                gs@.map_values(|g: OpponentStats| g@) == groups_of(self@.matches.take(i as int)),
                sum_counts(gs@.map_values(|g: OpponentStats| g@)) == i,
                forall|j: int|
                    0 <= j < gs@.len() ==> 1 <= (#[trigger] gs@[j])@.count && gs@[j]@.wins
                        <= gs@[j]@.count && gs@[j]@.count <= i,
            decreases n - i,
        {
            proof {
                assert(self@.matches.take(i as int + 1).drop_last() =~= self@.matches.take(
                    i as int,
                ));
                assert(self@.matches.take(i as int + 1).last() == self@.matches[i as int]);
            }
            let ghost gv = gs@.map_values(|g: OpponentStats| g@);
            let ghost mv = self@.matches[i as int];
            let m = &self.matches[i];
            let opp_low = fold_lower(m.opponent.as_str());
            let w: usize = if m.result == MatchResult::Win {
                1
            } else {
                0
            };
            match find_group_index(&gs, opp_low.as_str()) {
                Some(j) => {
                    proof {
                        lemma_sum_counts_update(
                            gv,
                            j as int,
                            OpponentStatsView {
                                opponent: gv[j as int].opponent,
                                count: gv[j as int].count + 1,
                                wins: gv[j as int].wins + w,
                            },
                        );
                    }
                    gs[j].count = gs[j].count + 1;
                    gs[j].wins = gs[j].wins + w;
                    proof {
                        assert(gs@.map_values(|g: OpponentStats| g@) =~= gv.update(
                            j as int,
                            OpponentStatsView {
                                opponent: gv[j as int].opponent,
                                count: gv[j as int].count + 1,
                                wins: gv[j as int].wins + w,
                            },
                        ));
                        assert(gs@.map_values(|g: OpponentStats| g@) == add_match(gv, mv));
                    }
                },
                None => {
                    let g = OpponentStats { opponent: m.opponent.clone(), count: 1, wins: w };
                    let ghost gvw = g@;
                    gs.push(g);
                    proof {
                        assert(gs@.map_values(|g2: OpponentStats| g2@) =~= gv.push(gvw));
                        assert(gv.push(gvw).drop_last() =~= gv);
                        assert(gs@.map_values(|g2: OpponentStats| g2@) == add_match(gv, mv));
                    }
                },
            }
            i = i + 1;
        }
        proof {
            assert(self@.matches.take(n as int) =~= self@.matches);
        }
        gs
    }
}

fn find_group_index(gs: &Vec<OpponentStats>, opp_low: &str) -> (r: Option<usize>)
    ensures
        match r {
            Some(j) => j < gs@.len() && find_group(
                gs@.map_values(|g: OpponentStats| g@),
                opp_low@,
            ) == j as int,
            None => find_group(gs@.map_values(|g: OpponentStats| g@), opp_low@) == -1,
        },
{
    let ghost gv = gs@.map_values(|g: OpponentStats| g@);
    let n = gs.len();
    let mut j: usize = 0;
    while j < n
        invariant
            n == gs@.len(),
            j <= n,
            gv == gs@.map_values(|g: OpponentStats| g@),
            forall|k: int| 0 <= k < j ==> #[trigger] lower_of(gv[k].opponent) != opp_low@,
        decreases n - j,
    {
        let g = &gs[j];
        let gl = fold_lower(g.opponent.as_str());
        if str_eq(gl.as_str(), opp_low) {
            proof {
                lemma_find_group_at(gv, opp_low@, j as int);
            }
            return Some(j);
        }
        j = j + 1;
    }
    proof {
        lemma_find_group_none(gv, opp_low@);
    }
    None
}

} // verus!
