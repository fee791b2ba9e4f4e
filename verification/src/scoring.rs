//! Points for finished matches: the rules of each league, the points a team
//! earns in one match and over a season, and how points are printed.
use vstd::prelude::*;

use crate::league::NFL_LEAGUE_SLUG;
use crate::text::{decimal_i64, decimal_int, text_eq};

verus! {

/// Points for a win in a soccer league.
pub const WIN_POINTS: i64 = 3;

/// Points for a draw in a soccer league.
pub const DRAW_POINTS: i64 = 1;

/// Points for a loss in a soccer league.
pub const LOSS_POINTS: i64 = 0;

/// Points awarded for each result.
#[derive(Debug, Clone, Copy, PartialEq, Eq, Structural)]
pub struct ScoringRules {
    pub win: i64,
    pub draw: i64,
    pub loss: i64,
}

/// The soccer rules: three for a win, one for a draw, none for a loss.
pub fn wc_rules() -> (r: ScoringRules)
    ensures
        r == (ScoringRules { win: 3, draw: 1, loss: 0 }),
{
    ScoringRules { win: WIN_POINTS, draw: DRAW_POINTS, loss: LOSS_POINTS }
}

/// The NFL rules, in half points: two for a win, one for a tie, none for a loss.
pub fn nfl_rules() -> (r: ScoringRules)
    ensures
        r == (ScoringRules { win: 2, draw: 1, loss: 0 }),
{
    ScoringRules { win: 2, draw: 1, loss: 0 }
}

/// The rules of the league with slug `slug`.
pub open spec fn rules_of(slug: Seq<char>) -> ScoringRules {
    if slug == NFL_LEAGUE_SLUG@ {
        ScoringRules { win: 2, draw: 1, loss: 0 }
    } else {
        ScoringRules { win: 3, draw: 1, loss: 0 }
    }
}

/// The rules of the league with slug `slug`: the NFL's for "nfl", the soccer
/// rules for every other league.
pub fn rules_for_league(slug: &str) -> (r: ScoringRules)
    ensures
        r == rules_of(slug@),
{
    if text_eq(slug, NFL_LEAGUE_SLUG) {
        nfl_rules()
    } else {
        wc_rules()
    }
}

/// `raw / 2`, rounded toward zero.
pub open spec fn half_toward_zero(raw: int) -> int {
    if raw >= 0 {
        raw / 2
    } else {
        -((-raw) / 2)
    }
}

/// How `raw` points are printed in the league with slug `slug`: NFL points are
/// kept in half points, so they print halved, with ".5" when odd.
pub open spec fn points_text(raw: int, slug: Seq<char>) -> Seq<char> {
    if slug == NFL_LEAGUE_SLUG@ {
        if raw % 2 == 0 {
            decimal_int(half_toward_zero(raw))
        } else {
            decimal_int(half_toward_zero(raw)) + ".5"@
        }
    } else {
        decimal_int(raw)
    }
}

/// Prints `raw` points as the league with slug `league_slug` counts them.
pub fn format_points(raw: i64, league_slug: &str) -> (r: String)
    ensures
        r@ == points_text(raw as int, league_slug@),
{
    if text_eq(league_slug, NFL_LEAGUE_SLUG) {
        // `raw` as a magnitude and a sign, so that halving cannot overflow.
        let magnitude: u64 = if raw >= 0 {
            raw as u64
        } else {
            ((-(raw + 1)) as u64) + 1
        };
        let half_magnitude: i64 = (magnitude / 2) as i64;
        let half: i64 = if raw >= 0 {
            half_magnitude
        } else {
            -half_magnitude
        };
        assert(half == half_toward_zero(raw as int));
        if magnitude % 2 == 0 {
            proof {
                assert(raw % 2 == 0) by {
                    assert(magnitude == 2 * (magnitude / 2));
                }
            }
            decimal_i64(half)
        } else {
            proof {
                assert(raw % 2 != 0) by {
                    assert(magnitude == 2 * (magnitude / 2) + 1);
                }
            }
            let mut r = decimal_i64(half);
            r.append(".5");
            r
        }
    } else {
        decimal_i64(raw)
    }
}

/// The footer that states the rules of the league with slug `slug`.
pub open spec fn rules_footer_text(rules: ScoringRules, slug: Seq<char>) -> Seq<char> {
    "Win "@ + points_text(rules.win as int, slug) + " · Tie "@ + points_text(rules.draw as int, slug)
        + " · Loss "@ + points_text(rules.loss as int, slug) + " · "@ + if slug == NFL_LEAGUE_SLUG@ {
        "TB = tie-breaker touchdowns"@
    } else {
        "TB = tie-breaker goals"@
    }
}

/// The footer that states `rules`, printed as the league counts points.
pub fn format_rules_footer(rules: &ScoringRules, league_slug: &str) -> (r: String)
    ensures
        r@ == rules_footer_text(*rules, league_slug@),
{
    let win = format_points(rules.win, league_slug);
    let draw = format_points(rules.draw, league_slug);
    let loss = format_points(rules.loss, league_slug);
    let tiebreaker = if text_eq(league_slug, NFL_LEAGUE_SLUG) {
        "TB = tie-breaker touchdowns"
    } else {
        "TB = tie-breaker goals"
    };
    let mut r = String::from_str("Win ");
    r.append(win.as_str());
    r.append(" · Tie ");
    r.append(draw.as_str());
    r.append(" · Loss ");
    r.append(loss.as_str());
    r.append(" · ");
    r.append(tiebreaker);
    r
}

/// A finished match, with the goals (or points) of each side.
#[derive(Debug, Clone, Copy, PartialEq, Eq, Structural)]
pub struct FinishedMatch {
    pub home_team_id: i64,
    pub away_team_id: i64,
    pub home_goals: i64,
    pub away_goals: i64,
}

/// Points for a side that scored `team_score` against `opponent_score`.
pub open spec fn result_points(rules: ScoringRules, team_score: int, opponent_score: int) -> int {
    if team_score > opponent_score {
        rules.win as int
    } else if team_score == opponent_score {
        rules.draw as int
    } else {
        rules.loss as int
    }
}

/// Points for a side that scored `team_score` against `opponent_score`.
pub fn points_for_result(rules: &ScoringRules, team_score: i64, opponent_score: i64) -> (r: i64)
    ensures
        r == result_points(*rules, team_score as int, opponent_score as int),
{
    if team_score > opponent_score {
        rules.win
    } else if team_score == opponent_score {
        rules.draw
    } else {
        rules.loss
    }
}

/// Points team `team_id` earned in `m`; none when it did not play in it.
pub open spec fn match_points(rules: ScoringRules, team_id: i64, m: FinishedMatch) -> int {
    if team_id == m.home_team_id {
        result_points(rules, m.home_goals as int, m.away_goals as int)
    } else if team_id == m.away_team_id {
        result_points(rules, m.away_goals as int, m.home_goals as int)
    } else {
        0
    }
}

/// Points team `team_id` earned in `m`; none when it did not play in it.
pub fn points_for_team_in_match(rules: &ScoringRules, team_id: i64, m: &FinishedMatch) -> (r: i64)
    ensures
        r == match_points(*rules, team_id, *m),
{
    if team_id == m.home_team_id {
        points_for_result(rules, m.home_goals, m.away_goals)
    } else if team_id == m.away_team_id {
        points_for_result(rules, m.away_goals, m.home_goals)
    } else {
        0
    }
}

/// Points team `team_id` earned over the matches `ms`.
pub open spec fn team_points(rules: ScoringRules, team_id: i64, ms: Seq<FinishedMatch>) -> int
    decreases ms.len(),
{
    if ms.len() == 0 {
        0
    } else {
        team_points(rules, team_id, ms.drop_last()) + match_points(rules, team_id, ms.last())
    }
}

/// Whether an integer fits in an `i64`.
pub open spec fn fits_i64(x: int) -> bool {
    i64::MIN <= x <= i64::MAX
}

/// Every running total of the points of `team_id` over `ms` fits in an `i64`.
pub open spec fn team_points_fit(rules: ScoringRules, team_id: i64, ms: Seq<FinishedMatch>) -> bool {
    forall|k: int| 0 <= k <= ms.len() ==> fits_i64(#[trigger] team_points(rules, team_id, ms.take(k)))
}

/// Points team `team_id` earned over `matches`.
pub fn points_for_team(rules: &ScoringRules, team_id: i64, matches: &[FinishedMatch]) -> (r: i64)
    requires
        team_points_fit(*rules, team_id, matches@),
    ensures
        r == team_points(*rules, team_id, matches@),
{
    let mut total: i64 = 0;
    let mut i: usize = 0;
    while i < matches.len()
        invariant
            i <= matches.len(),
            team_points_fit(*rules, team_id, matches@),
            total == team_points(*rules, team_id, matches@.take(i as int)),
        decreases matches.len() - i,
    {
        let ghost after = matches@.take(i + 1);
        assert(after.drop_last() =~= matches@.take(i as int));
        assert(after.last() == matches@[i as int]);
        assert(fits_i64(team_points(*rules, team_id, matches@.take(i + 1))));
        total = total + points_for_team_in_match(rules, team_id, &matches[i]);
        i = i + 1;
    }
    assert(matches@.take(matches.len() as int) =~= matches@);
    total
}

/// Points the teams `ids` earned together over the matches `ms`.
pub open spec fn teams_points(rules: ScoringRules, ids: Seq<i64>, ms: Seq<FinishedMatch>) -> int
    decreases ids.len(),
{
    if ids.len() == 0 {
        0
    } else {
        teams_points(rules, ids.drop_last(), ms) + team_points(rules, ids.last(), ms)
    }
}

/// Every running total met when adding up the points of `ids` over `ms`, team
/// after team and match after match, fits in an `i64`.
pub open spec fn teams_points_fit(rules: ScoringRules, ids: Seq<i64>, ms: Seq<FinishedMatch>) -> bool {
    forall|t: int, k: int|
        0 <= t < ids.len() && 0 <= k <= ms.len() ==> fits_i64(
            #[trigger] teams_points(rules, ids.take(t), ms) + #[trigger] team_points(
                rules,
                ids[t],
                ms.take(k),
            ),
        )
}

/// Points the teams `team_ids` earned together over `matches`.
pub fn points_for_teams(rules: &ScoringRules, team_ids: &[i64], matches: &[FinishedMatch]) -> (r:
    i64)
    requires
        teams_points_fit(*rules, team_ids@, matches@),
    ensures
        r == teams_points(*rules, team_ids@, matches@),
{
    let mut total: i64 = 0;
    let mut t: usize = 0;
    while t < team_ids.len()
        invariant
            t <= team_ids.len(),
            teams_points_fit(*rules, team_ids@, matches@),
            total == teams_points(*rules, team_ids@.take(t as int), matches@),
        decreases team_ids.len() - t,
    {
        let id = team_ids[t];
        let ghost base = total as int;
        let mut i: usize = 0;
        while i < matches.len()
            invariant
                t < team_ids.len(),
                i <= matches.len(),
                id == team_ids@[t as int],
                base == teams_points(*rules, team_ids@.take(t as int), matches@),
                teams_points_fit(*rules, team_ids@, matches@),
                total == base + team_points(*rules, id, matches@.take(i as int)),
            decreases matches.len() - i,
        {
            let ghost after = matches@.take(i + 1);
            assert(after.drop_last() =~= matches@.take(i as int));
            assert(after.last() == matches@[i as int]);
            assert(fits_i64(
                teams_points(*rules, team_ids@.take(t as int), matches@) + team_points(
                    *rules,
                    team_ids@[t as int],
                    matches@.take(i + 1),
                ),
            ));
            total = total + points_for_team_in_match(rules, id, &matches[i]);
            i = i + 1;
        }
        proof {
            let after = team_ids@.take(t + 1);
            assert(after.drop_last() =~= team_ids@.take(t as int));
            assert(matches@.take(matches.len() as int) =~= matches@);
        }
        t = t + 1;
    }
    assert(team_ids@.take(team_ids.len() as int) =~= team_ids@);
    total
}

// ---------------------------------------------------------------- laws
/// Points over a list of teams add up: the teams of `a` and then of `b` earn
/// what `a` earns plus what `b` earns.
pub proof fn law_teams_points_additive(
    rules: ScoringRules,
    a: Seq<i64>,
    b: Seq<i64>,
    ms: Seq<FinishedMatch>,
)
    ensures
        teams_points(rules, a + b, ms) == teams_points(rules, a, ms) + teams_points(rules, b, ms),
    decreases b.len(),
{
    if b.len() == 0 {
        assert(a + b =~= a);
    } else {
        law_teams_points_additive(rules, a, b.drop_last(), ms);
        assert((a + b).drop_last() =~= a + b.drop_last());
    }
}

/// Points over the matches add up: a season split in two earns what each part
/// earns.
pub proof fn law_team_points_additive(
    rules: ScoringRules,
    team_id: i64,
    ms1: Seq<FinishedMatch>,
    ms2: Seq<FinishedMatch>,
)
    ensures
        team_points(rules, team_id, ms1 + ms2) == team_points(rules, team_id, ms1) + team_points(
            rules,
            team_id,
            ms2,
        ),
    decreases ms2.len(),
{
    if ms2.len() == 0 {
        assert(ms1 + ms2 =~= ms1);
    } else {
        law_team_points_additive(rules, team_id, ms1, ms2.drop_last());
        assert((ms1 + ms2).drop_last() =~= ms1 + ms2.drop_last());
    }
}

/// A team earns nothing from matches it did not play.
pub proof fn law_absent_team_earns_nothing(
    rules: ScoringRules,
    team_id: i64,
    ms: Seq<FinishedMatch>,
)
    requires
        forall|i: int|
            0 <= i < ms.len() ==> (#[trigger] ms[i]).home_team_id != team_id && ms[i].away_team_id
                != team_id,
    ensures
        team_points(rules, team_id, ms) == 0,
    decreases ms.len(),
{
    if ms.len() > 0 {
        law_absent_team_earns_nothing(rules, team_id, ms.drop_last());
        assert(ms.last() == ms[ms.len() - 1]);
    }
}

/// In a match between two different teams, when one side wins the other
/// loses, and a draw gives both sides the draw points.
pub proof fn law_result_is_mirrored(rules: ScoringRules, m: FinishedMatch)
    requires
        m.home_team_id != m.away_team_id,
    ensures
        m.home_goals == m.away_goals ==> match_points(rules, m.home_team_id, m) == rules.draw
            && match_points(rules, m.away_team_id, m) == rules.draw,
        m.home_goals > m.away_goals ==> match_points(rules, m.home_team_id, m) == rules.win
            && match_points(rules, m.away_team_id, m) == rules.loss,
        m.home_goals < m.away_goals ==> match_points(rules, m.home_team_id, m) == rules.loss
            && match_points(rules, m.away_team_id, m) == rules.win,
{
}


/// Only the NFL scores by its own rules, 2 for a win, 1 for a draw, 0 for a
/// loss; every other league, the Premier League and the World Cup among them,
/// scores 3 for a win, 1 for a draw, 0 for a loss.
pub proof fn law_only_nfl_scores_differently(slug: Seq<char>)
    ensures
        rules_of("nfl"@) == (ScoringRules { win: 2, draw: 1, loss: 0 }),
        slug != "nfl"@ ==> rules_of(slug) == (ScoringRules { win: 3, draw: 1, loss: 0 }),
        rules_of("epl"@) == (ScoringRules { win: 3, draw: 1, loss: 0 }),
        rules_of("wc"@) == (ScoringRules { win: 3, draw: 1, loss: 0 }),
{
    reveal_strlit("nfl");
    reveal_strlit("epl");
    reveal_strlit("wc");
    assert(NFL_LEAGUE_SLUG@ == "nfl"@);
    assert("epl"@ != "nfl"@) by {
        assert("epl"@[0] != "nfl"@[0]);
    }
    assert("wc"@ != "nfl"@) by {
        assert("wc"@.len() != "nfl"@.len());
    }
}

} // verus!
