//! NFL lookups: final scores, teams and roster players by name, and the date
//! range of a season.
use vstd::prelude::*;

use crate::espn::{NflGame, NflTeam};
use crate::sorting::filter_seq;
use crate::text::{
    chars_contain, chars_of, decimal_i64, decimal_int, lowercase, normalize_query, seq_contains,
    spec_lowercase, trim_seq,
};

verus! {

/// The final score of a game ESPN marks completed with both scores present.
pub open spec fn final_score_of(game: NflGame) -> Option<(i64, i64)> {
    if !game.completed {
        None
    } else {
        match (game.home_score, game.away_score) {
            (Some(home), Some(away)) => Some((home, away)),
            _ => None,
        }
    }
}

/// The final score of a game ESPN marks completed with both scores present.
pub fn final_score(game: &NflGame) -> (r: Option<(i64, i64)>)
    ensures
        r == final_score_of(*game),
{
    if !game.completed {
        return None;
    }
    match (game.home_score, game.away_score) {
        (Some(home), Some(away)) => Some((home, away)),
        _ => None,
    }
}

/// A team answers the normalized query `q` by name, abbreviation, or part of
/// its name.
pub open spec fn nfl_team_matches(t: NflTeam, q: Seq<char>) -> bool {
    spec_lowercase(t.name@) == q || crate::api::opt_lower_eq(t.abbreviation, q) || seq_contains(
        spec_lowercase(t.name@),
        q,
    )
}

fn nfl_team_matches_exec(t: &NflTeam, q: &Vec<char>) -> (r: bool)
    ensures
        r == nfl_team_matches(*t, q@),
{
    let name = chars_of(lowercase(t.name.as_str()).as_str());
    crate::text::chars_eq(&name, q) || crate::api::opt_lower_eq_exec(&t.abbreviation, q)
        || chars_contain(&name, q)
}

/// The first team that answers `query` (trimmed and lowercased).
pub fn find_team<'a>(teams: &'a [NflTeam], query: &str) -> (r: Option<&'a NflTeam>)
    ensures
        r is None <==> forall|i: int|
            0 <= i < teams@.len() ==> !nfl_team_matches(
                #[trigger] teams@[i],
                spec_lowercase(trim_seq(query@)),
            ),
        r matches Some(t) ==> exists|i: int|
            0 <= i < teams@.len() && *t == teams@[i] && nfl_team_matches(
                teams@[i],
                spec_lowercase(trim_seq(query@)),
            ) && forall|j: int|
                0 <= j < i ==> !nfl_team_matches(
                    #[trigger] teams@[j],
                    spec_lowercase(trim_seq(query@)),
                ),
{
    let q = chars_of(normalize_query(query).as_str());
    let mut i: usize = 0;
    while i < teams.len()
        invariant
            i <= teams@.len(),
            q@ == spec_lowercase(trim_seq(query@)),
            forall|j: int| 0 <= j < i ==> !nfl_team_matches(#[trigger] teams@[j], q@),
        decreases teams.len() - i,
    {
        if nfl_team_matches_exec(&teams[i], &q) {
            return Some(&teams[i]);
        }
        i = i + 1;
    }
    None
}

/// A roster player found for one of a user's teams.
#[derive(Debug, Clone)]
pub struct RosterPlayerMatch {
    pub player_id: i64,
    pub player_name: String,
    pub team_id: i64,
    pub team_name: String,
}

/// A player whose lowercased name equals or contains the query.
pub open spec fn roster_player_matches(p: RosterPlayerMatch, q: Seq<char>) -> bool {
    spec_lowercase(p.player_name@) == q || seq_contains(spec_lowercase(p.player_name@), q)
}

/// The players whose name answers `query` (trimmed and lowercased), in order.
pub fn find_players<'a>(players: &'a [RosterPlayerMatch], query: &str) -> (r: Vec<&'a RosterPlayerMatch>)
    ensures
        r@.len() == filter_seq(
            players@,
            |p: RosterPlayerMatch| roster_player_matches(p, spec_lowercase(trim_seq(query@))),
        ).len(),
        forall|i: int|
            0 <= i < r@.len() ==> *r@[i] == filter_seq(
                players@,
                |p: RosterPlayerMatch| roster_player_matches(p, spec_lowercase(trim_seq(query@))),
            )[i],
{
    let q = chars_of(normalize_query(query).as_str());
    let ghost pred = |p: RosterPlayerMatch| roster_player_matches(p, spec_lowercase(trim_seq(query@)));
    let mut r: Vec<&'a RosterPlayerMatch> = Vec::new();
    let mut i: usize = 0;
    while i < players.len()
        invariant
            i <= players@.len(),
            q@ == spec_lowercase(trim_seq(query@)),
            pred == (|p: RosterPlayerMatch| roster_player_matches(p, spec_lowercase(trim_seq(query@)))),
            r@.len() == filter_seq(players@.take(i as int), pred).len(),
            forall|k: int| 0 <= k < r@.len() ==> *r@[k] == filter_seq(players@.take(i as int), pred)[k],
        decreases players.len() - i,
    {
        let ghost before = players@.take(i as int);
        let ghost after = players@.take(i + 1);
        assert(after.drop_last() =~= before);
        assert(after.last() == players@[i as int]);
        let name = chars_of(lowercase(players[i].player_name.as_str()).as_str());
        if crate::text::chars_eq(&name, &q) || chars_contain(&name, &q) {
            r.push(&players[i]);
        }
        i = i + 1;
    }
    assert(players@.take(players.len() as int) =~= players@);
    r
}

/// The scoreboard date range of the season starting in `season_year`: the
/// regular season from September through the playoffs in mid-February.
pub open spec fn season_dates_text(season_year: int) -> Seq<char> {
    decimal_int(season_year) + "0901-"@ + decimal_int(season_year + 1) + "0215"@
}

/// The scoreboard date range of the season starting in `season_year`.
pub fn season_date_range(season_year: i64) -> (r: String)
    requires
        season_year < i64::MAX,
    ensures
        r@ == season_dates_text(season_year as int),
{
    let mut r = decimal_i64(season_year);
    r.append("0901-");
    r.append(decimal_i64(season_year + 1).as_str());
    r.append("0215");
    r
}

/// The players of a team's roster, each with the team.
pub fn roster_matches_for_team(team_id: i64, team_name: &str, roster: &[crate::espn::NflRosterPlayer]) -> (r: Vec<RosterPlayerMatch>)
    ensures
        r@.len() == roster@.len(),
        forall|i: int|
            0 <= i < r@.len() ==> (#[trigger] r@[i]).player_id == roster@[i].id && r@[i].player_name@
                == roster@[i].name@ && r@[i].team_id == team_id && r@[i].team_name@ == team_name@,
{
    let mut r: Vec<RosterPlayerMatch> = Vec::new();
    let mut i: usize = 0;
    while i < roster.len()
        invariant
            i <= roster.len(),
            r@.len() == i,
            forall|k: int|
                0 <= k < i ==> (#[trigger] r@[k]).player_id == roster@[k].id && r@[k].player_name@
                    == roster@[k].name@ && r@[k].team_id == team_id && r@[k].team_name@ == team_name@,
        decreases roster.len() - i,
    {
        r.push(
            RosterPlayerMatch {
                player_id: roster[i].id,
                player_name: roster[i].name.clone(),
                team_id,
                team_name: String::from_str(team_name),
            },
        );
        i = i + 1;
    }
    r
}

} // verus!
