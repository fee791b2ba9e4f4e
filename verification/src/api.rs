//! The football-data.org records the library works on, and lookups over them.
use vstd::prelude::*;

use crate::sorting::filter_seq;
use crate::text::{
    chars_contain, chars_of, lowercase, normalize_query, seq_contains, spec_lowercase, trim_seq,
};

verus! {

/// A competition team.
#[derive(Debug)]
pub struct Team {
    pub id: i64,
    pub name: String,
    pub short_name: Option<String>,
    pub tla: Option<String>,
}

/// Team slot on a match fixture. Knockout placeholders may have no id or name
/// until the teams are known.
#[derive(Debug)]
pub struct MatchTeam {
    pub id: Option<i64>,
    pub name: Option<String>,
    pub short_name: Option<String>,
    pub tla: Option<String>,
}

/// Goals of each side, when known.
#[derive(Debug, Clone, Copy)]
pub struct ScoreDetail {
    pub home: Option<i64>,
    pub away: Option<i64>,
}

/// The full-time score of a match.
#[derive(Debug, Clone, Copy)]
pub struct Score {
    pub full_time: ScoreDetail,
}

/// A fixture with its teams, score and standing in the competition.
#[derive(Debug)]
pub struct Match {
    pub id: i64,
    pub home_team: MatchTeam,
    pub away_team: MatchTeam,
    pub score: Score,
    pub status: Option<String>,
    pub stage: Option<String>,
    pub group: Option<String>,
    pub matchday: Option<i64>,
}

/// A member of a team's squad.
#[derive(Debug)]
pub struct SquadPlayer {
    pub id: i64,
    pub name: String,
    pub role: Option<String>,
}

/// A goal scorer and their goal count.
#[derive(Debug, Clone, Copy)]
pub struct Scorer {
    pub player_id: i64,
    pub goals: i64,
}

/// A squad player found for one of a user's teams.
#[derive(Debug)]
pub struct SquadPlayerMatch {
    pub player_id: i64,
    pub player_name: String,
    pub team_id: i64,
    pub team_name: String,
}

/// Full-time goals when both sides are known.
pub open spec fn full_time_of(m: Match) -> Option<(i64, i64)> {
    match (m.score.full_time.home, m.score.full_time.away) {
        (Some(home), Some(away)) => Some((home, away)),
        _ => None,
    }
}

impl Match {
    /// Returns full-time goals when the API has populated both sides.
    /// football-data.org often marks matches FINISHED before scores are available.
    pub fn full_time_score(&self) -> (r: Option<(i64, i64)>)
        ensures
            r == full_time_of(*self),
    {
        match (self.score.full_time.home, self.score.full_time.away) {
            (Some(home), Some(away)) => Some((home, away)),
            _ => None,
        }
    }
}

/// Whether an optional name, lowercased, equals `q`.
pub open spec fn opt_lower_eq(n: Option<String>, q: Seq<char>) -> bool {
    n matches Some(s) && spec_lowercase(s@) == q
}

pub fn opt_lower_eq_exec(n: &Option<String>, q: &Vec<char>) -> (r: bool)
    ensures
        r == opt_lower_eq(*n, q@),
{
    match n {
        Some(s) => {
            let l = chars_of(lowercase(s.as_str()).as_str());
            crate::text::chars_eq(&l, q)
        },
        None => false,
    }
}

/// A team answers the normalized query `q` by full name, short name, code,
/// or by a part of its full name.
pub open spec fn team_matches(t: Team, q: Seq<char>) -> bool {
    spec_lowercase(t.name@) == q || opt_lower_eq(t.short_name, q) || opt_lower_eq(t.tla, q)
        || seq_contains(spec_lowercase(t.name@), q)
}

fn team_matches_exec(t: &Team, q: &Vec<char>) -> (r: bool)
    ensures
        r == team_matches(*t, q@),
{
    let name = chars_of(lowercase(t.name.as_str()).as_str());
    crate::text::chars_eq(&name, q) || opt_lower_eq_exec(&t.short_name, q) || opt_lower_eq_exec(
        &t.tla,
        q,
    ) || chars_contain(&name, q)
}

/// The first team of `teams` that answers `query` (trimmed and lowercased).
pub fn find_team<'a>(teams: &'a [Team], query: &str) -> (r: Option<&'a Team>)
    ensures
        r is None <==> forall|i: int|
            0 <= i < teams@.len() ==> !team_matches(#[trigger] teams@[i], spec_lowercase(
                trim_seq(query@),
            )),
        r matches Some(t) ==> exists|i: int|
            0 <= i < teams@.len() && *t == teams@[i] && team_matches(
                teams@[i],
                spec_lowercase(trim_seq(query@)),
            ) && forall|j: int|
                0 <= j < i ==> !team_matches(
                    #[trigger] teams@[j],
                    spec_lowercase(trim_seq(query@)),
                ),
        trim_seq(query@).len() == 0 && teams@.len() > 0 ==> r == Some(&teams@[0]),
{
    let q = chars_of(normalize_query(query).as_str());
    let mut i: usize = 0;
    while i < teams.len()
        invariant
            i <= teams@.len(),
            q@ == spec_lowercase(trim_seq(query@)),
            trim_seq(query@).len() == 0 ==> q@.len() == 0,
            forall|j: int| 0 <= j < i ==> !team_matches(#[trigger] teams@[j], q@),
        decreases teams.len() - i,
    {
        proof {
            if q@.len() == 0 {
                crate::text::lemma_contains_empty(spec_lowercase(teams@[0].name@), q@);
            }
        }
        if team_matches_exec(&teams[i], &q) {
            return Some(&teams[i]);
        }
        i = i + 1;
    }
    proof {
        if q@.len() == 0 && teams@.len() > 0 {
            crate::text::lemma_contains_empty(spec_lowercase(teams@[0].name@), q@);
        }
    }
    None
}

/// A player whose lowercased name equals or contains the query.
pub open spec fn player_matches(p: SquadPlayerMatch, q: Seq<char>) -> bool {
    spec_lowercase(p.player_name@) == q || seq_contains(spec_lowercase(p.player_name@), q)
}

/// The players whose name answers `query` (trimmed and lowercased), in order.
pub fn find_players<'a>(players: &'a [SquadPlayerMatch], query: &str) -> (r: Vec<
    &'a SquadPlayerMatch,
>)
    ensures
        r@.len() == filter_seq(
            players@,
            |p: SquadPlayerMatch| player_matches(p, spec_lowercase(trim_seq(query@))),
        ).len(),
        forall|i: int|
            0 <= i < r@.len() ==> *r@[i] == filter_seq(
                players@,
                |p: SquadPlayerMatch| player_matches(p, spec_lowercase(trim_seq(query@))),
            )[i],
        trim_seq(query@).len() == 0 ==> r@.len() == players@.len(),
        trim_seq(query@).len() == 0 ==> forall|i: int| 0 <= i < r@.len() ==> *r@[i] == players@[i],
        forall|k: int, i: int|
            0 <= k < players@.len() && #[trigger] crate::text::occurs_at(
                spec_lowercase(players@[k].player_name@),
                spec_lowercase(trim_seq(query@)),
                i,
            ) ==> exists|j: int| 0 <= j < r@.len() && *r@[j] == players@[k],
{
    let q = chars_of(normalize_query(query).as_str());
    let ghost pred = |p: SquadPlayerMatch| player_matches(p, spec_lowercase(trim_seq(query@)));
    let mut r: Vec<&'a SquadPlayerMatch> = Vec::new();
    let mut i: usize = 0;
    while i < players.len()
        invariant
            i <= players@.len(),
            q@ == spec_lowercase(trim_seq(query@)),
            pred == (|p: SquadPlayerMatch| player_matches(p, spec_lowercase(trim_seq(query@)))),
            r@.len() == filter_seq(players@.take(i as int), pred).len(),
            forall|k: int|
                0 <= k < r@.len() ==> *r@[k] == filter_seq(players@.take(i as int), pred)[k],
            trim_seq(query@).len() == 0 ==> q@.len() == 0 && r@.len() == i,
            trim_seq(query@).len() == 0 ==> forall|k: int| 0 <= k < r@.len() ==> *r@[k] == players@[k],
        decreases players.len() - i,
    {
        proof {
            if q@.len() == 0 {
                crate::text::lemma_contains_empty(spec_lowercase(players@[i as int].player_name@), q@);
            }
        }
        let ghost before = players@.take(i as int);
        let ghost after = players@.take(i + 1);
        assert(after.drop_last() =~= before);
        assert(after.last() == players@[i as int]);
        let name = chars_of(lowercase(players[i].player_name.as_str()).as_str());
        if crate::text::chars_eq(&name, &q) || chars_contain(&name, &q) {
            r.push(&players[i]);
        }
        i = i + 1;
    }
    assert(players@.take(players.len() as int) =~= players@);
    proof {
        assert forall|k: int, i: int|
            0 <= k < players@.len() && #[trigger] crate::text::occurs_at(
                spec_lowercase(players@[k].player_name@),
                spec_lowercase(trim_seq(query@)),
                i,
            ) implies exists|j: int| 0 <= j < r@.len() && *r@[j] == players@[k] by {
            law_player_found_by_any_part_of_name(players@, query@, k, i);
            let f = filter_seq(players@, pred);
            let j = choose|j: int| 0 <= j < f.len() && f[j] == players@[k];
            assert(*r@[j] == f[j]);
        }
    }
    r
}

/// A player whose lowercased name contains the trimmed, lowercased query,
/// at any place, is among the players found.
pub proof fn law_player_found_by_any_part_of_name(players: Seq<SquadPlayerMatch>, query: Seq<char>, k: int, i: int)
    requires
        0 <= k < players.len(),
        crate::text::occurs_at(spec_lowercase(players[k].player_name@), spec_lowercase(trim_seq(query)), i),
    ensures
        filter_seq(players, |p: SquadPlayerMatch| player_matches(p, spec_lowercase(trim_seq(query)))).contains(
            players[k],
        ),
{
    let pred = |p: SquadPlayerMatch| player_matches(p, spec_lowercase(trim_seq(query)));
    assert(pred(players[k]));
    crate::sorting::lemma_filter_members(players, pred);
}

/// A squad member counts as a player unless it has a role other than "PLAYER".
pub open spec fn is_outfield_player(p: SquadPlayer) -> bool {
    match p.role {
        Some(r) => r@ == "PLAYER"@,
        None => true,
    }
}

/// `m` is the squad player `p` of team `team_id` named `team_name`.
pub open spec fn squad_match_is(m: SquadPlayerMatch, p: SquadPlayer, team_id: i64, team_name: Seq<char>) -> bool {
    m.player_id == p.id && m.player_name@ == p.name@ && m.team_id == team_id && m.team_name@ == team_name
}

/// The players of a team's squad (coaches and staff left out), each with the team.
pub fn squad_player_matches(team_id: i64, team_name: &str, squad: &[SquadPlayer]) -> (r: Vec<SquadPlayerMatch>)
    ensures
        r@.len() == filter_seq(squad@, |p: SquadPlayer| is_outfield_player(p)).len(),
        forall|i: int|
            0 <= i < r@.len() ==> squad_match_is(
                #[trigger] r@[i],
                filter_seq(squad@, |p: SquadPlayer| is_outfield_player(p))[i],
                team_id,
                team_name@,
            ),
{
    let ghost pred = |p: SquadPlayer| is_outfield_player(p);
    let mut r: Vec<SquadPlayerMatch> = Vec::new();
    let mut i: usize = 0;
    while i < squad.len()
        invariant
            i <= squad.len(),
            pred == (|p: SquadPlayer| is_outfield_player(p)),
            r@.len() == filter_seq(squad@.take(i as int), pred).len(),
            forall|k: int|
                0 <= k < r@.len() ==> squad_match_is(
                    #[trigger] r@[k],
                    filter_seq(squad@.take(i as int), pred)[k],
                    team_id,
                    team_name@,
                ),
        decreases squad.len() - i,
    {
        let ghost after = squad@.take(i + 1);
        assert(after.drop_last() =~= squad@.take(i as int));
        assert(after.last() == squad@[i as int]);
        let p = &squad[i];
        let keep = match &p.role {
            Some(role) => crate::text::text_eq(role.as_str(), "PLAYER"),
            None => true,
        };
        if keep {
            r.push(
                SquadPlayerMatch {
                    player_id: p.id,
                    player_name: p.name.clone(),
                    team_id,
                    team_name: String::from_str(team_name),
                },
            );
        }
        i = i + 1;
    }
    assert(squad@.take(squad.len() as int) =~= squad@);
    r
}

} // verus!
