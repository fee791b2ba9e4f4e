//! The ESPN records the library works on, and how they are read from the
//! bodies the ESPN API sends.
use vstd::prelude::*;

use crate::text::{parse_i64, parse_i64_spec, text_eq};

verus! {

/// An NFL team.
#[derive(Debug, Clone)]
pub struct NflTeam {
    pub id: i64,
    pub name: String,
    pub abbreviation: Option<String>,
}

/// An NFL game with its teams, scores when known, and whether it is over.
#[derive(Debug, Clone)]
pub struct NflGame {
    pub id: i64,
    pub home_team: NflTeam,
    pub away_team: NflTeam,
    pub home_score: Option<i64>,
    pub away_score: Option<i64>,
    pub completed: bool,
}

/// A player of a team's roster.
#[derive(Debug, Clone)]
pub struct NflRosterPlayer {
    pub id: i64,
    pub name: String,
}

/// A player and their touchdown count.
#[derive(Debug, Clone, Copy)]
pub struct NflTouchdownLeader {
    pub player_id: i64,
    pub touchdowns: i64,
}

/// A team as the API sends it: the id is text.
#[derive(Debug, Clone)]
pub struct TeamBody {
    pub id: String,
    pub display_name: String,
    pub abbreviation: Option<String>,
}

/// One side of a competition as the API sends it.
#[derive(Debug, Clone)]
pub struct CompetitorBody {
    pub home_away: String,
    pub score: Option<String>,
    pub team: TeamBody,
}

/// Whether a game is over, as the API sends it.
#[derive(Debug, Clone, Copy)]
pub struct StatusTypeBody {
    pub completed: bool,
}

/// The status of an event as the API sends it.
#[derive(Debug, Clone, Copy)]
pub struct StatusBody {
    pub status_type: StatusTypeBody,
}

/// A competition of an event as the API sends it.
#[derive(Debug, Clone)]
pub struct CompetitionBody {
    pub competitors: Vec<CompetitorBody>,
}

/// A scoreboard event as the API sends it.
#[derive(Debug, Clone)]
pub struct EventBody {
    pub id: String,
    pub status: StatusBody,
    pub competitions: Vec<CompetitionBody>,
}

/// A roster entry as the API sends it.
#[derive(Debug, Clone)]
pub struct RosterPlayerBody {
    pub id: String,
    pub display_name: String,
}

/// An id read from its text.
pub fn parse_id(raw: &str) -> (r: Option<i64>)
    ensures
        r == parse_i64_spec(raw@),
{
    parse_i64(raw)
}

/// A score read from its text, when there is one.
pub open spec fn score_of(raw: Option<String>) -> Option<i64> {
    match raw {
        Some(s) => parse_i64_spec(s@),
        None => None,
    }
}

/// A score read from its text, when there is one.
pub fn parse_score(raw: Option<&String>) -> (r: Option<i64>)
    ensures
        r == match raw {
            Some(s) => parse_i64_spec(s@),
            None => None,
        },
{
    match raw {
        Some(s) => parse_i64(s.as_str()),
        None => None,
    }
}

/// An optional name as characters.
pub open spec fn opt_chars(o: Option<String>) -> Option<Seq<char>> {
    match o {
        Some(s) => Some(s@),
        None => None,
    }
}

/// `t` is the team the body `b` describes.
pub open spec fn team_is(t: NflTeam, b: TeamBody) -> bool {
    parse_i64_spec(b.id@) == Some(t.id) && t.name@ == b.display_name@ && opt_chars(t.abbreviation)
        == opt_chars(b.abbreviation)
}

/// The team a body describes; none when its id is not a number.
pub fn team_from_body(body: TeamBody) -> (r: Option<NflTeam>)
    ensures
        r is Some <==> parse_i64_spec(body.id@) is Some,
        r matches Some(t) ==> team_is(t, body),
{
    let ghost b = body;
    match parse_id(body.id.as_str()) {
        None => None,
        Some(id) => Some(NflTeam { id, name: body.display_name, abbreviation: body.abbreviation }),
    }
}

fn clone_opt_string(o: &Option<String>) -> (r: Option<String>)
    ensures
        opt_chars(r) == opt_chars(*o),
{
    match o {
        Some(s) => Some(s.clone()),
        None => None,
    }
}

fn clone_team_body(b: &TeamBody) -> (r: TeamBody)
    ensures
        r.id@ == b.id@,
        r.display_name@ == b.display_name@,
        opt_chars(r.abbreviation) == opt_chars(b.abbreviation),
{
    TeamBody {
        id: b.id.clone(),
        display_name: b.display_name.clone(),
        abbreviation: clone_opt_string(&b.abbreviation),
    }
}

/// Every competitor's team id is a number.
pub open spec fn teams_readable(cs: Seq<CompetitorBody>) -> bool {
    forall|i: int| 0 <= i < cs.len() ==> parse_i64_spec((#[trigger] cs[i]).team.id@) is Some
}

/// The place of the last competitor on side `side` ("home" or "away").
pub open spec fn last_on_side(cs: Seq<CompetitorBody>, side: Seq<char>) -> Option<int>
    decreases cs.len(),
{
    if cs.len() == 0 {
        None
    } else if cs.last().home_away@ == side {
        Some(cs.len() - 1)
    } else {
        last_on_side(cs.drop_last(), side)
    }
}

/// Whether an event yields a game: it has a competition whose competitors'
/// team ids are all numbers, with a home and an away side, and its id is a
/// number.
pub open spec fn event_has_game(e: EventBody) -> bool {
    &&& e.competitions@.len() > 0
    &&& teams_readable(e.competitions@[0].competitors@)
    &&& parse_i64_spec(e.id@) is Some
    &&& last_on_side(e.competitions@[0].competitors@, "home"@) is Some
    &&& last_on_side(e.competitions@[0].competitors@, "away"@) is Some
}

/// `g` is the game event `e` describes: the last home and the last away
/// competitor of its first competition give the teams and scores.
pub open spec fn game_is(g: NflGame, e: EventBody) -> bool {
    let cs = e.competitions@[0].competitors@;
    let h = last_on_side(cs, "home"@)->0;
    let a = last_on_side(cs, "away"@)->0;
    &&& Some(g.id) == parse_i64_spec(e.id@)
    &&& team_is(g.home_team, cs[h].team)
    &&& team_is(g.away_team, cs[a].team)
    &&& g.home_score == score_of(cs[h].score)
    &&& g.away_score == score_of(cs[a].score)
    &&& g.completed == e.status.status_type.completed
}

proof fn lemma_last_on_side_range(cs: Seq<CompetitorBody>, side: Seq<char>)
    ensures
        last_on_side(cs, side) matches Some(i) ==> 0 <= i < cs.len() && cs[i].home_away@ == side,
    decreases cs.len(),
{
    if cs.len() > 0 {
        lemma_last_on_side_range(cs.drop_last(), side);
    }
}

/// The game a scoreboard event describes, when it describes one.
pub fn game_from_event(event: EventBody) -> (r: Option<NflGame>)
    ensures
        r is Some <==> event_has_game(event),
        r matches Some(g) ==> game_is(g, event),
{
    if event.competitions.len() == 0 {
        return None;
    }
    let competition = &event.competitions[0];
    let ghost cs = competition.competitors@;
    let mut home_team: Option<NflTeam> = None;
    let mut away_team: Option<NflTeam> = None;
    let mut home_score: Option<i64> = None;
    let mut away_score: Option<i64> = None;
    let mut i: usize = 0;
    while i < competition.competitors.len()
        invariant
            i <= cs.len(),
            cs == competition.competitors@,
            cs == event.competitions@[0].competitors@,
            teams_readable(cs.take(i as int)),
            home_team is Some <==> last_on_side(cs.take(i as int), "home"@) is Some,
            away_team is Some <==> last_on_side(cs.take(i as int), "away"@) is Some,
            last_on_side(cs.take(i as int), "home"@) matches Some(h) ==> team_is(home_team->0, cs[h].team)
                && home_score == score_of(cs[h].score),
            last_on_side(cs.take(i as int), "away"@) matches Some(a) ==> team_is(away_team->0, cs[a].team)
                && away_score == score_of(cs[a].score),
        decreases cs.len() - i,
    {
        let ghost after = cs.take(i + 1);
        assert(after.drop_last() =~= cs.take(i as int));
        assert(after.last() == cs[i as int]);
        proof {
            lemma_last_on_side_range(cs.take(i as int), "home"@);
            lemma_last_on_side_range(cs.take(i as int), "away"@);
            reveal_strlit("home");
            reveal_strlit("away");
            assert("home"@[0] != "away"@[0]);
            assert("home"@ != "away"@);
        }
        let competitor = &competition.competitors[i];
        let team = match team_from_body(clone_team_body(&competitor.team)) {
            None => {
                proof {
                    assert(!teams_readable(cs)) by {
                        assert(parse_i64_spec(cs[i as int].team.id@) is None);
                    }
                }
                return None;
            },
            Some(t) => t,
        };
        let score = parse_score(competitor.score.as_ref());
        if text_eq(competitor.home_away.as_str(), "home") {
            home_team = Some(team);
            home_score = score;
        } else if text_eq(competitor.home_away.as_str(), "away") {
            away_team = Some(team);
            away_score = score;
        }
        proof {
            reveal_strlit("home");
            reveal_strlit("away");
            assert forall|k: int| 0 <= k < after.len() implies parse_i64_spec(
                (#[trigger] after[k]).team.id@,
            ) is Some by {
                if k < i {
                    assert(after[k] == cs.take(i as int)[k]);
                }
            }
        }
        i = i + 1;
    }
    assert(cs.take(cs.len() as int) =~= cs);
    let id = match parse_id(event.id.as_str()) {
        None => {
            return None;
        },
        Some(id) => id,
    };
    let home_team = match home_team {
        None => {
            return None;
        },
        Some(t) => t,
    };
    let away_team = match away_team {
        None => {
            return None;
        },
        Some(t) => t,
    };
    Some(
        NflGame {
            id,
            home_team,
            away_team,
            home_score,
            away_score,
            completed: event.status.status_type.completed,
        },
    )
}

/// The roster player an entry describes; none when its id is not a number.
pub fn roster_player_from_body(body: RosterPlayerBody) -> (r: Option<NflRosterPlayer>)
    ensures
        r is Some <==> parse_i64_spec(body.id@) is Some,
        r matches Some(p) ==> Some(p.id) == parse_i64_spec(body.id@) && p.name@ == body.display_name@,
{
    match parse_id(body.id.as_str()) {
        None => None,
        Some(id) => Some(NflRosterPlayer { id, name: body.display_name }),
    }
}

/// The teams the bodies describe, in order; bodies whose id is not a number
/// are left out.
pub fn teams_from_bodies(bodies: Vec<TeamBody>) -> (r: Vec<NflTeam>)
    ensures
        r@.len() == crate::sorting::filter_seq(bodies@, |b: TeamBody| parse_i64_spec(b.id@) is Some).len(),
        forall|i: int|
            0 <= i < r@.len() ==> team_is(
                #[trigger] r@[i],
                crate::sorting::filter_seq(bodies@, |b: TeamBody| parse_i64_spec(b.id@) is Some)[i],
            ),
{
    let ghost all = bodies@;
    let ghost p = |b: TeamBody| parse_i64_spec(b.id@) is Some;
    let mut r: Vec<NflTeam> = Vec::new();
    let mut i: usize = 0;
    while i < bodies.len()
        invariant
            i <= bodies.len(),
            all == bodies@,
            p == (|b: TeamBody| parse_i64_spec(b.id@) is Some),
            r@.len() == crate::sorting::filter_seq(all.take(i as int), p).len(),
            forall|k: int|
                0 <= k < r@.len() ==> team_is(#[trigger] r@[k], crate::sorting::filter_seq(all.take(i as int), p)[k]),
        decreases bodies.len() - i,
    {
        let ghost after = all.take(i + 1);
        assert(after.drop_last() =~= all.take(i as int));
        assert(after.last() == all[i as int]);
        let b = clone_team_body(&bodies[i]);
        let ghost bv = bodies@[i as int];
        match team_from_body(b) {
            Some(t) => {
                assert(team_is(t, bv));
                r.push(t);
            },
            None => {},
        }
        i = i + 1;
    }
    assert(all.take(all.len() as int) =~= all);
    r
}

/// The games the scoreboard events describe, in order; events that do not
/// describe a game are left out.
pub fn games_from_events(events: Vec<EventBody>) -> (r: Vec<NflGame>)
    ensures
        r@.len() == crate::sorting::filter_seq(events@, |e: EventBody| event_has_game(e)).len(),
        forall|i: int|
            0 <= i < r@.len() ==> game_is(
                #[trigger] r@[i],
                crate::sorting::filter_seq(events@, |e: EventBody| event_has_game(e))[i],
            ),
{
    let ghost all = events@;
    let ghost p = |e: EventBody| event_has_game(e);
    let mut events = events;
    let mut rev: Vec<NflGame> = Vec::new();
    // Take the events from the back, then turn the games around.
    while events.len() > 0
        invariant
            events@.len() <= all.len(),
            events@ == all.take(events@.len() as int),
            p == (|e: EventBody| event_has_game(e)),
            rev@.len() + crate::sorting::filter_seq(events@, p).len() == crate::sorting::filter_seq(all, p).len(),
            forall|k: int|
                0 <= k < rev@.len() ==> game_is(
                    #[trigger] rev@[k],
                    crate::sorting::filter_seq(all, p)[crate::sorting::filter_seq(all, p).len() - 1 - k],
                ),
            forall|k: int|
                0 <= k < crate::sorting::filter_seq(events@, p).len() ==> crate::sorting::filter_seq(events@, p)[k]
                    == #[trigger] crate::sorting::filter_seq(all, p)[k],
        decreases events.len(),
    {
        let ghost before = events@;
        let e = events.pop().unwrap();
        assert(before.drop_last() =~= events@);
        assert(before == all.take(before.len() as int));
        assert(before.drop_last() =~= all.take(before.len() - 1));
        let ghost ev = e;
        match game_from_event(e) {
            Some(g) => {
                proof {
                    let fb = crate::sorting::filter_seq(before, p);
                    assert(fb == crate::sorting::filter_seq(events@, p).push(ev));
                    assert(fb[fb.len() - 1] == ev);
                    let idx = (crate::sorting::filter_seq(all, p).len() - 1 - rev@.len()) as int;
                    assert(idx == fb.len() - 1);
                    assert(crate::sorting::filter_seq(all, p)[idx] == ev);
                }
                rev.push(g);
            },
            None => {
                assert(crate::sorting::filter_seq(before, p) == crate::sorting::filter_seq(events@, p));
            },
        }
    }
    let ghost total = crate::sorting::filter_seq(all, p).len();
    let mut r: Vec<NflGame> = Vec::new();
    while rev.len() > 0
        invariant
            r@.len() + rev@.len() == total,
            total == crate::sorting::filter_seq(all, p).len(),
            forall|k: int|
                0 <= k < rev@.len() ==> game_is(#[trigger] rev@[k], crate::sorting::filter_seq(all, p)[total - 1 - k]),
            forall|k: int| 0 <= k < r@.len() ==> game_is(#[trigger] r@[k], crate::sorting::filter_seq(all, p)[k]),
        decreases rev.len(),
    {
        let ghost m = rev@.len();
        let g = rev.pop().unwrap();
        assert(game_is(g, crate::sorting::filter_seq(all, p)[total - m]));
        r.push(g);
    }
    r
}

/// The roster players the entries describe, in order; entries whose id is not
/// a number are left out.
pub fn roster_from_bodies(bodies: Vec<RosterPlayerBody>) -> (r: Vec<NflRosterPlayer>)
    ensures
        r@.len() == crate::sorting::filter_seq(bodies@, |b: RosterPlayerBody| parse_i64_spec(b.id@) is Some).len(),
        forall|i: int|
            0 <= i < r@.len() ==> Some((#[trigger] r@[i]).id) == parse_i64_spec(
                crate::sorting::filter_seq(bodies@, |b: RosterPlayerBody| parse_i64_spec(b.id@) is Some)[i].id@,
            ) && r@[i].name@ == crate::sorting::filter_seq(
                bodies@,
                |b: RosterPlayerBody| parse_i64_spec(b.id@) is Some,
            )[i].display_name@,
{
    let ghost all = bodies@;
    let ghost p = |b: RosterPlayerBody| parse_i64_spec(b.id@) is Some;
    let mut r: Vec<NflRosterPlayer> = Vec::new();
    let mut i: usize = 0;
    while i < bodies.len()
        invariant
            i <= bodies.len(),
            all == bodies@,
            p == (|b: RosterPlayerBody| parse_i64_spec(b.id@) is Some),
            r@.len() == crate::sorting::filter_seq(all.take(i as int), p).len(),
            forall|k: int|
                0 <= k < r@.len() ==> Some((#[trigger] r@[k]).id) == parse_i64_spec(
                    crate::sorting::filter_seq(all.take(i as int), p)[k].id@,
                ) && r@[k].name@ == crate::sorting::filter_seq(all.take(i as int), p)[k].display_name@,
        decreases bodies.len() - i,
    {
        let ghost after = all.take(i + 1);
        assert(after.drop_last() =~= all.take(i as int));
        assert(after.last() == all[i as int]);
        let b = RosterPlayerBody { id: bodies[i].id.clone(), display_name: bodies[i].display_name.clone() };
        match roster_player_from_body(b) {
            Some(pl) => {
                r.push(pl);
            },
            None => {},
        }
        i = i + 1;
    }
    assert(all.take(all.len() as int) =~= all);
    r
}

} // verus!
