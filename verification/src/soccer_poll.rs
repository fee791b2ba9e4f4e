//! Ingesting finished soccer matches: which matches count, when a stored
//! result is scored again, the points each holder earns, and the announcement.
use vstd::prelude::*;

use crate::api::{full_time_of, Match};
use crate::draft::{mention, mention_text};
use crate::records::Registration;
use crate::scoring::{match_points, points_for_team_in_match, wc_rules, FinishedMatch, ScoringRules};
use crate::text::{decimal_i64, decimal_int, decimal_nat, decimal_u64, opt_text_eq};

verus! {

/// A match that counts: finished, with both full-time goals known.
pub open spec fn finished_spec(m: Match) -> bool {
    crate::soccar::status_finished(m) && full_time_of(m) is Some
}

/// Whether a match counts: finished, with both full-time goals known.
pub fn is_finished_match(m: &Match) -> (r: bool)
    ensures
        r == finished_spec(*m),
{
    opt_text_eq(&m.status, "FINISHED") && crate::soccar::full_time_score(m).is_some()
}

/// The current time as decimal seconds since the Unix epoch.
pub fn unix_timestamp_secs() -> (r: String)
    ensures
        exists|n: u64| r@ == decimal_nat(n as nat),
{
    let n = crate::clock::unix_seconds_now();
    decimal_u64(n)
}

/// The finished match a fixture gives for scoring: its full-time goals and
/// both team ids, when all are known.
pub open spec fn finished_of(m: Match) -> Option<FinishedMatch> {
    match (full_time_of(m), m.home_team.id, m.away_team.id) {
        (Some(score), Some(home), Some(away)) => Some(
            FinishedMatch { home_team_id: home, away_team_id: away, home_goals: score.0, away_goals: score.1 },
        ),
        _ => None,
    }
}

/// The finished match a fixture gives for scoring, when its goals and teams are known.
pub fn finished_match_of(m: &Match) -> (r: Option<FinishedMatch>)
    ensures
        r == finished_of(*m),
{
    match (crate::soccar::full_time_score(m), m.home_team.id, m.away_team.id) {
        (Some((home_goals, away_goals)), Some(home_team_id), Some(away_team_id)) => Some(
            FinishedMatch { home_team_id, away_team_id, home_goals, away_goals },
        ),
        _ => None,
    }
}

/// What to do with a match already seen or not.
#[derive(Debug, Clone, Copy, PartialEq, Eq, Structural)]
pub enum IngestStep {
    /// Scored before with the same result: only refresh the stored result.
    RefreshOnly,
    /// Score it: drop the processed mark first when it was set, and tell
    /// whether it corrects an earlier score.
    Score { unmark: bool, is_correction: bool },
}

/// What to do with a match whose stored score is `previous`, scored before or
/// not, now reading `score`. A match scored before is scored again only when
/// its score changed.
pub open spec fn ingest_step_of(processed: bool, previous: Option<(i64, i64)>, score: (i64, i64)) -> IngestStep {
    if processed && previous == Some(score) {
        IngestStep::RefreshOnly
    } else {
        IngestStep::Score { unmark: processed, is_correction: previous is Some && previous != Some(score) }
    }
}

/// Decides what to do with a match whose stored score is `previous`.
pub fn ingest_step(processed: bool, previous: Option<(i64, i64)>, score: (i64, i64)) -> (r: IngestStep)
    ensures
        r == ingest_step_of(processed, previous, score),
{
    let same = match previous {
        Some(p) => p.0 == score.0 && p.1 == score.1,
        None => false,
    };
    if processed && same {
        IngestStep::RefreshOnly
    } else {
        IngestStep::Score { unmark: processed, is_correction: previous.is_some() && !same }
    }
}

/// A match scored before with an unchanged result is never scored twice, and
/// a new match never counts as a correction.
pub proof fn law_no_double_scoring(processed: bool, previous: Option<(i64, i64)>, score: (i64, i64))
    ensures
        processed && previous == Some(score) ==> ingest_step_of(processed, previous, score)
            == IngestStep::RefreshOnly,
        previous is None ==> ingest_step_of(processed, previous, score) == (IngestStep::Score {
            unmark: processed,
            is_correction: false,
        }),
{
}

/// What a match earned the holder of one of its teams.
#[derive(Debug, Clone)]
pub struct MatchUpdate {
    pub user_id: u64,
    pub team_name: String,
    pub points_earned: i64,
    pub total_points: i64,
}

/// What the match earned the holder of a registration, whose season total is
/// `total_points`.
pub fn match_update(registration: &Registration, finished: &FinishedMatch, total_points: i64) -> (r: MatchUpdate)
    ensures
        r.user_id == registration.user_id,
        r.team_name@ == registration.team_name@,
        r.points_earned == match_points(
            ScoringRules { win: 3, draw: 1, loss: 0 },
            registration.team_id,
            *finished,
        ),
        r.total_points == total_points,
{
    let rules = wc_rules();
    MatchUpdate {
        points_earned: points_for_team_in_match(&rules, registration.team_id, finished),
        total_points,
        user_id: registration.user_id,
        team_name: registration.team_name.clone(),
    }
}

/// A team's name on a fixture, or "TBD" when it is not known yet.
pub open spec fn side_name(name: Option<String>) -> Seq<char> {
    match name {
        Some(n) => n@,
        None => "TBD"@,
    }
}

/// What a match is headed by: its matchday, else its stage, else the league.
pub open spec fn stage_label(m: Match, league_name: Seq<char>) -> Seq<char> {
    match m.matchday {
        Some(day) => "Matchday "@ + decimal_int(day as int),
        None => match m.stage {
            Some(s) => s@,
            None => league_name,
        },
    }
}

/// One update line of an announcement.
pub open spec fn update_line(u: MatchUpdate) -> Seq<char> {
    mention(u.user_id) + " ("@ + u.team_name@ + ") +"@ + decimal_int(u.points_earned as int) + " pts → **"@
        + decimal_int(u.total_points as int) + "** total\n"@
}

/// The update lines, one after the other.
pub open spec fn update_lines(us: Seq<MatchUpdate>) -> Seq<char>
    decreases us.len(),
{
    if us.len() == 0 {
        Seq::empty()
    } else {
        update_lines(us.drop_last()) + update_line(us.last())
    }
}

/// The announcement of a scored match.
#[derive(Debug)]
pub struct Announcement {
    pub title: String,
    pub description: String,
    /// Whether the announcement corrects an earlier score.
    pub corrected: bool,
}

/// The title of the announcement.
pub open spec fn announcement_title(m: Match, league_name: Seq<char>, is_correction: bool) -> Seq<char> {
    stage_label(m, league_name) + " — "@ + if is_correction {
        "score corrected"@
    } else {
        "full time"@
    }
}

/// The body of the announcement: the earlier score when corrected, the
/// result, each holder's points, and the scoring rules.
pub open spec fn announcement_text(
    m: Match,
    finished: FinishedMatch,
    is_correction: bool,
    previous: Option<(i64, i64)>,
    updates: Seq<MatchUpdate>,
) -> Seq<char> {
    (if is_correction && previous is Some {
        "_Previous: "@ + decimal_int((previous->0).0 as int) + "–"@ + decimal_int((previous->0).1 as int)
            + "_\n\n"@
    } else {
        Seq::empty()
    }) + "**"@ + side_name(m.home_team.name) + "** "@ + decimal_int(finished.home_goals as int) + "–"@
        + decimal_int(finished.away_goals as int) + " **"@ + side_name(m.away_team.name) + "**\n\n"@
        + update_lines(updates) + "\nScoring: win 3, draw 1, loss 0"@
}

/// Writes the announcement of a scored match.
pub fn match_announcement(
    m: &Match,
    league_name: &str,
    finished: &FinishedMatch,
    is_correction: bool,
    previous: Option<(i64, i64)>,
    updates: &[MatchUpdate],
) -> (r: Announcement)
    ensures
        r.title@ == announcement_title(*m, league_name@, is_correction),
        r.description@ == announcement_text(*m, *finished, is_correction, previous, updates@),
        r.corrected == is_correction,
{
    let mut title = match m.matchday {
        Some(day) => {
            let mut s = String::from_str("Matchday ");
            s.append(decimal_i64(day).as_str());
            s
        },
        None => match &m.stage {
            Some(s) => s.clone(),
            None => String::from_str(league_name),
        },
    };
    title.append(" — ");
    if is_correction {
        title.append("score corrected");
    } else {
        title.append("full time");
    }
    let mut d = String::new();
    if is_correction {
        match previous {
            Some((prev_home, prev_away)) => {
                d.append("_Previous: ");
                d.append(decimal_i64(prev_home).as_str());
                d.append("–");
                d.append(decimal_i64(prev_away).as_str());
                d.append("_\n\n");
            },
            None => {},
        }
    }
    d.append("**");
    match &m.home_team.name {
        Some(n) => d.append(n.as_str()),
        None => d.append("TBD"),
    }
    d.append("** ");
    d.append(decimal_i64(finished.home_goals).as_str());
    d.append("–");
    d.append(decimal_i64(finished.away_goals).as_str());
    d.append(" **");
    match &m.away_team.name {
        Some(n) => d.append(n.as_str()),
        None => d.append("TBD"),
    }
    d.append("**\n\n");
    let ghost head = d@;
    let mut i: usize = 0;
    while i < updates.len()
        invariant
            i <= updates.len(),
            d@ == head + update_lines(updates@.take(i as int)),
        decreases updates.len() - i,
    {
        let ghost after = updates@.take(i + 1);
        assert(after.drop_last() =~= updates@.take(i as int));
        assert(after.last() == updates@[i as int]);
        let u = &updates[i];
        d.append(mention_text(u.user_id).as_str());
        d.append(" (");
        d.append(u.team_name.as_str());
        d.append(") +");
        d.append(decimal_i64(u.points_earned).as_str());
        d.append(" pts → **");
        d.append(decimal_i64(u.total_points).as_str());
        d.append("** total\n");
        i = i + 1;
    }
    assert(updates@.take(updates.len() as int) =~= updates@);
    d.append("\nScoring: win ");
    d.append(decimal_i64(crate::scoring::WIN_POINTS).as_str());
    d.append(", draw ");
    d.append(decimal_i64(crate::scoring::DRAW_POINTS).as_str());
    d.append(", loss ");
    d.append(decimal_i64(crate::scoring::LOSS_POINTS).as_str());
    proof {
        reveal_strlit("\nScoring: win ");
        reveal_strlit(", draw ");
        reveal_strlit(", loss ");
        reveal_strlit("\nScoring: win 3, draw 1, loss 0");
        assert(decimal_int(3) == seq!['3']);
        assert(decimal_int(1) == seq!['1']);
        assert(decimal_int(0) == seq!['0']);
        let tail = "\nScoring: win "@ + decimal_int(3) + ", draw "@ + decimal_int(1) + ", loss "@
            + decimal_int(0);
        assert(tail =~= "\nScoring: win 3, draw 1, loss 0"@);
    }
    Announcement { title, description: d, corrected: is_correction }
}

/// Top scorers as player and goals.
pub fn scorer_pairs(scorers: &[crate::api::Scorer]) -> (r: Vec<(i64, i64)>)
    ensures
        r@.len() == scorers@.len(),
        forall|i: int| 0 <= i < r@.len() ==> r@[i] == ((#[trigger] scorers@[i]).player_id, scorers@[i].goals),
{
    let mut r: Vec<(i64, i64)> = Vec::new();
    let mut i: usize = 0;
    while i < scorers.len()
        invariant
            i <= scorers.len(),
            r@.len() == i,
            forall|k: int| 0 <= k < i ==> r@[k] == ((#[trigger] scorers@[k]).player_id, scorers@[k].goals),
        decreases scorers.len() - i,
    {
        r.push((scorers[i].player_id, scorers[i].goals));
        i = i + 1;
    }
    r
}

/// The log note of a scorer refresh: empty when no season was updated.
pub open spec fn scorers_note_text(count: nat, cached: nat) -> Seq<char> {
    if cached == 0 {
        Seq::empty()
    } else {
        ", "@ + decimal_nat(count) + " scorers cached for "@ + decimal_nat(cached) + " season(s)"@
    }
}

/// The log note of a scorer refresh.
pub fn scorers_cached_note(count: usize, cached: usize) -> (r: String)
    ensures
        r@ == scorers_note_text(count as nat, cached as nat),
{
    if cached == 0 {
        String::new()
    } else {
        let mut r = String::from_str(", ");
        r.append(crate::text::decimal_usize(count).as_str());
        r.append(" scorers cached for ");
        r.append(crate::text::decimal_usize(cached).as_str());
        r.append(" season(s)");
        r
    }
}


/// An announcement lists every update, one line each, in order: the update
/// lines are the line of each update, joined end to end.
pub proof fn law_update_lines_one_per_update(us: Seq<MatchUpdate>)
    ensures
        update_lines(us) == us.map_values(|u: MatchUpdate| update_line(u)).flatten(),
    decreases us.len(),
{
    let ls = us.map_values(|u: MatchUpdate| update_line(u));
    if us.len() == 0 {
        assert(ls =~= Seq::<Seq<char>>::empty());
    } else {
        law_update_lines_one_per_update(us.drop_last());
        let init = us.drop_last().map_values(|u: MatchUpdate| update_line(u));
        assert(ls =~= init.push(update_line(us.last())));
        init.lemma_flatten_push(update_line(us.last()));
    }
}

} // verus!
