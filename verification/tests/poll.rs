use league_bot::api::{Match, MatchTeam, Score, ScoreDetail};
use league_bot::records::{competition_code, NflMatchResult, Registration, WcMatchResult};
use league_bot::scoring::FinishedMatch;
use league_bot::season::{end_season, RosterPhase, SeasonDisplay};
use league_bot::soccer_poll::{
    finished_match_of, ingest_step, is_finished_match, match_announcement, match_update,
    scorers_cached_note, unix_timestamp_secs, IngestStep,
};

fn fixture(status: &str, score: (Option<i64>, Option<i64>), matchday: Option<i64>) -> Match {
    Match {
        id: 9,
        home_team: MatchTeam { id: Some(1), name: Some("Spain".into()), short_name: None, tla: None },
        away_team: MatchTeam { id: Some(2), name: None, short_name: None, tla: None },
        score: Score { full_time: ScoreDetail { home: score.0, away: score.1 } },
        status: Some(status.into()),
        stage: Some("GROUP_STAGE".into()),
        group: Some("GROUP_B".into()),
        matchday,
    }
}

#[test]
fn finished_matches_need_a_score() {
    assert!(is_finished_match(&fixture("FINISHED", (Some(1), Some(0)), None)));
    assert!(!is_finished_match(&fixture("FINISHED", (Some(1), None), None)));
    assert!(!is_finished_match(&fixture("IN_PLAY", (Some(1), Some(0)), None)));
    assert_eq!(
        finished_match_of(&fixture("FINISHED", (Some(3), Some(1)), None)),
        Some(FinishedMatch { home_team_id: 1, away_team_id: 2, home_goals: 3, away_goals: 1 })
    );
}

#[test]
fn ingest_steps() {
    assert_eq!(ingest_step(true, Some((1, 0)), (1, 0)), IngestStep::RefreshOnly);
    assert_eq!(ingest_step(true, Some((1, 0)), (2, 0)), IngestStep::Score { unmark: true, is_correction: true });
    assert_eq!(ingest_step(false, None, (2, 0)), IngestStep::Score { unmark: false, is_correction: false });
    assert_eq!(ingest_step(false, Some((2, 0)), (2, 0)), IngestStep::Score { unmark: false, is_correction: false });
}

#[test]
fn announcement_text() {
    let m = fixture("FINISHED", (Some(2), Some(1)), Some(3));
    let finished = finished_match_of(&m).unwrap();
    let update = match_update(&Registration { user_id: 7, team_id: 1, team_name: "Spain".into() }, &finished, 10);
    assert_eq!(update.points_earned, 3);
    let a = match_announcement(&m, "FIFA World Cup", &finished, true, Some((1, 1)), &[update]);
    assert_eq!(a.title, "Matchday 3 — score corrected");
    assert_eq!(
        a.description,
        "_Previous: 1–1_\n\n**Spain** 2–1 **TBD**\n\n<@7> (Spain) +3 pts → **10** total\n\nScoring: win 3, draw 1, loss 0"
    );
    assert!(a.corrected);
    let plain = fixture("FINISHED", (Some(0), Some(0)), None);
    let b = match_announcement(&plain, "FIFA World Cup", &finished_match_of(&plain).unwrap(), false, Some((1, 1)), &[]);
    assert_eq!(b.title, "GROUP_STAGE — full time");
    assert!(b.description.starts_with("**Spain** 0–0 **TBD**"));
}

#[test]
fn scorer_note_and_clock() {
    assert_eq!(scorers_cached_note(5, 0), "");
    assert_eq!(scorers_cached_note(5, 2), ", 5 scorers cached for 2 season(s)");
    let now = unix_timestamp_secs();
    assert!(!now.is_empty() && now.chars().all(|c| c.is_ascii_digit()));
    assert!(now.parse::<u64>().unwrap() > 1_600_000_000);
}

#[test]
fn records_and_codes() {
    assert_eq!(competition_code("wc"), "WC");
    assert_eq!(competition_code("epl"), "EPL");
    let wc = WcMatchResult { season_id: 1, match_id: 2, home_team_id: 3, away_team_id: 4, home_goals: 5, away_goals: 6, stage: None };
    assert_eq!(wc.as_finished_match(), FinishedMatch { home_team_id: 3, away_team_id: 4, home_goals: 5, away_goals: 6 });
    let nfl = NflMatchResult { season_id: 1, game_id: 2, home_team_id: 3, away_team_id: 4, home_score: 21, away_score: 14, finished_at: None };
    assert_eq!(nfl.as_finished_match().home_goals, 21);
}

#[test]
fn season_end_and_phases() {
    let display = SeasonDisplay { league_name: "FIFA World Cup".into(), name: "World Cup 2026".into(), slug: "wc-2026".into() };
    let first = end_season(true, &display);
    assert!(first.stop_polling);
    assert_eq!(first.message, "Ended season **World Cup 2026** (`wc-2026`) — match polling stopped.");
    let again = end_season(false, &display);
    assert!(!again.stop_polling);
    assert_eq!(again.message, "Season **World Cup 2026** (`wc-2026`) is already ended — match polling is off.");
    for p in [RosterPhase::Open, RosterPhase::Drafting, RosterPhase::Frozen] {
        assert_eq!(RosterPhase::parse(p.as_str()), Some(p));
    }
    assert_eq!(RosterPhase::parse("closed"), None);
}
