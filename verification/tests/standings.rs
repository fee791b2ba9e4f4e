use league_bot::scoring::nfl_rules;
use league_bot::standings::build_rows_with_rules;
use league_bot::records::Registration;
use league_bot::scoring::FinishedMatch;
use league_bot::standings::{
    build_rows, format_standing_detail, format_standing_summary, format_standings_detail_lines,
    format_standings_summary_lines, points_for_user_teams, standing_users, standings_footer,
    standings_ranks, StandingRow,
};

fn reg(user_id: u64, team_id: i64, name: &str) -> Registration {
    Registration { user_id, team_id, team_name: name.into() }
}

fn row(user_id: u64, points: i64) -> StandingRow {
    StandingRow { user_id, points, teams: vec![], tiebreaker_goals: 0, tiebreaker_player: None }
}

#[test]
fn footer_states_soccer_rules() {
    assert_eq!(standings_footer(), "Win 3 · Draw 1 · Loss 0 · TB = tie-breaker goals");
}

#[test]
fn ranks_share_places_on_equal_points() {
    let rows = vec![row(1, 9), row(2, 7), row(3, 7), row(4, 4), row(5, 4), row(6, 4), row(7, 1)];
    assert_eq!(standings_ranks(&rows), vec![1, 2, 2, 4, 4, 4, 7]);
    assert_eq!(standings_ranks(&[]), Vec::<usize>::new());
}

#[test]
fn rows_ordered_by_points_then_tiebreaker_then_user() {
    let matches = [
        FinishedMatch { home_team_id: 1, away_team_id: 2, home_goals: 1, away_goals: 0 },
        FinishedMatch { home_team_id: 3, away_team_id: 4, home_goals: 2, away_goals: 2 },
    ];
    let regs = vec![reg(20, 2, "Chile"), reg(10, 1, "Brazil"), reg(30, 3, "Peru"), reg(40, 4, "Mexico"), reg(10, 4, "Mexico")];
    let users = standing_users(&regs);
    assert_eq!(users, vec![10, 20, 30, 40]);
    let tbs = vec![
        (10, 0, None),
        (20, 5, Some("Sanchez".to_string())),
        (30, 3, None),
        (40, 3, Some("Lozano".to_string())),
    ];
    let rows = build_rows(&matches, &regs, tbs);
    let order: Vec<u64> = rows.iter().map(|r| r.user_id).collect();
    assert_eq!(order, vec![10, 30, 40, 20]);
    assert_eq!(rows[0].points, 4);
    assert_eq!(rows[0].teams, vec![("Brazil".to_string(), 3), ("Mexico".to_string(), 1)]);
    assert_eq!(rows[3].tiebreaker_player.as_deref(), Some("Sanchez"));
}

#[test]
fn user_points_sum_over_teams() {
    let matches = [FinishedMatch { home_team_id: 1, away_team_id: 2, home_goals: 0, away_goals: 0 }];
    assert_eq!(points_for_user_teams(&matches, &[reg(1, 1, "A"), reg(1, 2, "B")]), 2);
    assert_eq!(points_for_user_teams(&matches, &[]), 0);
}

#[test]
fn standing_lines() {
    let r = StandingRow {
        user_id: 42,
        points: 7,
        teams: vec![("Brazil".to_string(), 6), ("Japan".to_string(), 1)],
        tiebreaker_goals: 3,
        tiebreaker_player: Some("Vinicius".to_string()),
    };
    assert_eq!(format_standing_summary(2, &r), "**2** · <@42> — **7** pts");
    assert_eq!(
        format_standing_detail(2, &r),
        "**2** · <@42> — **7** pts\n   • **Brazil** — 6 pts\n   • **Japan** — 1 pts\n   • Tie-breaker: **Vinicius** — 3 goals"
    );
    let plain = row(5, 0);
    assert_eq!(format_standing_detail(1, &plain), "**1** · <@5> — **0** pts\n   • Tie-breaker — 0 goals");
    let rows = vec![row(1, 3), row(2, 1)];
    assert_eq!(
        format_standings_summary_lines(&rows, &[1, 2]),
        vec!["**1** · <@1> — **3** pts".to_string(), "**2** · <@2> — **1** pts".to_string()]
    );
    assert_eq!(format_standings_detail_lines(&rows, &[1]).len(), 1);
}

#[test]
fn nfl_standings_use_nfl_rules() {
    let matches = [FinishedMatch { home_team_id: 1, away_team_id: 2, home_goals: 17, away_goals: 17 }];
    let regs = vec![reg(5, 1, "Bears"), reg(6, 2, "Packers")];
    let rows = build_rows_with_rules(&nfl_rules(), &matches, &regs, vec![(5, 0, None), (6, 2, None)]);
    assert_eq!(rows.iter().map(|r| (r.user_id, r.points)).collect::<Vec<_>>(), vec![(6, 1), (5, 1)]);
}
