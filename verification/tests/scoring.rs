use league_bot::league::{NFL_LEAGUE_SLUG, WC_LEAGUE_SLUG};
use league_bot::scoring::{
    format_points, format_rules_footer, nfl_rules, points_for_result, points_for_team,
    points_for_team_in_match, points_for_teams, rules_for_league, wc_rules, FinishedMatch,
    ScoringRules,
};

#[test]
fn nfl_rules_use_half_point_units() {
    let rules = rules_for_league(NFL_LEAGUE_SLUG);
    let m = FinishedMatch {
        home_team_id: 1,
        away_team_id: 2,
        home_goals: 24,
        away_goals: 24,
    };
    assert_eq!(points_for_team_in_match(&rules, 1, &m), 1);
    assert_eq!(format_points(5, NFL_LEAGUE_SLUG), "2.5");
}

#[test]
fn wc_rules_unchanged() {
    let rules = rules_for_league(WC_LEAGUE_SLUG);
    assert_eq!(rules, wc_rules());
    assert_eq!(rules, ScoringRules { win: 3, draw: 1, loss: 0 });
}

#[test]
fn format_points_in_each_league() {
    assert_eq!(format_points(4, NFL_LEAGUE_SLUG), "2");
    assert_eq!(format_points(0, NFL_LEAGUE_SLUG), "0");
    assert_eq!(format_points(-3, NFL_LEAGUE_SLUG), "-1.5");
    assert_eq!(format_points(7, "wc"), "7");
    assert_eq!(format_points(-12, "epl"), "-12");
    assert_eq!(format_points(i64::MIN, NFL_LEAGUE_SLUG), "-4611686018427387904");
}

#[test]
fn rules_footers() {
    assert_eq!(
        format_rules_footer(&nfl_rules(), NFL_LEAGUE_SLUG),
        "Win 1 · Tie 0.5 · Loss 0 · TB = tie-breaker touchdowns"
    );
    assert_eq!(
        format_rules_footer(&wc_rules(), "wc"),
        "Win 3 · Tie 1 · Loss 0 · TB = tie-breaker goals"
    );
}

#[test]
fn points_per_result_and_team() {
    let rules = wc_rules();
    assert_eq!(points_for_result(&rules, 2, 1), 3);
    assert_eq!(points_for_result(&rules, 1, 1), 1);
    assert_eq!(points_for_result(&rules, 0, 1), 0);
    let ms = [
        FinishedMatch { home_team_id: 1, away_team_id: 2, home_goals: 2, away_goals: 0 },
        FinishedMatch { home_team_id: 3, away_team_id: 1, home_goals: 1, away_goals: 1 },
        FinishedMatch { home_team_id: 2, away_team_id: 3, home_goals: 0, away_goals: 4 },
    ];
    assert_eq!(points_for_team_in_match(&rules, 9, &ms[0]), 0);
    assert_eq!(points_for_team(&rules, 1, &ms), 4);
    assert_eq!(points_for_team(&rules, 2, &ms), 0);
    assert_eq!(points_for_team(&rules, 3, &ms), 4);
    // Points over several teams add up team by team.
    assert_eq!(points_for_teams(&rules, &[1, 3], &ms), 8);
    assert_eq!(points_for_teams(&rules, &[1, 2, 3], &ms), 8);
    assert_eq!(points_for_teams(&rules, &[], &ms), 0);
}

#[test]
fn season_points_split_into_parts_add_up() {
    let rules = wc_rules();
    let ms = [
        FinishedMatch { home_team_id: 1, away_team_id: 2, home_goals: 1, away_goals: 0 },
        FinishedMatch { home_team_id: 2, away_team_id: 1, home_goals: 2, away_goals: 2 },
        FinishedMatch { home_team_id: 3, away_team_id: 4, home_goals: 5, away_goals: 0 },
    ];
    let whole = points_for_team(&rules, 1, &ms);
    let parts = points_for_team(&rules, 1, &ms[..1]) + points_for_team(&rules, 1, &ms[1..]);
    assert_eq!(whole, 4);
    assert_eq!(whole, parts);
    // A team that played none of the matches earns nothing.
    assert_eq!(points_for_team(&rules, 7, &ms), 0);
}

#[test]
fn results_mirror_between_the_two_sides() {
    let rules = wc_rules();
    let win = FinishedMatch { home_team_id: 1, away_team_id: 2, home_goals: 3, away_goals: 1 };
    assert_eq!((points_for_team_in_match(&rules, 1, &win), points_for_team_in_match(&rules, 2, &win)), (3, 0));
    let draw = FinishedMatch { home_team_id: 1, away_team_id: 2, home_goals: 0, away_goals: 0 };
    assert_eq!((points_for_team_in_match(&rules, 1, &draw), points_for_team_in_match(&rules, 2, &draw)), (1, 1));
    let loss = FinishedMatch { home_team_id: 1, away_team_id: 2, home_goals: 0, away_goals: 2 };
    assert_eq!((points_for_team_in_match(&rules, 1, &loss), points_for_team_in_match(&rules, 2, &loss)), (0, 3));
}
