use std::collections::HashSet;

use league_bot::api::{Match, MatchTeam, Score, ScoreDetail, SquadPlayerMatch, Team};
use league_bot::soccar::{
    best_case_third_place_rank, classify_teams, early_eliminated_third_place_team_ids, find_players,
    find_team, remaining_group_outcomes, standings_from_results, GroupResult,
    fourth_place_from_group, group_is_complete, group_matches, mathematically_eliminated_from_group,
    matches_within_limits, min_third_place_record, ranked_group_standings, results_from_group_matches,
    third_place_from_group, GroupRow, TeamClassification,
};

fn row(points: i64, goals_for: i64, goals_against: i64) -> GroupRow {
    GroupRow {
        points,
        goals_for,
        goals_against,
    }
}

fn match_with(
    id: i64,
    home_id: Option<i64>,
    away_id: Option<i64>,
    status: &str,
    group: Option<&str>,
    score: (Option<i64>, Option<i64>),
) -> Match {
    Match {
        id,
        home_team: MatchTeam {
            id: home_id,
            name: home_id.map(|id| format!("Home {id}")),
            short_name: None,
            tla: None,
        },
        away_team: MatchTeam {
            id: away_id,
            name: away_id.map(|id| format!("Away {id}")),
            short_name: None,
            tla: None,
        },
        score: Score {
            full_time: ScoreDetail {
                home: score.0,
                away: score.1,
            },
        },
        status: Some(status.into()),
        stage: Some("GROUP_STAGE".into()),
        group: group.map(str::to_string),
        matchday: None,
    }
}

fn knockout_match(id: i64, home_id: i64, away_id: i64, score: (i64, i64)) -> Match {
    Match {
        id,
        home_team: MatchTeam {
            id: Some(home_id),
            name: Some(format!("Home {home_id}")),
            short_name: None,
            tla: None,
        },
        away_team: MatchTeam {
            id: Some(away_id),
            name: Some(format!("Away {away_id}")),
            short_name: None,
            tla: None,
        },
        score: Score {
            full_time: ScoreDetail {
                home: Some(score.0),
                away: Some(score.1),
            },
        },
        status: Some("FINISHED".into()),
        stage: Some("LAST_16".into()),
        group: None,
        matchday: None,
    }
}

fn team(id: i64, name: &str) -> Team {
    Team {
        id,
        name: name.into(),
        short_name: None,
        tla: None,
    }
}

fn classification_ids(classification: &TeamClassification) -> (HashSet<i64>, HashSet<i64>) {
    (
        classification.still_in.iter().map(|t| t.id).collect(),
        classification.eliminated.iter().map(|t| t.id).collect(),
    )
}

fn locked_out_bottom_team_group_a() -> Vec<Match> {
    vec![
        match_with(1, Some(1), Some(4), "FINISHED", Some("GROUP_A"), (Some(2), Some(0))),
        match_with(2, Some(2), Some(4), "FINISHED", Some("GROUP_A"), (Some(2), Some(0))),
        match_with(3, Some(3), Some(4), "FINISHED", Some("GROUP_A"), (Some(2), Some(0))),
        match_with(4, Some(1), Some(2), "FINISHED", Some("GROUP_A"), (Some(2), Some(0))),
        match_with(5, Some(1), Some(3), "FINISHED", Some("GROUP_A"), (Some(2), Some(0))),
        match_with(6, Some(2), Some(3), "TIMED", Some("GROUP_A"), (None, None)),
    ]
}

fn complete_group_a_top_three_in() -> Vec<Match> {
    vec![
        match_with(1, Some(1), Some(2), "FINISHED", Some("GROUP_A"), (Some(2), Some(0))),
        match_with(2, Some(1), Some(3), "FINISHED", Some("GROUP_A"), (Some(2), Some(0))),
        match_with(3, Some(1), Some(4), "FINISHED", Some("GROUP_A"), (Some(2), Some(0))),
        match_with(4, Some(2), Some(3), "FINISHED", Some("GROUP_A"), (Some(2), Some(0))),
        match_with(5, Some(2), Some(4), "FINISHED", Some("GROUP_A"), (Some(2), Some(0))),
        match_with(6, Some(3), Some(4), "FINISHED", Some("GROUP_A"), (Some(1), Some(0))),
    ]
}

fn complete_group_refs(group: &[Match]) -> Vec<&Match> {
    group.iter().collect()
}

fn unstarted_group_a() -> Vec<Match> {
    vec![
        match_with(1, Some(1), Some(2), "TIMED", Some("GROUP_A"), (None, None)),
        match_with(2, Some(1), Some(3), "TIMED", Some("GROUP_A"), (None, None)),
        match_with(3, Some(1), Some(4), "TIMED", Some("GROUP_A"), (None, None)),
        match_with(4, Some(2), Some(3), "TIMED", Some("GROUP_A"), (None, None)),
        match_with(5, Some(2), Some(4), "TIMED", Some("GROUP_A"), (None, None)),
        match_with(6, Some(3), Some(4), "TIMED", Some("GROUP_A"), (None, None)),
    ]
}

#[test]
fn in_play_score_does_not_count_toward_standings() {
    let group = [
        match_with(1, Some(1), Some(4), "FINISHED", Some("GROUP_E"), (Some(1), Some(0))),
        match_with(2, Some(4), Some(3), "FINISHED", Some("GROUP_E"), (Some(0), Some(0))),
        match_with(3, Some(1), Some(2), "FINISHED", Some("GROUP_E"), (Some(2), Some(0))),
        match_with(4, Some(2), Some(3), "FINISHED", Some("GROUP_E"), (Some(2), Some(0))),
        // Live 0-0 must not lock in a draw while Ecuador can still win.
        match_with(5, Some(4), Some(1), "IN_PLAY", Some("GROUP_E"), (Some(0), Some(0))),
        match_with(6, Some(3), Some(2), "TIMED", Some("GROUP_E"), (None, None)),
    ];
    let group_matches: Vec<_> = group.iter().collect();

    assert_eq!(results_from_group_matches(&group_matches).len(), 4);
    assert!(!mathematically_eliminated_from_group(&group_matches).contains(&4));
}

#[test]
fn complete_group_eliminates_only_fourth_place() {
    let group = complete_group_a_top_three_in();
    let group_refs = complete_group_refs(&group);

    assert_eq!(fourth_place_from_group(&group_refs), Some(4));
    assert_eq!(third_place_from_group(&group_refs).map(|(id, _)| id), Some(3));
}

#[test]
fn mathematically_eliminated_empty_for_complete_group() {
    let group = complete_group_a_top_three_in();
    assert!(mathematically_eliminated_from_group(&complete_group_refs(&group)).is_empty());
}

#[test]
fn mathematically_eliminated_when_cannot_reach_top_three() {
    let group = locked_out_bottom_team_group_a();
    let group_matches = complete_group_refs(&group);

    let mut eliminated = mathematically_eliminated_from_group(&group_matches);
    eliminated.sort_unstable();
    assert_eq!(eliminated, vec![4]);
}

#[test]
fn nobody_mathematically_eliminated_before_group_starts() {
    let group = unstarted_group_a();
    assert!(mathematically_eliminated_from_group(&complete_group_refs(&group)).is_empty());
}

#[test]
fn contender_with_two_matches_left_not_mathematically_eliminated() {
    // After two rounds: 1 leads, 2/3/4 tight; two fixtures remain so 4 can still reach 3rd.
    let partial = [
        match_with(1, Some(1), Some(2), "FINISHED", Some("GROUP_A"), (Some(1), Some(0))),
        match_with(2, Some(3), Some(4), "FINISHED", Some("GROUP_A"), (Some(1), Some(0))),
        match_with(3, Some(1), Some(3), "FINISHED", Some("GROUP_A"), (Some(1), Some(0))),
        match_with(4, Some(2), Some(4), "TIMED", Some("GROUP_A"), (None, None)),
        match_with(5, Some(1), Some(4), "TIMED", Some("GROUP_A"), (None, None)),
        match_with(6, Some(2), Some(3), "TIMED", Some("GROUP_A"), (None, None)),
    ];
    let group_matches: Vec<_> = partial.iter().collect();

    assert!(!mathematically_eliminated_from_group(&group_matches).contains(&4));
}

#[test]
fn turkey_shaped_group_eliminated_on_head_to_head() {
    let group = [
        match_with(1, Some(1), Some(3), "FINISHED", Some("GROUP_D"), (Some(4), Some(1))),
        match_with(2, Some(2), Some(4), "FINISHED", Some("GROUP_D"), (Some(2), Some(0))),
        match_with(3, Some(4), Some(3), "FINISHED", Some("GROUP_D"), (Some(0), Some(1))),
        match_with(4, Some(1), Some(2), "FINISHED", Some("GROUP_D"), (Some(2), Some(0))),
        match_with(5, Some(4), Some(1), "TIMED", Some("GROUP_D"), (None, None)),
        match_with(6, Some(3), Some(2), "TIMED", Some("GROUP_D"), (None, None)),
    ];
    let group_matches: Vec<_> = group.iter().collect();

    let mut eliminated = mathematically_eliminated_from_group(&group_matches);
    eliminated.sort_unstable();
    assert_eq!(eliminated, vec![4]);
}

#[test]
fn finished_without_score_simulated_like_timed() {
    let timed = locked_out_bottom_team_group_a();
    let mut finished_no_score = locked_out_bottom_team_group_a();
    finished_no_score[5] = match_with(
        6,
        Some(2),
        Some(3),
        "FINISHED",
        Some("GROUP_A"),
        (None, None),
    );

    assert_eq!(
        mathematically_eliminated_from_group(&complete_group_refs(&timed)),
        mathematically_eliminated_from_group(&complete_group_refs(&finished_no_score)),
    );
}

#[test]
fn min_third_from_unstarted_group_is_weak() {
    let group = unstarted_group_a();
    let group_refs = complete_group_refs(&group);
    let min_third = min_third_place_record(&group_refs);

    assert!(min_third.points <= 1, "weakest third should be at most one point");
}

#[test]
fn third_place_cut_drops_bottom_four_of_twelve() {
    let candidates: Vec<(i64, GroupRow)> = (1..=12)
        .map(|team_id| (team_id, row(13 - team_id, 5, 4)))
        .collect();

    let eliminated = early_eliminated_third_place_team_ids(&candidates, &[]);
    assert_eq!(eliminated, vec![9, 10, 11, 12]);
}

#[test]
fn third_place_cut_spared_when_eight_or_fewer_candidates() {
    let candidates = vec![(1, row(4, 3, 2)), (2, row(3, 2, 2))];
    assert!(early_eliminated_third_place_team_ids(&candidates, &[]).is_empty());
}

#[test]
fn third_place_eliminated_early_when_ninth_with_one_group_left() {
    let candidates: Vec<(i64, GroupRow)> = (1..=11)
        .map(|team_id| (team_id, row(12 - team_id, 5, 4)))
        .collect();

    let incomplete_group = [
        match_with(1, Some(100), Some(101), "TIMED", Some("GROUP_L"), (None, None)),
        match_with(2, Some(102), Some(103), "TIMED", Some("GROUP_L"), (None, None)),
    ];
    let incomplete = vec![incomplete_group.iter().collect::<Vec<_>>()];

    let eliminated = early_eliminated_third_place_team_ids(&candidates, &incomplete);
    assert_eq!(eliminated, vec![9, 10, 11]);
}

#[test]
fn eighth_third_place_stays_in_with_one_group_remaining() {
    let candidates: Vec<(i64, GroupRow)> = (1..=11)
        .map(|team_id| (team_id, row(12 - team_id, 5, 4)))
        .collect();

    let incomplete_group = [match_with(1, Some(100), Some(101), "TIMED", Some("GROUP_L"), (None, None))];
    let incomplete = vec![complete_group_refs(&incomplete_group)];

    let eliminated = early_eliminated_third_place_team_ids(&candidates, &incomplete);
    assert!(!eliminated.contains(&8));
    assert!(eliminated.contains(&9));
}

#[test]
fn third_place_tiebreak_uses_team_id() {
    let candidates = vec![(1, row(4, 3, 1)), (2, row(4, 3, 1))];

    assert_eq!(best_case_third_place_rank(1, &candidates, &[]), 1);
    assert_eq!(best_case_third_place_rank(2, &candidates, &[]), 2);
}

#[test]
fn phantom_min_third_loses_tie_to_confirmed_team() {
    let candidates = vec![(5, row(3, 2, 2))];
    let min_thirds = vec![row(3, 2, 2)];

    assert_eq!(best_case_third_place_rank(5, &candidates, &min_thirds), 1);
}

#[test]
fn classify_mathematically_eliminated_overrides_upcoming_fixture() {
    let teams = vec![team(1, "A"), team(2, "B"), team(3, "C"), team(4, "D")];
    let matches = locked_out_bottom_team_group_a();
    let (_, eliminated) = classification_ids(&classify_teams(&teams, &matches));

    assert!(eliminated.contains(&4));
    assert!(!eliminated.contains(&1));
}

#[test]
fn classify_complete_group_keeps_third_in() {
    let teams = vec![team(1, "A"), team(2, "B"), team(3, "C"), team(4, "D")];
    let matches = complete_group_a_top_three_in();
    let (still_in, eliminated) = classification_ids(&classify_teams(&teams, &matches));

    assert_eq!(still_in, HashSet::from([1, 2, 3]));
    assert_eq!(eliminated, HashSet::from([4]));
}

#[test]
fn classify_knockout_loser_out_winner_in() {
    let teams = vec![team(10, "Winner"), team(20, "Loser")];
    let matches = vec![knockout_match(1, 10, 20, (2, 1))];
    let (still_in, eliminated) = classification_ids(&classify_teams(&teams, &matches));

    assert_eq!(still_in, HashSet::from([10]));
    assert_eq!(eliminated, HashSet::from([20]));
}

#[test]
fn classify_knockout_draw_eliminates_neither() {
    let teams = vec![team(10, "Home"), team(20, "Away")];
    let matches = vec![knockout_match(1, 10, 20, (1, 1))];
    let (still_in, eliminated) = classification_ids(&classify_teams(&teams, &matches));

    assert_eq!(still_in, HashSet::from([10, 20]));
    assert!(eliminated.is_empty());
}

#[test]
fn classify_third_place_playoff_eliminates_both() {
    let teams = vec![team(1, "France"), team(2, "Portugal")];
    let matches = vec![Match {
        id: 1,
        home_team: MatchTeam {
            id: Some(1),
            name: Some("France".into()),
            short_name: None,
            tla: None,
        },
        away_team: MatchTeam {
            id: Some(2),
            name: Some("Portugal".into()),
            short_name: None,
            tla: None,
        },
        score: Score {
            full_time: ScoreDetail {
                home: Some(2),
                away: Some(1),
            },
        },
        status: Some("FINISHED".into()),
        stage: Some("THIRD_PLACE".into()),
        group: None,
        matchday: None,
    }];
    let (still_in, eliminated) = classification_ids(&classify_teams(&teams, &matches));

    assert!(still_in.is_empty());
    assert_eq!(eliminated, HashSet::from([1, 2]));
}

#[test]
fn classify_partitions_teams_without_overlap() {
    let teams: Vec<_> = (1..=5).map(|id| team(id, &format!("T{id}"))).collect();
    let matches = locked_out_bottom_team_group_a();
    let classification = classify_teams(&teams, &matches);
    let (still_in, eliminated) = classification_ids(&classification);

    assert_eq!(still_in.len() + eliminated.len(), teams.len());
    assert!(still_in.is_disjoint(&eliminated));
}

#[test]
fn classify_all_twelve_third_place_cuts_bottom_four() {
    let mut teams = Vec::new();
    let mut matches = Vec::new();
    let mut match_id = 1_i64;

    for group_idx in 0..12 {
        let base = group_idx * 4 + 1;
        let group = format!("GROUP_{group_idx}");
        for offset in 0..4 {
            teams.push(team(base + offset, &format!("G{group_idx}T{offset}")));
        }

        let round_robin = [(0, 1), (0, 2), (0, 3), (1, 2), (1, 3), (2, 3)];
        for (home, away) in round_robin {
            let home_id = base + home;
            let away_id = base + away;
            let (home_goals, away_goals) = if home == 0 {
                (2, 0)
            } else if home == 1 && away == 2 {
                (2, 0)
            } else if home == 2 && away == 3 {
                (1, 0)
            } else {
                (2, 0)
            };
            matches.push(match_with(
                match_id,
                Some(home_id),
                Some(away_id),
                "FINISHED",
                Some(group.as_str()),
                (Some(home_goals), Some(away_goals)),
            ));
            match_id += 1;
        }
    }

    let (_, eliminated) = classification_ids(&classify_teams(&teams, &matches));
    let mut third_place_ids: Vec<i64> = (0..12).map(|group_idx| group_idx * 4 + 3).collect();
    third_place_ids.sort_unstable();

    for third_place_id in third_place_ids.iter().take(8) {
        assert!(!eliminated.contains(third_place_id));
    }
    for third_place_id in third_place_ids.iter().skip(8) {
        assert!(eliminated.contains(third_place_id));
    }
}

#[test]
fn fifa_order_falls_back_to_team_id_when_all_else_is_level() {
    let group = [
        match_with(1, Some(5), Some(3), "FINISHED", Some("GROUP_X"), (Some(1), Some(0))),
        match_with(2, Some(3), Some(5), "FINISHED", Some("GROUP_X"), (Some(1), Some(0))),
    ];
    let refs: Vec<&Match> = group.iter().collect();
    let ranked = ranked_group_standings(&refs);
    assert_eq!(ranked.iter().map(|(id, _)| *id).collect::<Vec<_>>(), vec![3, 5]);
    assert_eq!(ranked[0].1, GroupRow { points: 3, goals_for: 1, goals_against: 1 });
}

#[test]
fn ranking_keeps_every_team_of_the_table() {
    let group = complete_group_a_top_three_in();
    let refs = complete_group_refs(&group);
    let ranked = ranked_group_standings(&refs);
    let mut ids: Vec<i64> = ranked.iter().map(|(id, _)| *id).collect();
    assert_eq!(ids, vec![1, 2, 3, 4]);
    ids.sort_unstable();
    ids.dedup();
    assert_eq!(ids.len(), 4);
    assert_eq!(ranked[0].1.points, 9);
}

#[test]
fn group_matches_pick_one_group_in_order() {
    let mut all = complete_group_a_top_three_in();
    all.push(match_with(7, Some(9), Some(8), "TIMED", Some("GROUP_B"), (None, None)));
    all.push(knockout_match(8, 1, 2, (1, 0)));
    let a = group_matches(&all, "GROUP_A");
    assert_eq!(a.iter().map(|m| m.id).collect::<Vec<_>>(), vec![1, 2, 3, 4, 5, 6]);
    assert!(group_is_complete(&a));
    let b = group_matches(&all, "GROUP_B");
    assert_eq!(b.len(), 1);
    assert!(!group_is_complete(&b));
}

#[test]
fn limits_reject_absurd_scores() {
    assert!(matches_within_limits(&complete_group_a_top_three_in()));
    let huge = vec![knockout_match(1, 1, 2, (i64::MAX, 0))];
    assert!(!matches_within_limits(&huge));
}

#[test]
fn team_that_can_finish_third_with_a_wide_win_is_not_shut_out() {
    // 1 beats everyone 1-0, 2 beats 4 3-0, 3 beats 2 1-0; only 3 v 4 is left.
    // Should 4 win 2-0, teams 2, 3 and 4 are level on points and head to head,
    // and 4 goes through third on goals scored.
    let group = [
        match_with(1, Some(1), Some(2), "FINISHED", Some("GROUP_B"), (Some(1), Some(0))),
        match_with(2, Some(1), Some(3), "FINISHED", Some("GROUP_B"), (Some(1), Some(0))),
        match_with(3, Some(1), Some(4), "FINISHED", Some("GROUP_B"), (Some(1), Some(0))),
        match_with(4, Some(2), Some(4), "FINISHED", Some("GROUP_B"), (Some(3), Some(0))),
        match_with(5, Some(3), Some(2), "FINISHED", Some("GROUP_B"), (Some(1), Some(0))),
        match_with(6, Some(3), Some(4), "TIMED", Some("GROUP_B"), (None, None)),
    ];
    let group_matches: Vec<_> = group.iter().collect();

    assert!(mathematically_eliminated_from_group(&group_matches).is_empty());
}

#[test]
fn open_group_with_three_teams_clear_on_points_counts_against_a_third() {
    let mut candidates: Vec<(i64, GroupRow)> = (1..=7).map(|team_id| (team_id, row(9, 6, 1))).collect();
    candidates.push((9, row(1, 1, 3)));
    candidates.push((10, row(0, 0, 4)));
    let open_group = [
        match_with(1, Some(100), Some(103), "FINISHED", Some("GROUP_K"), (Some(2), Some(0))),
        match_with(2, Some(101), Some(103), "FINISHED", Some("GROUP_K"), (Some(2), Some(0))),
        match_with(3, Some(102), Some(103), "FINISHED", Some("GROUP_K"), (Some(2), Some(0))),
        match_with(4, Some(100), Some(101), "TIMED", Some("GROUP_K"), (None, None)),
        match_with(5, Some(100), Some(102), "TIMED", Some("GROUP_K"), (None, None)),
        match_with(6, Some(101), Some(102), "TIMED", Some("GROUP_K"), (None, None)),
    ];
    let incomplete = vec![open_group.iter().collect::<Vec<_>>()];

    let eliminated = early_eliminated_third_place_team_ids(&candidates, &incomplete);
    assert_eq!(eliminated, vec![9, 10]);
}

#[test]
fn level_weakest_third_with_better_goal_difference_cuts_a_third() {
    let mut candidates: Vec<(i64, GroupRow)> = (1..=7).map(|team_id| (team_id, row(9, 6, 1))).collect();
    candidates.push((9, row(3, 1, 3)));
    candidates.push((10, row(0, 0, 4)));
    let open_group = [
        match_with(1, Some(100), Some(103), "FINISHED", Some("GROUP_K"), (Some(2), Some(0))),
        match_with(2, Some(101), Some(103), "FINISHED", Some("GROUP_K"), (Some(2), Some(0))),
        match_with(3, Some(102), Some(103), "FINISHED", Some("GROUP_K"), (Some(2), Some(0))),
        match_with(4, Some(100), Some(101), "TIMED", Some("GROUP_K"), (None, None)),
        match_with(5, Some(100), Some(102), "TIMED", Some("GROUP_K"), (None, None)),
        match_with(6, Some(101), Some(102), "TIMED", Some("GROUP_K"), (None, None)),
    ];
    let incomplete = vec![open_group.iter().collect::<Vec<_>>()];

    let eliminated = early_eliminated_third_place_team_ids(&candidates, &incomplete);
    // The weakest third of the open group has 3 points and goal difference 0,
    // ahead of team 9 on goal difference: eight places are above team 9.
    assert_eq!(eliminated, vec![9, 10]);
}

#[test]
fn blank_team_query_answers_with_the_first_team() {
    let teams = vec![team(7, "Brazil"), team(3, "Argentina")];
    assert_eq!(find_team(&teams, "   ").map(|t| t.id), Some(7));
    assert!(find_team(&[], "").is_none());
}

#[test]
fn blank_player_query_lists_every_player() {
    let players = vec![
        SquadPlayerMatch { player_id: 1, player_name: "Alisson".into(), team_id: 7, team_name: "Brazil".into() },
        SquadPlayerMatch { player_id: 2, player_name: "Messi".into(), team_id: 3, team_name: "Argentina".into() },
    ];
    let found: Vec<i64> = find_players(&players, " ").iter().map(|p| p.player_id).collect();
    assert_eq!(found, vec![1, 2]);
    let found: Vec<i64> = find_players(&players, "MES").iter().map(|p| p.player_id).collect();
    assert_eq!(found, vec![2]);
}

#[test]
fn unplayed_knockout_fixture_changes_no_classification() {
    let teams = vec![team(1, "A"), team(2, "B"), team(3, "C"), team(4, "D"), team(10, "X"), team(20, "Y")];
    let matches = locked_out_bottom_team_group_a();
    let mut with_fixture = locked_out_bottom_team_group_a();
    let mut fixture = knockout_match(99, 10, 20, (0, 0));
    fixture.status = Some("TIMED".into());
    fixture.score.full_time.home = None;
    fixture.score.full_time.away = None;
    with_fixture.push(fixture);

    let before = classification_ids(&classify_teams(&teams, &matches));
    let after = classification_ids(&classify_teams(&teams, &with_fixture));
    assert_eq!(before, after);
    assert!(after.0.contains(&10) && after.0.contains(&20));
}

#[test]
fn every_pending_match_is_tried_three_ways() {
    let group = unstarted_group_a();
    let refs = complete_group_refs(&group);
    assert_eq!(remaining_group_outcomes(&refs).len(), 729);

    let locked = locked_out_bottom_team_group_a();
    let outcomes = remaining_group_outcomes(&complete_group_refs(&locked));
    assert_eq!(outcomes.len(), 3);
    let last: Vec<(i64, i64)> = outcomes.iter().map(|o| (o[5].home_goals, o[5].away_goals)).collect();
    assert_eq!(last, vec![(1, 0), (0, 0), (0, 1)]);

    let unknown = [match_with(1, Some(1), None, "TIMED", Some("GROUP_A"), (None, None))];
    assert!(remaining_group_outcomes(&complete_group_refs(&unknown)).is_empty());
}

#[test]
fn one_result_updates_both_rows_only() {
    let results = [
        GroupResult { home_id: 1, away_id: 2, home_goals: 0, away_goals: 0 },
        GroupResult { home_id: 3, away_id: 4, home_goals: 1, away_goals: 1 },
        GroupResult { home_id: 1, away_id: 3, home_goals: 2, away_goals: 1 },
    ];
    let table = standings_from_results(&results);
    let row_of = |id: i64| table.iter().find(|(t, _)| *t == id).map(|(_, r)| *r).unwrap();
    assert_eq!(row_of(1), row(4, 2, 1));
    assert_eq!(row_of(3), row(1, 2, 3));
    assert_eq!(row_of(2), row(1, 0, 0));
    assert_eq!(row_of(4), row(1, 1, 1));
}

#[test]
fn team_behind_on_goal_difference_with_no_match_left_is_shut_out() {
    // 3 and 4 have played all their matches, drew with each other and stay
    // level on one point; 3 is ahead on goal difference whatever 1 v 2 gives.
    let group = [
        match_with(1, Some(1), Some(3), "FINISHED", Some("GROUP_C"), (Some(1), Some(0))),
        match_with(2, Some(1), Some(4), "FINISHED", Some("GROUP_C"), (Some(5), Some(0))),
        match_with(3, Some(2), Some(3), "FINISHED", Some("GROUP_C"), (Some(1), Some(0))),
        match_with(4, Some(2), Some(4), "FINISHED", Some("GROUP_C"), (Some(5), Some(0))),
        match_with(5, Some(3), Some(4), "FINISHED", Some("GROUP_C"), (Some(0), Some(0))),
        match_with(6, Some(1), Some(2), "TIMED", Some("GROUP_C"), (None, None)),
    ];
    let group_matches: Vec<_> = group.iter().collect();

    assert_eq!(mathematically_eliminated_from_group(&group_matches), vec![4]);
}

#[test]
fn query_is_trimmed_of_unicode_white_space() {
    let teams = vec![team(7, "Brazil"), team(3, "Argentina")];
    assert_eq!(find_team(&teams, "\u{3000}argentina\u{2003}\t").map(|t| t.id), Some(3));
    assert!(find_team(&teams, "\u{200B}argentina").is_none());
}

#[test]
fn team_last_on_head_to_head_goal_difference_in_every_ending_is_shut_out() {
    // 2 beat 3 3-0, 3 beat 1 1-0, 1 beat 2 1-0, 4 beat 2 and 3 1-0; 1 v 4 is left.
    // Should 4 win, 1, 2 and 3 are level on points and head to head, and 3 is
    // last on head-to-head goal difference; otherwise 2 is above 3 head to head.
    let group = [
        match_with(1, Some(2), Some(3), "FINISHED", Some("GROUP_E"), (Some(3), Some(0))),
        match_with(2, Some(3), Some(1), "FINISHED", Some("GROUP_E"), (Some(1), Some(0))),
        match_with(3, Some(1), Some(2), "FINISHED", Some("GROUP_E"), (Some(1), Some(0))),
        match_with(4, Some(4), Some(2), "FINISHED", Some("GROUP_E"), (Some(1), Some(0))),
        match_with(5, Some(4), Some(3), "FINISHED", Some("GROUP_E"), (Some(1), Some(0))),
        match_with(6, Some(1), Some(4), "TIMED", Some("GROUP_E"), (None, None)),
    ];
    let group_matches: Vec<_> = group.iter().collect();

    assert_eq!(mathematically_eliminated_from_group(&group_matches), vec![3]);
}
