use league_bot::espn::{
    game_from_event, parse_id, parse_score, team_from_body, CompetitionBody, CompetitorBody,
    EventBody, NflGame, NflTeam, StatusBody, StatusTypeBody, TeamBody,
};
use league_bot::gridiron::{final_score, find_players, find_team, season_date_range, RosterPlayerMatch};

fn team_body(id: &str, name: &str, abbr: &str) -> TeamBody {
    TeamBody { id: id.into(), display_name: name.into(), abbreviation: Some(abbr.into()) }
}

fn competitor(side: &str, score: Option<&str>, team: TeamBody) -> CompetitorBody {
    CompetitorBody { home_away: side.into(), score: score.map(str::to_string), team }
}

#[test]
fn ids_and_scores_parse_like_std() {
    assert_eq!(parse_id("42"), Some(42));
    assert_eq!(parse_id("-7"), Some(-7));
    assert_eq!(parse_id("+7"), Some(7));
    assert_eq!(parse_id("4a"), None);
    assert_eq!(parse_id(""), None);
    assert_eq!(parse_id("9223372036854775808"), None);
    assert_eq!(parse_score(Some(&"17".to_string())), Some(17));
    assert_eq!(parse_score(None), None);
}

#[test]
fn games_from_events() {
    let event = EventBody {
        id: "401".into(),
        status: StatusBody { status_type: StatusTypeBody { completed: true } },
        competitions: vec![CompetitionBody {
            competitors: vec![
                competitor("home", Some("24"), team_body("12", "Kansas City Chiefs", "KC")),
                competitor("away", Some("17"), team_body("2", "Buffalo Bills", "BUF")),
            ],
        }],
    };
    let game = game_from_event(event.clone()).unwrap();
    assert_eq!(game.id, 401);
    assert_eq!(game.home_team.id, 12);
    assert_eq!(game.away_team.name, "Buffalo Bills");
    assert_eq!((game.home_score, game.away_score), (Some(24), Some(17)));
    assert_eq!(final_score(&game), Some((24, 17)));

    let mut bad_team = event.clone();
    bad_team.competitions[0].competitors[1].team.id = "x".into();
    assert!(game_from_event(bad_team).is_none());
    let mut no_away = event.clone();
    no_away.competitions[0].competitors[1].home_away = "neutral".into();
    assert!(game_from_event(no_away).is_none());
    let mut none = event;
    none.competitions.clear();
    assert!(game_from_event(none).is_none());
    assert!(team_from_body(team_body("q", "Q", "Q")).is_none());
}

#[test]
fn final_score_needs_completion() {
    let t = NflTeam { id: 1, name: "A".into(), abbreviation: None };
    let g = NflGame { id: 1, home_team: t.clone(), away_team: t, home_score: Some(3), away_score: Some(0), completed: false };
    assert_eq!(final_score(&g), None);
}

#[test]
fn team_and_player_lookup() {
    let teams = vec![
        NflTeam { id: 1, name: "Green Bay Packers".into(), abbreviation: Some("GB".into()) },
        NflTeam { id: 2, name: "Chicago Bears".into(), abbreviation: Some("CHI".into()) },
    ];
    assert_eq!(find_team(&teams, " gb ").unwrap().id, 1);
    assert_eq!(find_team(&teams, "bears").unwrap().id, 2);
    assert!(find_team(&teams, "jets").is_none());
    let players = vec![
        RosterPlayerMatch { player_id: 1, player_name: "Jordan Love".into(), team_id: 1, team_name: "GB".into() },
        RosterPlayerMatch { player_id: 2, player_name: "Caleb Williams".into(), team_id: 2, team_name: "CHI".into() },
        RosterPlayerMatch { player_id: 3, player_name: "Love Jones".into(), team_id: 2, team_name: "CHI".into() },
    ];
    let found: Vec<i64> = find_players(&players, "LOVE").iter().map(|p| p.player_id).collect();
    assert_eq!(found, vec![1, 3]);
}

#[test]
fn season_dates() {
    assert_eq!(season_date_range(2024), "20240901-20250215");
}
