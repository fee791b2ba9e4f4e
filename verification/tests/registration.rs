use league_bot::league::CatalogTeam;
use league_bot::records::Registration;
use league_bot::registration::{
    assign_decision, claim_decision, my_team_message, season_teams_list, unclaim_message,
    unclaimed_team_list, SeasonTeamsList, UnclaimedTeams,
};

fn reg(user_id: u64, team_id: i64, name: &str) -> Registration {
    Registration { user_id, team_id, team_name: name.into() }
}

#[test]
fn claims_respect_other_holders() {
    let taken = claim_decision(Some(2), 1, "Brazil");
    assert!(!taken.register);
    assert_eq!(taken.message, "Brazil is already claimed by <@2>.");
    let again = claim_decision(Some(1), 1, "Brazil");
    assert!(again.register);
    assert_eq!(again.message, "You've claimed **Brazil**. You'll earn points when they play.");
    let fresh = claim_decision(None, 1, "Brazil");
    assert!(fresh.register);
    let assigned = assign_decision(None, 3, "Japan", "<@3>");
    assert!(assigned.register);
    assert_eq!(assigned.message, "**Japan** has been claimed by <@3>.");
    let blocked = assign_decision(Some(4), 3, "Japan", "<@3>");
    assert!(!blocked.register);
    assert_eq!(blocked.message, "**Japan** is already claimed by <@4>.");
}

#[test]
fn unclaim_answers() {
    assert_eq!(unclaim_message(true), "That team has been unclaimed.");
    assert_eq!(unclaim_message(false), "You haven't claimed that team. Use `/team` to see your teams.");
}

#[test]
fn my_team_texts() {
    assert_eq!(my_team_message(&[], &None, 0), "You haven't claimed any teams yet. Use `/claim` to pick one.");
    assert_eq!(
        my_team_message(&[reg(1, 1, "Brazil")], &None, 0),
        "You're representing **Brazil**.\n\nTie-breaker: none — use `/pick-player` to designate one."
    );
    assert_eq!(
        my_team_message(&[reg(1, 1, "Brazil"), reg(1, 2, "Japan")], &Some(("Neymar".to_string(), "Brazil".to_string())), 4),
        "You're representing: **Brazil**, **Japan**.\n\nTie-breaker: **Neymar** (Brazil) — **4** goals"
    );
}

#[test]
fn season_listing_by_user() {
    assert!(matches!(season_teams_list(&[]), SeasonTeamsList::Empty));
    match season_teams_list(&[reg(9, 1, "Peru"), reg(3, 2, "Chile"), reg(9, 3, "Bolivia")]) {
        SeasonTeamsList::ByUser(v) => assert_eq!(
            v,
            vec![(3, vec!["Chile".to_string()]), (9, vec!["Peru".to_string(), "Bolivia".to_string()])]
        ),
        SeasonTeamsList::Empty => panic!("expected a listing"),
    }
}

#[test]
fn unclaimed_listing() {
    let teams = vec![
        CatalogTeam { id: 1, name: "Spain".into(), short_name: None, code: None },
        CatalogTeam { id: 2, name: "Italy".into(), short_name: None, code: None },
        CatalogTeam { id: 3, name: "France".into(), short_name: None, code: None },
    ];
    match unclaimed_team_list(&teams, &[2]) {
        UnclaimedTeams::Available(v) => assert_eq!(v, vec!["France".to_string(), "Spain".to_string()]),
        UnclaimedTeams::AllClaimed => panic!("teams are left"),
    }
    assert!(matches!(unclaimed_team_list(&teams, &[1, 2, 3]), UnclaimedTeams::AllClaimed));
}
