use league_bot::records::Registration;
use league_bot::remaining::{build_report, format_grouped_field, group_by_user};
use league_bot::soccar::{TeamClassification, TeamRef};

fn registration(user_id: u64, team_id: i64, name: &str) -> Registration {
    Registration {
        user_id,
        team_id,
        team_name: name.into(),
    }
}

#[test]
fn groups_teams_by_registered_owner() {
    let teams = vec![
        TeamRef { id: 1, name: "Brazil".into() },
        TeamRef { id: 2, name: "Mexico".into() },
        TeamRef { id: 3, name: "Japan".into() },
    ];
    let registrations = vec![
        registration(10, 1, "Brazil"),
        registration(10, 2, "Mexico"),
        registration(20, 3, "Japan"),
    ];

    let (by_user, unassigned) = group_by_user(&teams, &registrations);
    assert!(unassigned.is_empty());
    assert_eq!(by_user.len(), 2);
    assert_eq!(by_user[0], (10, vec!["Brazil".into(), "Mexico".into()]));
    assert_eq!(by_user[1], (20, vec!["Japan".into()]));
}

#[test]
fn unassigned_teams_listed_separately() {
    let teams = vec![TeamRef { id: 99, name: "Turkey".into() }];
    let (by_user, unassigned) = group_by_user(&teams, &[]);
    assert!(by_user.is_empty());
    assert_eq!(unassigned, vec!["Turkey".to_string()]);
}

#[test]
fn names_are_sorted_and_users_ascend() {
    let teams = vec![
        TeamRef { id: 1, name: "Uruguay".into() },
        TeamRef { id: 2, name: "Chile".into() },
        TeamRef { id: 3, name: "Peru".into() },
        TeamRef { id: 4, name: "Bolivia".into() },
        TeamRef { id: 5, name: "Andorra".into() },
    ];
    let registrations = vec![registration(30, 1, "Uruguay"), registration(5, 3, "Peru"), registration(30, 2, "Chile")];
    let (by_user, unassigned) = group_by_user(&teams, &registrations);
    assert_eq!(by_user, vec![(5, vec!["Peru".to_string()]), (30, vec!["Chile".to_string(), "Uruguay".to_string()])]);
    assert_eq!(unassigned, vec!["Andorra".to_string(), "Bolivia".to_string()]);
}

#[test]
fn later_registration_of_a_team_wins() {
    let teams = vec![TeamRef { id: 1, name: "Ghana".into() }];
    let registrations = vec![registration(1, 1, "Ghana"), registration(2, 1, "Ghana")];
    let (by_user, _) = group_by_user(&teams, &registrations);
    assert_eq!(by_user, vec![(2, vec!["Ghana".to_string()])]);
}

#[test]
fn report_covers_both_sides() {
    let classification = TeamClassification {
        still_in: vec![TeamRef { id: 1, name: "Brazil".into() }],
        eliminated: vec![TeamRef { id: 2, name: "Mexico".into() }, TeamRef { id: 3, name: "Qatar".into() }],
    };
    let report = build_report(&classification, &[registration(10, 1, "Brazil"), registration(11, 2, "Mexico")]);
    assert_eq!(report.still_in_by_user, vec![(10, vec!["Brazil".to_string()])]);
    assert_eq!(report.eliminated_by_user, vec![(11, vec!["Mexico".to_string()])]);
    assert!(report.unassigned_still_in.is_empty());
    assert_eq!(report.unassigned_eliminated, vec!["Qatar".to_string()]);
}

#[test]
fn grouped_field_text() {
    let by_user = vec![(10, vec!["Brazil".to_string(), "Mexico".to_string()]), (20, vec!["Japan".to_string()])];
    assert_eq!(
        format_grouped_field(&by_user, &["Qatar".to_string()]),
        "<@10> — **Brazil**, **Mexico**\n<@20> — **Japan**\nUnassigned — **Qatar**"
    );
    assert_eq!(format_grouped_field(&[], &[]), "—");
}
