use league_bot::api::Team;
use league_bot::league::{CatalogTeam, League};

#[test]
fn from_slug_resolves_compiled_leagues() {
    assert_eq!(League::from_slug("wc"), Some(League::Wc));
    assert_eq!(League::from_slug("wc").unwrap().slug(), "wc");
    assert_eq!(League::from_slug("wc").unwrap().display_name(), "FIFA World Cup");
    assert_eq!(League::from_slug("epl"), Some(League::Epl));
    assert_eq!(League::from_slug("epl").unwrap().slug(), "epl");
    assert_eq!(League::from_slug("epl").unwrap().display_name(), "Premier League");
}

#[test]
fn from_slug_rejects_unknown_and_catalog_only_slugs() {
    assert_eq!(League::from_slug("nfl"), None);
    assert_eq!(League::from_slug("nba"), None);
    assert_eq!(League::from_slug("unknown"), None);
    assert!(!League::supports_season("nfl"));
    assert!(League::supports_season("wc"));
    assert!(League::supports_season("epl"));
}

#[test]
fn all_lists_every_variant() {
    assert_eq!(League::all(), vec![League::Wc, League::Epl]);
}

#[test]
fn find_team_matches_name_and_code() {
    let teams = vec![CatalogTeam {
        id: 1,
        name: "Brazil".into(),
        short_name: Some("Brazil".into()),
        code: Some("BRA".into()),
    }];
    assert_eq!(League::Wc.find_team(&teams, "bra").unwrap().id, 1);
    assert_eq!(League::Wc.find_team(&teams, "Brazil").unwrap().id, 1);
    assert!(League::Wc.find_team(&teams, "zzz").is_none());
}

#[test]
fn slug_round_trips_for_every_league() {
    for league in League::all() {
        assert_eq!(League::from_slug(league.slug()), Some(league));
    }
}

#[test]
fn find_team_trims_query_and_matches_part_of_name() {
    let teams = vec![
        CatalogTeam { id: 7, name: "Manchester United".into(), short_name: Some("Man United".into()), code: Some("MUN".into()) },
        CatalogTeam { id: 8, name: "Manchester City".into(), short_name: Some("Man City".into()), code: Some("MCI".into()) },
    ];
    assert_eq!(League::Epl.find_team(&teams, "  man city ").unwrap().id, 8);
    assert_eq!(League::Epl.find_team(&teams, "CHESTER").unwrap().id, 7);
    assert_eq!(League::Epl.find_team(&teams, "mci").unwrap().id, 8);
}

#[test]
fn not_found_messages_name_the_query() {
    assert_eq!(
        League::Wc.team_not_found_message("Atlantis"),
        "Couldn't find a World Cup team matching \"Atlantis\". Try the full name or three-letter code (e.g. BRA)."
    );
    assert_eq!(
        League::Epl.team_not_found_message("Wrexham"),
        "Couldn't find a Premier League club matching \"Wrexham\". Try the full name or three-letter code (e.g. LIV)."
    );
}

#[test]
fn catalog_team_from_api_keeps_code() {
    let t = CatalogTeam::from_api(Team { id: 3, name: "Japan".into(), short_name: Some("JPN".into()), tla: Some("JPN".into()) });
    assert_eq!(t, CatalogTeam { id: 3, name: "Japan".into(), short_name: Some("JPN".into()), code: Some("JPN".into()) });
}
