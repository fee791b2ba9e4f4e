use league_bot::config::{
    league_focused_message, league_refusal, no_season_message, season_created_message,
    season_list_message, season_request,
};
use league_bot::season::{RosterPhase, Season, SeasonDisplay, SeasonLeague};

fn season(id: i64, slug: &str, name: &str) -> Season {
    Season {
        id,
        guild_id: 1,
        league_id: 1,
        slug: slug.into(),
        name: name.into(),
        announce_channel_id: None,
        polling_enabled: true,
        roster_phase: RosterPhase::Open,
    }
}

#[test]
fn season_requests_are_normalized() {
    let q = season_request("  WC ", " WC-2026 ", "  World Cup 2026 ").unwrap();
    assert_eq!(q.league_slug, "wc");
    assert_eq!(q.season_slug, "wc-2026");
    assert_eq!(q.season_name, "World Cup 2026");
    assert_eq!(season_request("wc", "wc-2026", "   ").unwrap_err(), "Season name is required.");
}

#[test]
fn league_refusals() {
    assert_eq!(league_refusal("mls", false).as_deref(), Some("Unknown league \"mls\"."));
    assert_eq!(league_refusal("nfl", true).as_deref(), Some("League \"nfl\" is not supported yet."));
    assert_eq!(league_refusal("epl", true), None);
}

#[test]
fn config_messages() {
    let d = SeasonDisplay { league_name: "FIFA World Cup".into(), name: "World Cup 2026".into(), slug: "wc-2026".into() };
    assert_eq!(
        season_created_message(&d),
        "Created season for **FIFA World Cup** — tracking **World Cup 2026** (`wc-2026`). Set `/config channel` for announcements."
    );
    assert_eq!(
        league_focused_message(&d),
        "Active league set to **FIFA World Cup** — tracking **World Cup 2026** (`wc-2026`)."
    );
    assert_eq!(
        no_season_message("epl"),
        "No season for \"epl\" in this server. Use `/config season` to create one."
    );
}

#[test]
fn season_list_marks_focus() {
    assert_eq!(season_list_message(None, &[]), "No seasons configured. Use `/config season` to create one.");
    let seasons = vec![
        SeasonLeague { season: season(1, "wc-2026", "World Cup 2026"), league_slug: "wc".into(), league_name: "FIFA World Cup".into() },
        SeasonLeague { season: season(2, "epl-25", "EPL 25/26"), league_slug: "epl".into(), league_name: "Premier League".into() },
    ];
    assert_eq!(
        season_list_message(Some(2), &seasons),
        "**FIFA World Cup** — **World Cup 2026** (`wc-2026`)\n**Premier League** — **EPL 25/26** (`epl-25`) (active)"
    );
}
