//! Seasons of a guild: the roster phase a season is in, the season records,
//! and what ending a season answers.
use vstd::prelude::*;


verus! {

/// Registration and draft lifecycle of a season.
#[derive(Debug, Clone, Copy, PartialEq, Eq, Structural)]
pub enum RosterPhase {
    Open,
    Drafting,
    Frozen,
}

/// The stored name of a roster phase.
pub open spec fn roster_phase_text(p: RosterPhase) -> Seq<char> {
    match p {
        RosterPhase::Open => "open"@,
        RosterPhase::Drafting => "drafting"@,
        RosterPhase::Frozen => "frozen"@,
    }
}

/// The roster phase stored under `value`, if any.
pub open spec fn roster_phase_of(value: Seq<char>) -> Option<RosterPhase> {
    if value == "open"@ {
        Some(RosterPhase::Open)
    } else if value == "drafting"@ {
        Some(RosterPhase::Drafting)
    } else if value == "frozen"@ {
        Some(RosterPhase::Frozen)
    } else {
        None
    }
}

impl RosterPhase {
    /// The stored name of the phase.
    pub fn as_str(self) -> (r: &'static str)
        ensures
            r@ == roster_phase_text(self),
    {
        match self {
            RosterPhase::Open => "open",
            RosterPhase::Drafting => "drafting",
            RosterPhase::Frozen => "frozen",
        }
    }

    /// The phase stored under `value`, if any.
    pub fn parse(value: &str) -> (r: Option<Self>)
        ensures
            r == roster_phase_of(value@),
    {
        if crate::text::text_eq(value, "open") {
            Some(RosterPhase::Open)
        } else if crate::text::text_eq(value, "drafting") {
            Some(RosterPhase::Drafting)
        } else if crate::text::text_eq(value, "frozen") {
            Some(RosterPhase::Frozen)
        } else {
            None
        }
    }
}

/// A phase read back from its stored name is the same phase.
pub proof fn law_roster_phase_round_trip(p: RosterPhase)
    ensures
        roster_phase_of(roster_phase_text(p)) == Some(p),
{
    reveal_strlit("open");
    reveal_strlit("drafting");
    reveal_strlit("frozen");
    assert("open"@.len() == 4 && "drafting"@.len() == 8 && "frozen"@.len() == 6);
}

/// A season of a guild.
#[derive(Debug, Clone)]
pub struct Season {
    pub id: i64,
    pub guild_id: u64,
    pub league_id: i64,
    pub slug: String,
    pub name: String,
    pub announce_channel_id: Option<u64>,
    /// When true, the background poller includes this season.
    pub polling_enabled: bool,
    pub roster_phase: RosterPhase,
}

/// A season with its league's slug and name.
#[derive(Debug, Clone)]
pub struct SeasonMeta {
    pub season: Season,
    pub league_slug: String,
    pub league_name: String,
}

/// A season with its league's slug and name, as listed for a guild.
#[derive(Debug, Clone)]
pub struct SeasonLeague {
    pub season: Season,
    pub league_slug: String,
    pub league_name: String,
}

/// What a season is shown by.
#[derive(Debug, Clone)]
pub struct SeasonDisplay {
    pub league_name: String,
    pub name: String,
    pub slug: String,
}

/// The answer to ending a season, and whether polling is to be switched off.
pub struct SeasonEnd {
    pub message: String,
    pub stop_polling: bool,
}

/// What ending the season answers: a season already ended stays as it is.
pub open spec fn season_end_text(polling_enabled: bool, name: Seq<char>, slug: Seq<char>) -> Seq<char> {
    if !polling_enabled {
        "Season **"@ + name + "** (`"@ + slug + "`) is already ended — match polling is off."@
    } else {
        "Ended season **"@ + name + "** (`"@ + slug + "`) — match polling stopped."@
    }
}

/// Ends the season shown by `display`: polling stops when it was on.
pub fn end_season(polling_enabled: bool, display: &SeasonDisplay) -> (r: SeasonEnd)
    ensures
        r.stop_polling == polling_enabled,
        r.message@ == season_end_text(polling_enabled, display.name@, display.slug@),
{
    if !polling_enabled {
        let mut m = String::from_str("Season **");
        m.append(display.name.as_str());
        m.append("** (`");
        m.append(display.slug.as_str());
        m.append("`) is already ended — match polling is off.");
        SeasonEnd { message: m, stop_polling: false }
    } else {
        let mut m = String::from_str("Ended season **");
        m.append(display.name.as_str());
        m.append("** (`");
        m.append(display.slug.as_str());
        m.append("`) — match polling stopped.");
        SeasonEnd { message: m, stop_polling: true }
    }
}

/// Ending a season twice stops polling once: after the first end polling is
/// off, and ending again only says so.
pub proof fn law_ending_twice_stops_polling_once(name: Seq<char>, slug: Seq<char>)
    ensures
        season_end_text(false, name, slug) == "Season **"@ + name + "** (`"@ + slug
            + "`) is already ended — match polling is off."@,
{
}

} // verus!
