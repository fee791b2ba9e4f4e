//! The leagues this library knows, their slugs and names, and lookups in a
//! league's team catalog.
use vstd::prelude::*;

use crate::text::{chars_contain, chars_of, lowercase, normalize_query, seq_contains, spec_lowercase, text_eq, trim_seq};

verus! {

/// Slug of the FIFA World Cup league.
pub const WC_LEAGUE_SLUG: &'static str = "wc";

/// Slug of the NBA catalog league.
pub const NBA_LEAGUE_SLUG: &'static str = "nba";

/// Slug of the NFL league.
pub const NFL_LEAGUE_SLUG: &'static str = "nfl";

/// Slug of the Premier League.
pub const EPL_LEAGUE_SLUG: &'static str = "epl";

} // verus!

verus! {

/// Summary of one poll of a league, for the host's log.
#[derive(Debug, Clone)]
pub struct PollOutcome {
    pub finished_matches: usize,
    pub scored_matches: usize,
    pub seasons: usize,
    pub detail: String,
}

/// The league types this library runs. A season is always of one of them.
#[derive(Debug, Clone, Copy, PartialEq, Eq, Hash, Structural)]
pub enum League {
    Wc,
    Epl,
}

/// A team of a league's catalog.
#[derive(Debug, Clone, PartialEq, Eq)]
pub struct CatalogTeam {
    pub id: i64,
    pub name: String,
    pub short_name: Option<String>,
    pub code: Option<String>,
}

impl CatalogTeam {
    /// The catalog entry of a competition team: its three-letter code is the
    /// entry's code.
    pub fn from_api(team: crate::api::Team) -> (r: Self)
        ensures
            r.id == team.id,
            r.name == team.name,
            r.short_name == team.short_name,
            r.code == team.tla,
    {
        CatalogTeam { id: team.id, name: team.name, short_name: team.short_name, code: team.tla }
    }
}

/// The league of a slug, when one is compiled in.
pub open spec fn league_of_slug(slug: Seq<char>) -> Option<League> {
    if slug == WC_LEAGUE_SLUG@ {
        Some(League::Wc)
    } else if slug == EPL_LEAGUE_SLUG@ {
        Some(League::Epl)
    } else {
        None
    }
}

/// The slug of a league.
pub open spec fn slug_of(league: League) -> Seq<char> {
    match league {
        League::Wc => WC_LEAGUE_SLUG@,
        League::Epl => EPL_LEAGUE_SLUG@,
    }
}

/// The name a league is shown by.
pub open spec fn display_name_of(league: League) -> Seq<char> {
    match league {
        League::Wc => "FIFA World Cup"@,
        League::Epl => "Premier League"@,
    }
}

/// A catalog team answers the normalized query `q` by full name, short name,
/// code, or by a part of its full name.
pub open spec fn catalog_team_matches(t: CatalogTeam, q: Seq<char>) -> bool {
    spec_lowercase(t.name@) == q || crate::api::opt_lower_eq(t.short_name, q)
        || crate::api::opt_lower_eq(t.code, q) || seq_contains(spec_lowercase(t.name@), q)
}

/// The message for a team query that found nothing in the league's catalog.
pub open spec fn team_not_found_text(league: League, query: Seq<char>) -> Seq<char> {
    match league {
        League::Wc => "Couldn't find a World Cup team matching \""@ + query
            + "\". Try the full name or three-letter code (e.g. BRA)."@,
        League::Epl => "Couldn't find a Premier League club matching \""@ + query
            + "\". Try the full name or three-letter code (e.g. LIV)."@,
    }
}

fn catalog_team_matches_exec(t: &CatalogTeam, q: &Vec<char>) -> (r: bool)
    ensures
        r == catalog_team_matches(*t, q@),
{
    let name = chars_of(lowercase(t.name.as_str()).as_str());
    crate::text::chars_eq(&name, q) || crate::api::opt_lower_eq_exec(&t.short_name, q)
        || crate::api::opt_lower_eq_exec(&t.code, q) || chars_contain(&name, q)
}

impl League {
    /// Every league, in declaration order.
    pub fn all() -> (r: Vec<League>)
        ensures
            r@ == seq![League::Wc, League::Epl],
    {
        let mut r: Vec<League> = Vec::new();
        r.push(League::Wc);
        r.push(League::Epl);
        r
    }

    /// The league with slug `slug`, when it is compiled in.
    pub fn from_slug(slug: &str) -> (r: Option<Self>)
        ensures
            r == league_of_slug(slug@),
    {
        if text_eq(slug, WC_LEAGUE_SLUG) {
            Some(League::Wc)
        } else if text_eq(slug, EPL_LEAGUE_SLUG) {
            Some(League::Epl)
        } else {
            None
        }
    }

    /// The slug of the league.
    pub fn slug(self) -> (r: &'static str)
        ensures
            r@ == slug_of(self),
    {
        match self {
            League::Wc => WC_LEAGUE_SLUG,
            League::Epl => EPL_LEAGUE_SLUG,
        }
    }

    /// The name the league is shown by.
    pub fn display_name(self) -> (r: &'static str)
        ensures
            r@ == display_name_of(self),
    {
        match self {
            League::Wc => "FIFA World Cup",
            League::Epl => "Premier League",
        }
    }

    /// Whether a season may be started for the league with slug `slug`.
    pub fn supports_season(slug: &str) -> (r: bool)
        ensures
            r == league_of_slug(slug@) is Some,
    {
        Self::from_slug(slug).is_some()
    }

    /// The first catalog team that answers `query` (trimmed and lowercased).
    pub fn find_team<'a>(self, teams: &'a [CatalogTeam], query: &str) -> (r: Option<&'a CatalogTeam>)
        ensures
            r is None <==> forall|i: int|
                0 <= i < teams@.len() ==> !catalog_team_matches(
                    #[trigger] teams@[i],
                    spec_lowercase(trim_seq(query@)),
                ),
            r matches Some(t) ==> exists|i: int|
                0 <= i < teams@.len() && *t == teams@[i] && catalog_team_matches(
                    teams@[i],
                    spec_lowercase(trim_seq(query@)),
                ) && forall|j: int|
                    0 <= j < i ==> !catalog_team_matches(
                        #[trigger] teams@[j],
                        spec_lowercase(trim_seq(query@)),
                    ),
    {
        let q = chars_of(normalize_query(query).as_str());
        let mut i: usize = 0;
        while i < teams.len()
            invariant
                i <= teams@.len(),
                q@ == spec_lowercase(trim_seq(query@)),
                forall|j: int| 0 <= j < i ==> !catalog_team_matches(#[trigger] teams@[j], q@),
            decreases teams.len() - i,
        {
            if catalog_team_matches_exec(&teams[i], &q) {
                return Some(&teams[i]);
            }
            i = i + 1;
        }
        None
    }

    /// The message for a team query that found nothing in the league's catalog.
    pub fn team_not_found_message(self, team_query: &str) -> (r: String)
        ensures
            r@ == team_not_found_text(self, team_query@),
    {
        match self {
            League::Wc => {
                let mut r = String::from_str("Couldn't find a World Cup team matching \"");
                r.append(team_query);
                r.append("\". Try the full name or three-letter code (e.g. BRA).");
                r
            },
            League::Epl => {
                let mut r = String::from_str("Couldn't find a Premier League club matching \"");
                r.append(team_query);
                r.append("\". Try the full name or three-letter code (e.g. LIV).");
                r
            },
        }
    }
}

/// A league's slug leads back to the league.
pub proof fn law_slug_round_trip(league: League)
    ensures
        league_of_slug(slug_of(league)) == Some(league),
{
    reveal_strlit("wc");
    reveal_strlit("epl");
    assert(WC_LEAGUE_SLUG@ == "wc"@);
    assert(EPL_LEAGUE_SLUG@ == "epl"@);
    assert(WC_LEAGUE_SLUG@ != EPL_LEAGUE_SLUG@);
}

/// Every slug that names a league is that league's slug.
pub proof fn law_from_slug_inverts_slug(slug: Seq<char>)
    ensures
        league_of_slug(slug) matches Some(l) ==> slug_of(l) == slug,
{
}

/// The log line of a poll for a slug no league is compiled for.
pub open spec fn unknown_league_text(slug: Seq<char>, seasons: nat) -> Seq<char> {
    "No compiled league for \""@ + slug + "\" ("@ + crate::text::decimal_nat(seasons) + " season(s) skipped)"@
}

/// Logs a poll for a slug no league is compiled for.
pub fn unknown_league_line(slug: &str, seasons: usize) -> (r: String)
    ensures
        r@ == unknown_league_text(slug@, seasons as nat),
{
    let mut r = String::from_str("No compiled league for \"");
    r.append(slug);
    r.append("\" (");
    r.append(crate::text::decimal_usize(seasons).as_str());
    r.append(" season(s) skipped)");
    r
}

/// The log line of one league's poll.
pub open spec fn league_poll_text(league: League, o: PollOutcome) -> Seq<char> {
    slug_of(league) + ": "@ + crate::text::decimal_nat(o.finished_matches as nat) + " finished match(es) ("@
        + crate::text::decimal_nat(o.scored_matches as nat) + " with scores), "@ + crate::text::decimal_nat(
        o.seasons as nat,
    ) + " season(s)"@ + if o.detail@.len() == 0 {
        Seq::empty()
    } else {
        " ("@ + o.detail@ + ")"@
    }
}

/// Logs one league's poll.
pub fn league_poll_line(league: League, outcome: &PollOutcome) -> (r: String)
    ensures
        r@ == league_poll_text(league, *outcome),
{
    let mut r = String::from_str(league.slug());
    r.append(": ");
    r.append(crate::text::decimal_usize(outcome.finished_matches).as_str());
    r.append(" finished match(es) (");
    r.append(crate::text::decimal_usize(outcome.scored_matches).as_str());
    r.append(" with scores), ");
    r.append(crate::text::decimal_usize(outcome.seasons).as_str());
    r.append(" season(s)");
    if !outcome.detail.as_str().is_empty() {
        r.append(" (");
        r.append(outcome.detail.as_str());
        r.append(")");
    } else {
        assert(r@ =~= r@ + Seq::<char>::empty());
    }
    r
}

/// The log line that closes a poll.
pub open spec fn poll_complete_text(matches: nat, scored: nat, seasons: nat) -> Seq<char> {
    "Poll complete: "@ + crate::text::decimal_nat(matches) + " finished match(es) ("@ + crate::text::decimal_nat(
        scored,
    ) + " with scores), "@ + crate::text::decimal_nat(seasons) + " season(s)"@
}

/// Logs the end of a poll with its totals.
pub fn poll_complete_line(matches: usize, scored: usize, seasons: usize) -> (r: String)
    ensures
        r@ == poll_complete_text(matches as nat, scored as nat, seasons as nat),
{
    let mut r = String::from_str("Poll complete: ");
    r.append(crate::text::decimal_usize(matches).as_str());
    r.append(" finished match(es) (");
    r.append(crate::text::decimal_usize(scored).as_str());
    r.append(" with scores), ");
    r.append(crate::text::decimal_usize(seasons).as_str());
    r.append(" season(s)");
    r
}

} // verus!
