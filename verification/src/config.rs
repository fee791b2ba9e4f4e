//! Server configuration: creating a season, focusing a league, and listing
//! the seasons a server has.
use vstd::prelude::*;

use crate::league::league_of_slug;
use crate::season::{SeasonDisplay, SeasonLeague};
use crate::text::{join_seq, lowercase, spec_lowercase, trim, trim_seq, views};

verus! {

/// A season to create, as typed by an admin and normalized.
#[derive(Debug)]
pub struct SeasonRequest {
    pub league_slug: String,
    pub season_slug: String,
    pub season_name: String,
}

/// Normalizes a season request: slugs trimmed and lowercased, the name
/// trimmed; a blank name is refused.
pub fn season_request(league: &str, slug: &str, name: &str) -> (r: Result<SeasonRequest, String>)
    ensures
        r is Ok <==> trim_seq(name@).len() > 0,
        r matches Ok(q) ==> q.league_slug@ == spec_lowercase(trim_seq(league@)) && q.season_slug@
            == spec_lowercase(trim_seq(slug@)) && q.season_name@ == trim_seq(name@),
        r matches Err(e) ==> e@ == "Season name is required."@,
{
    let season_name = trim(name);
    if season_name.as_str().is_empty() {
        return Err(String::from_str("Season name is required."));
    }
    let league_slug = lowercase(trim(league).as_str());
    let season_slug = lowercase(trim(slug).as_str());
    Ok(SeasonRequest { league_slug, season_slug, season_name })
}

/// Why a league slug cannot be set up, if it cannot: unknown to the store, or
/// not compiled into the bot.
pub open spec fn league_refusal_text(slug: Seq<char>, known: bool) -> Option<Seq<char>> {
    if !known {
        Some("Unknown league \""@ + slug + "\"."@)
    } else if league_of_slug(slug) is None {
        Some("League \""@ + slug + "\" is not supported yet."@)
    } else {
        None
    }
}

/// Why a league slug cannot be set up, if it cannot.
pub fn league_refusal(slug: &str, known: bool) -> (r: Option<String>)
    ensures
        match r {
            Some(m) => league_refusal_text(slug@, known) == Some(m@),
            None => league_refusal_text(slug@, known) is None,
        },
{
    if !known {
        let mut m = String::from_str("Unknown league \"");
        m.append(slug);
        m.append("\".");
        Some(m)
    } else if !crate::league::League::supports_season(slug) {
        let mut m = String::from_str("League \"");
        m.append(slug);
        m.append("\" is not supported yet.");
        Some(m)
    } else {
        None
    }
}

/// The answer to creating a season.
pub open spec fn season_created_text(d: SeasonDisplay) -> Seq<char> {
    "Created season for **"@ + d.league_name@ + "** — tracking **"@ + d.name@ + "** (`"@ + d.slug@
        + "`). Set `/config channel` for announcements."@
}

/// Answers the creation of the season shown by `d`.
pub fn season_created_message(d: &SeasonDisplay) -> (r: String)
    ensures
        r@ == season_created_text(*d),
{
    let mut m = String::from_str("Created season for **");
    m.append(d.league_name.as_str());
    m.append("** — tracking **");
    m.append(d.name.as_str());
    m.append("** (`");
    m.append(d.slug.as_str());
    m.append("`). Set `/config channel` for announcements.");
    m
}

/// The answer to focusing a league whose season is shown by `d`.
pub open spec fn league_focused_text(d: SeasonDisplay) -> Seq<char> {
    "Active league set to **"@ + d.league_name@ + "** — tracking **"@ + d.name@ + "** (`"@ + d.slug@
        + "`)."@
}

/// Answers the focus on the league whose season is shown by `d`.
pub fn league_focused_message(d: &SeasonDisplay) -> (r: String)
    ensures
        r@ == league_focused_text(*d),
{
    let mut m = String::from_str("Active league set to **");
    m.append(d.league_name.as_str());
    m.append("** — tracking **");
    m.append(d.name.as_str());
    m.append("** (`");
    m.append(d.slug.as_str());
    m.append("`).");
    m
}

/// The answer to focusing a league the server has no season of.
pub open spec fn no_season_text(slug: Seq<char>) -> Seq<char> {
    "No season for \""@ + slug + "\" in this server. Use `/config season` to create one."@
}

/// Answers the focus on a league the server has no season of.
pub fn no_season_message(slug: &str) -> (r: String)
    ensures
        r@ == no_season_text(slug@),
{
    let mut m = String::from_str("No season for \"");
    m.append(slug);
    m.append("\" in this server. Use `/config season` to create one.");
    m
}

/// One line of the season list, marked when it is the server's focus.
pub open spec fn season_line_text(entry: SeasonLeague, focused: Option<i64>) -> Seq<char> {
    "**"@ + entry.league_name@ + "** — **"@ + entry.season.name@ + "** (`"@ + entry.season.slug@ + "`)"@
        + if focused == Some(entry.season.id) {
        " (active)"@
    } else {
        Seq::empty()
    }
}

/// The season list: one line per season, or a hint when there is none.
pub open spec fn season_list_text(focused: Option<i64>, seasons: Seq<SeasonLeague>) -> Seq<char> {
    if seasons.len() == 0 {
        "No seasons configured. Use `/config season` to create one."@
    } else {
        join_seq(seasons.map_values(|e: SeasonLeague| season_line_text(e, focused)), "\n"@)
    }
}

/// Lists a server's seasons, marking the one its commands use.
pub fn season_list_message(focused: Option<i64>, seasons: &[SeasonLeague]) -> (r: String)
    ensures
        r@ == season_list_text(focused, seasons@),
{
    if seasons.len() == 0 {
        return String::from_str("No seasons configured. Use `/config season` to create one.");
    }
    let mut lines: Vec<String> = Vec::new();
    let mut i: usize = 0;
    while i < seasons.len()
        invariant
            i <= seasons.len(),
            lines@.len() == i,
            forall|k: int| 0 <= k < i ==> (#[trigger] lines@[k])@ == season_line_text(seasons@[k], focused),
        decreases seasons.len() - i,
    {
        let e = &seasons[i];
        let mut line = String::from_str("**");
        line.append(e.league_name.as_str());
        line.append("** — **");
        line.append(e.season.name.as_str());
        line.append("** (`");
        line.append(e.season.slug.as_str());
        line.append("`)");
        let active = match focused {
            Some(id) => id == e.season.id,
            None => false,
        };
        if active {
            line.append(" (active)");
        } else {
            assert(line@ =~= line@ + Seq::<char>::empty());
        }
        lines.push(line);
        i = i + 1;
    }
    let ghost want = seasons@.map_values(|e: SeasonLeague| season_line_text(e, focused));
    assert(views(lines@) =~= want) by {
        assert forall|k: int| 0 <= k < lines@.len() implies views(lines@)[k] == want[k] by {
            assert(lines@[k]@ == season_line_text(seasons@[k], focused));
        }
    }
    crate::text::join(&lines, "\n")
}

} // verus!
