//! What the bot's commands read from their input: the guild they run in and
//! the users a message mentions.
use vstd::prelude::*;

use crate::draft::{distinct_players, strictly_increasing};
use crate::text::{chars_of, parse_u64, parse_u64_spec, string_from_range};

verus! {

/// The guild a command runs in; commands outside a server are refused.
pub fn guild_id(guild: Option<u64>) -> (r: Result<u64, String>)
    ensures
        match guild {
            Some(g) => r == Ok::<u64, String>(g),
            None => r matches Err(e) && e@ == "This command must be used in a server."@,
        },
{
    match guild {
        Some(g) => Ok(g),
        None => Err(String::from_str("This command must be used in a server.")),
    }
}

/// Where the first `<@` at or after `i` starts.
pub open spec fn open_at(s: Seq<char>, i: int) -> Option<int>
    decreases s.len() - i,
{
    if i < 0 || i + 1 >= s.len() {
        None
    } else if s[i] == '<' && s[i + 1] == '@' {
        Some(i)
    } else {
        open_at(s, i + 1)
    }
}

/// Where the first `>` at or after `i` is, or the end of `s`.
pub open spec fn close_at(s: Seq<char>, i: int) -> int
    decreases s.len() - i,
{
    if i < 0 || i >= s.len() {
        if i < 0 { 0 } else { i }
    } else if s[i] == '>' {
        i
    } else {
        close_at(s, i + 1)
    }
}

/// The first place in `lo..hi` that is not `!`, or `hi`.
pub open spec fn skip_bangs(s: Seq<char>, lo: int, hi: int) -> int
    decreases hi - lo,
{
    if lo >= hi {
        hi
    } else if s[lo] == '!' {
        skip_bangs(s, lo + 1, hi)
    } else {
        lo
    }
}

proof fn lemma_open_at(s: Seq<char>, i: int)
    ensures
        open_at(s, i) matches Some(j) ==> i <= j && j + 1 < s.len() && s[j] == '<' && s[j + 1] == '@',
        open_at(s, i) is None && 0 <= i ==> forall|j: int| i <= j && j + 1 < s.len() ==> !(s[j] == '<' && #[trigger] s[j + 1] == '@'),
    decreases s.len() - i,
{
    if !(i < 0 || i + 1 >= s.len()) && !(s[i] == '<' && s[i + 1] == '@') {
        lemma_open_at(s, i + 1);
    }
}

proof fn lemma_close_at(s: Seq<char>, i: int)
    requires
        0 <= i <= s.len(),
    ensures
        i <= close_at(s, i) <= s.len(),
        close_at(s, i) < s.len() ==> s[close_at(s, i)] == '>',
        forall|j: int| i <= j < close_at(s, i) ==> s[j] != '>',
    decreases s.len() - i,
{
    if i < s.len() && s[i] != '>' {
        lemma_close_at(s, i + 1);
    }
}

proof fn lemma_skip_bangs(s: Seq<char>, lo: int, hi: int)
    requires
        lo <= hi,
    ensures
        lo <= skip_bangs(s, lo, hi) <= hi,
    decreases hi - lo,
{
    if lo < hi && s[lo] == '!' {
        lemma_skip_bangs(s, lo + 1, hi);
    }
}

#[via_fn]
proof fn ids_from_decreases(s: Seq<char>, i: int) {
    lemma_open_at(s, i);
    if let Some(j) = open_at(s, i) {
        lemma_close_at(s, j + 2);
    }
}

/// The ids of the mentions `<@id>` or `<@!id>` in `s` from place `i` on, in order.
pub open spec fn ids_from(s: Seq<char>, i: int) -> Seq<u64>
    decreases s.len() - i,
    via ids_from_decreases
{
    match open_at(s, i) {
        None => Seq::empty(),
        Some(j) => {
            let start = j + 2;
            let end = close_at(s, start);
            let lo = skip_bangs(s, start, end);
            let head = match parse_u64_spec(s.subrange(lo, end)) {
                Some(id) => seq![id],
                None => Seq::empty(),
            };
            head + ids_from(s, end)
        },
    }
}

/// The distinct users mentioned in `text`, in increasing order. A mention is
/// `<@` then the id, optionally after `!`s, up to the next `>`.
pub fn parse_user_mentions(text: &str) -> (r: Vec<u64>)
    ensures
        strictly_increasing(r@),
        forall|x: u64| r@.contains(x) <==> ids_from(text@, 0).contains(x),
{
    let v = chars_of(text);
    let ghost s = v@;
    let mut ids: Vec<u64> = Vec::new();
    let mut i: usize = 0;
    while i < v.len()
        invariant
            s == v@,
            s == text@,
            i <= v.len(),
            ids@ + ids_from(s, i as int) == ids_from(s, 0),
        decreases v.len() - i,
    {
        // Find the next `<@`.
        let mut j: usize = i;
        while j < v.len() && v.len() - j >= 2 && !(v[j] == '<' && v[j + 1] == '@')
            invariant
                s == v@,
                i <= j <= v.len(),
                open_at(s, i as int) == open_at(s, j as int),
            decreases v.len() - j,
        {
            j = j + 1;
        }
        if j >= v.len() || v.len() - j < 2 {
            assert(open_at(s, j as int) is None);
            assert(ids_from(s, i as int) == Seq::<u64>::empty());
            assert(ids@ + Seq::<u64>::empty() =~= ids@);
            i = v.len();
            proof {
                assert(open_at(s, i as int) is None);
                assert(ids_from(s, i as int) == Seq::<u64>::empty());
            }
        } else {
            assert(open_at(s, j as int) == Some(j as int));
            let start = j + 2;
            let mut end: usize = start;
            while end < v.len() && v[end] != '>'
                invariant
                    s == v@,
                    start <= end <= v.len(),
                    close_at(s, start as int) == close_at(s, end as int),
                decreases v.len() - end,
            {
                end = end + 1;
            }
            let mut lo: usize = start;
            while lo < end && v[lo] == '!'
                invariant
                    s == v@,
                    start <= lo <= end,
                    end <= v.len(),
                    skip_bangs(s, start as int, end as int) == skip_bangs(s, lo as int, end as int),
                decreases end - lo,
            {
                lo = lo + 1;
            }
            let part = string_from_range(&v, lo, end);
            let ghost before = ids@;
            let ghost head = match parse_u64_spec(s.subrange(lo as int, end as int)) {
                Some(id) => seq![id],
                None => Seq::<u64>::empty(),
            };
            match parse_u64(part.as_str()) {
                Some(id) => {
                    ids.push(id);
                },
                None => {},
            }
            proof {
                assert(ids@ == before + head);
                assert(ids_from(s, i as int) == head + ids_from(s, end as int));
                assert(before + (head + ids_from(s, end as int)) =~= (before + head) + ids_from(s, end as int));
            }
            i = end;
        }
    }
    proof {
        assert(ids_from(s, i as int) == Seq::<u64>::empty());
        assert(ids@ + Seq::<u64>::empty() =~= ids@);
    }
    let ghost all = ids@;
    let r = distinct_players(ids);
    r
}

/// How a player entry is shown: in bold, with the team.
pub open spec fn candidate_text(p: crate::api::SquadPlayerMatch) -> Seq<char> {
    "**"@ + p.player_name@ + "** ("@ + p.team_name@ + ")"@
}

/// The answer to a tie-breaker search that did not find exactly one player:
/// nothing found, or the first ten candidates.
pub open spec fn tiebreaker_search_text(found: Seq<&crate::api::SquadPlayerMatch>, query: Seq<char>) -> Option<Seq<char>> {
    if found.len() == 0 {
        Some("Couldn't find a player matching \""@ + query + "\" on your claimed teams. Try a more specific name."@)
    } else if found.len() == 1 {
        None
    } else {
        let shown = if found.len() > 10 { found.take(10) } else { found };
        Some("Several players match \""@ + query + "\". Be more specific:\n"@ + crate::text::join_seq(
            shown.map_values(|p: &crate::api::SquadPlayerMatch| candidate_text(*p)),
            "\n"@,
        ))
    }
}

fn candidate_line(p: &crate::api::SquadPlayerMatch) -> (r: String)
    ensures
        r@ == candidate_text(*p),
{
    let mut r = String::from_str("**");
    r.append(p.player_name.as_str());
    r.append("** (");
    r.append(p.team_name.as_str());
    r.append(")");
    r
}

/// Answers a tie-breaker search that did not find exactly one player; none
/// when it found exactly one, which becomes the pick.
pub fn tiebreaker_search_reply(found: &[&crate::api::SquadPlayerMatch], query: &str) -> (r: Option<String>)
    ensures
        match r {
            Some(m) => tiebreaker_search_text(found@, query@) == Some(m@),
            None => tiebreaker_search_text(found@, query@) is None,
        },
{
    if found.len() == 0 {
        let mut m = String::from_str("Couldn't find a player matching \"");
        m.append(query);
        m.append("\" on your claimed teams. Try a more specific name.");
        return Some(m);
    }
    if found.len() == 1 {
        return None;
    }
    let ghost shown = if found@.len() > 10 { found@.take(10) } else { found@ };
    let limit: usize = if found.len() > 10 { 10 } else { found.len() };
    let mut lines: Vec<String> = Vec::new();
    let mut i: usize = 0;
    while i < limit
        invariant
            i <= limit,
            limit == shown.len(),
            limit <= found@.len(),
            forall|k: int| 0 <= k < limit ==> shown[k] == found@[k],
            lines@.len() == i,
            forall|k: int| 0 <= k < i ==> (#[trigger] lines@[k])@ == candidate_text(*shown[k]),
        decreases limit - i,
    {
        lines.push(candidate_line(found[i]));
        i = i + 1;
    }
    let ghost want = shown.map_values(|p: &crate::api::SquadPlayerMatch| candidate_text(*p));
    assert(crate::text::views(lines@) =~= want) by {
        assert forall|k: int| 0 <= k < lines@.len() implies crate::text::views(lines@)[k] == want[k] by {
            assert(lines@[k]@ == candidate_text(*shown[k]));
        }
    }
    let mut m = String::from_str("Several players match \"");
    m.append(query);
    m.append("\". Be more specific:\n");
    m.append(crate::text::join(&lines, "\n").as_str());
    Some(m)
}

/// The confirmation of a tie-breaker pick.
pub open spec fn tiebreaker_set_text(p: crate::api::SquadPlayerMatch) -> Seq<char> {
    "Tie-breaker player set to **"@ + p.player_name@ + "** ("@ + p.team_name@ + ")"@
}

/// Confirms a tie-breaker pick.
pub fn tiebreaker_set_message(selected: &crate::api::SquadPlayerMatch) -> (r: String)
    ensures
        r@ == tiebreaker_set_text(*selected),
{
    let mut r = String::from_str("Tie-breaker player set to **");
    r.append(selected.player_name.as_str());
    r.append("** (");
    r.append(selected.team_name.as_str());
    r.append(")");
    r
}

/// Names in bold, separated by commas.
pub open spec fn bold_list_text(names: Seq<String>) -> Seq<char> {
    crate::text::join_seq(names.map_values(|n: String| "**"@ + n@ + "**"@), ", "@)
}

/// Names in bold, separated by commas.
pub fn bold_list(names: &[String]) -> (r: String)
    ensures
        r@ == bold_list_text(names@),
{
    let mut parts: Vec<String> = Vec::new();
    let mut i: usize = 0;
    while i < names.len()
        invariant
            i <= names.len(),
            parts@.len() == i,
            forall|k: int| 0 <= k < i ==> (#[trigger] parts@[k])@ == "**"@ + names@[k]@ + "**"@,
        decreases names.len() - i,
    {
        let mut p = String::from_str("**");
        p.append(names[i].as_str());
        p.append("**");
        parts.push(p);
        i = i + 1;
    }
    let ghost want = names@.map_values(|n: String| "**"@ + n@ + "**"@);
    assert(crate::text::views(parts@) =~= want) by {
        assert forall|k: int| 0 <= k < parts@.len() implies crate::text::views(parts@)[k] == want[k] by {
            assert(parts@[k]@ == "**"@ + names@[k]@ + "**"@);
        }
    }
    crate::text::join(&parts, ", ")
}

/// The two texts of the standings command: one summary line per row, and the
/// detailed lines separated by blank lines, each with its shared rank.
pub struct StandingsText {
    pub summary: String,
    pub detail: String,
}

/// Writes the standings command's texts for `rows`, ranked by
/// `standings_ranks`.
pub fn standings_text(rows: &[crate::standings::StandingRow]) -> (r: StandingsText)
    ensures
        ({
            let ranks = Seq::new(
                rows@.len(),
                |i: int| (crate::standings::run_start(crate::standings::points_of(rows@), i) + 1) as usize,
            );
            &&& r.summary@ == crate::text::join_seq(
                Seq::new(rows@.len(), |i: int| crate::standings::summary_text(ranks[i] as nat, rows@[i])),
                "\n"@,
            )
            &&& r.detail@ == crate::text::join_seq(
                Seq::new(rows@.len(), |i: int| crate::standings::detail_text(ranks[i] as nat, rows@[i])),
                "\n\n"@,
            )
        }),
{
    let ranks = crate::standings::standings_ranks(rows);
    let summary_lines = crate::standings::format_standings_summary_lines(rows, ranks.as_slice());
    let detail_lines = crate::standings::format_standings_detail_lines(rows, ranks.as_slice());
    let ghost rk = Seq::new(
        rows@.len(),
        |i: int| (crate::standings::run_start(crate::standings::points_of(rows@), i) + 1) as usize,
    );
    assert(ranks@ =~= rk);
    assert(crate::text::views(summary_lines@) =~= Seq::new(rows@.len(), |i: int| crate::standings::summary_text(rk[i] as nat, rows@[i])));
    assert(crate::text::views(detail_lines@) =~= Seq::new(rows@.len(), |i: int| crate::standings::detail_text(rk[i] as nat, rows@[i])));
    StandingsText {
        summary: crate::text::join(&summary_lines, "\n"),
        detail: crate::text::join(&detail_lines, "\n\n"),
    }
}

} // verus!
