//! Which users' teams are still in the tournament and which are out.
use vstd::prelude::*;

use crate::draft::{distinct_players, mention, mention_text, strictly_increasing};
use crate::records::Registration;
use crate::soccar::{TeamClassification, TeamRef};
use crate::sorting::{filter_seq, lemma_insert_at, sort_seq};
use crate::text::{join_seq, seq_lt, text_lt, views};

verus! {

/// The answer of the remaining-teams report.
#[derive(Debug)]
pub enum RemainingResult {
    /// The season is not a World Cup season.
    NotWorldCup,
    /// Nobody has claimed a team.
    NoRegistrations,
    Report(RemainingReport),
}

/// Teams still in and teams out, for each user who holds some, and for nobody.
#[derive(Debug)]
pub struct RemainingReport {
    pub still_in_by_user: Vec<(u64, Vec<String>)>,
    pub eliminated_by_user: Vec<(u64, Vec<String>)>,
    pub unassigned_still_in: Vec<String>,
    pub unassigned_eliminated: Vec<String>,
}

/// The holder of team `team_id`: the user of its last registration.
pub open spec fn owner_of(regs: Seq<Registration>, team_id: i64) -> Option<u64>
    decreases regs.len(),
{
    if regs.len() == 0 {
        None
    } else if regs.last().team_id == team_id {
        Some(regs.last().user_id)
    } else {
        owner_of(regs.drop_last(), team_id)
    }
}

/// Name order.
pub open spec fn name_before(a: Seq<char>, b: Seq<char>) -> bool {
    seq_lt(a, b)
}

/// The teams of `teams` whose holder is `owner` (none: nobody holds them), in order.
pub open spec fn teams_held_by(teams: Seq<TeamRef>, regs: Seq<Registration>, owner: Option<u64>) -> Seq<
    TeamRef,
> {
    filter_seq(teams, |t: TeamRef| owner_of(regs, t.id) == owner)
}

/// The names of `teams` held by `owner`, sorted.
pub open spec fn held_names(teams: Seq<TeamRef>, regs: Seq<Registration>, owner: Option<u64>) -> Seq<
    Seq<char>,
> {
    sort_seq(
        teams_held_by(teams, regs, owner).map_values(|t: TeamRef| t.name@),
        |a: Seq<char>, b: Seq<char>| name_before(a, b),
    )
}

/// Whether `user` holds one of `teams`.
pub open spec fn holds_one(teams: Seq<TeamRef>, regs: Seq<Registration>, user: u64) -> bool {
    exists|k: int| 0 <= k < teams.len() && owner_of(regs, (#[trigger] teams[k]).id) == Some(user)
}

/// The grouping of `teams` by holder: users in increasing order, each with the
/// sorted names of its teams, and the sorted names of the teams nobody holds.
pub open spec fn is_grouping(
    teams: Seq<TeamRef>,
    regs: Seq<Registration>,
    grouped: Seq<(u64, Vec<String>)>,
    unassigned: Seq<String>,
) -> bool {
    &&& views(unassigned) == held_names(teams, regs, None)
    &&& forall|i: int, j: int| 0 <= i < j < grouped.len() ==> grouped[i].0 < grouped[j].0
    &&& forall|u: u64|
        holds_one(teams, regs, u) <==> exists|i: int| 0 <= i < grouped.len() && (#[trigger] grouped[i]).0 == u
    &&& forall|i: int|
        0 <= i < grouped.len() ==> views((#[trigger] grouped[i]).1@) == held_names(
            teams,
            regs,
            Some(grouped[i].0),
        )
}

fn owner_lookup(regs: &[Registration], team_id: i64) -> (r: Option<u64>)
    ensures
        r == owner_of(regs@, team_id),
{
    let mut i: usize = regs.len();
    assert(regs@.take(i as int) =~= regs@);
    while i > 0
        invariant
            i <= regs.len(),
            owner_of(regs@, team_id) == owner_of(regs@.take(i as int), team_id),
        decreases i,
    {
        let ghost t = regs@.take(i as int);
        assert(t.drop_last() =~= regs@.take(i - 1));
        assert(t.last() == regs@[i - 1]);
        if regs[i - 1].team_id == team_id {
            return Some(regs[i - 1].user_id);
        }
        i = i - 1;
    }
    None
}

fn sort_names(v: Vec<String>) -> (r: Vec<String>)
    ensures
        views(r@) == sort_seq(views(v@), |a: Seq<char>, b: Seq<char>| name_before(a, b)),
    decreases v.len(),
{
    let ghost before = |a: Seq<char>, b: Seq<char>| name_before(a, b);
    let mut v = v;
    let ghost orig = v@;
    match v.pop() {
        None => {
            assert(views(orig) =~= Seq::<Seq<char>>::empty());
            v
        },
        Some(x) => {
            assert(views(v@) =~= views(orig).drop_last());
            let mut r = sort_names(v);
            let ghost s = views(r@);
            let mut k: usize = 0;
            while k < r.len() && !text_lt(x.as_str(), r[k].as_str())
                invariant
                    k <= r.len(),
                    s == views(r@),
                    before == (|a: Seq<char>, b: Seq<char>| name_before(a, b)),
                    forall|j: int| 0 <= j < k ==> !before(x@, #[trigger] s[j]),
                decreases r.len() - k,
            {
                assert(s[k as int] == r@[k as int]@);
                k = k + 1;
            }
            proof {
                if k < r.len() {
                    assert(s[k as int] == r@[k as int]@);
                }
                lemma_insert_at(x@, s, before, k as int);
            }
            r.insert(k, x);
            assert(views(r@) =~= s.insert(k as int, views(orig).last()));
            r
        },
    }
}

/// The names of the teams whose holder (`owners`, team by team) is `owner`.
fn names_held(
    teams: &[TeamRef],
    owners: &Vec<Option<u64>>,
    owner: Option<u64>,
    Ghost(regs): Ghost<Seq<Registration>>,
) -> (r: Vec<String>)
    requires
        owners@.len() == teams@.len(),
        forall|k: int| 0 <= k < teams@.len() ==> owners@[k] == owner_of(regs, (#[trigger] teams@[k]).id),
    ensures
        views(r@) == teams_held_by(teams@, regs, owner).map_values(|t: TeamRef| t.name@),
{
    let ghost p = |t: TeamRef| owner_of(regs, t.id) == owner;
    let mut r: Vec<String> = Vec::new();
    let mut i: usize = 0;
    while i < teams.len()
        invariant
            i <= teams.len(),
            owners@.len() == teams@.len(),
            forall|k: int| 0 <= k < teams@.len() ==> owners@[k] == owner_of(regs, (#[trigger] teams@[k]).id),
            p == (|t: TeamRef| owner_of(regs, t.id) == owner),
            views(r@) == filter_seq(teams@.take(i as int), p).map_values(|t: TeamRef| t.name@),
        decreases teams.len() - i,
    {
        let ghost after = teams@.take(i + 1);
        assert(after.drop_last() =~= teams@.take(i as int));
        assert(after.last() == teams@[i as int]);
        assert(owners@[i as int] == owner_of(regs, teams@[i as int].id));
        let same = match (owners[i], owner) {
            (Some(a), Some(b)) => a == b,
            (None, None) => true,
            _ => false,
        };
        if same {
            let ghost before = views(r@);
            r.push(teams[i].name.clone());
            assert(views(r@) =~= before.push(teams@[i as int].name@));
            assert(filter_seq(after, p) == filter_seq(teams@.take(i as int), p).push(teams@[i as int]));
            assert(filter_seq(after, p).map_values(|t: TeamRef| t.name@) =~= filter_seq(
                teams@.take(i as int),
                p,
            ).map_values(|t: TeamRef| t.name@).push(teams@[i as int].name@));
        }
        i = i + 1;
    }
    assert(teams@.take(teams.len() as int) =~= teams@);
    r
}

/// Groups `teams` by the user who holds each one, per `registrations`: users
/// in increasing order, each with the sorted names of its teams, and apart,
/// the sorted names of the teams nobody holds.
pub fn group_by_user(teams: &[TeamRef], registrations: &[Registration]) -> (r: (
    Vec<(u64, Vec<String>)>,
    Vec<String>,
))
    ensures
        is_grouping(teams@, registrations@, r.0@, r.1@),
{
    let ghost regs = registrations@;
    // The holder of each team.
    let mut owners: Vec<Option<u64>> = Vec::new();
    let mut holders: Vec<u64> = Vec::new();
    let mut i: usize = 0;
    while i < teams.len()
        invariant
            i <= teams.len(),
            regs == registrations@,
            owners@.len() == i,
            forall|k: int| 0 <= k < i ==> owners@[k] == owner_of(regs, (#[trigger] teams@[k]).id),
            forall|u: u64|
                holders@.contains(u) <==> exists|k: int|
                    0 <= k < i && owner_of(regs, (#[trigger] teams@[k]).id) == Some(u),
        decreases teams.len() - i,
    {
        let o = owner_lookup(registrations, teams[i].id);
        let ghost hb = holders@;
        owners.push(o);
        match o {
            Some(u) => {
                holders.push(u);
            },
            None => {},
        }
        proof {
            assert forall|u: u64|
                holders@.contains(u) <==> exists|k: int|
                    0 <= k < i + 1 && owner_of(regs, (#[trigger] teams@[k]).id) == Some(u) by {
                if holders@.contains(u) {
                    let j = choose|j: int| 0 <= j < holders@.len() && holders@[j] == u;
                    if j < hb.len() {
                        assert(hb[j] == u);
                        assert(hb.contains(u));
                    } else {
                        assert(owner_of(regs, teams@[i as int].id) == Some(u));
                    }
                }
                if exists|k: int| 0 <= k < i + 1 && owner_of(regs, (#[trigger] teams@[k]).id) == Some(u) {
                    let k = choose|k: int| 0 <= k < i + 1 && owner_of(regs, (#[trigger] teams@[k]).id) == Some(u);
                    if k < i {
                        assert(hb.contains(u));
                        let j = choose|j: int| 0 <= j < hb.len() && hb[j] == u;
                        assert(holders@[j] == u);
                    } else {
                        assert(holders@[hb.len() as int] == u);
                    }
                }
            }
        }
        i = i + 1;
    }
    let unassigned = sort_names(names_held(teams, &owners, None, Ghost(regs)));
    let users = distinct_players(holders);
    let mut grouped: Vec<(u64, Vec<String>)> = Vec::new();
    let mut j: usize = 0;
    while j < users.len()
        invariant
            j <= users.len(),
            regs == registrations@,
            owners@.len() == teams@.len(),
            forall|k: int| 0 <= k < teams@.len() ==> owners@[k] == owner_of(regs, (#[trigger] teams@[k]).id),
            grouped@.len() == j,
            forall|q: int| 0 <= q < j ==> (#[trigger] grouped@[q]).0 == users@[q],
            forall|q: int|
                0 <= q < j ==> views((#[trigger] grouped@[q]).1@) == held_names(
                    teams@,
                    regs,
                    Some(grouped@[q].0),
                ),
        decreases users.len() - j,
    {
        let u = users[j];
        let names = sort_names(names_held(teams, &owners, Some(u), Ghost(regs)));
        grouped.push((u, names));
        j = j + 1;
    }
    proof {
        assert forall|a: int, b: int| 0 <= a < b < grouped@.len() implies grouped@[a].0 < grouped@[b].0 by {
            assert(grouped@[a].0 == users@[a] && grouped@[b].0 == users@[b]);
        }
        assert forall|u: u64| holds_one(teams@, regs, u) <==> exists|q: int|
            0 <= q < grouped@.len() && (#[trigger] grouped@[q]).0 == u by {
            if holds_one(teams@, regs, u) {
                let k = choose|k: int| 0 <= k < teams@.len() && owner_of(regs, (#[trigger] teams@[k]).id) == Some(u);
                assert(holders@.contains(u));
                assert(users@.contains(u));
                let q = choose|q: int| 0 <= q < users@.len() && users@[q] == u;
                assert(grouped@[q].0 == u);
            }
            if exists|q: int| 0 <= q < grouped@.len() && (#[trigger] grouped@[q]).0 == u {
                let q = choose|q: int| 0 <= q < grouped@.len() && (#[trigger] grouped@[q]).0 == u;
                assert(users@[q] == u);
                assert(users@.contains(u));
                assert(holders@.contains(u));
            }
        }
    }
    (grouped, unassigned)
}

/// The report of the teams still in and out, grouped by holder.
pub fn build_report(classification: &TeamClassification, registrations: &[Registration]) -> (r:
    RemainingReport)
    ensures
        is_grouping(
            classification.still_in@,
            registrations@,
            r.still_in_by_user@,
            r.unassigned_still_in@,
        ),
        is_grouping(
            classification.eliminated@,
            registrations@,
            r.eliminated_by_user@,
            r.unassigned_eliminated@,
        ),
{
    let (still_in_by_user, unassigned_still_in) = group_by_user(
        classification.still_in.as_slice(),
        registrations,
    );
    let (eliminated_by_user, unassigned_eliminated) = group_by_user(
        classification.eliminated.as_slice(),
        registrations,
    );
    RemainingReport { still_in_by_user, eliminated_by_user, unassigned_still_in, unassigned_eliminated }
}

/// One line of a grouped field: the user and its teams in bold.
pub open spec fn user_line(entry: (u64, Vec<String>)) -> Seq<char> {
    mention(entry.0) + " — **"@ + join_seq(views(entry.1@), "**, **"@) + "**"@
}

/// The lines of a grouped field.
pub open spec fn grouped_lines(by_user: Seq<(u64, Vec<String>)>, unassigned: Seq<String>) -> Seq<
    Seq<char>,
> {
    let lines = by_user.map_values(|e: (u64, Vec<String>)| user_line(e));
    if unassigned.len() == 0 {
        lines
    } else {
        lines.push("Unassigned — **"@ + join_seq(views(unassigned), "**, **"@) + "**"@)
    }
}

/// The text of a grouped field: one line per user and one for the teams nobody
/// holds, or a dash when there is nothing to list.
pub open spec fn grouped_field_text(by_user: Seq<(u64, Vec<String>)>, unassigned: Seq<String>) -> Seq<
    char,
> {
    let lines = grouped_lines(by_user, unassigned);
    if lines.len() == 0 {
        "—"@
    } else {
        join_seq(lines, "\n"@)
    }
}

/// Writes a grouped field: one line per user and one for the teams nobody
/// holds, or a dash when there is nothing to list.
pub fn format_grouped_field(by_user: &[(u64, Vec<String>)], unassigned: &[String]) -> (r: String)
    ensures
        r@ == grouped_field_text(by_user@, unassigned@),
{
    let mut lines: Vec<String> = Vec::new();
    let mut i: usize = 0;
    while i < by_user.len()
        invariant
            i <= by_user.len(),
            lines@.len() == i,
            forall|k: int| 0 <= k < i ==> (#[trigger] lines@[k])@ == user_line(by_user@[k]),
        decreases by_user.len() - i,
    {
        let mut line = mention_text(by_user[i].0);
        line.append(" — **");
        line.append(crate::text::join(&by_user[i].1, "**, **").as_str());
        line.append("**");
        lines.push(line);
        i = i + 1;
    }
    let ghost base = by_user@.map_values(|e: (u64, Vec<String>)| user_line(e));
    assert(views(lines@) =~= base) by {
        assert forall|k: int| 0 <= k < lines@.len() implies views(lines@)[k] == base[k] by {
            assert(lines@[k]@ == user_line(by_user@[k]));
        }
    }
    if unassigned.len() > 0 {
        let mut parts: Vec<String> = Vec::new();
        let mut k: usize = 0;
        while k < unassigned.len()
            invariant
                k <= unassigned.len(),
                parts@.len() == k,
                forall|q: int| 0 <= q < k ==> (#[trigger] parts@[q])@ == unassigned@[q]@,
            decreases unassigned.len() - k,
        {
            parts.push(unassigned[k].clone());
            k = k + 1;
        }
        assert(views(parts@) =~= views(unassigned@)) by {
            assert forall|q: int| 0 <= q < parts@.len() implies views(parts@)[q] == views(unassigned@)[q] by {
                assert(parts@[q]@ == unassigned@[q]@);
            }
        }
        let mut line = String::from_str("Unassigned — **");
        line.append(crate::text::join(&parts, "**, **").as_str());
        line.append("**");
        let ghost before = views(lines@);
        let ghost lv = line@;
        lines.push(line);
        assert(views(lines@) =~= before.push(lv));
    }
    if lines.len() == 0 {
        String::from_str("—")
    } else {
        crate::text::join(&lines, "\n")
    }
}

} // verus!
