//! Claiming teams: what a claim, an assignment or an unclaim answers, a user's
//! teams, the teams of a season by user, and the teams nobody has claimed.
use vstd::prelude::*;

use crate::draft::{mention, mention_text, strictly_increasing};
use crate::league::CatalogTeam;
use crate::records::Registration;
use crate::sorting::{filter_seq, lemma_insert_at, sort_seq};
use crate::standings::{is_standing_users, regs_of, standing_users};
use crate::text::{decimal_i64, decimal_int, join_seq, seq_lt, text_lt, views};

verus! {

/// The answer to a claim, and whether the registration is to be written.
#[derive(Debug)]
pub struct ClaimStep {
    pub message: String,
    pub register: bool,
}

/// Whether the team is held by someone other than `user_id`.
pub open spec fn held_by_other(existing_owner: Option<u64>, user_id: u64) -> bool {
    existing_owner matches Some(o) && o != user_id
}

/// The answer to a claim of `team_name` by `user_id`.
pub open spec fn claim_text(existing_owner: Option<u64>, user_id: u64, team_name: Seq<char>) -> Seq<char> {
    if held_by_other(existing_owner, user_id) {
        team_name + " is already claimed by "@ + mention(existing_owner->0) + "."@
    } else {
        "You've claimed **"@ + team_name + "**. You'll earn points when they play."@
    }
}

/// Claims `team_name` for `user_id`, unless another user holds it.
pub fn claim_decision(existing_owner: Option<u64>, user_id: u64, team_name: &str) -> (r: ClaimStep)
    ensures
        r.register == !held_by_other(existing_owner, user_id),
        r.message@ == claim_text(existing_owner, user_id, team_name@),
{
    match existing_owner {
        Some(owner) => if owner != user_id {
            let mut m = String::from_str(team_name);
            m.append(" is already claimed by ");
            m.append(mention_text(owner).as_str());
            m.append(".");
            return ClaimStep { message: m, register: false };
        },
        None => {},
    }
    let mut m = String::from_str("You've claimed **");
    m.append(team_name);
    m.append("**. You'll earn points when they play.");
    ClaimStep { message: m, register: true }
}

/// The answer to an assignment of `team_name` to `user_id`.
pub open spec fn assign_text(
    existing_owner: Option<u64>,
    user_id: u64,
    team_name: Seq<char>,
    assignee_mention: Seq<char>,
) -> Seq<char> {
    if held_by_other(existing_owner, user_id) {
        "**"@ + team_name + "** is already claimed by "@ + mention(existing_owner->0) + "."@
    } else {
        "**"@ + team_name + "** has been claimed by "@ + assignee_mention + "."@
    }
}

/// Assigns `team_name` to `user_id`, unless another user holds it.
pub fn assign_decision(
    existing_owner: Option<u64>,
    user_id: u64,
    team_name: &str,
    assignee_mention: &str,
) -> (r: ClaimStep)
    ensures
        r.register == !held_by_other(existing_owner, user_id),
        r.message@ == assign_text(existing_owner, user_id, team_name@, assignee_mention@),
{
    match existing_owner {
        Some(owner) => if owner != user_id {
            let mut m = String::from_str("**");
            m.append(team_name);
            m.append("** is already claimed by ");
            m.append(mention_text(owner).as_str());
            m.append(".");
            return ClaimStep { message: m, register: false };
        },
        None => {},
    }
    let mut m = String::from_str("**");
    m.append(team_name);
    m.append("** has been claimed by ");
    m.append(assignee_mention);
    m.append(".");
    ClaimStep { message: m, register: true }
}

/// The answer to an unclaim, by whether a registration was removed.
pub open spec fn unclaim_text(removed: bool) -> Seq<char> {
    if removed {
        "That team has been unclaimed."@
    } else {
        "You haven't claimed that team. Use `/team` to see your teams."@
    }
}

/// Answers an unclaim, by whether a registration was removed.
pub fn unclaim_message(removed: bool) -> (r: String)
    ensures
        r@ == unclaim_text(removed),
{
    if removed {
        String::from_str("That team has been unclaimed.")
    } else {
        String::from_str("You haven't claimed that team. Use `/team` to see your teams.")
    }
}

/// The team names of registrations, in order.
pub open spec fn reg_names(regs: Seq<Registration>) -> Seq<Seq<char>> {
    regs.map_values(|r: Registration| r.team_name@)
}

/// What a user's teams and tie-breaker are shown as.
pub open spec fn my_team_text(
    regs: Seq<Registration>,
    pick: Option<(String, String)>,
    tiebreaker_value: i64,
) -> Seq<char> {
    let head = if regs.len() == 0 {
        "You haven't claimed any teams yet. Use `/claim` to pick one."@
    } else if regs.len() == 1 {
        "You're representing **"@ + regs[0].team_name@ + "**."@
    } else {
        "You're representing: **"@ + join_seq(reg_names(regs), "**, **"@) + "**."@
    };
    head + match pick {
        Some(p) => "\n\nTie-breaker: **"@ + p.0@ + "** ("@ + p.1@ + ") — **"@ + decimal_int(
            tiebreaker_value as int,
        ) + "** goals"@,
        None => if regs.len() > 0 {
            "\n\nTie-breaker: none — use `/pick-player` to designate one."@
        } else {
            Seq::empty()
        },
    }
}

/// Shows a user's teams and tie-breaker pick.
pub fn my_team_message(
    registrations: &[Registration],
    pick: &Option<(String, String)>,
    tiebreaker_value: i64,
) -> (r: String)
    ensures
        r@ == my_team_text(registrations@, *pick, tiebreaker_value),
{
    let mut message = if registrations.len() == 0 {
        String::from_str("You haven't claimed any teams yet. Use `/claim` to pick one.")
    } else if registrations.len() == 1 {
        let mut m = String::from_str("You're representing **");
        m.append(registrations[0].team_name.as_str());
        m.append("**.");
        m
    } else {
        let mut names: Vec<String> = Vec::new();
        let mut i: usize = 0;
        while i < registrations.len()
            invariant
                i <= registrations.len(),
                names@.len() == i,
                forall|k: int| 0 <= k < i ==> (#[trigger] names@[k])@ == registrations@[k].team_name@,
            decreases registrations.len() - i,
        {
            names.push(registrations[i].team_name.clone());
            i = i + 1;
        }
        assert(views(names@) =~= reg_names(registrations@)) by {
            assert forall|k: int| 0 <= k < names@.len() implies views(names@)[k] == reg_names(registrations@)[k] by {
                assert(names@[k]@ == registrations@[k].team_name@);
            }
        }
        let mut m = String::from_str("You're representing: **");
        m.append(crate::text::join(&names, "**, **").as_str());
        m.append("**.");
        m
    };
    match pick {
        Some(p) => {
            message.append("\n\nTie-breaker: **");
            message.append(p.0.as_str());
            message.append("** (");
            message.append(p.1.as_str());
            message.append(") — **");
            message.append(decimal_i64(tiebreaker_value).as_str());
            message.append("** goals");
        },
        None => {
            if registrations.len() > 0 {
                message.append("\n\nTie-breaker: none — use `/pick-player` to designate one.");
            } else {
                assert(message@ =~= message@ + Seq::<char>::empty());
            }
        },
    }
    message
}

/// The teams of a season by user.
#[derive(Debug)]
pub enum SeasonTeamsList {
    Empty,
    ByUser(Vec<(u64, Vec<String>)>),
}

/// The listing of a season's teams: users in increasing order, each with the
/// names of its teams in registration order.
pub open spec fn is_season_listing(regs: Seq<Registration>, v: Seq<(u64, Vec<String>)>) -> bool {
    &&& is_standing_users(regs, v.map_values(|e: (u64, Vec<String>)| e.0))
    &&& forall|i: int|
        0 <= i < v.len() ==> views((#[trigger] v[i]).1@) == reg_names(regs_of(regs, v[i].0))
}

/// The names of the teams user `u` registered, in order.
fn names_of_user(registrations: &[Registration], u: u64) -> (r: Vec<String>)
    ensures
        views(r@) == reg_names(regs_of(registrations@, u)),
{
    let ghost p = |r: Registration| r.user_id == u;
    let mut r: Vec<String> = Vec::new();
    let mut i: usize = 0;
    while i < registrations.len()
        invariant
            i <= registrations.len(),
            p == (|r: Registration| r.user_id == u),
            views(r@) == reg_names(filter_seq(registrations@.take(i as int), p)),
        decreases registrations.len() - i,
    {
        let ghost after = registrations@.take(i + 1);
        assert(after.drop_last() =~= registrations@.take(i as int));
        assert(after.last() == registrations@[i as int]);
        if registrations[i].user_id == u {
            let ghost b = views(r@);
            r.push(registrations[i].team_name.clone());
            assert(views(r@) =~= b.push(registrations@[i as int].team_name@));
            assert(reg_names(filter_seq(after, p)) =~= reg_names(
                filter_seq(registrations@.take(i as int), p),
            ).push(registrations@[i as int].team_name@));
        }
        i = i + 1;
    }
    assert(registrations@.take(registrations.len() as int) =~= registrations@);
    r
}

/// Lists a season's teams by user; empty when nobody has claimed a team.
pub fn season_teams_list(registrations: &[Registration]) -> (r: SeasonTeamsList)
    ensures
        r is Empty <==> registrations@.len() == 0,
        r matches SeasonTeamsList::ByUser(v) ==> is_season_listing(registrations@, v@),
{
    if registrations.len() == 0 {
        return SeasonTeamsList::Empty;
    }
    let users = standing_users(registrations);
    let mut v: Vec<(u64, Vec<String>)> = Vec::new();
    let mut j: usize = 0;
    while j < users.len()
        invariant
            j <= users.len(),
            v@.len() == j,
            forall|q: int| 0 <= q < j ==> (#[trigger] v@[q]).0 == users@[q],
            forall|q: int|
                0 <= q < j ==> views((#[trigger] v@[q]).1@) == reg_names(regs_of(registrations@, v@[q].0)),
        decreases users.len() - j,
    {
        let u = users[j];
        v.push((u, names_of_user(registrations, u)));
        j = j + 1;
    }
    assert(v@.map_values(|e: (u64, Vec<String>)| e.0) =~= users@);
    SeasonTeamsList::ByUser(v)
}

/// Whether any catalog team is left to claim.
#[derive(Debug)]
pub enum UnclaimedTeams {
    AllClaimed,
    Available(Vec<String>),
}

/// The names of the catalog teams nobody has claimed, sorted.
pub open spec fn unclaimed_names(teams: Seq<CatalogTeam>, claimed: Seq<i64>) -> Seq<Seq<char>> {
    sort_seq(
        filter_seq(teams, |t: CatalogTeam| !claimed.contains(t.id)).map_values(|t: CatalogTeam| t.name@),
        |a: Seq<char>, b: Seq<char>| crate::remaining::name_before(a, b),
    )
}

fn contains_id(v: &[i64], x: i64) -> (r: bool)
    ensures
        r == v@.contains(x),
{
    let mut i: usize = 0;
    while i < v.len()
        invariant
            i <= v.len(),
            forall|j: int| 0 <= j < i ==> v@[j] != x,
        decreases v.len() - i,
    {
        if v[i] == x {
            return true;
        }
        i = i + 1;
    }
    false
}

fn sort_strings(v: Vec<String>) -> (r: Vec<String>)
    ensures
        views(r@) == sort_seq(views(v@), |a: Seq<char>, b: Seq<char>| crate::remaining::name_before(a, b)),
    decreases v.len(),
{
    let ghost before = |a: Seq<char>, b: Seq<char>| crate::remaining::name_before(a, b);
    let mut v = v;
    let ghost orig = v@;
    match v.pop() {
        None => {
            assert(views(orig) =~= Seq::<Seq<char>>::empty());
            v
        },
        Some(x) => {
            assert(views(v@) =~= views(orig).drop_last());
            let mut r = sort_strings(v);
            let ghost s = views(r@);
            let mut k: usize = 0;
            while k < r.len() && !text_lt(x.as_str(), r[k].as_str())
                invariant
                    k <= r.len(),
                    s == views(r@),
                    before == (|a: Seq<char>, b: Seq<char>| crate::remaining::name_before(a, b)),
                    forall|j: int| 0 <= j < k ==> !before(x@, #[trigger] s[j]),
                decreases r.len() - k,
            {
                assert(s[k as int] == r@[k as int]@);
                k = k + 1;
            }
            proof {
                if k < r.len() {
                    assert(s[k as int] == r@[k as int]@);
                }
                lemma_insert_at(x@, s, before, k as int);
            }
            r.insert(k, x);
            assert(views(r@) =~= s.insert(k as int, views(orig).last()));
            r
        },
    }
}

/// The catalog teams nobody has claimed, by sorted name; all claimed when none is left.
pub fn unclaimed_team_list(teams: &[CatalogTeam], claimed: &[i64]) -> (r: UnclaimedTeams)
    ensures
        r is AllClaimed <==> unclaimed_names(teams@, claimed@).len() == 0,
        r matches UnclaimedTeams::Available(v) ==> views(v@) == unclaimed_names(teams@, claimed@),
{
    let ghost p = |t: CatalogTeam| !claimed@.contains(t.id);
    let mut names: Vec<String> = Vec::new();
    let mut i: usize = 0;
    while i < teams.len()
        invariant
            i <= teams.len(),
            p == (|t: CatalogTeam| !claimed@.contains(t.id)),
            views(names@) == filter_seq(teams@.take(i as int), p).map_values(|t: CatalogTeam| t.name@),
        decreases teams.len() - i,
    {
        let ghost after = teams@.take(i + 1);
        assert(after.drop_last() =~= teams@.take(i as int));
        assert(after.last() == teams@[i as int]);
        if !contains_id(claimed, teams[i].id) {
            let ghost b = views(names@);
            names.push(teams[i].name.clone());
            assert(views(names@) =~= b.push(teams@[i as int].name@));
            assert(filter_seq(after, p).map_values(|t: CatalogTeam| t.name@) =~= filter_seq(
                teams@.take(i as int),
                p,
            ).map_values(|t: CatalogTeam| t.name@).push(teams@[i as int].name@));
        }
        i = i + 1;
    }
    assert(teams@.take(teams.len() as int) =~= teams@);
    let ghost unsorted = views(names@);
    let sorted = sort_strings(names);
    proof {
        crate::sorting::lemma_sort_multiset(unsorted, |a: Seq<char>, b: Seq<char>| crate::remaining::name_before(a, b));
    }
    if sorted.len() == 0 {
        UnclaimedTeams::AllClaimed
    } else {
        UnclaimedTeams::Available(sorted)
    }
}

} // verus!
