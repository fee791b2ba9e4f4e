//! Season standings: each user's points from the teams it holds, the order of
//! the table, shared ranks, and how rows are printed.
use vstd::prelude::*;

use crate::draft::{distinct_players, mention, mention_text, strictly_increasing};
use crate::records::Registration;
use crate::scoring::{
    ScoringRules, points_for_team, points_for_teams, team_points, team_points_fit, teams_points,
    teams_points_fit, wc_rules,
};
use crate::sorting::{filter_seq, lemma_insert_at, sort_seq};
use crate::text::{decimal_i64, decimal_int, decimal_nat, decimal_usize, seq_lt, text_lt};

verus! {

/// One user's line of the standings.
#[derive(Debug)]
pub struct StandingRow {
    pub user_id: u64,
    pub points: i64,
    pub teams: Vec<(String, i64)>,
    pub tiebreaker_goals: i64,
    pub tiebreaker_player: Option<String>,
}

/// The soccer rules the standings count by.
pub open spec fn soccer_rules() -> ScoringRules {
    ScoringRules { win: 3, draw: 1, loss: 0 }
}

/// The footer that states the soccer rules.
pub open spec fn footer_text() -> Seq<char> {
    "Win 3 · Draw 1 · Loss 0 · TB = tie-breaker goals"@
}

/// The footer that states the soccer rules.
pub fn standings_footer() -> (r: String)
    ensures
        r@ == footer_text(),
{
    let mut r = String::from_str("Win ");
    r.append(decimal_i64(crate::scoring::WIN_POINTS).as_str());
    r.append(" · Draw ");
    r.append(decimal_i64(crate::scoring::DRAW_POINTS).as_str());
    r.append(" · Loss ");
    r.append(decimal_i64(crate::scoring::LOSS_POINTS).as_str());
    r.append(" · TB = tie-breaker goals");
    proof {
        reveal_strlit("Win 3 · Draw 1 · Loss 0 · TB = tie-breaker goals");
        reveal_strlit("Win ");
        reveal_strlit(" · Draw ");
        reveal_strlit(" · Loss ");
        reveal_strlit(" · TB = tie-breaker goals");
        assert(decimal_int(3) == seq!['3']);
        assert(decimal_int(1) == seq!['1']);
        assert(decimal_int(0) == seq!['0']);
        assert(r@ =~= footer_text());
    }
    r
}

/// The registrations of user `u`, in order.
pub open spec fn regs_of(regs: Seq<Registration>, u: u64) -> Seq<Registration> {
    filter_seq(regs, |r: Registration| r.user_id == u)
}

/// The ids of the teams user `u` holds, in registration order.
pub open spec fn held_ids(regs: Seq<Registration>, u: u64) -> Seq<i64> {
    regs_of(regs, u).map_values(|r: Registration| r.team_id)
}

/// Name order of team entries.
pub open spec fn entry_before(a: (Seq<char>, int), b: (Seq<char>, int)) -> bool {
    seq_lt(a.0, b.0)
}

/// Each team of user `u` with its points, sorted by name (ties keep
/// registration order).
pub open spec fn team_entries(
    rules: ScoringRules,
    regs: Seq<Registration>,
    u: u64,
    ms: Seq<crate::scoring::FinishedMatch>,
) -> Seq<(Seq<char>, int)> {
    sort_seq(
        regs_of(regs, u).map_values(
            |r: Registration| (r.team_name@, team_points(rules, r.team_id, ms)),
        ),
        |a: (Seq<char>, int), b: (Seq<char>, int)| entry_before(a, b),
    )
}

/// The team entries of a row, as names and points.
pub open spec fn entries_view(t: Seq<(String, i64)>) -> Seq<(Seq<char>, int)> {
    t.map_values(|e: (String, i64)| (e.0@, e.1 as int))
}

/// An optional name as characters.
pub open spec fn opt_view(o: Option<String>) -> Option<Seq<char>> {
    match o {
        Some(s) => Some(s@),
        None => None,
    }
}

/// The users with a standing: those holding a team, in increasing order.
pub open spec fn is_standing_users(regs: Seq<Registration>, users: Seq<u64>) -> bool {
    &&& strictly_increasing(users)
    &&& forall|u: u64| users.contains(u) <==> exists|k: int| 0 <= k < regs.len() && (#[trigger] regs[k]).user_id == u
}

/// The users with a standing: those holding a team, in increasing order. The
/// tie-breakers handed to `build_rows` follow this order.
pub fn standing_users(registrations: &[Registration]) -> (r: Vec<u64>)
    ensures
        is_standing_users(registrations@, r@),
{
    let mut ids: Vec<u64> = Vec::new();
    let mut i: usize = 0;
    while i < registrations.len()
        invariant
            i <= registrations.len(),
            ids@.len() == i,
            forall|k: int| 0 <= k < i ==> ids@[k] == (#[trigger] registrations@[k]).user_id,
        decreases registrations.len() - i,
    {
        ids.push(registrations[i].user_id);
        i = i + 1;
    }
    let ghost all = ids@;
    let r = distinct_players(ids);
    proof {
        assert forall|u: u64| r@.contains(u) <==> exists|k: int|
            0 <= k < registrations@.len() && (#[trigger] registrations@[k]).user_id == u by {
            if r@.contains(u) {
                assert(all.contains(u));
                let k = choose|k: int| 0 <= k < all.len() && all[k] == u;
                assert(registrations@[k].user_id == u);
            }
            if exists|k: int| 0 <= k < registrations@.len() && (#[trigger] registrations@[k]).user_id == u {
                let k = choose|k: int| 0 <= k < registrations@.len() && (#[trigger] registrations@[k]).user_id == u;
                assert(all[k] == u);
                assert(all.contains(u));
            }
        }
    }
    r
}

// ---------------------------------------------------------------- bounds
/// The largest number of points one match can give or take under `rules`.
pub open spec fn rules_bound(rules: ScoringRules) -> int {
    let w = if rules.win >= 0 { rules.win as int } else { -(rules.win as int) };
    let d = if rules.draw >= 0 { rules.draw as int } else { -(rules.draw as int) };
    let l = if rules.loss >= 0 { rules.loss as int } else { -(rules.loss as int) };
    if w >= d && w >= l {
        w
    } else if d >= l {
        d
    } else {
        l
    }
}

/// Whether `n` teams over `m` matches stay within `i64` under `rules`.
pub open spec fn points_in_range(rules: ScoringRules, n: int, m: int) -> bool {
    rules_bound(rules) * n * m <= i64::MAX
}

proof fn lemma_team_points_bounds(rules: ScoringRules, id: i64, ms: Seq<crate::scoring::FinishedMatch>)
    ensures
        -(rules_bound(rules) * ms.len()) <= team_points(rules, id, ms) <= rules_bound(rules) * ms.len(),
    decreases ms.len(),
{
    if ms.len() > 0 {
        lemma_team_points_bounds(rules, id, ms.drop_last());
        let b = rules_bound(rules);
        let m = ms.len() as int;
        assert(b * (m - 1) + b == b * m) by (nonlinear_arith);
    }
}

proof fn lemma_teams_points_bounds(rules: ScoringRules, ids: Seq<i64>, ms: Seq<crate::scoring::FinishedMatch>)
    ensures
        -(rules_bound(rules) * ids.len() * ms.len()) <= teams_points(rules, ids, ms) <= rules_bound(rules)
            * ids.len() * ms.len(),
    decreases ids.len(),
{
    if ids.len() > 0 {
        lemma_teams_points_bounds(rules, ids.drop_last(), ms);
        lemma_team_points_bounds(rules, ids.last(), ms);
        let b = rules_bound(rules);
        let n = ids.len() as int;
        let m = ms.len() as int;
        assert(b * (n - 1) * m + b * m == b * n * m) by (nonlinear_arith);
    }
}

proof fn lemma_points_fit(rules: ScoringRules, ids: Seq<i64>, ms: Seq<crate::scoring::FinishedMatch>)
    requires
        points_in_range(rules, ids.len() as int, ms.len() as int),
    ensures
        teams_points_fit(rules, ids, ms),
{
    let b = rules_bound(rules);
    let n = ids.len() as int;
    let m = ms.len() as int;
    assert forall|t: int, k: int| 0 <= t < ids.len() && 0 <= k <= ms.len() implies crate::scoring::fits_i64(
        #[trigger] teams_points(rules, ids.take(t), ms) + #[trigger] team_points(rules, ids[t], ms.take(k)),
    ) by {
        lemma_teams_points_bounds(rules, ids.take(t), ms);
        lemma_team_points_bounds(rules, ids[t], ms.take(k));
        assert(b * t * m + b * k <= b * n * m) by (nonlinear_arith)
            requires
                0 <= t < n,
                0 <= k <= m,
                b >= 0,
        ;
    }
}

proof fn lemma_team_fit(rules: ScoringRules, id: i64, ms: Seq<crate::scoring::FinishedMatch>)
    requires
        rules_bound(rules) * ms.len() <= i64::MAX,
    ensures
        team_points_fit(rules, id, ms),
{
    assert forall|k: int| 0 <= k <= ms.len() implies crate::scoring::fits_i64(
        #[trigger] team_points(rules, id, ms.take(k)),
    ) by {
        lemma_team_points_bounds(rules, id, ms.take(k));
        let b = rules_bound(rules);
        assert(b * k <= b * ms.len()) by (nonlinear_arith)
            requires
                0 <= k <= ms.len(),
                b >= 0,
        ;
    }
}

// ---------------------------------------------------------------- rows
/// A row as plain values: user, points, team entries, tie-breaker goals and player.
pub type RowView = (u64, int, Seq<(Seq<char>, int)>, i64, Option<Seq<char>>);

/// A row as plain values.
pub open spec fn row_view(row: StandingRow) -> RowView {
    (row.user_id, row.points as int, entries_view(row.teams@), row.tiebreaker_goals, opt_view(row.tiebreaker_player))
}

/// The rows as plain values.
pub open spec fn rows_view(rows: Seq<StandingRow>) -> Seq<RowView> {
    rows.map_values(|r: StandingRow| row_view(r))
}

/// Table order on plain rows: more points, then more tie-breaker goals, then
/// the lower user id.
pub open spec fn view_before(a: RowView, b: RowView) -> bool {
    a.1 > b.1 || (a.1 == b.1 && a.3 > b.3) || (a.1 == b.1 && a.3 == b.3 && a.0 < b.0)
}

/// The standing of user `u` with tie-breaker goals `goals` and player `player`.
pub open spec fn expected_row(
    rules: ScoringRules,
    regs: Seq<Registration>,
    ms: Seq<crate::scoring::FinishedMatch>,
    u: u64,
    goals: i64,
    player: Option<Seq<char>>,
) -> RowView {
    (u, teams_points(rules, held_ids(regs, u), ms), team_entries(rules, regs, u, ms), goals, player)
}

/// The standings of the users of `tbs`, each with its tie-breaker, sorted in
/// table order.
pub open spec fn standings_of(
    rules: ScoringRules,
    regs: Seq<Registration>,
    ms: Seq<crate::scoring::FinishedMatch>,
    tbs: Seq<(u64, i64, Option<String>)>,
) -> Seq<RowView> {
    sort_seq(
        tbs.map_values(|t: (u64, i64, Option<String>)| expected_row(rules, regs, ms, t.0, t.1, opt_view(t.2))),
        |a: RowView, b: RowView| view_before(a, b),
    )
}

proof fn lemma_filter_len<T>(s: Seq<T>, p: spec_fn(T) -> bool)
    ensures
        filter_seq(s, p).len() <= s.len(),
{
    crate::sorting::lemma_filter_split(s, p);
}

fn sort_entries(v: Vec<(String, i64)>) -> (r: Vec<(String, i64)>)
    ensures
        entries_view(r@) == sort_seq(entries_view(v@), |a: (Seq<char>, int), b: (Seq<char>, int)| entry_before(a, b)),
    decreases v.len(),
{
    let ghost before = |a: (Seq<char>, int), b: (Seq<char>, int)| entry_before(a, b);
    let mut v = v;
    let ghost orig = v@;
    match v.pop() {
        None => {
            assert(entries_view(orig) =~= Seq::<(Seq<char>, int)>::empty());
            v
        },
        Some(x) => {
            assert(entries_view(v@) =~= entries_view(orig).drop_last());
            let mut r = sort_entries(v);
            let ghost s = entries_view(r@);
            let ghost xv = (x.0@, x.1 as int);
            let mut k: usize = 0;
            while k < r.len() && !text_lt(x.0.as_str(), r[k].0.as_str())
                invariant
                    k <= r.len(),
                    s == entries_view(r@),
                    xv == (x.0@, x.1 as int),
                    before == (|a: (Seq<char>, int), b: (Seq<char>, int)| entry_before(a, b)),
                    forall|j: int| 0 <= j < k ==> !before(xv, #[trigger] s[j]),
                decreases r.len() - k,
            {
                assert(s[k as int] == (r@[k as int].0@, r@[k as int].1 as int));
                k = k + 1;
            }
            proof {
                if k < r.len() {
                    assert(s[k as int] == (r@[k as int].0@, r@[k as int].1 as int));
                }
                lemma_insert_at(xv, s, before, k as int);
            }
            r.insert(k, x);
            assert(entries_view(r@) =~= s.insert(k as int, entries_view(orig).last()));
            r
        },
    }
}

/// The ids of the teams user `u` holds, in registration order.
fn held_team_ids(registrations: &[Registration], u: u64) -> (r: Vec<i64>)
    ensures
        r@ == held_ids(registrations@, u),
{
    let ghost p = |r: Registration| r.user_id == u;
    let mut r: Vec<i64> = Vec::new();
    let mut i: usize = 0;
    while i < registrations.len()
        invariant
            i <= registrations.len(),
            p == (|r: Registration| r.user_id == u),
            r@ == filter_seq(registrations@.take(i as int), p).map_values(|r: Registration| r.team_id),
        decreases registrations.len() - i,
    {
        let ghost after = registrations@.take(i + 1);
        assert(after.drop_last() =~= registrations@.take(i as int));
        assert(after.last() == registrations@[i as int]);
        if registrations[i].user_id == u {
            let ghost b = r@;
            r.push(registrations[i].team_id);
            assert(r@ =~= b.push(registrations@[i as int].team_id));
            assert(filter_seq(after, p).map_values(|r: Registration| r.team_id) =~= filter_seq(
                registrations@.take(i as int),
                p,
            ).map_values(|r: Registration| r.team_id).push(registrations@[i as int].team_id));
        }
        i = i + 1;
    }
    assert(registrations@.take(registrations.len() as int) =~= registrations@);
    r
}

/// Each team of user `u` with its points, sorted by name.
fn user_entries(
    rules: &ScoringRules,
    matches: &[crate::scoring::FinishedMatch],
    registrations: &[Registration],
    u: u64,
) -> (r: Vec<(String, i64)>)
    requires
        rules_bound(*rules) * matches@.len() <= i64::MAX,
    ensures
        entries_view(r@) == team_entries(*rules, registrations@, u, matches@),
{
    let ghost p = |r: Registration| r.user_id == u;
    let ghost f = |r: Registration| (r.team_name@, team_points(*rules, r.team_id, matches@));
    let mut v: Vec<(String, i64)> = Vec::new();
    let mut i: usize = 0;
    while i < registrations.len()
        invariant
            i <= registrations.len(),
            rules_bound(*rules) * matches@.len() <= i64::MAX,
            p == (|r: Registration| r.user_id == u),
            f == (|r: Registration| (r.team_name@, team_points(*rules, r.team_id, matches@))),
            entries_view(v@) == filter_seq(registrations@.take(i as int), p).map_values(f),
        decreases registrations.len() - i,
    {
        let ghost after = registrations@.take(i + 1);
        assert(after.drop_last() =~= registrations@.take(i as int));
        assert(after.last() == registrations@[i as int]);
        if registrations[i].user_id == u {
            proof {
                lemma_team_fit(*rules, registrations@[i as int].team_id, matches@);
            }
            let pts = points_for_team(rules, registrations[i].team_id, matches);
            let ghost b = entries_view(v@);
            v.push((registrations[i].team_name.clone(), pts));
            assert(entries_view(v@) =~= b.push(f(registrations@[i as int])));
            assert(filter_seq(after, p).map_values(f) =~= filter_seq(
                registrations@.take(i as int),
                p,
            ).map_values(f).push(f(registrations@[i as int])));
        }
        i = i + 1;
    }
    assert(registrations@.take(registrations.len() as int) =~= registrations@);
    let r = sort_entries(v);
    r
}

/// The standing of user `u` with tie-breaker goals `goals` and player `player`.
fn user_row(
    rules: &ScoringRules,
    matches: &[crate::scoring::FinishedMatch],
    registrations: &[Registration],
    u: u64,
    goals: i64,
    player: Option<String>,
) -> (r: StandingRow)
    requires
        points_in_range(*rules, registrations@.len() as int, matches@.len() as int),
    ensures
        row_view(r) == expected_row(*rules, registrations@, matches@, u, goals, opt_view(player)),
{
    let ids = held_team_ids(registrations, u);
    proof {
        lemma_filter_len(registrations@, |r: Registration| r.user_id == u);
        let n = ids@.len() as int;
        let big = registrations@.len() as int;
        let m = matches@.len() as int;
        let b = rules_bound(*rules);
        assert(b * n * m <= b * big * m) by (nonlinear_arith)
            requires
                0 <= n <= big,
                m >= 0,
                b >= 0,
        ;
        lemma_points_fit(*rules, ids@, matches@);
    }
    let points = points_for_teams(rules, ids.as_slice(), matches);
    let teams = if registrations.len() == 0 {
        let e: Vec<(String, i64)> = Vec::new();
        proof {
            assert(regs_of(registrations@, u) =~= Seq::<Registration>::empty());
            assert(entries_view(e@) =~= team_entries(*rules, registrations@, u, matches@));
        }
        e
    } else {
        proof {
            let b = rules_bound(*rules);
            assert(b * matches@.len() <= b * registrations@.len() * matches@.len()) by (nonlinear_arith)
                requires
                    registrations@.len() >= 1,
                    b >= 0,
            ;
        }
        user_entries(rules, matches, registrations, u)
    };
    StandingRow { user_id: u, points, teams, tiebreaker_goals: goals, tiebreaker_player: player }
}

fn sort_rows(v: Vec<StandingRow>) -> (r: Vec<StandingRow>)
    ensures
        rows_view(r@) == sort_seq(rows_view(v@), |a: RowView, b: RowView| view_before(a, b)),
    decreases v.len(),
{
    let ghost before = |a: RowView, b: RowView| view_before(a, b);
    let mut v = v;
    let ghost orig = v@;
    match v.pop() {
        None => {
            assert(rows_view(orig) =~= Seq::<RowView>::empty());
            v
        },
        Some(x) => {
            assert(rows_view(v@) =~= rows_view(orig).drop_last());
            let mut r = sort_rows(v);
            let ghost s = rows_view(r@);
            let ghost xv = row_view(x);
            let mut k: usize = 0;
            while k < r.len() && !(x.points > r[k].points || (x.points == r[k].points
                && x.tiebreaker_goals > r[k].tiebreaker_goals) || (x.points == r[k].points
                && x.tiebreaker_goals == r[k].tiebreaker_goals && x.user_id < r[k].user_id))
                invariant
                    k <= r.len(),
                    s == rows_view(r@),
                    xv == row_view(x),
                    before == (|a: RowView, b: RowView| view_before(a, b)),
                    forall|j: int| 0 <= j < k ==> !before(xv, #[trigger] s[j]),
                decreases r.len() - k,
            {
                assert(s[k as int] == row_view(r@[k as int]));
                k = k + 1;
            }
            proof {
                if k < r.len() {
                    assert(s[k as int] == row_view(r@[k as int]));
                }
                lemma_insert_at(xv, s, before, k as int);
            }
            r.insert(k, x);
            assert(rows_view(r@) =~= s.insert(k as int, rows_view(orig).last()));
            r
        },
    }
}

/// The standings under `rules`: a row for each user of `tiebreakers` (with its tie-breaker
/// goals and player), holding its points over `matches` from the teams it
/// registered, its teams by name with their points, in table order.
pub fn build_rows_with_rules(
    rules: &ScoringRules,
    matches: &[crate::scoring::FinishedMatch],
    registrations: &[Registration],
    tiebreakers: Vec<(u64, i64, Option<String>)>,
) -> (r: Vec<StandingRow>)
    requires
        points_in_range(*rules, registrations@.len() as int, matches@.len() as int),
    ensures
        rows_view(r@) == standings_of(*rules, registrations@, matches@, tiebreakers@),
{
    let ghost tbs = tiebreakers@;
    let ghost f = |t: (u64, i64, Option<String>)| expected_row(*rules, registrations@, matches@, t.0, t.1, opt_view(t.2));
    let mut tiebreakers = tiebreakers;
    let mut rows: Vec<StandingRow> = Vec::new();
    // Build the rows from the last user back, then turn them around.
    let mut rev: Vec<StandingRow> = Vec::new();
    while tiebreakers.len() > 0
        invariant
            points_in_range(*rules, registrations@.len() as int, matches@.len() as int),
            f == (|t: (u64, i64, Option<String>)| expected_row(*rules, registrations@, matches@, t.0, t.1, opt_view(t.2))),
            tiebreakers@.len() + rev@.len() == tbs.len(),
            tiebreakers@ == tbs.take(tiebreakers@.len() as int),
            forall|j: int| 0 <= j < rev@.len() ==> row_view(#[trigger] rev@[j]) == f(tbs[tbs.len() - 1 - j]),
        decreases tiebreakers.len(),
    {
        let ghost n = tiebreakers@.len();
        let t = tiebreakers.pop().unwrap();
        assert(t == tbs[n - 1]);
        assert(tiebreakers@ =~= tbs.take(n - 1));
        let row = user_row(rules, matches, registrations, t.0, t.1, t.2);
        rev.push(row);
    }
    while rev.len() > 0
        invariant
            f == (|t: (u64, i64, Option<String>)| expected_row(*rules, registrations@, matches@, t.0, t.1, opt_view(t.2))),
            rows@.len() + rev@.len() == tbs.len(),
            forall|j: int| 0 <= j < rev@.len() ==> row_view(#[trigger] rev@[j]) == f(tbs[tbs.len() - 1 - j]),
            forall|j: int| 0 <= j < rows@.len() ==> row_view(#[trigger] rows@[j]) == f(tbs[j]),
        decreases rev.len(),
    {
        let ghost n = rev@.len();
        let row = rev.pop().unwrap();
        assert(row_view(row) == f(tbs[tbs.len() - n]));
        rows.push(row);
    }
    assert(rows_view(rows@) =~= tbs.map_values(f)) by {
        assert forall|j: int| 0 <= j < rows@.len() implies rows_view(rows@)[j] == tbs.map_values(f)[j] by {
            assert(row_view(rows@[j]) == f(tbs[j]));
        }
    }
    sort_rows(rows)
}

/// The standings under the soccer rules: a row for each user of
/// `tiebreakers` (with its tie-breaker goals and player), holding its points
/// over `matches` from the teams it registered, its teams by name with their
/// points, in table order.
pub fn build_rows(
    matches: &[crate::scoring::FinishedMatch],
    registrations: &[Registration],
    tiebreakers: Vec<(u64, i64, Option<String>)>,
) -> (r: Vec<StandingRow>)
    requires
        3 * registrations@.len() * matches@.len() <= i64::MAX,
    ensures
        rows_view(r@) == standings_of(soccer_rules(), registrations@, matches@, tiebreakers@),
{
    let rules = wc_rules();
    build_rows_with_rules(&rules, matches, registrations, tiebreakers)
}

/// Points the teams of `registrations` earned together over `matches`.
pub fn points_for_user_teams(matches: &[crate::scoring::FinishedMatch], registrations: &[Registration]) -> (r: i64)
    requires
        3 * registrations@.len() * matches@.len() <= i64::MAX,
    ensures
        r == teams_points(soccer_rules(), registrations@.map_values(|g: Registration| g.team_id), matches@),
{
    let rules = wc_rules();
    let mut ids: Vec<i64> = Vec::new();
    let mut i: usize = 0;
    while i < registrations.len()
        invariant
            i <= registrations.len(),
            ids@ == registrations@.take(i as int).map_values(|g: Registration| g.team_id),
        decreases registrations.len() - i,
    {
        ids.push(registrations[i].team_id);
        i = i + 1;
        assert(ids@ =~= registrations@.take(i as int).map_values(|g: Registration| g.team_id));
    }
    assert(registrations@.take(registrations.len() as int) =~= registrations@);
    proof {
        lemma_points_fit(soccer_rules(), ids@, matches@);
    }
    points_for_teams(&rules, ids.as_slice(), matches)
}

// ---------------------------------------------------------------- printing
/// The summary line of a row at rank `rank`.
pub open spec fn summary_text(rank: nat, row: StandingRow) -> Seq<char> {
    "**"@ + decimal_nat(rank) + "** · "@ + mention(row.user_id) + " — **"@ + decimal_int(row.points as int)
        + "** pts"@
}

/// The summary line of a row at rank `rank`.
pub fn format_standing_summary(rank: usize, row: &StandingRow) -> (r: String)
    ensures
        r@ == summary_text(rank as nat, *row),
{
    let mut r = String::from_str("**");
    r.append(decimal_usize(rank).as_str());
    r.append("** · ");
    r.append(mention_text(row.user_id).as_str());
    r.append(" — **");
    r.append(decimal_i64(row.points).as_str());
    r.append("** pts");
    r
}

/// The lines of a row's teams, one after the other.
pub open spec fn team_lines(teams: Seq<(String, i64)>) -> Seq<char>
    decreases teams.len(),
{
    if teams.len() == 0 {
        Seq::empty()
    } else {
        team_lines(teams.drop_last()) + "\n   • **"@ + teams.last().0@ + "** — "@ + decimal_int(
            teams.last().1 as int,
        ) + " pts"@
    }
}

/// The detailed lines of a row at rank `rank`: the summary, each team with its
/// points, and the tie-breaker.
pub open spec fn detail_text(rank: nat, row: StandingRow) -> Seq<char> {
    summary_text(rank, row) + team_lines(row.teams@) + match row.tiebreaker_player {
        Some(p) => "\n   • Tie-breaker: **"@ + p@ + "** — "@ + decimal_int(row.tiebreaker_goals as int)
            + " goals"@,
        None => "\n   • Tie-breaker — "@ + decimal_int(row.tiebreaker_goals as int) + " goals"@,
    }
}

/// The detailed lines of a row at rank `rank`.
pub fn format_standing_detail(rank: usize, row: &StandingRow) -> (r: String)
    ensures
        r@ == detail_text(rank as nat, *row),
{
    let mut line = format_standing_summary(rank, row);
    let ghost head = line@;
    let mut i: usize = 0;
    while i < row.teams.len()
        invariant
            i <= row.teams.len(),
            line@ == head + team_lines(row.teams@.take(i as int)),
        decreases row.teams.len() - i,
    {
        let ghost after = row.teams@.take(i + 1);
        assert(after.drop_last() =~= row.teams@.take(i as int));
        assert(after.last() == row.teams@[i as int]);
        line.append("\n   • **");
        line.append(row.teams[i].0.as_str());
        line.append("** — ");
        line.append(decimal_i64(row.teams[i].1).as_str());
        line.append(" pts");
        i = i + 1;
    }
    assert(row.teams@.take(row.teams.len() as int) =~= row.teams@);
    match &row.tiebreaker_player {
        Some(player) => {
            line.append("\n   • Tie-breaker: **");
            line.append(player.as_str());
            line.append("** — ");
            line.append(decimal_i64(row.tiebreaker_goals).as_str());
            line.append(" goals");
        },
        None => {
            line.append("\n   • Tie-breaker — ");
            line.append(decimal_i64(row.tiebreaker_goals).as_str());
            line.append(" goals");
        },
    }
    line
}

/// The summary line of each row with its rank, as far as both lists go.
pub fn format_standings_summary_lines(rows: &[StandingRow], ranks: &[usize]) -> (r: Vec<String>)
    ensures
        r@.len() == if rows@.len() < ranks@.len() { rows@.len() } else { ranks@.len() },
        forall|i: int| 0 <= i < r@.len() ==> (#[trigger] r@[i])@ == summary_text(ranks@[i] as nat, rows@[i]),
{
    let mut r: Vec<String> = Vec::new();
    let mut i: usize = 0;
    while i < rows.len() && i < ranks.len()
        invariant
            i <= rows.len(),
            i <= ranks.len(),
            r@.len() == i,
            forall|k: int| 0 <= k < i ==> (#[trigger] r@[k])@ == summary_text(ranks@[k] as nat, rows@[k]),
        decreases rows.len() - i,
    {
        r.push(format_standing_summary(ranks[i], &rows[i]));
        i = i + 1;
    }
    r
}

/// The detailed lines of each row with its rank, as far as both lists go.
pub fn format_standings_detail_lines(rows: &[StandingRow], ranks: &[usize]) -> (r: Vec<String>)
    ensures
        r@.len() == if rows@.len() < ranks@.len() { rows@.len() } else { ranks@.len() },
        forall|i: int| 0 <= i < r@.len() ==> (#[trigger] r@[i])@ == detail_text(ranks@[i] as nat, rows@[i]),
{
    let mut r: Vec<String> = Vec::new();
    let mut i: usize = 0;
    while i < rows.len() && i < ranks.len()
        invariant
            i <= rows.len(),
            i <= ranks.len(),
            r@.len() == i,
            forall|k: int| 0 <= k < i ==> (#[trigger] r@[k])@ == detail_text(ranks@[k] as nat, rows@[k]),
        decreases rows.len() - i,
    {
        r.push(format_standing_detail(ranks[i], &rows[i]));
        i = i + 1;
    }
    r
}

// ---------------------------------------------------------------- ranks
/// Where the run of equal points that holds row `i` begins.
pub open spec fn run_start(pts: Seq<i64>, i: int) -> int
    decreases i,
{
    if i <= 0 {
        0
    } else if pts[i - 1] == pts[i] {
        run_start(pts, i - 1)
    } else {
        i
    }
}

/// The points of each row.
pub open spec fn points_of(rows: Seq<StandingRow>) -> Seq<i64> {
    rows.map_values(|r: StandingRow| r.points)
}

proof fn lemma_run_constant(pts: Seq<i64>, i: int, q: int)
    requires
        0 <= i <= q < pts.len(),
        i == 0 || pts[i - 1] != pts[i],
        forall|r: int| i < r <= q ==> pts[r - 1] == #[trigger] pts[r],
    ensures
        run_start(pts, q) == i,
    decreases q - i,
{
    if q > i {
        lemma_run_constant(pts, i, q - 1);
    }
}

proof fn lemma_run_start_bounds(pts: Seq<i64>, i: int)
    requires
        0 <= i < pts.len(),
    ensures
        0 <= run_start(pts, i) <= i,
        forall|j: int| run_start(pts, i) <= j <= i ==> pts[j] == pts[i],
    decreases i,
{
    if i > 0 && pts[i - 1] == pts[i] {
        lemma_run_start_bounds(pts, i - 1);
    }
}

/// The rank of each row: rows with equal points in a run share the rank of the
/// first of them, counted from 1.
pub fn standings_ranks(rows: &[StandingRow]) -> (r: Vec<usize>)
    ensures
        r@.len() == rows@.len(),
        forall|i: int| 0 <= i < r@.len() ==> r@[i] == run_start(points_of(rows@), i) + 1,
{
    let ghost pts = points_of(rows@);
    let mut ranks: Vec<usize> = Vec::new();
    let mut i: usize = 0;
    while i < rows.len()
        invariant
            i <= rows.len(),
            pts == points_of(rows@),
            ranks@.len() == i,
            i == rows.len() || i == 0 || pts[i - 1] != pts[i as int],
            forall|k: int| 0 <= k < i ==> ranks@[k] == run_start(pts, k) + 1,
        decreases rows.len() - i,
    {
        let mut j = i;
        while j + 1 < rows.len() && rows[j].points == rows[j + 1].points
            invariant
                i <= j < rows.len(),
                pts == points_of(rows@),
                forall|k: int| i < k <= j ==> pts[k - 1] == #[trigger] pts[k],
            decreases rows.len() - j,
        {
            assert(pts[j as int] == rows@[j as int].points && pts[j + 1] == rows@[j + 1].points);
            j = j + 1;
        }
        let rank = i + 1;
        let mut k = i;
        while k <= j
            invariant
                i <= k <= j + 1,
                j < rows.len(),
                rank == i + 1,
                pts == points_of(rows@),
                ranks@.len() == k,
                i == 0 || pts[i - 1] != pts[i as int],
                forall|q: int| i < q <= j ==> pts[q - 1] == #[trigger] pts[q],
                forall|q: int| 0 <= q < k ==> ranks@[q] == run_start(pts, q) + 1,
            decreases j + 1 - k,
        {
            proof {
                lemma_run_constant(pts, i as int, k as int);
            }
            ranks.push(rank);
            k = k + 1;
        }
        proof {
            if j + 1 < rows.len() {
                assert(pts[j as int] == rows@[j as int].points && pts[j + 1] == rows@[j + 1].points);
            }
        }
        i = j + 1;
    }
    ranks
}

/// In a table sorted by points (more first), the rank of a row is one more
/// than the place of the first row with its points: every row above that one
/// has more points, and every row from it down to this one has the same.
pub proof fn law_ranks_in_sorted_table(rows: Seq<StandingRow>, i: int)
    requires
        0 <= i < rows.len(),
        forall|a: int, b: int| 0 <= a < b < rows.len() ==> rows[a].points >= rows[b].points,
    ensures
        forall|j: int| 0 <= j < run_start(points_of(rows), i) ==> rows[j].points > rows[i].points,
        forall|j: int| run_start(points_of(rows), i) <= j <= i ==> rows[j].points == rows[i].points,
{
    let pts = points_of(rows);
    lemma_run_start_bounds(pts, i);
    lemma_run_start_not_equal(pts, i);
    let s = run_start(pts, i);
    assert forall|j: int| 0 <= j < s implies rows[j].points > rows[i].points by {
        assert(pts[s - 1] == rows[s - 1].points && pts[s] == rows[s].points);
        assert(rows[s - 1].points >= rows[s].points);
        assert(pts[s] == pts[i]);
        if j < s - 1 {
            assert(rows[j].points >= rows[s - 1].points);
        }
    }
    assert forall|j: int| s <= j <= i implies rows[j].points == rows[i].points by {
        assert(pts[j] == pts[i]);
    }
}

/// Rows next to each other with equal points get the same rank.
pub proof fn law_ties_share_rank(rows: Seq<StandingRow>, i: int)
    requires
        0 < i < rows.len(),
        rows[i - 1].points == rows[i].points,
    ensures
        run_start(points_of(rows), i) == run_start(points_of(rows), i - 1),
{
}

proof fn lemma_run_start_not_equal(pts: Seq<i64>, i: int)
    requires
        0 <= i < pts.len(),
    ensures
        run_start(pts, i) > 0 ==> pts[run_start(pts, i) - 1] != pts[run_start(pts, i)],
    decreases i,
{
    if i > 0 && pts[i - 1] == pts[i] {
        lemma_run_start_not_equal(pts, i - 1);
    }
}


/// Every row of the standings is one user's: its points are the sum of the
/// points of the teams the user registered, and its teams are listed by name
/// with their points.
pub proof fn law_standing_rows_sum_teams(
    rules: ScoringRules,
    regs: Seq<Registration>,
    ms: Seq<crate::scoring::FinishedMatch>,
    tbs: Seq<(u64, i64, Option<String>)>,
    i: int,
)
    requires
        0 <= i < standings_of(rules, regs, ms, tbs).len(),
    ensures
        standings_of(rules, regs, ms, tbs)[i].1 == teams_points(rules, held_ids(regs, standings_of(rules, regs, ms, tbs)[i].0), ms),
        standings_of(rules, regs, ms, tbs)[i].2 == team_entries(rules, regs, standings_of(rules, regs, ms, tbs)[i].0, ms),
        crate::sorting::sorted_by(
            standings_of(rules, regs, ms, tbs)[i].2,
            |a: (Seq<char>, int), b: (Seq<char>, int)| entry_before(a, b),
        ),
        exists|k: int|
            0 <= k < tbs.len() && (#[trigger] tbs[k]).0 == standings_of(rules, regs, ms, tbs)[i].0
                && tbs[k].1 == standings_of(rules, regs, ms, tbs)[i].3,
{
    broadcast use vstd::seq_lib::group_to_multiset_ensures;

    let f = |t: (u64, i64, Option<String>)| expected_row(rules, regs, ms, t.0, t.1, opt_view(t.2));
    let m = tbs.map_values(f);
    let rows = standings_of(rules, regs, ms, tbs);
    crate::sorting::lemma_sort_multiset(m, |a: RowView, b: RowView| view_before(a, b));
    assert(rows.to_multiset().count(rows[i]) > 0);
    assert(m.contains(rows[i]));
    let k = choose|k: int| 0 <= k < m.len() && m[k] == rows[i];
    assert(m[k] == f(tbs[k]));
    let u = rows[i].0;
    let entry = |a: (Seq<char>, int), b: (Seq<char>, int)| entry_before(a, b);
    assert(crate::sorting::strict_order(entry)) by {
        assert forall|x: (Seq<char>, int)| !#[trigger] entry(x, x) by {
            crate::text::lemma_seq_lt_irreflexive(x.0);
        }
        assert forall|x: (Seq<char>, int), y: (Seq<char>, int), z: (Seq<char>, int)|
            #[trigger] entry(x, y) && #[trigger] entry(y, z) implies entry(x, z) by {
            crate::text::lemma_seq_lt_transitive(x.0, y.0, z.0);
        }
    }
    crate::sorting::lemma_sort_sorted(
        regs_of(regs, u).map_values(|r: Registration| (r.team_name@, team_points(rules, r.team_id, ms))),
        entry,
    );
}

/// The standings of the users holding a team have one row per such user and
/// no other, in table order: more points first, then more tie-breaker goals,
/// then the lower user id.
pub proof fn law_standings_one_row_per_user(
    rules: ScoringRules,
    regs: Seq<Registration>,
    ms: Seq<crate::scoring::FinishedMatch>,
    tbs: Seq<(u64, i64, Option<String>)>,
)
    requires
        is_standing_users(regs, tbs.map_values(|t: (u64, i64, Option<String>)| t.0)),
    ensures
        standings_of(rules, regs, ms, tbs).len() == tbs.len(),
        crate::sorting::sorted_by(standings_of(rules, regs, ms, tbs), |a: RowView, b: RowView| view_before(a, b)),
        forall|i: int, j: int|
            0 <= i < j < standings_of(rules, regs, ms, tbs).len() ==> (#[trigger] standings_of(rules, regs, ms, tbs)[i]).0
                != (#[trigger] standings_of(rules, regs, ms, tbs)[j]).0,
        forall|i: int|
            0 <= i < standings_of(rules, regs, ms, tbs).len() ==> exists|k: int|
                0 <= k < regs.len() && (#[trigger] regs[k]).user_id == (#[trigger] standings_of(rules, regs, ms, tbs)[i]).0,
        forall|k: int|
            0 <= k < regs.len() ==> exists|i: int|
                0 <= i < standings_of(rules, regs, ms, tbs).len() && (#[trigger] standings_of(rules, regs, ms, tbs)[i]).0
                    == (#[trigger] regs[k]).user_id,
{
    broadcast use vstd::seq_lib::group_to_multiset_ensures;

    let users = tbs.map_values(|t: (u64, i64, Option<String>)| t.0);
    let f = |t: (u64, i64, Option<String>)| expected_row(rules, regs, ms, t.0, t.1, opt_view(t.2));
    let m = tbs.map_values(f);
    let before = |a: RowView, b: RowView| view_before(a, b);
    let rows = standings_of(rules, regs, ms, tbs);
    crate::sorting::lemma_sort_multiset(m, before);
    crate::sorting::lemma_sort_sorted(m, before);
    assert(m.no_duplicates()) by {
        assert forall|a: int, b: int| 0 <= a < m.len() && 0 <= b < m.len() && a != b implies m[a] != m[b] by {
            assert(users[a] == tbs[a].0 && users[b] == tbs[b].0);
            if a < b {
                assert(users[a] < users[b]);
            } else {
                assert(users[b] < users[a]);
            }
        }
    }
    m.lemma_multiset_has_no_duplicates();
    rows.lemma_multiset_has_no_duplicates_conv();
    assert forall|i: int| 0 <= i < rows.len() implies exists|k: int| 0 <= k < tbs.len() && #[trigger] m[k] == #[trigger] rows[i] by {
        assert(rows.to_multiset().count(rows[i]) > 0);
        assert(m.contains(rows[i]));
    }
    assert forall|i: int, j: int| 0 <= i < j < rows.len() implies (#[trigger] rows[i]).0 != (#[trigger] rows[j]).0 by {
        let a = choose|k: int| 0 <= k < tbs.len() && #[trigger] m[k] == rows[i];
        let b = choose|k: int| 0 <= k < tbs.len() && #[trigger] m[k] == rows[j];
        if rows[i].0 == rows[j].0 {
            assert(users[a] == rows[i].0 && users[b] == rows[j].0);
            if a < b {
                assert(users[a] < users[b]);
            } else if b < a {
                assert(users[b] < users[a]);
            }
        }
    }
    assert forall|i: int| 0 <= i < rows.len() implies exists|k: int|
        0 <= k < regs.len() && (#[trigger] regs[k]).user_id == (#[trigger] rows[i]).0 by {
        let u = rows[i].0;
        let a = choose|k: int| 0 <= k < tbs.len() && #[trigger] m[k] == rows[i];
        assert(users[a] == u);
        assert(users.contains(u));
    }
    assert forall|k: int| 0 <= k < regs.len() implies exists|i: int|
        0 <= i < rows.len() && (#[trigger] rows[i]).0 == (#[trigger] regs[k]).user_id by {
        let u = regs[k].user_id;
        assert(users.contains(u));
        let a = choose|a: int| 0 <= a < users.len() && users[a] == u;
        assert(m[a] == f(tbs[a]));
        assert(m.to_multiset().count(m[a]) > 0);
        assert(rows.contains(m[a]));
        let i = choose|i: int| 0 <= i < rows.len() && rows[i] == m[a];
        assert(rows[i].0 == u);
    }
}

} // verus!
