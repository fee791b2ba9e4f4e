//! World Cup tournament logic: group tables ranked by the FIFA rules, the teams
//! that can no longer reach the knockout rounds, and the classification of
//! every team as still in or eliminated.
use vstd::prelude::*;

use crate::api::{full_time_of, Match, SquadPlayerMatch, Team};
use crate::sorting::{filter_seq, insert_sorted, lemma_insert_at, sort_seq};
use crate::text::{opt_text_eq, seq_contains, spec_lowercase, trim_seq};

verus! {

/// Returns full-time goals when the API has populated both sides.
/// football-data.org often marks matches FINISHED before scores are available.
pub fn full_time_score(m: &Match) -> (r: Option<(i64, i64)>)
    ensures
        r == full_time_of(*m),
{
    m.full_time_score()
}

/// The first team of `teams` that answers `query` (trimmed and lowercased) by
/// name, short name, code, or a part of its name.
pub fn find_team<'a>(teams: &'a [Team], query: &str) -> (r: Option<&'a Team>)
    ensures
        r is None <==> forall|i: int|
            0 <= i < teams@.len() ==> !crate::api::team_matches(
                #[trigger] teams@[i],
                spec_lowercase(trim_seq(query@)),
            ),
        r matches Some(t) ==> exists|i: int|
            0 <= i < teams@.len() && *t == teams@[i] && crate::api::team_matches(
                teams@[i],
                spec_lowercase(trim_seq(query@)),
            ) && forall|j: int|
                0 <= j < i ==> !crate::api::team_matches(
                    #[trigger] teams@[j],
                    spec_lowercase(trim_seq(query@)),
                ),
        trim_seq(query@).len() == 0 && teams@.len() > 0 ==> r == Some(&teams@[0]),
{
    crate::api::find_team(teams, query)
}

/// The players whose name answers `query` (trimmed and lowercased), in order.
pub fn find_players<'a>(players: &'a [SquadPlayerMatch], query: &str) -> (r: Vec<
    &'a SquadPlayerMatch,
>)
    ensures
        r@.len() == filter_seq(
            players@,
            |p: SquadPlayerMatch|
                crate::api::player_matches(p, spec_lowercase(trim_seq(query@))),
        ).len(),
        forall|i: int|
            0 <= i < r@.len() ==> *r@[i] == filter_seq(
                players@,
                |p: SquadPlayerMatch|
                    crate::api::player_matches(p, spec_lowercase(trim_seq(query@))),
            )[i],
        trim_seq(query@).len() == 0 ==> r@.len() == players@.len(),
        trim_seq(query@).len() == 0 ==> forall|i: int| 0 <= i < r@.len() ==> *r@[i] == players@[i],
        forall|k: int, i: int|
            0 <= k < players@.len() && #[trigger] crate::text::occurs_at(
                spec_lowercase(players@[k].player_name@),
                spec_lowercase(trim_seq(query@)),
                i,
            ) ==> exists|j: int| 0 <= j < r@.len() && *r@[j] == players@[k],
{
    crate::api::find_players(players, query)
}

/// A team as listed in a classification.
#[derive(Debug)]
pub struct TeamRef {
    pub id: i64,
    pub name: String,
}

/// Every competition team, either still in the tournament or eliminated.
#[derive(Debug)]
pub struct TeamClassification {
    pub still_in: Vec<TeamRef>,
    pub eliminated: Vec<TeamRef>,
}

// ---------------------------------------------------------------- stages
/// The stage is the group stage.
pub open spec fn is_group_stage_spec(stage: Option<String>) -> bool {
    stage matches Some(s) && s@ == "GROUP_STAGE"@
}

/// The stage is one of the knockout rounds that eliminate the loser.
pub open spec fn is_knockout_stage_spec(stage: Option<String>) -> bool {
    stage matches Some(s) && (s@ == "LAST_32"@ || s@ == "LAST_16"@ || s@ == "QUARTER_FINALS"@
        || s@ == "SEMI_FINALS"@ || s@ == "FINAL"@)
}

/// The match is over and its score is known.
pub open spec fn match_is_final_spec(m: Match) -> bool {
    (m.status matches Some(s) && (s@ == "FINISHED"@ || s@ == "AWARDED"@)) && full_time_of(
        m,
    ) is Some
}

fn is_group_stage(stage: &Option<String>) -> (r: bool)
    ensures
        r == is_group_stage_spec(*stage),
{
    opt_text_eq(stage, "GROUP_STAGE")
}

fn is_knockout_stage(stage: &Option<String>) -> (r: bool)
    ensures
        r == is_knockout_stage_spec(*stage),
{
    opt_text_eq(stage, "LAST_32") || opt_text_eq(stage, "LAST_16") || opt_text_eq(
        stage,
        "QUARTER_FINALS",
    ) || opt_text_eq(stage, "SEMI_FINALS") || opt_text_eq(stage, "FINAL")
}

fn match_is_final(m: &Match) -> (r: bool)
    ensures
        r == match_is_final_spec(*m),
{
    (opt_text_eq(&m.status, "FINISHED") || opt_text_eq(&m.status, "AWARDED"))
        && full_time_score(m).is_some()
}

/// The loser of a decided knockout match whose teams are known.
pub open spec fn knockout_loser_spec(m: Match) -> Option<i64> {
    match (full_time_of(m), m.home_team.id, m.away_team.id) {
        (Some((h, a)), Some(home_id), Some(away_id)) => if h > a {
            Some(away_id)
        } else if a > h {
            Some(home_id)
        } else {
            None
        },
        _ => None,
    }
}

fn knockout_loser(m: &Match) -> (r: Option<i64>)
    ensures
        r == knockout_loser_spec(*m),
{
    let (home_goals, away_goals) = match full_time_score(m) {
        Some(s) => s,
        None => return None,
    };
    let home_id = match m.home_team.id {
        Some(id) => id,
        None => return None,
    };
    let away_id = match m.away_team.id {
        Some(id) => id,
        None => return None,
    };
    if home_goals > away_goals {
        Some(away_id)
    } else if away_goals > home_goals {
        Some(home_id)
    } else {
        None
    }
}

// ---------------------------------------------------------------- results
/// A group-stage row: points and goals.
#[derive(Debug, Clone, Copy, PartialEq, Eq)]
pub struct GroupRow {
    pub points: i64,
    pub goals_for: i64,
    pub goals_against: i64,
}

/// A group row with unbounded numbers, for stating results.
pub struct Record {
    pub points: int,
    pub goals_for: int,
    pub goals_against: int,
}

/// The empty record.
pub open spec fn zero_record() -> Record {
    Record { points: 0, goals_for: 0, goals_against: 0 }
}

/// The numbers of a row.
pub open spec fn record_of(r: GroupRow) -> Record {
    Record { points: r.points as int, goals_for: r.goals_for as int, goals_against: r.goals_against as int }
}

/// Goal difference fits an `i64`.
pub open spec fn row_in_range(r: GroupRow) -> bool {
    i64::MIN <= r.goals_for - r.goals_against <= i64::MAX
}

impl GroupRow {
    /// Goals scored minus goals conceded.
    pub fn goal_difference(&self) -> (d: i64)
        requires
            row_in_range(*self),
        ensures
            d == self.goals_for - self.goals_against,
    {
        self.goals_for - self.goals_against
    }
}

/// One finished (or imagined) group match between two known teams.
#[derive(Debug, Clone, Copy, PartialEq, Eq)]
pub struct GroupResult {
    pub home_id: i64,
    pub away_id: i64,
    pub home_goals: i64,
    pub away_goals: i64,
}

/// The result a final match contributes to its group's table.
pub open spec fn result_of(m: Match) -> Option<GroupResult> {
    if match_is_final_spec(m) {
        match (full_time_of(m), m.home_team.id, m.away_team.id) {
            (Some((h, a)), Some(home_id), Some(away_id)) => Some(
                GroupResult { home_id, away_id, home_goals: h, away_goals: a },
            ),
            _ => None,
        }
    } else {
        None
    }
}

/// The results of the final matches among `gm`, in order.
pub open spec fn results_of(gm: Seq<&Match>) -> Seq<GroupResult>
    decreases gm.len(),
{
    if gm.len() == 0 {
        Seq::empty()
    } else {
        match result_of(*gm.last()) {
            Some(r) => results_of(gm.drop_last()).push(r),
            None => results_of(gm.drop_last()),
        }
    }
}

/// The results of the final matches, in order.
pub fn results_from_group_matches(group_matches: &[&Match]) -> (r: Vec<GroupResult>)
    ensures
        r@ == results_of(group_matches@),
{
    let mut r: Vec<GroupResult> = Vec::new();
    let mut i: usize = 0;
    while i < group_matches.len()
        invariant
            i <= group_matches@.len(),
            r@ == results_of(group_matches@.take(i as int)),
        decreases group_matches.len() - i,
    {
        let ghost after = group_matches@.take(i + 1);
        assert(after.drop_last() =~= group_matches@.take(i as int));
        let m = group_matches[i];
        if match_is_final(m) {
            match (full_time_score(m), m.home_team.id, m.away_team.id) {
                (Some((h, a)), Some(home_id), Some(away_id)) => {
                    r.push(GroupResult { home_id, away_id, home_goals: h, away_goals: a });
                },
                _ => {},
            }
        }
        i = i + 1;
    }
    assert(group_matches@.take(group_matches.len() as int) =~= group_matches@);
    r
}

// ---------------------------------------------------------------- tables
/// Absolute value.
pub open spec fn abs(x: int) -> int {
    if x < 0 {
        -x
    } else {
        x
    }
}

/// Sum of absolute goal counts over the results.
pub open spec fn result_volume(rs: Seq<GroupResult>) -> int
    decreases rs.len(),
{
    if rs.len() == 0 {
        0
    } else {
        result_volume(rs.drop_last()) + abs(rs.last().home_goals as int) + abs(
            rs.last().away_goals as int,
        )
    }
}

/// The results are far enough from the `i64` limits that every sum a table
/// needs fits: twice the goal volume plus three points per result.
pub open spec fn results_fit(rs: Seq<GroupResult>) -> bool {
    2 * result_volume(rs) + 3 * rs.len() <= i64::MAX
}

/// Points for a side that scored `gf` and conceded `ga`.
pub open spec fn points_for(gf: int, ga: int) -> int {
    if gf > ga {
        3
    } else if gf == ga {
        1
    } else {
        0
    }
}

/// A record after one more match.
pub open spec fn credit(r: Record, gf: int, ga: int) -> Record {
    Record {
        points: r.points + points_for(gf, ga),
        goals_for: r.goals_for + gf,
        goals_against: r.goals_against + ga,
    }
}

/// Some entry of the table is for `id`.
pub open spec fn has_id(t: Seq<(i64, Record)>, id: i64) -> bool {
    exists|j: int| 0 <= j < t.len() && t[j].0 == id
}

/// The table with an empty row for `id` added at the end if it has none.
pub open spec fn with_team(t: Seq<(i64, Record)>, id: i64) -> Seq<(i64, Record)> {
    if has_id(t, id) {
        t
    } else {
        t.push((id, zero_record()))
    }
}

/// The table with the row of `id` credited with one match.
pub open spec fn update_team(t: Seq<(i64, Record)>, id: i64, gf: int, ga: int) -> Seq<
    (i64, Record),
> {
    Seq::new(t.len(), |j: int| if t[j].0 == id { (id, credit(t[j].1, gf, ga)) } else { t[j] })
}

/// The table after one more result.
pub open spec fn apply_result(t: Seq<(i64, Record)>, r: GroupResult) -> Seq<(i64, Record)> {
    let t1 = with_team(with_team(t, r.home_id), r.away_id);
    let t2 = update_team(t1, r.home_id, r.home_goals as int, r.away_goals as int);
    update_team(t2, r.away_id, r.away_goals as int, r.home_goals as int)
}

/// The table of `rs`: one row per team, in order of first appearance.
pub open spec fn table_of(rs: Seq<GroupResult>) -> Seq<(i64, Record)>
    decreases rs.len(),
{
    if rs.len() == 0 {
        Seq::empty()
    } else {
        apply_result(table_of(rs.drop_last()), rs.last())
    }
}

/// The row of `id` in the table, or the empty record.
pub open spec fn lookup(t: Seq<(i64, Record)>, id: i64) -> Record
    decreases t.len(),
{
    if t.len() == 0 {
        zero_record()
    } else if t[0].0 == id {
        t[0].1
    } else {
        lookup(t.drop_first(), id)
    }
}

/// The numbers of an executable table.
pub open spec fn table_view(v: Seq<(i64, GroupRow)>) -> Seq<(i64, Record)> {
    v.map_values(|e: (i64, GroupRow)| (e.0, record_of(e.1)))
}

/// Every record in the table is within `vol` goals and `3 * n` points.
pub open spec fn table_bounded(t: Seq<(i64, Record)>, vol: int, n: int) -> bool {
    forall|j: int|
        0 <= j < t.len() ==> 0 <= (#[trigger] t[j]).1.points <= 3 * n && abs(t[j].1.goals_for)
            <= vol && abs(t[j].1.goals_against) <= vol
}

/// Table rows have distinct teams.
pub open spec fn distinct_ids(t: Seq<(i64, Record)>) -> bool {
    forall|i: int, j: int| 0 <= i < j < t.len() ==> t[i].0 != t[j].0
}

/// Adding an empty row keeps a table bounded and its rows distinct.
proof fn lemma_with_team(t: Seq<(i64, Record)>, id: i64, vol: int, n: int)
    requires
        vol >= 0,
        n >= 0,
    ensures
        table_bounded(t, vol, n) ==> table_bounded(with_team(t, id), vol, n),
        distinct_ids(t) ==> distinct_ids(with_team(t, id)),
        has_id(with_team(t, id), id),
        forall|j: int| 0 <= j < t.len() ==> with_team(t, id)[j] == t[j],
{
    if !has_id(t, id) {
        let t1 = t.push((id, zero_record()));
        assert(t1[t.len() as int].0 == id);
        if table_bounded(t, vol, n) {
            assert forall|j: int| 0 <= j < t1.len() implies 0 <= (#[trigger] t1[j]).1.points <= 3 * n
                && abs(t1[j].1.goals_for) <= vol && abs(t1[j].1.goals_against) <= vol by {
                if j < t.len() {
                    assert(t1[j] == t[j]);
                }
            }
        }
    }
}

/// Goal volume is never negative.
proof fn lemma_volume_nonneg(rs: Seq<GroupResult>)
    ensures
        result_volume(rs) >= 0,
    decreases rs.len(),
{
    if rs.len() > 0 {
        lemma_volume_nonneg(rs.drop_last());
    }
}

/// Tables stay within the volume of their results, and rows stay distinct.
pub proof fn lemma_table_bounded(rs: Seq<GroupResult>)
    ensures
        table_bounded(table_of(rs), result_volume(rs), rs.len() as int),
        distinct_ids(table_of(rs)),
    decreases rs.len(),
{
    if rs.len() > 0 {
        let init = rs.drop_last();
        let r = rs.last();
        lemma_table_bounded(init);
        let t = table_of(init);
        let vol = result_volume(init);
        let n = init.len() as int;
        let h = r.home_goals as int;
        let a = r.away_goals as int;
        let t1 = with_team(with_team(t, r.home_id), r.away_id);
        lemma_volume_nonneg(init);
        lemma_with_team(t, r.home_id, vol, n);
        lemma_with_team(with_team(t, r.home_id), r.away_id, vol, n);
        let t2 = update_team(t1, r.home_id, h, a);
        let t3 = update_team(t2, r.away_id, a, h);
        assert(table_of(rs) == t3);
        let vol2 = result_volume(rs);
        assert(vol2 == vol + abs(h) + abs(a));
        // The same team may take both sides, so a row is credited at most twice.
        assert forall|j: int| 0 <= j < t3.len() implies 0 <= (#[trigger] t3[j]).1.points <= 3
            * rs.len() && abs(t3[j].1.goals_for) <= vol2 && abs(t3[j].1.goals_against)
            <= vol2 by {
            let e1 = t1[j];
            if e1.0 == r.home_id && e1.0 == r.away_id {
                assert(points_for(h, a) + points_for(a, h) <= 3);
            }
        }
        assert(distinct_ids(t3));
    }
}

/// Looking a team up finds its first row.
proof fn lemma_lookup_at(t: Seq<(i64, Record)>, id: i64, i: int)
    requires
        0 <= i <= t.len(),
        forall|j: int| 0 <= j < i ==> (#[trigger] t[j]).0 != id,
        i == t.len() || t[i].0 == id,
    ensures
        lookup(t, id) == (if i == t.len() {
            zero_record()
        } else {
            t[i].1
        }),
    decreases t.len(),
{
    if t.len() > 0 && i > 0 {
        assert(t[0].0 != id);
        let rest = t.drop_first();
        assert forall|j: int| 0 <= j < i - 1 implies (#[trigger] rest[j]).0 != id by {
            assert(rest[j] == t[j + 1]);
        }
        lemma_lookup_at(rest, id, i - 1);
    }
}

/// The row of `id` in an executable table, or an empty row.
fn lookup_exec(v: &Vec<(i64, GroupRow)>, id: i64) -> (r: GroupRow)
    ensures
        record_of(r) == lookup(table_view(v@), id),
{
    let ghost t = table_view(v@);
    let mut i: usize = 0;
    while i < v.len()
        invariant
            i <= v.len(),
            t == table_view(v@),
            forall|j: int| 0 <= j < i ==> (#[trigger] t[j]).0 != id,
        decreases v.len() - i,
    {
        if v[i].0 == id {
            proof {
                lemma_lookup_at(t, id, i as int);
            }
            return v[i].1;
        }
        i = i + 1;
    }
    proof {
        lemma_lookup_at(t, id, v.len() as int);
    }
    GroupRow { points: 0, goals_for: 0, goals_against: 0 }
}

/// Adds an empty row for `id` when the table has none.
fn ensure_team(v: &mut Vec<(i64, GroupRow)>, id: i64)
    ensures
        table_view(final(v)@) == with_team(table_view(old(v)@), id),
{
    let ghost t = table_view(v@);
    let mut i: usize = 0;
    while i < v.len()
        invariant
            i <= v.len(),
            t == table_view(v@),
            forall|j: int| 0 <= j < i ==> (#[trigger] t[j]).0 != id,
        decreases v.len() - i,
    {
        if v[i].0 == id {
            assert(has_id(t, id)) by {
                assert(t[i as int].0 == id);
            }
            return;
        }
        i = i + 1;
    }
    v.push((id, GroupRow { points: 0, goals_for: 0, goals_against: 0 }));
    assert(table_view(v@) =~= t.push((id, zero_record())));
}

/// Credits the row of `id` with one match.
fn credit_team(v: &mut Vec<(i64, GroupRow)>, id: i64, gf: i64, ga: i64)
    requires
        forall|j: int|
            0 <= j < old(v)@.len() && (#[trigger] old(v)@[j]).0 == id ==> i64::MIN <= old(v)@[j].1.points + points_for(
                gf as int,
                ga as int,
            ) <= i64::MAX && i64::MIN <= old(v)@[j].1.goals_for + gf <= i64::MAX && i64::MIN
                <= old(v)@[j].1.goals_against + ga <= i64::MAX,
    ensures
        table_view(final(v)@) == update_team(table_view(old(v)@), id, gf as int, ga as int),
{
    let ghost t = table_view(v@);
    let ghost orig = v@;
    let mut i: usize = 0;
    while i < v.len()
        invariant
            i <= v.len() == orig.len(),
            t == table_view(orig),
            forall|j: int|
                0 <= j < orig.len() && (#[trigger] orig[j]).0 == id ==> i64::MIN <= orig[j].1.points
                    + points_for(gf as int, ga as int) <= i64::MAX && i64::MIN <= orig[j].1.goals_for + gf
                    <= i64::MAX && i64::MIN <= orig[j].1.goals_against + ga <= i64::MAX,
            forall|j: int| i <= j < v.len() ==> v@[j] == orig[j],
            forall|j: int|
                0 <= j < i ==> (#[trigger] table_view(v@)[j]) == update_team(
                    t,
                    id,
                    gf as int,
                    ga as int,
                )[j],
        decreases v.len() - i,
    {
        let ghost prev = v@;
        let (eid, row) = v[i];
        assert(v@[i as int] == orig[i as int]);
        if eid == id {
            let pts: i64 = if gf > ga {
                3
            } else if gf == ga {
                1
            } else {
                0
            };
            let new_row = GroupRow {
                points: row.points + pts,
                goals_for: row.goals_for + gf,
                goals_against: row.goals_against + ga,
            };
            v.set(i, (eid, new_row));
        }
        proof {
            assert forall|j: int| 0 <= j < i + 1 implies (#[trigger] table_view(v@)[j])
                == update_team(t, id, gf as int, ga as int)[j] by {
                if j < i {
                    assert(table_view(v@)[j] == table_view(prev)[j]);
                } else {
                    assert(t[j] == (orig[j].0, record_of(orig[j].1)));
                }
            }
        }
        i = i + 1;
    }
    assert(table_view(v@) =~= update_team(t, id, gf as int, ga as int));
}

/// The table of one more result.
fn apply_match_result(v: &mut Vec<(i64, GroupRow)>, r: GroupResult, ghost_rs: Ghost<Seq<GroupResult>>)
    requires
        table_view(old(v)@) == table_of(ghost_rs@),
        results_fit(ghost_rs@.push(r)),
    ensures
        table_view(final(v)@) == table_of(ghost_rs@.push(r)),
{
    let ghost rs = ghost_rs@.push(r);
    proof {
        lemma_table_bounded(ghost_rs@);
        lemma_table_bounded(rs);
        assert(rs.drop_last() =~= ghost_rs@);
    }
    let ghost t0 = table_view(v@);
    ensure_team(v, r.home_id);
    ensure_team(v, r.away_id);
    let ghost t1 = table_view(v@);
    proof {
        let vol = result_volume(ghost_rs@);
        assert(result_volume(rs) == vol + abs(r.home_goals as int) + abs(r.away_goals as int));
        lemma_volume_nonneg(ghost_rs@);
        lemma_with_team(t0, r.home_id, vol, ghost_rs@.len() as int);
        lemma_with_team(with_team(t0, r.home_id), r.away_id, vol, ghost_rs@.len() as int);
        assert forall|j: int| 0 <= j < v@.len() && (#[trigger] v@[j]).0 == r.home_id implies i64::MIN
            <= v@[j].1.points + points_for(r.home_goals as int, r.away_goals as int) <= i64::MAX
            && i64::MIN <= v@[j].1.goals_for + r.home_goals <= i64::MAX && i64::MIN <= v@[j].1.goals_against
            + r.away_goals <= i64::MAX by {
            assert(t1[j] == (v@[j].0, record_of(v@[j].1)));
        }
    }
    credit_team(v, r.home_id, r.home_goals, r.away_goals);
    let ghost t2 = table_view(v@);
    proof {
        let vol = result_volume(ghost_rs@);
        assert forall|j: int| 0 <= j < v@.len() && (#[trigger] v@[j]).0 == r.away_id implies i64::MIN
            <= v@[j].1.points + points_for(r.away_goals as int, r.home_goals as int) <= i64::MAX
            && i64::MIN <= v@[j].1.goals_for + r.away_goals <= i64::MAX && i64::MIN <= v@[j].1.goals_against
            + r.home_goals <= i64::MAX by {
            assert(t2[j] == (v@[j].0, record_of(v@[j].1)));
            assert(t1[j].1.points <= 3 * ghost_rs@.len());
        }
    }
    credit_team(v, r.away_id, r.away_goals, r.home_goals);
    assert(table_of(rs) == apply_result(table_of(ghost_rs@), r));
}

/// The table of `results`: one row per team in order of first appearance.
pub fn standings_from_results(results: &[GroupResult]) -> (r: Vec<(i64, GroupRow)>)
    requires
        results_fit(results@),
    ensures
        table_view(r@) == table_of(results@),
{
    let mut rows: Vec<(i64, GroupRow)> = Vec::new();
    let mut i: usize = 0;
    assert(table_view(rows@) =~= table_of(results@.take(0)));
    while i < results.len()
        invariant
            i <= results@.len(),
            results_fit(results@),
            table_view(rows@) == table_of(results@.take(i as int)),
        decreases results.len() - i,
    {
        let ghost before = results@.take(i as int);
        let ghost after = results@.take(i + 1);
        assert(after =~= before.push(results@[i as int]));
        proof {
            lemma_volume_prefix(results@, i + 1);
        }
        apply_match_result(&mut rows, results[i], Ghost(before));
        i = i + 1;
    }
    assert(results@.take(results.len() as int) =~= results@);
    rows
}

/// A prefix of the results has at most the volume of all of them.
pub proof fn lemma_volume_prefix(rs: Seq<GroupResult>, k: int)
    requires
        0 <= k <= rs.len(),
    ensures
        result_volume(rs.take(k)) <= result_volume(rs),
        results_fit(rs) ==> results_fit(rs.take(k)),
    decreases rs.len() - k,
{
    if k < rs.len() {
        lemma_volume_prefix(rs, k + 1);
        assert(rs.take(k + 1).drop_last() =~= rs.take(k));
    } else {
        assert(rs.take(k) =~= rs);
    }
}

// ---------------------------------------------------------------- ranking
/// Teams of the table whose points equal `pts`.
pub open spec fn tied_ids(t: Seq<(i64, Record)>, pts: int) -> Set<i64> {
    Set::new(|id: i64| has_id(t, id) && lookup(t, id).points == pts)
}

/// The results played between two teams of `ids`.
pub open spec fn results_among(rs: Seq<GroupResult>, ids: Set<i64>) -> Seq<GroupResult> {
    filter_seq(rs, |r: GroupResult| ids.contains(r.home_id) && ids.contains(r.away_id))
}

/// Record of `id` in the matches among the teams level with it on points.
pub open spec fn h2h_record(rs: Seq<GroupResult>, id: i64) -> Record {
    let t = table_of(rs);
    lookup(table_of(results_among(rs, tied_ids(t, lookup(t, id).points))), id)
}

/// Goal difference of a record.
pub open spec fn gd(r: Record) -> int {
    r.goals_for - r.goals_against
}

/// FIFA group order: points, then points, goal difference and goals scored in
/// the matches among the teams level on points, then overall goal difference,
/// then goals scored, then the lower team id.
pub open spec fn rank_before(rs: Seq<GroupResult>, a: i64, b: i64) -> bool {
    let t = table_of(rs);
    let ra = lookup(t, a);
    let rb = lookup(t, b);
    let ha = h2h_record(rs, a);
    let hb = h2h_record(rs, b);
    if ra.points != rb.points {
        ra.points > rb.points
    } else if ha.points != hb.points {
        ha.points > hb.points
    } else if gd(ha) != gd(hb) {
        gd(ha) > gd(hb)
    } else if ha.goals_for != hb.goals_for {
        ha.goals_for > hb.goals_for
    } else if gd(ra) != gd(rb) {
        gd(ra) > gd(rb)
    } else if ra.goals_for != rb.goals_for {
        ra.goals_for > rb.goals_for
    } else {
        a < b
    }
}

/// The rows of the table, ranked.
pub open spec fn ranked_of(rs: Seq<GroupResult>) -> Seq<(i64, Record)> {
    sort_seq(table_of(rs), |x: (i64, Record), y: (i64, Record)| rank_before(rs, x.0, y.0))
}

/// A filter never adds goal volume.
proof fn lemma_filter_volume(rs: Seq<GroupResult>, p: spec_fn(GroupResult) -> bool)
    ensures
        result_volume(filter_seq(rs, p)) <= result_volume(rs),
        filter_seq(rs, p).len() <= rs.len(),
        results_fit(rs) ==> results_fit(filter_seq(rs, p)),
    decreases rs.len(),
{
    if rs.len() > 0 {
        lemma_filter_volume(rs.drop_last(), p);
        if p(rs.last()) {
            assert(filter_seq(rs, p).drop_last() =~= filter_seq(rs.drop_last(), p));
        }
    }
}

/// In a table with distinct teams, a row is what looking its team up gives.
proof fn lemma_lookup_distinct(t: Seq<(i64, Record)>, j: int)
    requires
        distinct_ids(t),
        0 <= j < t.len(),
    ensures
        lookup(t, t[j].0) == t[j].1,
{
    lemma_lookup_at(t, t[j].0, j);
}

/// Whether `x` is in `v`.
fn contains_id(v: &Vec<i64>, x: i64) -> (r: bool)
    ensures
        r == v@.contains(x),
{
    let mut i: usize = 0;
    while i < v.len()
        invariant
            i <= v.len(),
            forall|j: int| 0 <= j < i ==> v@[j] != x,
        decreases v.len() - i,
    {
        if v[i] == x {
            return true;
        }
        i = i + 1;
    }
    false
}

/// The teams of the table with `pts` points.
fn tied_ids_exec(table: &Vec<(i64, GroupRow)>, pts: i64) -> (r: Vec<i64>)
    requires
        distinct_ids(table_view(table@)),
    ensures
        forall|x: i64| r@.contains(x) == tied_ids(table_view(table@), pts as int).contains(x),
{
    let ghost t = table_view(table@);
    let mut r: Vec<i64> = Vec::new();
    let mut i: usize = 0;
    while i < table.len()
        invariant
            i <= table.len(),
            t == table_view(table@),
            distinct_ids(t),
            forall|x: i64|
                r@.contains(x) == (exists|j: int|
                    0 <= j < i && (#[trigger] t[j]).0 == x && t[j].1.points == pts),
        decreases table.len() - i,
    {
        let ghost prev = r@;
        if table[i].1.points == pts {
            r.push(table[i].0);
        }
        proof {
            assert forall|x: i64| r@.contains(x) == (exists|j: int|
                0 <= j < i + 1 && (#[trigger] t[j]).0 == x && t[j].1.points == pts) by {
                assert(t[i as int] == (table@[i as int].0, record_of(table@[i as int].1)));
                if r@.contains(x) {
                    if !prev.contains(x) {
                        let k = choose|k: int| 0 <= k < r@.len() && r@[k] == x;
                        if k < prev.len() {
                            assert(prev[k] == x);
                        }
                        assert(t[i as int].0 == x);
                    }
                }
                if exists|j: int| 0 <= j < i + 1 && (#[trigger] t[j]).0 == x && t[j].1.points == pts {
                    let j = choose|j: int| 0 <= j < i + 1 && (#[trigger] t[j]).0 == x && t[j].1.points == pts;
                    if j < i {
                        assert(prev.contains(x));
                        let k = choose|k: int| 0 <= k < prev.len() && prev[k] == x;
                        assert(r@[k] == x);
                    } else {
                        assert(r@[r@.len() - 1] == x);
                    }
                }
            }
        }
        i = i + 1;
    }
    proof {
        assert forall|x: i64| r@.contains(x) == tied_ids(t, pts as int).contains(x) by {
            if r@.contains(x) {
                let j = choose|j: int| 0 <= j < t.len() && (#[trigger] t[j]).0 == x && t[j].1.points == pts;
                lemma_lookup_distinct(t, j);
            }
            if tied_ids(t, pts as int).contains(x) {
                let j = choose|j: int| 0 <= j < t.len() && t[j].0 == x;
                lemma_lookup_distinct(t, j);
            }
        }
    }
    r
}

/// The results between two teams of `ids`.
fn results_among_exec(results: &[GroupResult], ids: &Vec<i64>, ghost_ids: Ghost<Set<i64>>) -> (r: Vec<GroupResult>)
    requires
        forall|x: i64| ids@.contains(x) == ghost_ids@.contains(x),
    ensures
        r@ == results_among(results@, ghost_ids@),
{
    let ghost p = |r: GroupResult| ghost_ids@.contains(r.home_id) && ghost_ids@.contains(r.away_id);
    let mut r: Vec<GroupResult> = Vec::new();
    let mut i: usize = 0;
    while i < results.len()
        invariant
            i <= results@.len(),
            forall|x: i64| ids@.contains(x) == ghost_ids@.contains(x),
            p == (|r: GroupResult| ghost_ids@.contains(r.home_id) && ghost_ids@.contains(r.away_id)),
            r@ == filter_seq(results@.take(i as int), p),
        decreases results.len() - i,
    {
        let ghost after = results@.take(i + 1);
        assert(after.drop_last() =~= results@.take(i as int));
        let x = results[i];
        if contains_id(ids, x.home_id) && contains_id(ids, x.away_id) {
            r.push(x);
        }
        i = i + 1;
    }
    assert(results@.take(results.len() as int) =~= results@);
    r
}

/// The comparison numbers of one team: its record and its head-to-head record.
struct RankKey {
    points: i64,
    h2h_points: i64,
    h2h_gd: i64,
    h2h_gf: i64,
    gd: i64,
    gf: i64,
}

fn rank_key(results: &[GroupResult], table: &Vec<(i64, GroupRow)>, id: i64) -> (k: RankKey)
    requires
        results_fit(results@),
        table_view(table@) == table_of(results@),
    ensures
        k.points == lookup(table_of(results@), id).points,
        k.gd == gd(lookup(table_of(results@), id)),
        k.gf == lookup(table_of(results@), id).goals_for,
        k.h2h_points == h2h_record(results@, id).points,
        k.h2h_gd == gd(h2h_record(results@, id)),
        k.h2h_gf == h2h_record(results@, id).goals_for,
{
    let ghost t = table_of(results@);
    proof {
        lemma_table_bounded(results@);
        lemma_volume_nonneg(results@);
    }
    let row = lookup_exec(table, id);
    proof {
        if has_id(t, id) {
            let j = choose|j: int| 0 <= j < t.len() && t[j].0 == id;
            lemma_lookup_distinct(t, j);
        } else {
            assert forall|j: int| 0 <= j < t.len() implies (#[trigger] t[j]).0 != id by {}
            lemma_lookup_at(t, id, t.len() as int);
        }
    }
    let tied = tied_ids_exec(table, row.points);
    let ghost tied_set = tied_ids(t, lookup(t, id).points);
    let mini = results_among_exec(results, &tied, Ghost(tied_set));
    proof {
        lemma_filter_volume(results@, |r: GroupResult| tied_set.contains(r.home_id) && tied_set.contains(r.away_id));
        lemma_table_bounded(mini@);
        lemma_volume_nonneg(mini@);
    }
    let h2h_table = standings_from_results(mini.as_slice());
    let h = lookup_exec(&h2h_table, id);
    proof {
        let ht = table_of(mini@);
        if has_id(ht, id) {
            let j = choose|j: int| 0 <= j < ht.len() && ht[j].0 == id;
            lemma_lookup_distinct(ht, j);
        } else {
            assert forall|j: int| 0 <= j < ht.len() implies (#[trigger] ht[j]).0 != id by {}
            lemma_lookup_at(ht, id, ht.len() as int);
        }
    }
    RankKey {
        points: row.points,
        h2h_points: h.points,
        h2h_gd: h.goals_for - h.goals_against,
        h2h_gf: h.goals_for,
        gd: row.goals_for - row.goals_against,
        gf: row.goals_for,
    }
}

/// Whether `a` ranks above `b` in the group table of `results`.
fn rank_before_exec(results: &[GroupResult], table: &Vec<(i64, GroupRow)>, a: i64, b: i64) -> (r: bool)
    requires
        results_fit(results@),
        table_view(table@) == table_of(results@),
    ensures
        r == rank_before(results@, a, b),
{
    let ka = rank_key(results, table, a);
    let kb = rank_key(results, table, b);
    if ka.points != kb.points {
        ka.points > kb.points
    } else if ka.h2h_points != kb.h2h_points {
        ka.h2h_points > kb.h2h_points
    } else if ka.h2h_gd != kb.h2h_gd {
        ka.h2h_gd > kb.h2h_gd
    } else if ka.h2h_gf != kb.h2h_gf {
        ka.h2h_gf > kb.h2h_gf
    } else if ka.gd != kb.gd {
        ka.gd > kb.gd
    } else if ka.gf != kb.gf {
        ka.gf > kb.gf
    } else {
        a < b
    }
}

/// The rows of `v` sorted into group order.
fn sort_rows(results: &[GroupResult], table: &Vec<(i64, GroupRow)>, v: Vec<(i64, GroupRow)>) -> (r: Vec<(i64, GroupRow)>)
    requires
        results_fit(results@),
        table_view(table@) == table_of(results@),
    ensures
        table_view(r@) == sort_seq(
            table_view(v@),
            |x: (i64, Record), y: (i64, Record)| rank_before(results@, x.0, y.0),
        ),
    decreases v.len(),
{
    let ghost before = |x: (i64, Record), y: (i64, Record)| rank_before(results@, x.0, y.0);
    let mut v = v;
    let ghost orig = v@;
    match v.pop() {
        None => {
            assert(table_view(orig) =~= Seq::<(i64, Record)>::empty());
            v
        },
        Some(x) => {
            assert(table_view(v@) =~= table_view(orig).drop_last());
            let mut r = sort_rows(results, table, v);
            let ghost s = table_view(r@);
            let ghost xv = (x.0, record_of(x.1));
            let mut k: usize = 0;
            while k < r.len() && !rank_before_exec(results, table, x.0, r[k].0)
                invariant
                    k <= r.len(),
                    s == table_view(r@),
                    results_fit(results@),
                    table_view(table@) == table_of(results@),
                    before == (|x: (i64, Record), y: (i64, Record)| rank_before(results@, x.0, y.0)),
                    xv == (x.0, record_of(x.1)),
                    forall|j: int| 0 <= j < k ==> !before(xv, #[trigger] s[j]),
                decreases r.len() - k,
            {
                assert(s[k as int] == (r@[k as int].0, record_of(r@[k as int].1)));
                k = k + 1;
            }
            proof {
                lemma_insert_at(xv, s, before, k as int);
            }
            r.insert(k, x);
            assert(table_view(r@) =~= s.insert(k as int, xv));
            assert(table_view(orig).last() == xv);
            r
        },
    }
}

/// The table of `results` in group order.
pub fn ranked_from_results(results: &[GroupResult]) -> (r: Vec<(i64, GroupRow)>)
    requires
        results_fit(results@),
    ensures
        table_view(r@) == ranked_of(results@),
{
    let table = standings_from_results(results);
    let copy = copy_rows(&table);
    sort_rows(results, &table, copy)
}

fn copy_rows(v: &Vec<(i64, GroupRow)>) -> (r: Vec<(i64, GroupRow)>)
    ensures
        r@ == v@,
{
    let mut r: Vec<(i64, GroupRow)> = Vec::new();
    let mut i: usize = 0;
    while i < v.len()
        invariant
            i <= v.len(),
            r@ == v@.take(i as int),
        decreases v.len() - i,
    {
        r.push(v[i]);
        i = i + 1;
        assert(r@ =~= v@.take(i as int));
    }
    assert(v@.take(v.len() as int) =~= v@);
    r
}

// ---------------------------------------------------------------- groups
/// Sum of absolute known goals over the matches.
pub open spec fn match_volume(gm: Seq<&Match>) -> int
    decreases gm.len(),
{
    if gm.len() == 0 {
        0
    } else {
        match_volume(gm.drop_last()) + match full_time_of(*gm.last()) {
            Some((h, a)) => abs(h as int) + abs(a as int),
            None => 0,
        }
    }
}

/// The matches are far enough from the `i64` limits that every table built
/// from them, with any outcome of the matches still to play, fits.
pub open spec fn matches_fit(gm: Seq<&Match>) -> bool {
    10 * match_volume(gm) + 13 * gm.len() + 8 <= i64::MAX
}

/// The matches still to be decided.
pub open spec fn pending_of<'a>(gm: Seq<&'a Match>) -> Seq<&'a Match> {
    filter_seq(gm, |m: &Match| !match_is_final_spec(*m))
}

/// Every result sequence the pending matches can still produce after `prefix`,
/// each pending match ending 1-0, 0-0 or 0-1, in that order. A pending match
/// without both teams stops every continuation.
pub open spec fn extend_outcomes(prefix: Seq<GroupResult>, pending: Seq<&Match>) -> Seq<
    Seq<GroupResult>,
>
    decreases pending.len(),
{
    if pending.len() == 0 {
        seq![prefix]
    } else {
        match (pending[0].home_team.id, pending[0].away_team.id) {
            (Some(h), Some(a)) => {
                let rest = pending.drop_first();
                extend_outcomes(
                    prefix.push(GroupResult { home_id: h, away_id: a, home_goals: 1, away_goals: 0 }),
                    rest,
                ) + extend_outcomes(
                    prefix.push(GroupResult { home_id: h, away_id: a, home_goals: 0, away_goals: 0 }),
                    rest,
                ) + extend_outcomes(
                    prefix.push(GroupResult { home_id: h, away_id: a, home_goals: 0, away_goals: 1 }),
                    rest,
                )
            },
            _ => Seq::empty(),
        }
    }
}

/// The listed endings of the group, one per way of winning, drawing and
/// losing its pending matches: the final results, then 1-0, 0-0 or 0-1 for
/// each pending match.
pub open spec fn completions(gm: Seq<&Match>) -> Seq<Seq<GroupResult>> {
    extend_outcomes(results_of(gm), pending_of(gm))
}

/// The views of a list of result lists.
pub open spec fn vviews(s: Seq<Vec<GroupResult>>) -> Seq<Seq<GroupResult>> {
    s.map_values(|v: Vec<GroupResult>| v@)
}

proof fn lemma_results_volume(gm: Seq<&Match>)
    ensures
        result_volume(results_of(gm)) <= match_volume(gm),
        results_of(gm).len() + pending_of(gm).len() <= gm.len(),
        match_volume(gm) >= 0,
    decreases gm.len(),
{
    if gm.len() > 0 {
        lemma_results_volume(gm.drop_last());
        match result_of(*gm.last()) {
            Some(r) => {
                assert(results_of(gm).drop_last() =~= results_of(gm.drop_last()));
            },
            None => {},
        }
    }
}

proof fn lemma_extend_fit(prefix: Seq<GroupResult>, pending: Seq<&Match>)
    ensures
        forall|i: int|
            0 <= i < extend_outcomes(prefix, pending).len() ==> result_volume(
                #[trigger] extend_outcomes(prefix, pending)[i],
            ) <= result_volume(prefix) + pending.len() && extend_outcomes(prefix, pending)[i].len()
                == prefix.len() + pending.len(),
    decreases pending.len(),
{
    if pending.len() > 0 {
        match (pending[0].home_team.id, pending[0].away_team.id) {
            (Some(h), Some(a)) => {
                let rest = pending.drop_first();
                let p1 = prefix.push(GroupResult { home_id: h, away_id: a, home_goals: 1, away_goals: 0 });
                let p2 = prefix.push(GroupResult { home_id: h, away_id: a, home_goals: 0, away_goals: 0 });
                let p3 = prefix.push(GroupResult { home_id: h, away_id: a, home_goals: 0, away_goals: 1 });
                assert(p1.drop_last() =~= prefix);
                assert(p2.drop_last() =~= prefix);
                assert(p3.drop_last() =~= prefix);
                lemma_extend_fit(p1, rest);
                lemma_extend_fit(p2, rest);
                lemma_extend_fit(p3, rest);
                let e1 = extend_outcomes(p1, rest);
                let e2 = extend_outcomes(p2, rest);
                let e3 = extend_outcomes(p3, rest);
                let e = extend_outcomes(prefix, pending);
                assert(e == e1 + e2 + e3);
                assert forall|i: int| 0 <= i < e.len() implies result_volume(#[trigger] e[i])
                    <= result_volume(prefix) + pending.len() && e[i].len() == prefix.len() + pending.len() by {
                    if i < e1.len() {
                        assert(e[i] == e1[i]);
                    } else if i < e1.len() + e2.len() {
                        assert(e[i] == e2[i - e1.len()]);
                    } else {
                        assert(e[i] == e3[i - e1.len() - e2.len()]);
                    }
                }
            },
            _ => {},
        }
    }
}

/// Every listed ending of a group that fits also fits as a table.
proof fn lemma_completions_fit(gm: Seq<&Match>)
    requires
        matches_fit(gm),
    ensures
        results_fit(results_of(gm)),
        forall|i: int| 0 <= i < completions(gm).len() ==> results_fit(#[trigger] completions(gm)[i]),
        forall|i: int| 0 <= i < completions(gm).len() ==> grows_fit(#[trigger] completions(gm)[i]),
{
    lemma_results_volume(gm);
    lemma_extend_fit(results_of(gm), pending_of(gm));
}

/// A listed ending is far enough from the `i64` limits for any of its
/// results to grow by twice its goals and one more, and still fit.
pub open spec fn grows_fit(rs: Seq<GroupResult>) -> bool {
    10 * result_volume(rs) + 3 * rs.len() + 8 <= i64::MAX
}

/// The matches not yet decided, in order.
pub fn pending_group_matches<'a>(group_matches: &[&'a Match]) -> (r: Vec<&'a Match>)
    ensures
        r@ == pending_of(group_matches@),
{
    let ghost p = |m: &Match| !match_is_final_spec(*m);
    let mut r: Vec<&'a Match> = Vec::new();
    let mut i: usize = 0;
    while i < group_matches.len()
        invariant
            i <= group_matches@.len(),
            p == (|m: &Match| !match_is_final_spec(*m)),
            r@ == filter_seq(group_matches@.take(i as int), p),
        decreases group_matches.len() - i,
    {
        let ghost after = group_matches@.take(i + 1);
        assert(after.drop_last() =~= group_matches@.take(i as int));
        if !match_is_final(group_matches[i]) {
            r.push(group_matches[i]);
        }
        i = i + 1;
    }
    assert(group_matches@.take(group_matches.len() as int) =~= group_matches@);
    r
}

fn copy_results(v: &Vec<GroupResult>) -> (r: Vec<GroupResult>)
    ensures
        r@ == v@,
{
    let mut r: Vec<GroupResult> = Vec::new();
    let mut i: usize = 0;
    while i < v.len()
        invariant
            i <= v.len(),
            r@ == v@.take(i as int),
        decreases v.len() - i,
    {
        r.push(v[i]);
        i = i + 1;
        assert(r@ =~= v@.take(i as int));
    }
    assert(v@.take(v.len() as int) =~= v@);
    r
}

fn extend_outcomes_exec(prefix: Vec<GroupResult>, pending: &Vec<&Match>, idx: usize, out: &mut Vec<Vec<GroupResult>>)
    requires
        idx <= pending.len(),
    ensures
        vviews(final(out)@) == vviews(old(out)@) + extend_outcomes(prefix@, pending@.skip(idx as int)),
    decreases pending.len() - idx,
{
    let ghost rest = pending@.skip(idx as int);
    if idx == pending.len() {
        let ghost pv = prefix@;
        let ghost before = out@;
        out.push(prefix);
        assert(rest.len() == 0);
        assert(vviews(out@) =~= vviews(before) + seq![pv]);
        return;
    }
    assert(rest[0] == pending@[idx as int]);
    assert(rest.drop_first() =~= pending@.skip(idx + 1));
    let m = pending[idx];
    match (m.home_team.id, m.away_team.id) {
        (Some(h), Some(a)) => {
            let ghost o0 = vviews(out@);
            let mut p1 = copy_results(&prefix);
            p1.push(GroupResult { home_id: h, away_id: a, home_goals: 1, away_goals: 0 });
            extend_outcomes_exec(p1, pending, idx + 1, out);
            let ghost o1 = vviews(out@);
            let mut p2 = copy_results(&prefix);
            p2.push(GroupResult { home_id: h, away_id: a, home_goals: 0, away_goals: 0 });
            extend_outcomes_exec(p2, pending, idx + 1, out);
            let ghost o2 = vviews(out@);
            let ghost pv = prefix@;
            let mut p3 = prefix;
            p3.push(GroupResult { home_id: h, away_id: a, home_goals: 0, away_goals: 1 });
            extend_outcomes_exec(p3, pending, idx + 1, out);
            assert(vviews(out@) =~= o0 + extend_outcomes(pv, rest));
        },
        _ => {
            assert(extend_outcomes(prefix@, rest) =~= Seq::<Seq<GroupResult>>::empty());
            assert(vviews(out@) =~= vviews(out@) + Seq::<Seq<GroupResult>>::empty());
        },
    }
}

/// The listed endings of the group, one per way of winning, drawing and
/// losing its pending matches: the final results, then 1-0, 0-0 or 0-1 for
/// each pending match.
pub fn remaining_group_outcomes(group_matches: &[&Match]) -> (r: Vec<Vec<GroupResult>>)
    ensures
        vviews(r@) == completions(group_matches@),
{
    let finished = results_from_group_matches(group_matches);
    let pending = pending_group_matches(group_matches);
    let mut out: Vec<Vec<GroupResult>> = Vec::new();
    assert(pending@.skip(0) =~= pending@);
    extend_outcomes_exec(finished, &pending, 0, &mut out);
    assert(vviews(out@) =~= completions(group_matches@));
    out
}

/// Every match of the group is over.
pub open spec fn group_is_complete_spec(gm: Seq<&Match>) -> bool {
    gm.len() > 0 && forall|i: int| 0 <= i < gm.len() ==> match_is_final_spec(*(#[trigger] gm[i]))
}

/// Whether the group has matches and all of them are over.
pub fn group_is_complete(group_matches: &[&Match]) -> (r: bool)
    ensures
        r == group_is_complete_spec(group_matches@),
{
    if group_matches.len() == 0 {
        return false;
    }
    let mut i: usize = 0;
    while i < group_matches.len()
        invariant
            i <= group_matches@.len(),
            forall|j: int| 0 <= j < i ==> match_is_final_spec(*(#[trigger] group_matches@[j])),
        decreases group_matches.len() - i,
    {
        if !match_is_final(group_matches[i]) {
            return false;
        }
        i = i + 1;
    }
    true
}

/// The team of a match side, as a set of zero or one id.
pub open spec fn side_is(side: Option<i64>, id: i64) -> bool {
    side == Some(id)
}

/// The teams that appear in the matches.
pub open spec fn group_team_ids(gm: Seq<&Match>) -> Set<i64> {
    Set::new(
        |id: i64|
            exists|i: int|
                0 <= i < gm.len() && (side_is((#[trigger] gm[i]).home_team.id, id) || side_is(
                    gm[i].away_team.id,
                    id,
                )),
    )
}

fn push_new(v: &mut Vec<i64>, x: i64)
    ensures
        forall|y: i64| final(v)@.contains(y) == (old(v)@.contains(y) || y == x),
        old(v)@.no_duplicates() ==> final(v)@.no_duplicates(),
{
    if !contains_id(v, x) {
        let ghost before = v@;
        v.push(x);
        proof {
            assert forall|y: i64| v@.contains(y) == (before.contains(y) || y == x) by {
                if v@.contains(y) && y != x {
                    let k = choose|k: int| 0 <= k < v@.len() && v@[k] == y;
                    assert(before[k] == y);
                }
                if before.contains(y) {
                    let k = choose|k: int| 0 <= k < before.len() && before[k] == y;
                    assert(v@[k] == y);
                }
                if y == x {
                    assert(v@[before.len() as int] == x);
                }
            }
        }
    }
}

/// Appends each id of `src` that `v` does not hold yet.
fn extend_new(v: &mut Vec<i64>, src: &Vec<i64>)
    ensures
        forall|y: i64| #[trigger] final(v)@.contains(y) == (old(v)@.contains(y) || src@.contains(y)),
{
    let ghost start = v@;
    let mut q: usize = 0;
    while q < src.len()
        invariant
            q <= src.len(),
            forall|y: i64| #[trigger] v@.contains(y) == (start.contains(y) || src@.take(q as int).contains(y)),
        decreases src.len() - q,
    {
        let ghost prev = v@;
        push_new(v, src[q]);
        proof {
            let t0 = src@.take(q as int);
            let t1 = src@.take(q + 1);
            assert forall|y: i64| #[trigger] v@.contains(y) == (start.contains(y) || t1.contains(y)) by {
                assert(prev.contains(y) == (start.contains(y) || t0.contains(y)));
                if t1.contains(y) {
                    let k = choose|k: int| 0 <= k < t1.len() && t1[k] == y;
                    if k < q {
                        assert(t0[k] == y);
                    }
                }
                if t0.contains(y) {
                    let k = choose|k: int| 0 <= k < t0.len() && t0[k] == y;
                    assert(t1[k] == y);
                }
                if y == src@[q as int] {
                    assert(t1[q as int] == y);
                }
            }
        }
        q = q + 1;
    }
    assert(src@.take(src.len() as int) =~= src@);
}

/// The distinct teams that appear in the matches, in order of appearance.
pub fn group_team_ids_exec(group_matches: &[&Match]) -> (r: Vec<i64>)
    ensures
        forall|x: i64| r@.contains(x) == group_team_ids(group_matches@).contains(x),
        r@.no_duplicates(),
{
    let ghost gm = group_matches@;
    let mut r: Vec<i64> = Vec::new();
    let mut i: usize = 0;
    while i < group_matches.len()
        invariant
            i <= gm.len(),
            gm == group_matches@,
            r@.no_duplicates(),
            forall|x: i64|
                r@.contains(x) == (exists|j: int|
                    0 <= j < i && (side_is((#[trigger] gm[j]).home_team.id, x) || side_is(
                        gm[j].away_team.id,
                        x,
                    ))),
        decreases gm.len() - i,
    {
        let m = group_matches[i];
        let ghost before = r@;
        match m.home_team.id {
            Some(id) => push_new(&mut r, id),
            None => {},
        }
        match m.away_team.id {
            Some(id) => push_new(&mut r, id),
            None => {},
        }
        proof {
            assert forall|x: i64| r@.contains(x) == (exists|j: int|
                0 <= j < i + 1 && (side_is((#[trigger] gm[j]).home_team.id, x) || side_is(
                    gm[j].away_team.id,
                    x,
                ))) by {
                if r@.contains(x) && !before.contains(x) {
                    assert(side_is(gm[i as int].home_team.id, x) || side_is(gm[i as int].away_team.id, x));
                }
                if exists|j: int| 0 <= j < i + 1 && (side_is((#[trigger] gm[j]).home_team.id, x) || side_is(
                    gm[j].away_team.id,
                    x,
                )) {
                    let j = choose|j: int| 0 <= j < i + 1 && (side_is((#[trigger] gm[j]).home_team.id, x)
                        || side_is(gm[j].away_team.id, x));
                    if j < i {
                        assert(before.contains(x));
                    }
                }
            }
        }
        i = i + 1;
    }
    r
}

/// The group table with every final result, ranked.
pub fn ranked_group_standings(group_matches: &[&Match]) -> (r: Vec<(i64, GroupRow)>)
    requires
        results_fit(results_of(group_matches@)),
    ensures
        table_view(r@) == ranked_of(results_of(group_matches@)),
{
    let results = results_from_group_matches(group_matches);
    ranked_from_results(results.as_slice())
}

/// The team ranked last in the group, when anyone has played.
pub fn fourth_place_from_group(group_matches: &[&Match]) -> (r: Option<i64>)
    requires
        results_fit(results_of(group_matches@)),
    ensures
        r == (if ranked_of(results_of(group_matches@)).len() > 0 {
            Some(ranked_of(results_of(group_matches@)).last().0)
        } else {
            None::<i64>
        }),
{
    let ranked = ranked_group_standings(group_matches);
    if ranked.len() == 0 {
        None
    } else {
        let ghost t = table_view(ranked@);
        assert(t[ranked.len() - 1] == (ranked@[ranked.len() - 1].0, record_of(ranked@[ranked.len() - 1].1)));
        Some(ranked[ranked.len() - 1].0)
    }
}

/// The team ranked third in the group and its row, when there is one.
pub fn third_place_from_group(group_matches: &[&Match]) -> (r: Option<(i64, GroupRow)>)
    requires
        results_fit(results_of(group_matches@)),
    ensures
        r is Some <==> ranked_of(results_of(group_matches@)).len() > 2,
        r matches Some(x) ==> (x.0, record_of(x.1)) == ranked_of(results_of(group_matches@))[2],
{
    let ranked = ranked_group_standings(group_matches);
    if ranked.len() > 2 {
        let ghost t = table_view(ranked@);
        assert(t[2] == (ranked@[2].0, record_of(ranked@[2].1)));
        Some(ranked[2])
    } else {
        None
    }
}

// ---------------------------------------------------------------- every score
/// How a result went for its home side: 1 a win, 0 a draw, -1 a defeat.
pub open spec fn outcome_sign(r: GroupResult) -> int {
    if r.home_goals > r.away_goals {
        1
    } else if r.home_goals == r.away_goals {
        0
    } else {
        -1
    }
}

/// Two result lists name the same teams in the same order and end the same
/// way (home win, draw or away win) match by match; only the goals differ.
pub open spec fn same_outcomes(a: Seq<GroupResult>, b: Seq<GroupResult>) -> bool {
    &&& a.len() == b.len()
    &&& forall|i: int|
        0 <= i < a.len() ==> (#[trigger] a[i]).home_id == b[i].home_id && a[i].away_id == b[i].away_id
            && outcome_sign(a[i]) == outcome_sign(b[i])
}

/// `r` is a result the match can still end with: between its two teams, with
/// any number of goals for either side.
pub open spec fn plays(m: &Match, r: GroupResult) -> bool {
    &&& m.home_team.id == Some(r.home_id)
    &&& m.away_team.id == Some(r.away_id)
    &&& r.home_goals >= 0
    &&& r.away_goals >= 0
}

/// `c` is `prefix` followed by one result for each of the `pending` matches.
pub open spec fn fills(prefix: Seq<GroupResult>, pending: Seq<&Match>, c: Seq<GroupResult>) -> bool {
    &&& c.len() == prefix.len() + pending.len()
    &&& forall|k: int| 0 <= k < prefix.len() ==> #[trigger] c[k] == prefix[k]
    &&& forall|k: int| prefix.len() <= k < c.len() ==> plays(pending[k - prefix.len()], #[trigger] c[k])
}

/// `c` is one way the group can end: its final results, then a result for
/// each match still to be decided, with any score.
pub open spec fn is_completion(gm: Seq<&Match>, c: Seq<GroupResult>) -> bool {
    fills(results_of(gm), pending_of(gm), c)
}

/// Two tables list the same teams in the same order on the same points.
pub open spec fn same_standing(t: Seq<(i64, Record)>, u: Seq<(i64, Record)>) -> bool {
    &&& t.len() == u.len()
    &&& forall|j: int| 0 <= j < t.len() ==> (#[trigger] t[j]).0 == u[j].0 && t[j].1.points == u[j].1.points
}

/// `s` ranks above `t` whatever the goals: more points, or level on points and
/// more points in the matches among the teams level with them.
pub open spec fn ahead_on_points(rs: Seq<GroupResult>, s: i64, t: i64) -> bool {
    let tb = table_of(rs);
    let ps = lookup(tb, s).points;
    let pt = lookup(tb, t).points;
    ps > pt || (ps == pt && h2h_record(rs, s).points > h2h_record(rs, t).points)
}

/// The test for a row of another team that ranks above `t` whatever the goals
/// of the matches between teams of `open`: ahead on points or head-to-head
/// points, or, when neither team is in `open`, ahead in the FIFA order.
pub open spec fn ahead_of(rs: Seq<GroupResult>, open: Set<i64>, t: i64) -> spec_fn((i64, Record)) -> bool {
    |e: (i64, Record)|
        e.0 != t && (ahead_on_points(rs, e.0, t) || (!open.contains(e.0) && !open.contains(t) && rank_before(
            rs,
            e.0,
            t,
        )))
}

/// The rows of the other teams that rank above `t` whatever the goals of the
/// matches between teams of `open`.
pub open spec fn teams_ahead(rs: Seq<GroupResult>, open: Set<i64>, t: i64) -> Seq<(i64, Record)> {
    filter_seq(table_of(rs), ahead_of(rs, open, t))
}

/// Two result lists end the same way match by match, and the results that
/// differ in goals are between teams of `open`.
pub open spec fn agree_except(a: Seq<GroupResult>, b: Seq<GroupResult>, open: Set<i64>) -> bool {
    &&& same_outcomes(a, b)
    &&& forall|i: int|
        0 <= i < a.len() ==> (#[trigger] a[i]) == b[i] || (open.contains(a[i].home_id) && open.contains(
            a[i].away_id,
        ))
}

/// Two tables list the same teams in the same order on the same points, and
/// the rows of teams outside `open` are equal.
pub open spec fn same_standing_except(t: Seq<(i64, Record)>, u: Seq<(i64, Record)>, open: Set<i64>) -> bool {
    &&& same_standing(t, u)
    &&& forall|j: int| 0 <= j < t.len() && !open.contains((#[trigger] t[j]).0) ==> t[j].1 == u[j].1
}

/// The test for a row with more than `p` points.
pub open spec fn over(p: int) -> spec_fn((i64, Record)) -> bool {
    |e: (i64, Record)| e.1.points > p
}

/// The rows with more than `p` points.
pub open spec fn teams_over(rs: Seq<GroupResult>, p: int) -> Seq<(i64, Record)> {
    filter_seq(table_of(rs), over(p))
}

proof fn lemma_same_drop_last(a: Seq<GroupResult>, b: Seq<GroupResult>)
    requires
        same_outcomes(a, b),
        a.len() > 0,
    ensures
        same_outcomes(a.drop_last(), b.drop_last()),
        a.last().home_id == b.last().home_id,
        a.last().away_id == b.last().away_id,
        outcome_sign(a.last()) == outcome_sign(b.last()),
{
    assert forall|i: int| 0 <= i < a.len() - 1 implies (#[trigger] a.drop_last()[i]).home_id == b.drop_last()[i].home_id
        && a.drop_last()[i].away_id == b.drop_last()[i].away_id && outcome_sign(a.drop_last()[i])
        == outcome_sign(b.drop_last()[i]) by {
        assert(a.drop_last()[i] == a[i]);
        assert(b.drop_last()[i] == b[i]);
    }
    assert(a[a.len() - 1] == a.last());
}

proof fn lemma_same_has_id(t: Seq<(i64, Record)>, u: Seq<(i64, Record)>, id: i64)
    requires
        same_standing(t, u),
    ensures
        has_id(t, id) == has_id(u, id),
{
    if has_id(t, id) {
        let j = choose|j: int| 0 <= j < t.len() && t[j].0 == id;
        assert(u[j].0 == id);
    }
    if has_id(u, id) {
        let j = choose|j: int| 0 <= j < u.len() && u[j].0 == id;
        assert(t[j].0 == id);
    }
}

proof fn lemma_same_lookup(t: Seq<(i64, Record)>, u: Seq<(i64, Record)>, id: i64)
    requires
        same_standing(t, u),
    ensures
        lookup(t, id).points == lookup(u, id).points,
        has_id(t, id) == has_id(u, id),
    decreases t.len(),
{
    lemma_same_has_id(t, u, id);
    if t.len() > 0 && t[0].0 != id {
        assert(same_standing(t.drop_first(), u.drop_first())) by {
            assert forall|j: int| 0 <= j < t.len() - 1 implies (#[trigger] t.drop_first()[j]).0 == u.drop_first()[j].0
                && t.drop_first()[j].1.points == u.drop_first()[j].1.points by {
                assert(t.drop_first()[j] == t[j + 1]);
                assert(u.drop_first()[j] == u[j + 1]);
            }
        }
        lemma_same_lookup(t.drop_first(), u.drop_first(), id);
    }
}

/// Tables built from results that end the same way have the same teams on the
/// same points.
proof fn lemma_same_table(a: Seq<GroupResult>, b: Seq<GroupResult>)
    requires
        same_outcomes(a, b),
    ensures
        same_standing(table_of(a), table_of(b)),
    decreases a.len(),
{
    if a.len() > 0 {
        lemma_same_drop_last(a, b);
        lemma_same_table(a.drop_last(), b.drop_last());
        let t = table_of(a.drop_last());
        let u = table_of(b.drop_last());
        let r = a.last();
        let q = b.last();
        lemma_same_has_id(t, u, r.home_id);
        let t1 = with_team(t, r.home_id);
        let u1 = with_team(u, r.home_id);
        assert(same_standing(t1, u1)) by {
            if !has_id(t, r.home_id) {
                assert forall|j: int| 0 <= j < t1.len() implies (#[trigger] t1[j]).0 == u1[j].0 && t1[j].1.points
                    == u1[j].1.points by {
                    if j < t.len() {
                        assert(t1[j] == t[j]);
                        assert(u1[j] == u[j]);
                    }
                }
            }
        }
        lemma_same_has_id(t1, u1, r.away_id);
        let t2 = with_team(t1, r.away_id);
        let u2 = with_team(u1, r.away_id);
        assert(same_standing(t2, u2)) by {
            if !has_id(t1, r.away_id) {
                assert forall|j: int| 0 <= j < t2.len() implies (#[trigger] t2[j]).0 == u2[j].0 && t2[j].1.points
                    == u2[j].1.points by {
                    if j < t1.len() {
                        assert(t2[j] == t1[j]);
                        assert(u2[j] == u1[j]);
                    }
                }
            }
        }
        let h = r.home_goals as int;
        let w = r.away_goals as int;
        let h2 = q.home_goals as int;
        let w2 = q.away_goals as int;
        assert(points_for(h, w) == points_for(h2, w2));
        assert(points_for(w, h) == points_for(w2, h2));
        let t3 = update_team(t2, r.home_id, h, w);
        let u3 = update_team(u2, r.home_id, h2, w2);
        assert(same_standing(t3, u3));
        let t4 = update_team(t3, r.away_id, w, h);
        let u4 = update_team(u3, r.away_id, w2, h2);
        assert(same_standing(t4, u4));
        assert(table_of(a) == t4);
        assert(table_of(b) == u4);
    }
}

/// Keeping the results between teams of a set keeps results that end the same
/// way in step.
proof fn lemma_same_among(a: Seq<GroupResult>, b: Seq<GroupResult>, ids: Set<i64>)
    requires
        same_outcomes(a, b),
    ensures
        same_outcomes(results_among(a, ids), results_among(b, ids)),
    decreases a.len(),
{
    if a.len() > 0 {
        lemma_same_drop_last(a, b);
        lemma_same_among(a.drop_last(), b.drop_last(), ids);
        let fa = results_among(a.drop_last(), ids);
        let fb = results_among(b.drop_last(), ids);
        if ids.contains(a.last().home_id) && ids.contains(a.last().away_id) {
            let ga = fa.push(a.last());
            let gb = fb.push(b.last());
            assert(results_among(a, ids) == ga);
            assert(results_among(b, ids) == gb);
            assert forall|i: int| 0 <= i < ga.len() implies (#[trigger] ga[i]).home_id == gb[i].home_id && ga[i].away_id
                == gb[i].away_id && outcome_sign(ga[i]) == outcome_sign(gb[i]) by {
                if i < fa.len() {
                    assert(ga[i] == fa[i]);
                    assert(gb[i] == fb[i]);
                }
            }
        } else {
            assert(results_among(a, ids) == fa);
            assert(results_among(b, ids) == fb);
        }
    }
}

/// Head-to-head points do not depend on the goals.
proof fn lemma_same_h2h(a: Seq<GroupResult>, b: Seq<GroupResult>, id: i64)
    requires
        same_outcomes(a, b),
    ensures
        h2h_record(a, id).points == h2h_record(b, id).points,
        lookup(table_of(a), id).points == lookup(table_of(b), id).points,
{
    lemma_same_table(a, b);
    let ta = table_of(a);
    let tb = table_of(b);
    lemma_same_lookup(ta, tb, id);
    let p = lookup(ta, id).points;
    let ids = tied_ids(ta, p);
    assert(ids =~= tied_ids(tb, p)) by {
        assert forall|x: i64| ids.contains(x) == tied_ids(tb, p).contains(x) by {
            lemma_same_lookup(ta, tb, x);
        }
    }
    lemma_same_among(a, b, ids);
    lemma_same_table(results_among(a, ids), results_among(b, ids));
    lemma_same_lookup(table_of(results_among(a, ids)), table_of(results_among(b, ids)), id);
}

/// How many teams finish over a number of points does not depend on the goals.
proof fn lemma_same_counts(a: Seq<GroupResult>, b: Seq<GroupResult>, p: int)
    requires
        same_outcomes(a, b),
    ensures
        teams_over(a, p).len() == teams_over(b, p).len(),
{
    lemma_same_table(a, b);
    let ta = table_of(a);
    let tb = table_of(b);
    let qa = over(p);
    let qb = over(p);
    assert forall|j: int| 0 <= j < ta.len() implies qa(#[trigger] ta[j]) == qb(tb[j]) by {}
    crate::sorting::lemma_filter_len_match(ta, tb, qa, qb);
}

proof fn lemma_agree_drop_last(a: Seq<GroupResult>, b: Seq<GroupResult>, open: Set<i64>)
    requires
        agree_except(a, b, open),
        a.len() > 0,
    ensures
        agree_except(a.drop_last(), b.drop_last(), open),
        a.last() == b.last() || (open.contains(a.last().home_id) && open.contains(a.last().away_id)),
{
    lemma_same_drop_last(a, b);
    assert forall|i: int| 0 <= i < a.len() - 1 implies (#[trigger] a.drop_last()[i]) == b.drop_last()[i] || (
    open.contains(a.drop_last()[i].home_id) && open.contains(a.drop_last()[i].away_id)) by {
        assert(a.drop_last()[i] == a[i]);
        assert(b.drop_last()[i] == b[i]);
    }
    assert(a[a.len() - 1] == a.last());
    assert(b[b.len() - 1] == b.last());
}

/// Results that differ only in the goals of matches between teams of `open`
/// give the other teams the same rows.
proof fn lemma_agree_table(a: Seq<GroupResult>, b: Seq<GroupResult>, open: Set<i64>)
    requires
        agree_except(a, b, open),
    ensures
        same_standing_except(table_of(a), table_of(b), open),
    decreases a.len(),
{
    lemma_same_table(a, b);
    if a.len() > 0 {
        lemma_agree_drop_last(a, b, open);
        lemma_same_drop_last(a, b);
        lemma_agree_table(a.drop_last(), b.drop_last(), open);
        let t = table_of(a.drop_last());
        let u = table_of(b.drop_last());
        let r = a.last();
        let q = b.last();
        lemma_same_has_id(t, u, r.home_id);
        let t1 = with_team(t, r.home_id);
        let u1 = with_team(u, r.home_id);
        assert(same_standing_except(t1, u1, open)) by {
            if !has_id(t, r.home_id) {
                assert forall|j: int| 0 <= j < t1.len() implies (#[trigger] t1[j]).0 == u1[j].0 && t1[j].1.points
                    == u1[j].1.points && (!open.contains(t1[j].0) ==> t1[j].1 == u1[j].1) by {
                    if j < t.len() {
                        assert(t1[j] == t[j]);
                        assert(u1[j] == u[j]);
                    }
                }
            }
        }
        lemma_same_has_id(t1, u1, r.away_id);
        let t2 = with_team(t1, r.away_id);
        let u2 = with_team(u1, r.away_id);
        assert(same_standing_except(t2, u2, open)) by {
            if !has_id(t1, r.away_id) {
                assert forall|j: int| 0 <= j < t2.len() implies (#[trigger] t2[j]).0 == u2[j].0 && t2[j].1.points
                    == u2[j].1.points && (!open.contains(t2[j].0) ==> t2[j].1 == u2[j].1) by {
                    if j < t1.len() {
                        assert(t2[j] == t1[j]);
                        assert(u2[j] == u1[j]);
                    }
                }
            }
        }
        let h = r.home_goals as int;
        let w = r.away_goals as int;
        let h2 = q.home_goals as int;
        let w2 = q.away_goals as int;
        assert(points_for(h, w) == points_for(h2, w2));
        assert(points_for(w, h) == points_for(w2, h2));
        let t3 = update_team(t2, r.home_id, h, w);
        let u3 = update_team(u2, r.home_id, h2, w2);
        assert(same_standing_except(t3, u3, open));
        let t4 = update_team(t3, r.away_id, w, h);
        let u4 = update_team(u3, r.away_id, w2, h2);
        assert(same_standing_except(t4, u4, open));
        assert(table_of(a) == t4);
        assert(table_of(b) == u4);
    }
}

proof fn lemma_except_lookup(t: Seq<(i64, Record)>, u: Seq<(i64, Record)>, open: Set<i64>, id: i64)
    requires
        same_standing_except(t, u, open),
        !open.contains(id),
    ensures
        lookup(t, id) == lookup(u, id),
    decreases t.len(),
{
    if t.len() > 0 && t[0].0 != id {
        assert(same_standing_except(t.drop_first(), u.drop_first(), open)) by {
            assert forall|j: int| 0 <= j < t.len() - 1 implies (#[trigger] t.drop_first()[j]).0 == u.drop_first()[j].0
                && t.drop_first()[j].1.points == u.drop_first()[j].1.points && (!open.contains(t.drop_first()[j].0)
                ==> t.drop_first()[j].1 == u.drop_first()[j].1) by {
                assert(t.drop_first()[j] == t[j + 1]);
                assert(u.drop_first()[j] == u[j + 1]);
            }
        }
        lemma_except_lookup(t.drop_first(), u.drop_first(), open, id);
    }
}

proof fn lemma_agree_among(a: Seq<GroupResult>, b: Seq<GroupResult>, open: Set<i64>, ids: Set<i64>)
    requires
        agree_except(a, b, open),
    ensures
        agree_except(results_among(a, ids), results_among(b, ids), open),
    decreases a.len(),
{
    lemma_same_among(a, b, ids);
    if a.len() > 0 {
        lemma_agree_drop_last(a, b, open);
        lemma_same_drop_last(a, b);
        lemma_agree_among(a.drop_last(), b.drop_last(), open, ids);
        let fa = results_among(a.drop_last(), ids);
        let fb = results_among(b.drop_last(), ids);
        if ids.contains(a.last().home_id) && ids.contains(a.last().away_id) {
            let ga = fa.push(a.last());
            let gb = fb.push(b.last());
            assert(results_among(a, ids) == ga);
            assert(results_among(b, ids) == gb);
            assert forall|i: int| 0 <= i < ga.len() implies (#[trigger] ga[i]) == gb[i] || (open.contains(ga[i].home_id)
                && open.contains(ga[i].away_id)) by {
                if i < fa.len() {
                    assert(ga[i] == fa[i]);
                    assert(gb[i] == fb[i]);
                }
            }
        } else {
            assert(results_among(a, ids) == fa);
            assert(results_among(b, ids) == fb);
        }
    }
}

/// Two teams outside `open` are ordered alike by results that differ only in
/// the goals of matches between teams of `open`.
proof fn lemma_agree_rank(a: Seq<GroupResult>, b: Seq<GroupResult>, open: Set<i64>, x: i64, y: i64)
    requires
        agree_except(a, b, open),
        !open.contains(x),
        !open.contains(y),
    ensures
        rank_before(a, x, y) == rank_before(b, x, y),
{
    lemma_agree_table(a, b, open);
    let ta = table_of(a);
    let tb = table_of(b);
    lemma_except_lookup(ta, tb, open, x);
    lemma_except_lookup(ta, tb, open, y);
    assert forall|id: i64| !open.contains(id) implies #[trigger] h2h_record(a, id) == h2h_record(b, id) by {
        lemma_except_lookup(ta, tb, open, id);
        let p = lookup(ta, id).points;
        let ids = tied_ids(ta, p);
        assert(ids =~= tied_ids(tb, p)) by {
            assert forall|z: i64| ids.contains(z) == tied_ids(tb, p).contains(z) by {
                lemma_same_lookup(ta, tb, z);
            }
        }
        lemma_agree_among(a, b, open, ids);
        lemma_agree_table(results_among(a, ids), results_among(b, ids), open);
        lemma_except_lookup(table_of(results_among(a, ids)), table_of(results_among(b, ids)), open, id);
    }
    assert(h2h_record(a, x) == h2h_record(b, x));
    assert(h2h_record(a, y) == h2h_record(b, y));
}

/// How many teams are surely ahead of `t` is the same for results that differ
/// only in the goals of matches between teams of `open`.
proof fn lemma_agree_ahead(a: Seq<GroupResult>, b: Seq<GroupResult>, open: Set<i64>, t: i64)
    requires
        agree_except(a, b, open),
    ensures
        teams_ahead(a, open, t).len() == teams_ahead(b, open, t).len(),
{
    lemma_same_table(a, b);
    let ta = table_of(a);
    let tb = table_of(b);
    let pa = ahead_of(a, open, t);
    let pb = ahead_of(b, open, t);
    assert forall|j: int| 0 <= j < ta.len() implies pa(#[trigger] ta[j]) == pb(tb[j]) by {
        lemma_same_h2h(a, b, ta[j].0);
        lemma_same_h2h(a, b, t);
        if !open.contains(ta[j].0) && !open.contains(t) {
            lemma_agree_rank(a, b, open, ta[j].0, t);
        }
    }
    crate::sorting::lemma_filter_len_match(ta, tb, pa, pb);
}

/// The teams of the matches still to be decided.
pub open spec fn pending_teams(gm: Seq<&Match>) -> Set<i64> {
    Set::new(
        |id: i64|
            exists|j: int|
                0 <= j < pending_of(gm).len() && (side_is((#[trigger] pending_of(gm)[j]).home_team.id, id)
                    || side_is(pending_of(gm)[j].away_team.id, id)),
    )
}

/// Two ways the group can end that end alike match by match differ only in
/// the goals of matches between teams still to play.
proof fn lemma_completions_agree(gm: Seq<&Match>, c: Seq<GroupResult>, d: Seq<GroupResult>)
    requires
        is_completion(gm, c),
        is_completion(gm, d),
        same_outcomes(c, d),
    ensures
        agree_except(c, d, pending_teams(gm)),
{
    let n = results_of(gm).len();
    let p = pending_of(gm);
    assert forall|i: int| 0 <= i < c.len() implies (#[trigger] c[i]) == d[i] || (pending_teams(gm).contains(c[i].home_id)
        && pending_teams(gm).contains(c[i].away_id)) by {
        if i < n {
            assert(c[i] == results_of(gm)[i]);
            assert(d[i] == results_of(gm)[i]);
        } else {
            assert(plays(p[i - n], c[i]));
            assert(side_is(p[i - n].home_team.id, c[i].home_id));
            assert(side_is(p[i - n].away_team.id, c[i].away_id));
        }
    }
}

/// Every listed ending of the pending matches is one of the ways they can end.
proof fn lemma_outcomes_fill(prefix: Seq<GroupResult>, pending: Seq<&Match>)
    ensures
        forall|i: int|
            0 <= i < extend_outcomes(prefix, pending).len() ==> fills(
                prefix,
                pending,
                #[trigger] extend_outcomes(prefix, pending)[i],
            ),
    decreases pending.len(),
{
    if pending.len() == 0 {
        let e = extend_outcomes(prefix, pending);
        assert(e == seq![prefix]);
        assert(e[0] == prefix);
    } else {
        match (pending[0].home_team.id, pending[0].away_team.id) {
            (Some(h), Some(a)) => {
                let rest = pending.drop_first();
                let r1 = GroupResult { home_id: h, away_id: a, home_goals: 1, away_goals: 0 };
                let r2 = GroupResult { home_id: h, away_id: a, home_goals: 0, away_goals: 0 };
                let r3 = GroupResult { home_id: h, away_id: a, home_goals: 0, away_goals: 1 };
                let p1 = prefix.push(r1);
                let p2 = prefix.push(r2);
                let p3 = prefix.push(r3);
                lemma_outcomes_fill(p1, rest);
                lemma_outcomes_fill(p2, rest);
                lemma_outcomes_fill(p3, rest);
                let e1 = extend_outcomes(p1, rest);
                let e2 = extend_outcomes(p2, rest);
                let e3 = extend_outcomes(p3, rest);
                let e = extend_outcomes(prefix, pending);
                assert(e == e1 + e2 + e3);
                assert forall|i: int| 0 <= i < e.len() implies fills(prefix, pending, #[trigger] e[i]) by {
                    let (pk, c) = if i < e1.len() {
                        assert(e[i] == e1[i]);
                        (p1, e1[i])
                    } else if i < e1.len() + e2.len() {
                        assert(e[i] == e2[i - e1.len()]);
                        (p2, e2[i - e1.len()])
                    } else {
                        assert(e[i] == e3[i - e1.len() - e2.len()]);
                        (p3, e3[i - e1.len() - e2.len()])
                    };
                    assert(fills(pk, rest, c));
                    assert forall|k: int| 0 <= k < prefix.len() implies #[trigger] c[k] == prefix[k] by {
                        assert(c[k] == pk[k]);
                    }
                    assert forall|k: int| prefix.len() <= k < c.len() implies plays(
                        pending[k - prefix.len()],
                        #[trigger] c[k],
                    ) by {
                        if k == prefix.len() {
                            assert(c[k] == pk[k]);
                        } else {
                            assert(pending[k - prefix.len()] == rest[k - pk.len()]);
                        }
                    }
                }
            },
            _ => {},
        }
    }
}

/// Every listed ending gives each pending match the smallest result of its kind.
proof fn lemma_outcomes_smallest(prefix: Seq<GroupResult>, pending: Seq<&Match>)
    ensures
        forall|i: int, k: int|
            0 <= i < extend_outcomes(prefix, pending).len() && prefix.len() <= k < extend_outcomes(prefix, pending)[i].len()
                ==> #[trigger] smallest_result(extend_outcomes(prefix, pending)[i][k]),
    decreases pending.len(),
{
    lemma_outcomes_fill(prefix, pending);
    if pending.len() > 0 {
        match (pending[0].home_team.id, pending[0].away_team.id) {
            (Some(h), Some(a)) => {
                let rest = pending.drop_first();
                let r1 = GroupResult { home_id: h, away_id: a, home_goals: 1, away_goals: 0 };
                let r2 = GroupResult { home_id: h, away_id: a, home_goals: 0, away_goals: 0 };
                let r3 = GroupResult { home_id: h, away_id: a, home_goals: 0, away_goals: 1 };
                let p1 = prefix.push(r1);
                let p2 = prefix.push(r2);
                let p3 = prefix.push(r3);
                lemma_outcomes_smallest(p1, rest);
                lemma_outcomes_smallest(p2, rest);
                lemma_outcomes_smallest(p3, rest);
                lemma_outcomes_fill(p1, rest);
                lemma_outcomes_fill(p2, rest);
                lemma_outcomes_fill(p3, rest);
                let e1 = extend_outcomes(p1, rest);
                let e2 = extend_outcomes(p2, rest);
                let e3 = extend_outcomes(p3, rest);
                let e = extend_outcomes(prefix, pending);
                assert(e == e1 + e2 + e3);
                assert forall|i: int, k: int| 0 <= i < e.len() && prefix.len() <= k < e[i].len() implies #[trigger] smallest_result(
                    e[i][k],
                ) by {
                    let (pk, c) = if i < e1.len() {
                        assert(e[i] == e1[i]);
                        (p1, e1[i])
                    } else if i < e1.len() + e2.len() {
                        assert(e[i] == e2[i - e1.len()]);
                        (p2, e2[i - e1.len()])
                    } else {
                        assert(e[i] == e3[i - e1.len() - e2.len()]);
                        (p3, e3[i - e1.len() - e2.len()])
                    };
                    assert(fills(pk, rest, c));
                    if k == prefix.len() {
                        assert(c[k] == pk[k]);
                    }
                }
            },
            _ => {},
        }
    }
}

/// Every way the pending matches can end, whatever the goals, ends match by
/// match like one of the listed endings.
proof fn lemma_outcomes_cover(prefix: Seq<GroupResult>, pending: Seq<&Match>, c: Seq<GroupResult>)
    requires
        c.len() == prefix.len() + pending.len(),
        forall|k: int|
            0 <= k < prefix.len() ==> (#[trigger] c[k]).home_id == prefix[k].home_id && c[k].away_id
                == prefix[k].away_id && outcome_sign(c[k]) == outcome_sign(prefix[k]),
        forall|k: int| prefix.len() <= k < c.len() ==> plays(pending[k - prefix.len()], #[trigger] c[k]),
    ensures
        exists|i: int|
            0 <= i < extend_outcomes(prefix, pending).len() && same_outcomes(
                c,
                #[trigger] extend_outcomes(prefix, pending)[i],
            ),
    decreases pending.len(),
{
    if pending.len() == 0 {
        let e = extend_outcomes(prefix, pending);
        assert(e[0] == prefix);
        assert(same_outcomes(c, e[0]));
    } else {
        let n = prefix.len() as int;
        let x = c[n];
        assert(plays(pending[0], x));
        let h = x.home_id;
        let a = x.away_id;
        let rest = pending.drop_first();
        let r1 = GroupResult { home_id: h, away_id: a, home_goals: 1, away_goals: 0 };
        let r2 = GroupResult { home_id: h, away_id: a, home_goals: 0, away_goals: 0 };
        let r3 = GroupResult { home_id: h, away_id: a, home_goals: 0, away_goals: 1 };
        let p1 = prefix.push(r1);
        let p2 = prefix.push(r2);
        let p3 = prefix.push(r3);
        let e1 = extend_outcomes(p1, rest);
        let e2 = extend_outcomes(p2, rest);
        let e3 = extend_outcomes(p3, rest);
        let e = extend_outcomes(prefix, pending);
        assert(e == e1 + e2 + e3);
        let pk = if outcome_sign(x) == 1 {
            p1
        } else if outcome_sign(x) == 0 {
            p2
        } else {
            p3
        };
        assert forall|k: int| 0 <= k < pk.len() implies (#[trigger] c[k]).home_id == pk[k].home_id && c[k].away_id
            == pk[k].away_id && outcome_sign(c[k]) == outcome_sign(pk[k]) by {
            if k < n {
                assert(pk[k] == prefix[k]);
            }
        }
        assert forall|k: int| pk.len() <= k < c.len() implies plays(rest[k - pk.len()], #[trigger] c[k]) by {
            assert(rest[k - pk.len()] == pending[k - n]);
        }
        lemma_outcomes_cover(pk, rest, c);
        if outcome_sign(x) == 1 {
            let i = choose|i: int| 0 <= i < e1.len() && same_outcomes(c, #[trigger] e1[i]);
            assert(e[i] == e1[i]);
        } else if outcome_sign(x) == 0 {
            let i = choose|i: int| 0 <= i < e2.len() && same_outcomes(c, #[trigger] e2[i]);
            assert(e[e1.len() + i] == e2[i]);
        } else {
            let i = choose|i: int| 0 <= i < e3.len() && same_outcomes(c, #[trigger] e3[i]);
            assert(e[e1.len() + e2.len() + i] == e3[i]);
        }
    }
}

/// The listed endings are ways the group can end, and every way it can end
/// ends match by match like one of them.
proof fn lemma_completions_represent(gm: Seq<&Match>)
    ensures
        forall|i: int| 0 <= i < completions(gm).len() ==> is_completion(gm, #[trigger] completions(gm)[i]),
        forall|c: Seq<GroupResult>|
            #[trigger] is_completion(gm, c) ==> exists|i: int|
                0 <= i < completions(gm).len() && same_outcomes(c, #[trigger] completions(gm)[i]),
{
    lemma_outcomes_fill(results_of(gm), pending_of(gm));
    assert forall|c: Seq<GroupResult>| #[trigger] is_completion(gm, c) implies exists|i: int|
        0 <= i < completions(gm).len() && same_outcomes(c, #[trigger] completions(gm)[i]) by {
        let prefix = results_of(gm);
        assert forall|k: int| 0 <= k < prefix.len() implies (#[trigger] c[k]).home_id == prefix[k].home_id
            && c[k].away_id == prefix[k].away_id && outcome_sign(c[k]) == outcome_sign(prefix[k]) by {
            assert(c[k] == prefix[k]);
        }
        lemma_outcomes_cover(prefix, pending_of(gm), c);
        let i = choose|i: int|
            0 <= i < extend_outcomes(prefix, pending_of(gm)).len() && same_outcomes(
                c,
                #[trigger] extend_outcomes(prefix, pending_of(gm))[i],
            );
        assert(same_outcomes(c, completions(gm)[i]));
    }
}

/// The FIFA order is transitive.
proof fn lemma_rank_transitive(rs: Seq<GroupResult>, a: i64, b: i64, c: i64)
    requires
        rank_before(rs, a, b),
        rank_before(rs, b, c),
    ensures
        rank_before(rs, a, c),
{
}

/// A ranked table is in FIFA order.
proof fn lemma_ranked_sorted(rs: Seq<GroupResult>)
    ensures
        crate::sorting::sorted_by(ranked_of(rs), |x: (i64, Record), y: (i64, Record)| rank_before(rs, x.0, y.0)),
        ranked_of(rs).to_multiset() == table_of(rs).to_multiset(),
        ranked_of(rs).len() == table_of(rs).len(),
{
    let before = |x: (i64, Record), y: (i64, Record)| rank_before(rs, x.0, y.0);
    assert(crate::sorting::strict_order(before)) by {
        assert forall|x: (i64, Record), y: (i64, Record), z: (i64, Record)| #[trigger] before(x, y) && #[trigger] before(y, z)
            implies before(x, z) by {
            lemma_rank_transitive(rs, x.0, y.0, z.0);
        }
    }
    crate::sorting::lemma_sort_sorted(table_of(rs), before);
    crate::sorting::lemma_sort_multiset(table_of(rs), before);
}

/// Keeping some rows of a table keeps its teams distinct.
proof fn lemma_filter_distinct(t: Seq<(i64, Record)>, p: spec_fn((i64, Record)) -> bool)
    requires
        distinct_ids(t),
    ensures
        distinct_ids(filter_seq(t, p)),
    decreases t.len(),
{
    if t.len() > 0 {
        let init = t.drop_last();
        assert(distinct_ids(init)) by {
            assert forall|i: int, j: int| 0 <= i < j < init.len() implies init[i].0 != init[j].0 by {
                assert(init[i] == t[i]);
                assert(init[j] == t[j]);
            }
        }
        lemma_filter_distinct(init, p);
        crate::sorting::lemma_filter_members(init, p);
        let fi = filter_seq(init, p);
        if p(t.last()) {
            let f = fi.push(t.last());
            assert forall|i: int, j: int| 0 <= i < j < f.len() implies f[i].0 != f[j].0 by {
                if j == fi.len() {
                    assert(f[i] == fi[i]);
                    assert(init.contains(fi[i]));
                    let q = choose|q: int| 0 <= q < init.len() && init[q] == fi[i];
                    assert(t[q] == init[q]);
                    assert(t[t.len() - 1] == t.last());
                } else {
                    assert(f[i] == fi[i]);
                    assert(f[j] == fi[j]);
                }
            }
        }
    }
}

/// Three rows of the table, each of a different team, sit at three different
/// places of the ranked table.
proof fn lemma_three_places(rs: Seq<GroupResult>, f: Seq<(i64, Record)>) -> (places: (int, int, int))
    requires
        f.len() >= 3,
        distinct_ids(f),
        forall|i: int| 0 <= i < f.len() ==> table_of(rs).contains(#[trigger] f[i]),
    ensures
        0 <= places.0 < ranked_of(rs).len() && ranked_of(rs)[places.0] == f[0],
        0 <= places.1 < ranked_of(rs).len() && ranked_of(rs)[places.1] == f[1],
        0 <= places.2 < ranked_of(rs).len() && ranked_of(rs)[places.2] == f[2],
        places.0 != places.1 && places.0 != places.2 && places.1 != places.2,
{
    broadcast use vstd::seq_lib::group_to_multiset_ensures;

    lemma_ranked_sorted(rs);
    let r = ranked_of(rs);
    let t = table_of(rs);
    assert(t.contains(f[0]));
    assert(t.contains(f[1]));
    assert(t.contains(f[2]));
    assert(r.to_multiset().count(f[0]) > 0);
    assert(r.to_multiset().count(f[1]) > 0);
    assert(r.to_multiset().count(f[2]) > 0);
    let j0 = choose|j: int| 0 <= j < r.len() && r[j] == f[0];
    let j1 = choose|j: int| 0 <= j < r.len() && r[j] == f[1];
    let j2 = choose|j: int| 0 <= j < r.len() && r[j] == f[2];
    assert(f[0].0 != f[1].0 && f[0].0 != f[2].0 && f[1].0 != f[2].0);
    (j0, j1, j2)
}

/// Three other teams ahead on points keep a team out of the top three.
proof fn lemma_ahead_keeps_out(rs: Seq<GroupResult>, open: Set<i64>, t: i64)
    requires
        teams_ahead(rs, open, t).len() >= 3,
    ensures
        !in_top_three(ranked_of(rs), t),
{
    let f = teams_ahead(rs, open, t);
    let tb = table_of(rs);
    let r = ranked_of(rs);
    lemma_table_bounded(rs);
    lemma_filter_distinct(tb, ahead_of(rs, open, t));
    crate::sorting::lemma_filter_members(tb, ahead_of(rs, open, t));
    lemma_ranked_sorted(rs);
    let (j0, j1, j2) = lemma_three_places(rs, f);
    if in_top_three(r, t) {
        let k = choose|k: int| 0 <= k < 3 && k < r.len() && r[k].0 == t;
        assert(ahead_of(rs, open, t)(f[0]));
        assert(ahead_of(rs, open, t)(f[1]));
        assert(ahead_of(rs, open, t)(f[2]));
        assert(rank_before(rs, r[j0].0, r[k].0));
        assert(rank_before(rs, r[j1].0, r[k].0));
        assert(rank_before(rs, r[j2].0, r[k].0));
        assert(j0 < k && j1 < k && j2 < k);
    }
}

/// Three teams over `p` points give the third-placed team more than `p` points.
proof fn lemma_over_lifts_third(rs: Seq<GroupResult>, p: int)
    requires
        teams_over(rs, p).len() >= 3,
    ensures
        third_record(rs).points > p,
{
    broadcast use vstd::seq_lib::group_to_multiset_ensures;

    let f = teams_over(rs, p);
    let tb = table_of(rs);
    let r = ranked_of(rs);
    lemma_table_bounded(rs);
    lemma_filter_distinct(tb, over(p));
    crate::sorting::lemma_filter_members(tb, over(p));
    lemma_ranked_sorted(rs);
    let (j0, j1, j2) = lemma_three_places(rs, f);
    assert(r.len() > 2);
    assert(over(p)(f[0]));
    assert(over(p)(f[1]));
    assert(over(p)(f[2]));
    if r[2].1.points <= p {
        assert forall|q: int| 0 <= q < r.len() implies lookup(tb, (#[trigger] r[q]).0) == r[q].1 by {
            assert(r.to_multiset().count(r[q]) > 0);
            assert(tb.contains(r[q]));
            let w = choose|w: int| 0 <= w < tb.len() && tb[w] == r[q];
            lemma_lookup_distinct(tb, w);
        }
        assert(r[j0].1.points > p);
        assert(r[j1].1.points > p);
        assert(r[j2].1.points > p);
        if j0 > 2 {
            assert(rank_before(rs, r[j0].0, r[2].0));
        }
        if j1 > 2 {
            assert(rank_before(rs, r[j1].0, r[2].0));
        }
        if j2 > 2 {
            assert(rank_before(rs, r[j2].0, r[2].0));
        }
    }
}

// ---------------------------------------------------------------- goal sums
/// Goals `z` scores in one result.
pub open spec fn side_for(r: GroupResult, z: i64) -> int {
    (if r.home_id == z { r.home_goals as int } else { 0 }) + (if r.away_id == z { r.away_goals as int } else { 0 })
}

/// Goals `z` concedes in one result.
pub open spec fn side_against(r: GroupResult, z: i64) -> int {
    (if r.home_id == z { r.away_goals as int } else { 0 }) + (if r.away_id == z { r.home_goals as int } else { 0 })
}

/// Goals `z` scores over the results.
pub open spec fn goals_for_in(rs: Seq<GroupResult>, z: i64) -> int
    decreases rs.len(),
{
    if rs.len() == 0 {
        0
    } else {
        goals_for_in(rs.drop_last(), z) + side_for(rs.last(), z)
    }
}

/// Goals `z` concedes over the results.
pub open spec fn goals_against_in(rs: Seq<GroupResult>, z: i64) -> int
    decreases rs.len(),
{
    if rs.len() == 0 {
        0
    } else {
        goals_against_in(rs.drop_last(), z) + side_against(rs.last(), z)
    }
}

/// Adding a team's row leaves every lookup as it was.
proof fn lemma_with_team_lookup(t: Seq<(i64, Record)>, id: i64, z: i64)
    requires
        distinct_ids(t),
    ensures
        lookup(with_team(t, id), z) == lookup(t, z),
{
    if !has_id(t, id) {
        let u = t.push((id, zero_record()));
        if has_id(t, z) {
            let j = choose|j: int| 0 <= j < t.len() && t[j].0 == z;
            lemma_lookup_distinct(t, j);
            assert forall|q: int| 0 <= q < j implies (#[trigger] u[q]).0 != z by {
                assert(u[q] == t[q]);
            }
            assert(u[j] == t[j]);
            lemma_lookup_at(u, z, j);
        } else {
            assert forall|q: int| 0 <= q < t.len() implies (#[trigger] t[q]).0 != z by {}
            lemma_lookup_at(t, z, t.len() as int);
            assert forall|q: int| 0 <= q < t.len() implies (#[trigger] u[q]).0 != z by {
                assert(u[q] == t[q]);
            }
            if z == id {
                lemma_lookup_at(u, z, t.len() as int);
            } else {
                assert forall|q: int| 0 <= q < u.len() implies (#[trigger] u[q]).0 != z by {
                    if q < t.len() {
                        assert(u[q] == t[q]);
                    }
                }
                lemma_lookup_at(u, z, u.len() as int);
            }
        }
    }
}

/// A team's row holds the goals it scored and conceded over the results.
proof fn lemma_goals_in_table(rs: Seq<GroupResult>, z: i64)
    ensures
        lookup(table_of(rs), z).goals_for == goals_for_in(rs, z),
        lookup(table_of(rs), z).goals_against == goals_against_in(rs, z),
    decreases rs.len(),
{
    if rs.len() > 0 {
        let init = rs.drop_last();
        let r = rs.last();
        lemma_goals_in_table(init, z);
        lemma_table_bounded(init);
        let t = table_of(init);
        lemma_volume_nonneg(init);
        let vol = result_volume(init);
        let n = init.len() as int;
        lemma_with_team(t, r.home_id, vol, n);
        let t1 = with_team(t, r.home_id);
        lemma_with_team(t1, r.away_id, vol, n);
        let t2 = with_team(t1, r.away_id);
        lemma_with_team_lookup(t, r.home_id, z);
        lemma_with_team_lookup(t1, r.away_id, z);
        let hj = choose|j: int| 0 <= j < t1.len() && t1[j].0 == r.home_id;
        assert(t2[hj] == t1[hj]);
        assert(has_id(t2, r.home_id));
        let h = r.home_goals as int;
        let a = r.away_goals as int;
        lemma_lookup_update(t2, r.home_id, h, a, z);
        let t3 = update_team(t2, r.home_id, h, a);
        lemma_lookup_update(t2, r.home_id, h, a, r.away_id);
        lemma_lookup_update(t3, r.away_id, a, h, z);
        assert(table_of(rs) == update_team(t3, r.away_id, a, h));
    }
}

/// 1 for true, 0 for false.
pub open spec fn ind(b: bool) -> int {
    if b {
        1
    } else {
        0
    }
}

/// How much one home goal of a match between `h` and `a` adds to component
/// `j` of the comparison of `t` with `s`: head-to-head goal difference and
/// goals (counted when both teams are in `tie`), then overall goal
/// difference and goals.
pub open spec fn coef_home(h: i64, a: i64, tie: Set<i64>, t: i64, s: i64, j: int) -> int {
    let inside = tie.contains(h) && tie.contains(a);
    let gd = (ind(h == t) - ind(a == t)) - (ind(h == s) - ind(a == s));
    let gf = ind(h == t) - ind(h == s);
    if j == 0 {
        if inside { gd } else { 0 }
    } else if j == 1 {
        if inside { gf } else { 0 }
    } else if j == 2 {
        gd
    } else if j == 3 {
        gf
    } else {
        0
    }
}

/// How much one away goal of a match between `h` and `a` adds to component
/// `j` of the comparison of `t` with `s`.
pub open spec fn coef_away(h: i64, a: i64, tie: Set<i64>, t: i64, s: i64, j: int) -> int {
    let inside = tie.contains(h) && tie.contains(a);
    let gd = -((ind(h == t) - ind(a == t)) - (ind(h == s) - ind(a == s)));
    let gf = ind(a == t) - ind(a == s);
    if j == 0 {
        if inside { gd } else { 0 }
    } else if j == 1 {
        if inside { gf } else { 0 }
    } else if j == 2 {
        gd
    } else if j == 3 {
        gf
    } else {
        0
    }
}

/// What goals `gh` and `ga` in a match between `h` and `a` add to component `j`.
pub open spec fn part_of(h: i64, a: i64, gh: int, ga: int, tie: Set<i64>, t: i64, s: i64, j: int) -> int {
    gh * coef_home(h, a, tie, t, s, j) + ga * coef_away(h, a, tie, t, s, j)
}

/// What one result adds to component `j`.
pub open spec fn pair_part(r: GroupResult, tie: Set<i64>, t: i64, s: i64, j: int) -> int {
    part_of(r.home_id, r.away_id, r.home_goals as int, r.away_goals as int, tie, t, s, j)
}

/// Component `j` summed over the results.
pub open spec fn pair_sum(rs: Seq<GroupResult>, tie: Set<i64>, t: i64, s: i64, j: int) -> int
    decreases rs.len(),
{
    if rs.len() == 0 {
        0
    } else {
        pair_sum(rs.drop_last(), tie, t, s, j) + pair_part(rs.last(), tie, t, s, j)
    }
}

/// The comparison of `t` with `s` once level on points and head-to-head
/// points: head-to-head goal difference and goals among `tie`, overall goal
/// difference and goals, each of `t` less that of `s`, then `s - t`.
pub open spec fn pair_vector(rs: Seq<GroupResult>, tie: Set<i64>, t: i64, s: i64) -> Seq<int> {
    Seq::new(5, |j: int| pair_sum(rs, tie, t, s, j) + if j == 4 { s - t } else { 0 })
}

/// One result's share, component by component, in goal terms.
proof fn lemma_part_bridge(r: GroupResult, tie: Set<i64>, t: i64, s: i64)
    ensures
        pair_part(r, tie, t, s, 0) == if tie.contains(r.home_id) && tie.contains(r.away_id) {
            (side_for(r, t) - side_against(r, t)) - (side_for(r, s) - side_against(r, s))
        } else {
            0
        },
        pair_part(r, tie, t, s, 1) == if tie.contains(r.home_id) && tie.contains(r.away_id) {
            side_for(r, t) - side_for(r, s)
        } else {
            0
        },
        pair_part(r, tie, t, s, 2) == (side_for(r, t) - side_against(r, t)) - (side_for(r, s) - side_against(r, s)),
        pair_part(r, tie, t, s, 3) == side_for(r, t) - side_for(r, s),
        pair_part(r, tie, t, s, 4) == 0,
{
    let gh = r.home_goals as int;
    let ga = r.away_goals as int;
    let ht = ind(r.home_id == t);
    let at = ind(r.away_id == t);
    let hs = ind(r.home_id == s);
    let as_ = ind(r.away_id == s);
    assert(side_for(r, t) == gh * ht + ga * at);
    assert(side_against(r, t) == ga * ht + gh * at);
    assert(side_for(r, s) == gh * hs + ga * as_);
    assert(side_against(r, s) == ga * hs + gh * as_);
    assert(gh * ((ht - at) - (hs - as_)) + ga * (-((ht - at) - (hs - as_))) == (gh * ht + ga * at - (ga * ht
        + gh * at)) - (gh * hs + ga * as_ - (ga * hs + gh * as_))) by (nonlinear_arith);
    assert(gh * (ht - hs) + ga * (at - as_) == (gh * ht + ga * at) - (gh * hs + ga * as_)) by (nonlinear_arith);
}

/// The components summed over the results are the head-to-head and overall
/// goal figures of `t` less those of `s`.
proof fn lemma_pair_sums(rs: Seq<GroupResult>, tie: Set<i64>, t: i64, s: i64)
    ensures
        pair_sum(rs, tie, t, s, 0) == (goals_for_in(results_among(rs, tie), t) - goals_against_in(results_among(rs, tie), t))
            - (goals_for_in(results_among(rs, tie), s) - goals_against_in(results_among(rs, tie), s)),
        pair_sum(rs, tie, t, s, 1) == goals_for_in(results_among(rs, tie), t) - goals_for_in(results_among(rs, tie), s),
        pair_sum(rs, tie, t, s, 2) == (goals_for_in(rs, t) - goals_against_in(rs, t)) - (goals_for_in(rs, s)
            - goals_against_in(rs, s)),
        pair_sum(rs, tie, t, s, 3) == goals_for_in(rs, t) - goals_for_in(rs, s),
        pair_sum(rs, tie, t, s, 4) == 0,
    decreases rs.len(),
{
    if rs.len() > 0 {
        let init = rs.drop_last();
        let r = rs.last();
        lemma_pair_sums(init, tie, t, s);
        lemma_part_bridge(r, tie, t, s);
        let fa = results_among(init, tie);
        if tie.contains(r.home_id) && tie.contains(r.away_id) {
            let g = fa.push(r);
            assert(results_among(rs, tie) == g);
            assert(g.drop_last() =~= fa);
            assert(g.last() == r);
        } else {
            assert(results_among(rs, tie) == fa);
        }
    }
}

/// Level on points and head-to-head points, `t` ranks above `s` exactly when
/// its comparison vector is lexicographically positive.
proof fn lemma_rank_by_vector(rs: Seq<GroupResult>, t: i64, s: i64)
    requires
        lookup(table_of(rs), t).points == lookup(table_of(rs), s).points,
        h2h_record(rs, t).points == h2h_record(rs, s).points,
    ensures
        rank_before(rs, t, s) == crate::lexorder::lexpos_from(
            pair_vector(rs, tied_ids(table_of(rs), lookup(table_of(rs), t).points), t, s),
            0,
        ),
{
    let tb = table_of(rs);
    let tie = tied_ids(tb, lookup(tb, t).points);
    assert(tied_ids(tb, lookup(tb, s).points) == tie);
    let among = results_among(rs, tie);
    lemma_pair_sums(rs, tie, t, s);
    lemma_goals_in_table(rs, t);
    lemma_goals_in_table(rs, s);
    lemma_goals_in_table(among, t);
    lemma_goals_in_table(among, s);
    let v = pair_vector(rs, tie, t, s);
    reveal_with_fuel(crate::lexorder::lexpos_from, 6);
    assert(v[0] == gd(h2h_record(rs, t)) - gd(h2h_record(rs, s)));
    assert(v[1] == h2h_record(rs, t).goals_for - h2h_record(rs, s).goals_for);
    assert(v[2] == gd(lookup(tb, t)) - gd(lookup(tb, s)));
    assert(v[3] == lookup(tb, t).goals_for - lookup(tb, s).goals_for);
    assert(v[4] == s - t);
    assert(v.len() == 5);
}

/// The first way a result can grow without changing how it ends: the home
/// score for a home win, both scores for a draw, the away score for an away win.
pub open spec fn first_dir(r: GroupResult) -> (int, int) {
    if r.home_goals > r.away_goals {
        (1, 0)
    } else if r.home_goals == r.away_goals {
        (1, 1)
    } else {
        (0, 1)
    }
}

/// The smallest result of its kind: 1-0, 0-0 or 0-1.
pub open spec fn smallest_result(r: GroupResult) -> bool {
    (r.home_goals == 1 && r.away_goals == 0) || (r.home_goals == 0 && r.away_goals == 0) || (r.home_goals == 0
        && r.away_goals == 1)
}

/// How many times `c` grows from `b` along the first way and along both scores.
pub open spec fn growth(c: GroupResult, b: GroupResult) -> (int, int) {
    let dh = c.home_goals - b.home_goals;
    let da = c.away_goals - b.away_goals;
    if b.home_goals > b.away_goals {
        (dh - da, da)
    } else if b.home_goals == b.away_goals {
        (dh, 0)
    } else {
        (da - dh, dh)
    }
}

/// The share of goals `d` in a match between `h` and `a`, component by component.
pub open spec fn dir_vector(h: i64, a: i64, d: (int, int), tie: Set<i64>, t: i64, s: i64) -> Seq<int> {
    Seq::new(5, |j: int| part_of(h, a, d.0, d.1, tie, t, s, j))
}

/// Five zeros.
pub open spec fn zeros() -> Seq<int> {
    Seq::new(5, |j: int| 0int)
}

/// For each result of `base`, the two ways it can grow, as shares of the
/// comparison; none for the first `n`, which are final.
pub open spec fn growth_dirs(base: Seq<GroupResult>, n: int, tie: Set<i64>, t: i64, s: i64) -> Seq<(Seq<int>, Seq<int>)> {
    Seq::new(
        base.len(),
        |k: int|
            if k < n {
                (zeros(), zeros())
            } else {
                (
                    dir_vector(base[k].home_id, base[k].away_id, first_dir(base[k]), tie, t, s),
                    dir_vector(base[k].home_id, base[k].away_id, (1, 1), tie, t, s),
                )
            },
    )
}

/// How much each result of `c` grew from that of `base`.
pub open spec fn growths(c: Seq<GroupResult>, base: Seq<GroupResult>) -> Seq<(int, int)> {
    Seq::new(base.len(), |k: int| growth(c[k], base[k]))
}

/// Summed components differ by the summed shares when each result's share
/// is its difference.
proof fn lemma_pair_sum_cone(
    c: Seq<GroupResult>,
    base: Seq<GroupResult>,
    w: Seq<(Seq<int>, Seq<int>)>,
    lam: Seq<(int, int)>,
    tie: Set<i64>,
    t: i64,
    s: i64,
    j: int,
)
    requires
        c.len() == base.len(),
        w.len() == base.len(),
        lam.len() == base.len(),
        forall|k: int|
            0 <= k < base.len() ==> #[trigger] crate::lexorder::share(w[k], lam[k], j) == pair_part(c[k], tie, t, s, j)
                - pair_part(base[k], tie, t, s, j),
    ensures
        pair_sum(c, tie, t, s, j) == pair_sum(base, tie, t, s, j) + crate::lexorder::cone_sum(w, lam, j),
    decreases base.len(),
{
    if base.len() > 0 {
        let n = base.len() - 1;
        assert forall|k: int| 0 <= k < n implies #[trigger] crate::lexorder::share(w.drop_last()[k], lam.drop_last()[k], j)
            == pair_part(c.drop_last()[k], tie, t, s, j) - pair_part(base.drop_last()[k], tie, t, s, j) by {
            assert(w.drop_last()[k] == w[k]);
            assert(lam.drop_last()[k] == lam[k]);
            assert(c.drop_last()[k] == c[k]);
            assert(base.drop_last()[k] == base[k]);
        }
        lemma_pair_sum_cone(c.drop_last(), base.drop_last(), w.drop_last(), lam.drop_last(), tie, t, s, j);
        assert(crate::lexorder::share(w[n], lam[n], j) == pair_part(c[n], tie, t, s, j) - pair_part(base[n], tie, t, s, j));
        assert(c.last() == c[n]);
        assert(base.last() == base[n]);
        assert(w.last() == w[n]);
        assert(lam.last() == lam[n]);
    }
}

/// A result that grew from the smallest result of its kind splits into
/// nonnegative growths along its two ways.
proof fn lemma_growth_share(c: GroupResult, b: GroupResult, tie: Set<i64>, t: i64, s: i64, j: int)
    requires
        0 <= j < 5,
        c.home_id == b.home_id,
        c.away_id == b.away_id,
        outcome_sign(c) == outcome_sign(b),
        smallest_result(b),
        c.home_goals >= 0,
        c.away_goals >= 0,
    ensures
        growth(c, b).0 >= 0,
        growth(c, b).1 >= 0,
        crate::lexorder::share(
            (dir_vector(b.home_id, b.away_id, first_dir(b), tie, t, s), dir_vector(b.home_id, b.away_id, (1, 1), tie, t, s)),
            growth(c, b),
            j,
        ) == pair_part(c, tie, t, s, j) - pair_part(b, tie, t, s, j),
{
    let ch = coef_home(b.home_id, b.away_id, tie, t, s, j);
    let ca = coef_away(b.home_id, b.away_id, tie, t, s, j);
    let x1 = c.home_goals as int;
    let y1 = c.away_goals as int;
    let x0 = b.home_goals as int;
    let y0 = b.away_goals as int;
    let dh = x1 - x0;
    let da = y1 - y0;
    lemma_ring_diff(x1, y1, x0, y0, ch, ca);
    let g = growth(c, b);
    let w0 = dir_vector(b.home_id, b.away_id, first_dir(b), tie, t, s);
    let w1 = dir_vector(b.home_id, b.away_id, (1, 1), tie, t, s);
    assert(w1[j] == 1 * ch + 1 * ca);
    if x0 > y0 {
        assert(w0[j] == 1 * ch + 0 * ca);
        assert(g == (dh - da, da));
        lemma_ring_split(dh - da, da, ch, ca);
    } else if x0 == y0 {
        assert(w0[j] == 1 * ch + 1 * ca);
        assert(g == (dh, 0int));
        assert(dh == da);
        lemma_ring_split(dh, 0, ch + ca - ch, 0);
        assert(g.0 * w0[j] + g.1 * w1[j] == dh * (ch + ca) + 0 * (ch + ca));
        lemma_ring_zero(dh, ch, ca);
    } else {
        assert(w0[j] == 0 * ch + 1 * ca);
        assert(g == (da - dh, dh));
        lemma_ring_split(da - dh, dh, ca, ch);
    }
}

proof fn lemma_ring_diff(x1: int, y1: int, x0: int, y0: int, ch: int, ca: int)
    ensures
        (x1 * ch + y1 * ca) - (x0 * ch + y0 * ca) == (x1 - x0) * ch + (y1 - y0) * ca,
{
    assert((x1 * ch + y1 * ca) - (x0 * ch + y0 * ca) == (x1 - x0) * ch + (y1 - y0) * ca) by (nonlinear_arith);
}

proof fn lemma_ring_split(p: int, q: int, u: int, v: int)
    ensures
        p * (1 * u + 0 * v) + q * (1 * u + 1 * v) == (p + q) * u + q * v,
        p * (0 * v + 1 * u) + q * (1 * v + 1 * u) == (p + q) * u + q * v,
{
    assert(p * (1 * u + 0 * v) + q * (1 * u + 1 * v) == (p + q) * u + q * v) by (nonlinear_arith);
    assert(p * (0 * v + 1 * u) + q * (1 * v + 1 * u) == (p + q) * u + q * v) by (nonlinear_arith);
}

proof fn lemma_ring_zero(d: int, u: int, v: int)
    ensures
        d * (1 * u + 1 * v) + 0 * (1 * u + 1 * v) == d * u + d * v,
{
    assert(d * (1 * u + 1 * v) + 0 * (1 * u + 1 * v) == d * u + d * v) by (nonlinear_arith);
}

/// Growing one result `m` times along a way adds `m` times that way's share.
proof fn lemma_pair_sum_update(x: Seq<GroupResult>, k: int, e: GroupResult, tie: Set<i64>, t: i64, s: i64, j: int)
    requires
        0 <= k < x.len(),
    ensures
        pair_sum(x.update(k, e), tie, t, s, j) == pair_sum(x, tie, t, s, j) - pair_part(x[k], tie, t, s, j) + pair_part(
            e,
            tie,
            t,
            s,
            j,
        ),
    decreases x.len(),
{
    let y = x.update(k, e);
    if k == x.len() - 1 {
        assert(y.drop_last() =~= x.drop_last());
        assert(y.last() == e);
        assert(x.last() == x[k]);
    } else {
        assert(y.drop_last() =~= x.drop_last().update(k, e));
        assert(y.last() == x.last());
        lemma_pair_sum_update(x.drop_last(), k, e, tie, t, s, j);
        assert(x.drop_last()[k] == x[k]);
    }
}

/// Each result's share is at most twice its goals.
proof fn lemma_pair_sum_bound(rs: Seq<GroupResult>, tie: Set<i64>, t: i64, s: i64, j: int)
    ensures
        abs(pair_sum(rs, tie, t, s, j)) <= 2 * result_volume(rs),
    decreases rs.len(),
{
    if rs.len() > 0 {
        lemma_pair_sum_bound(rs.drop_last(), tie, t, s, j);
        let r = rs.last();
        let ch = coef_home(r.home_id, r.away_id, tie, t, s, j);
        let ca = coef_away(r.home_id, r.away_id, tie, t, s, j);
        let h = r.home_goals as int;
        let a = r.away_goals as int;
        assert(-2 <= ch <= 2 && -2 <= ca <= 2);
        assert(abs(h * ch + a * ca) <= 2 * abs(h) + 2 * abs(a)) by (nonlinear_arith)
            requires
                -2 <= ch <= 2,
                -2 <= ca <= 2,
        ;
    }
}

/// Way `x` of growing a result: 0 its first way, 1 both scores.
pub open spec fn grow_dir(r: GroupResult, x: int) -> (int, int) {
    if x == 0 {
        first_dir(r)
    } else {
        (1, 1)
    }
}

/// The ending `base` with its result `k` grown `m` times along way `x`.
pub open spec fn grown(base: Seq<GroupResult>, k: int, x: int, m: int) -> Seq<GroupResult> {
    let r = base[k];
    let d = grow_dir(r, x);
    base.update(
        k,
        GroupResult {
            home_id: r.home_id,
            away_id: r.away_id,
            home_goals: (r.home_goals + m * d.0) as i64,
            away_goals: (r.away_goals + m * d.1) as i64,
        },
    )
}

/// How far a listed ending is grown: more than any of its comparison shares.
pub open spec fn step_of(base: Seq<GroupResult>) -> int {
    2 * result_volume(base) + 1
}

proof fn lemma_volume_update(x: Seq<GroupResult>, k: int, e: GroupResult)
    requires
        0 <= k < x.len(),
    ensures
        result_volume(x.update(k, e)) == result_volume(x) - abs(x[k].home_goals as int) - abs(x[k].away_goals as int)
            + abs(e.home_goals as int) + abs(e.away_goals as int),
    decreases x.len(),
{
    let y = x.update(k, e);
    if k == x.len() - 1 {
        assert(y.drop_last() =~= x.drop_last());
        assert(y.last() == e);
        assert(x.last() == x[k]);
    } else {
        assert(y.drop_last() =~= x.drop_last().update(k, e));
        assert(y.last() == x.last());
        lemma_volume_update(x.drop_last(), k, e);
        assert(x.drop_last()[k] == x[k]);
    }
}

proof fn lemma_goal_le_volume(x: Seq<GroupResult>, k: int)
    requires
        0 <= k < x.len(),
    ensures
        abs(x[k].home_goals as int) + abs(x[k].away_goals as int) <= result_volume(x),
    decreases x.len(),
{
    lemma_volume_nonneg(x.drop_last());
    if k < x.len() - 1 {
        lemma_goal_le_volume(x.drop_last(), k);
        assert(x.drop_last()[k] == x[k]);
    } else {
        assert(x.last() == x[k]);
    }
}

/// Growing a pending result of a way the group can end gives another way it
/// can end, ending the same way match by match, still within the limits, and
/// moving each comparison by the grown amount times that way's share.
proof fn lemma_grown(gm: Seq<&Match>, base: Seq<GroupResult>, k: int, x: int, tie: Set<i64>, t: i64, s: i64)
    requires
        is_completion(gm, base),
        grows_fit(base),
        smallest_result(base[k]),
        results_of(gm).len() <= k < base.len(),
        0 <= x < 2,
    ensures
        is_completion(gm, grown(base, k, x, step_of(base))),
        same_outcomes(base, grown(base, k, x, step_of(base))),
        results_fit(grown(base, k, x, step_of(base))),
        grown(base, k, x, step_of(base)).len() == base.len(),
        forall|j: int|
            0 <= j < 5 ==> #[trigger] pair_vector(grown(base, k, x, step_of(base)), tie, t, s)[j] == crate::lexorder::moved(
                pair_vector(base, tie, t, s),
                step_of(base),
                dir_vector(base[k].home_id, base[k].away_id, grow_dir(base[k], x), tie, t, s),
            )[j],
{
    let m = step_of(base);
    let r = base[k];
    let d = grow_dir(r, x);
    lemma_volume_nonneg(base);
    lemma_goal_le_volume(base, k);
    let e = GroupResult {
        home_id: r.home_id,
        away_id: r.away_id,
        home_goals: (r.home_goals + m * d.0) as i64,
        away_goals: (r.away_goals + m * d.1) as i64,
    };
    assert(0 <= d.0 <= 1 && 0 <= d.1 <= 1);
    assert(0 <= m * d.0 <= m && 0 <= m * d.1 <= m) by (nonlinear_arith)
        requires
            0 <= d.0 <= 1,
            0 <= d.1 <= 1,
            m >= 1,
    ;
    assert(e.home_goals == r.home_goals + m * d.0);
    assert(e.away_goals == r.away_goals + m * d.1);
    let g = grown(base, k, x, m);
    assert(g == base.update(k, e));
    lemma_volume_update(base, k, e);
    let n = results_of(gm).len();
    assert forall|q: int| 0 <= q < n implies #[trigger] g[q] == results_of(gm)[q] by {
        assert(g[q] == base[q]);
    }
    assert forall|q: int| n <= q < g.len() implies plays(pending_of(gm)[q - n], #[trigger] g[q]) by {
        assert(plays(pending_of(gm)[q - n], base[q]));
    }
    assert forall|i: int| 0 <= i < base.len() implies (#[trigger] base[i]).home_id == g[i].home_id && base[i].away_id
        == g[i].away_id && outcome_sign(base[i]) == outcome_sign(g[i]) by {}
    assert forall|j: int| 0 <= j < 5 implies #[trigger] pair_vector(g, tie, t, s)[j] == crate::lexorder::moved(
        pair_vector(base, tie, t, s),
        m,
        dir_vector(r.home_id, r.away_id, d, tie, t, s),
    )[j] by {
        lemma_pair_sum_update(base, k, e, tie, t, s, j);
        let ch = coef_home(r.home_id, r.away_id, tie, t, s, j);
        let ca = coef_away(r.home_id, r.away_id, tie, t, s, j);
        lemma_ring_grow(r.home_goals as int, r.away_goals as int, m, d.0, d.1, ch, ca);
    }
}

proof fn lemma_ring_grow(h: int, a: int, m: int, d0: int, d1: int, ch: int, ca: int)
    ensures
        (h + m * d0) * ch + (a + m * d1) * ca - (h * ch + a * ca) == m * (d0 * ch + d1 * ca),
{
    assert((h + m * d0) * ch + (a + m * d1) * ca - (h * ch + a * ca) == m * (d0 * ch + d1 * ca)) by (nonlinear_arith);
}

/// Every team in a table played in one of the results.
proof fn lemma_table_ids(rs: Seq<GroupResult>, z: i64)
    requires
        has_id(table_of(rs), z),
    ensures
        exists|k: int| 0 <= k < rs.len() && ((#[trigger] rs[k]).home_id == z || rs[k].away_id == z),
    decreases rs.len(),
{
    let init = rs.drop_last();
    let r = rs.last();
    let t = table_of(init);
    let t1 = with_team(t, r.home_id);
    let t2 = with_team(t1, r.away_id);
    let t3 = update_team(t2, r.home_id, r.home_goals as int, r.away_goals as int);
    let t4 = update_team(t3, r.away_id, r.away_goals as int, r.home_goals as int);
    assert(table_of(rs) == t4);
    let j = choose|j: int| 0 <= j < t4.len() && t4[j].0 == z;
    assert(t3[j].0 == z);
    assert(t2[j].0 == z);
    if z == r.home_id || z == r.away_id {
        assert(rs[rs.len() - 1] == r);
    } else {
        if j < t1.len() {
            assert(t2[j] == t1[j]) by {
                if !has_id(t1, r.away_id) {
                    assert(t1.push((r.away_id, zero_record()))[j] == t1[j]);
                }
            }
            if j < t.len() {
                assert(t1[j] == t[j]) by {
                    if !has_id(t, r.home_id) {
                        assert(t.push((r.home_id, zero_record()))[j] == t[j]);
                    }
                }
                assert(has_id(t, z));
                lemma_table_ids(init, z);
                let k = choose|k: int| 0 <= k < init.len() && ((#[trigger] init[k]).home_id == z || init[k].away_id == z);
                assert(rs[k] == init[k]);
            } else {
                assert(!has_id(t, r.home_id));
                assert(t.push((r.home_id, zero_record()))[j].0 == r.home_id);
            }
        } else {
            assert(!has_id(t1, r.away_id));
            assert(t1.push((r.away_id, zero_record()))[j].0 == r.away_id);
        }
    }
}

/// The final results are between teams of the group.
proof fn lemma_results_ids(gm: Seq<&Match>, k: int)
    requires
        0 <= k < results_of(gm).len(),
    ensures
        group_team_ids(gm).contains(results_of(gm)[k].home_id),
        group_team_ids(gm).contains(results_of(gm)[k].away_id),
    decreases gm.len(),
{
    let init = gm.drop_last();
    let last = gm.last();
    assert(gm[gm.len() - 1] == last);
    match result_of(*last) {
        Some(r) => {
            if k == results_of(gm).len() - 1 {
                assert(results_of(gm)[k] == r);
                assert(side_is(gm[gm.len() - 1].home_team.id, r.home_id));
                assert(side_is(gm[gm.len() - 1].away_team.id, r.away_id));
            } else {
                assert(results_of(gm)[k] == results_of(init)[k]);
                lemma_results_ids(init, k);
                let i = choose|i: int| 0 <= i < init.len() && (side_is((#[trigger] init[i]).home_team.id, results_of(init)[k].home_id)
                    || side_is(init[i].away_team.id, results_of(init)[k].home_id));
                assert(gm[i] == init[i]);
                let i2 = choose|i: int| 0 <= i < init.len() && (side_is((#[trigger] init[i]).home_team.id, results_of(init)[k].away_id)
                    || side_is(init[i].away_team.id, results_of(init)[k].away_id));
                assert(gm[i2] == init[i2]);
            }
        },
        None => {
            lemma_results_ids(init, k);
            let i = choose|i: int| 0 <= i < init.len() && (side_is((#[trigger] init[i]).home_team.id, results_of(init)[k].home_id)
                || side_is(init[i].away_team.id, results_of(init)[k].home_id));
            assert(gm[i] == init[i]);
            let i2 = choose|i: int| 0 <= i < init.len() && (side_is((#[trigger] init[i]).home_team.id, results_of(init)[k].away_id)
                || side_is(init[i].away_team.id, results_of(init)[k].away_id));
            assert(gm[i2] == init[i2]);
        },
    }
}

/// The group has at most four teams.
pub open spec fn four_or_fewer(gm: Seq<&Match>) -> bool {
    group_team_ids(gm).finite() && group_team_ids(gm).len() <= 4
}

/// Every way a group of at most four teams can end gives a table of at most
/// four rows, all of teams of the group.
proof fn lemma_completion_table(gm: Seq<&Match>, c: Seq<GroupResult>)
    requires
        is_completion(gm, c),
        four_or_fewer(gm),
    ensures
        table_of(c).len() <= 4,
{
    let tb = table_of(c);
    lemma_table_bounded(c);
    let ids = tb.map_values(|e: (i64, Record)| e.0);
    let n = results_of(gm).len();
    let p = pending_of(gm);
    crate::sorting::lemma_filter_members(gm, |m: &Match| !match_is_final_spec(*m));
    assert(ids.to_set().subset_of(group_team_ids(gm))) by {
        assert forall|z: i64| ids.to_set().contains(z) implies group_team_ids(gm).contains(z) by {
            let q = choose|q: int| 0 <= q < ids.len() && ids[q] == z;
            assert(tb[q].0 == z);
            lemma_table_ids(c, z);
            let k = choose|k: int| 0 <= k < c.len() && ((#[trigger] c[k]).home_id == z || c[k].away_id == z);
            if k < n {
                assert(c[k] == results_of(gm)[k]);
                lemma_results_ids(gm, k);
            } else {
                assert(plays(p[k - n], c[k]));
                assert(gm.contains(p[k - n]));
                let i = choose|i: int| 0 <= i < gm.len() && gm[i] == p[k - n];
                assert(side_is(gm[i].home_team.id, c[k].home_id));
                assert(side_is(gm[i].away_team.id, c[k].away_id));
            }
        }
    }
    assert(ids.no_duplicates()) by {
        assert forall|a: int, b: int| 0 <= a < ids.len() && 0 <= b < ids.len() && a != b implies ids[a] != ids[b] by {
            if a < b {
                assert(tb[a].0 != tb[b].0);
            } else {
                assert(tb[b].0 != tb[a].0);
            }
        }
    }
    ids.unique_seq_to_set();
    vstd::set_lib::lemma_len_subset(ids.to_set(), group_team_ids(gm));
}

/// In a table of at most four rows a team finishes in the top three exactly
/// when it is in the table and, with four rows, ranks above another team.
proof fn lemma_top_three_by_pair(rs: Seq<GroupResult>, t: i64)
    requires
        table_of(rs).len() <= 4,
    ensures
        in_top_three(ranked_of(rs), t) == (has_id(table_of(rs), t) && (table_of(rs).len() <= 3 || exists|s: i64|
            s != t && has_id(table_of(rs), s) && #[trigger] rank_before(rs, t, s))),
{
    broadcast use vstd::seq_lib::group_to_multiset_ensures;

    let tb = table_of(rs);
    let r = ranked_of(rs);
    lemma_table_bounded(rs);
    lemma_ranked_sorted(rs);
    assert(tb.no_duplicates()) by {
        assert forall|a: int, b: int| 0 <= a < tb.len() && 0 <= b < tb.len() && a != b implies tb[a] != tb[b] by {
            if a < b {
                assert(tb[a].0 != tb[b].0);
            } else {
                assert(tb[b].0 != tb[a].0);
            }
        }
    }
    tb.lemma_multiset_has_no_duplicates();
    r.lemma_multiset_has_no_duplicates_conv();
    assert forall|q: int| 0 <= q < r.len() implies exists|w: int| 0 <= w < tb.len() && tb[w] == #[trigger] r[q] by {
        assert(r.to_multiset().count(r[q]) > 0);
        assert(tb.contains(r[q]));
    }
    assert forall|a: int, b: int| 0 <= a < r.len() && 0 <= b < r.len() && a != b implies (#[trigger] r[a]).0 != (#[trigger] r[b]).0 by {
        let wa = choose|w: int| 0 <= w < tb.len() && tb[w] == r[a];
        let wb = choose|w: int| 0 <= w < tb.len() && tb[w] == r[b];
        if wa < wb {
            assert(tb[wa].0 != tb[wb].0);
        } else if wb < wa {
            assert(tb[wb].0 != tb[wa].0);
        }
    }
    if in_top_three(r, t) {
        let k = choose|k: int| 0 <= k < 3 && k < r.len() && r[k].0 == t;
        let wk = choose|w: int| 0 <= w < tb.len() && tb[w] == r[k];
        assert(has_id(tb, t));
        if tb.len() == 4 {
            let s = r[3].0;
            let w3 = choose|w: int| 0 <= w < tb.len() && tb[w] == r[3];
            assert(has_id(tb, s));
            assert(s != t);
            assert(!rank_before(rs, r[3].0, r[k].0));
            assert(rank_before(rs, s, t) != rank_before(rs, t, s));
            assert(rank_before(rs, t, s));
        }
    }
    if has_id(tb, t) && (tb.len() <= 3 || exists|s: i64| s != t && has_id(tb, s) && #[trigger] rank_before(rs, t, s)) {
        let w = choose|w: int| 0 <= w < tb.len() && tb[w].0 == t;
        assert(tb.to_multiset().count(tb[w]) > 0);
        assert(r.contains(tb[w]));
        let k = choose|k: int| 0 <= k < r.len() && r[k] == tb[w];
        if tb.len() > 3 {
            let s = choose|s: i64| s != t && has_id(tb, s) && #[trigger] rank_before(rs, t, s);
            let w2 = choose|w: int| 0 <= w < tb.len() && tb[w].0 == s;
            assert(tb.to_multiset().count(tb[w2]) > 0);
            assert(r.contains(tb[w2]));
            let q = choose|q: int| 0 <= q < r.len() && r[q] == tb[w2];
            if k >= 3 {
                assert(q < k);
                assert(!rank_before(rs, r[k].0, r[q].0));
            }
        }
        assert(in_top_three(r, t));
    }
}

/// The listed ending `b`, or `b` with one of its results from `n` on grown
/// along one of its two ways, puts `t` in the top three.
pub open spec fn reach_at(b: Seq<GroupResult>, n: int, t: i64) -> bool {
    in_top_three(ranked_of(b), t) || exists|k: int, x: int|
        n <= k < b.len() && 0 <= x < 2 && #[trigger] in_top_three(ranked_of(grown(b, k, x, step_of(b))), t)
}

/// In a group of at most four teams, a team can still reach the top three
/// exactly when a listed ending, or one of them with a single pending result
/// grown far enough along one of its ways, puts it there.
#[verifier::spinoff_prover]
#[verifier::rlimit(60)]
proof fn lemma_reach_by_candidates(gm: Seq<&Match>, t: i64)
    requires
        matches_fit(gm),
        four_or_fewer(gm),
    ensures
        can_reach_top_three(gm, t) == exists|i: int|
            0 <= i < completions(gm).len() && reach_at(#[trigger] completions(gm)[i], results_of(gm).len() as int, t),
{
    let cs = completions(gm);
    let n = results_of(gm).len() as int;
    lemma_completions_represent(gm);
    lemma_completions_fit(gm);
    lemma_outcomes_smallest(results_of(gm), pending_of(gm));
    if exists|i: int| 0 <= i < cs.len() && reach_at(#[trigger] cs[i], n, t) {
        let i = choose|i: int| 0 <= i < cs.len() && reach_at(#[trigger] cs[i], n, t);
        let b = cs[i];
        assert(is_completion(gm, b));
        if !in_top_three(ranked_of(b), t) {
            let (k, x) = choose|k: int, x: int|
                n <= k < b.len() && 0 <= x < 2 && #[trigger] in_top_three(ranked_of(grown(b, k, x, step_of(b))), t);
            assert(smallest_result(b[k]));
            lemma_grown(gm, b, k, x, Set::empty(), t, t);
            assert(is_completion(gm, grown(b, k, x, step_of(b))));
        }
    }
    if can_reach_top_three(gm, t) {
        let c = choose|c: Seq<GroupResult>| #[trigger] is_completion(gm, c) && in_top_three(ranked_of(c), t);
        let i = choose|i: int| 0 <= i < cs.len() && same_outcomes(c, #[trigger] cs[i]);
        let b = cs[i];
        assert(is_completion(gm, b));
        lemma_reach_from(gm, c, b, t);
        assert(reach_at(cs[i], n, t));
    }
}

/// A way the group can end that puts `t` in the top three is matched by its
/// listed ending, or by that ending with one pending result grown.
#[verifier::spinoff_prover]
#[verifier::rlimit(60)]
proof fn lemma_reach_from(gm: Seq<&Match>, c: Seq<GroupResult>, b: Seq<GroupResult>, t: i64)
    requires
        matches_fit(gm),
        four_or_fewer(gm),
        is_completion(gm, c),
        is_completion(gm, b),
        same_outcomes(c, b),
        grows_fit(b),
        forall|k: int| results_of(gm).len() <= k < b.len() ==> #[trigger] smallest_result(b[k]),
        in_top_three(ranked_of(c), t),
    ensures
        reach_at(b, results_of(gm).len() as int, t),
{
    let n = results_of(gm).len() as int;
    let tc = table_of(c);
    let tb = table_of(b);
    lemma_completion_table(gm, c);
    lemma_completion_table(gm, b);
    lemma_top_three_by_pair(c, t);
    lemma_top_three_by_pair(b, t);
    lemma_same_table(c, b);
    lemma_same_has_id(tc, tb, t);
    if tc.len() > 3 {
        let s = choose|s: i64| s != t && has_id(tc, s) && #[trigger] rank_before(c, t, s);
        lemma_same_has_id(tc, tb, s);
        lemma_same_h2h(c, b, t);
        lemma_same_h2h(c, b, s);
        if lookup(tc, t).points != lookup(tc, s).points || h2h_record(c, t).points != h2h_record(c, s).points {
            assert(rank_before(b, t, s));
        } else {
            lemma_rank_by_vector(c, t, s);
            lemma_rank_by_vector(b, t, s);
            let p = lookup(tb, t).points;
            let tie = tied_ids(tb, p);
            assert(tied_ids(tc, lookup(tc, t).points) =~= tie) by {
                assert forall|z: i64| tied_ids(tc, p).contains(z) == tie.contains(z) by {
                    lemma_same_lookup(tc, tb, z);
                }
            }
            let v = pair_vector(c, tie, t, s);
            let bv = pair_vector(b, tie, t, s);
            let w = growth_dirs(b, n, tie, t, s);
            let lam = growths(c, b);
            let m = step_of(b);
            assert forall|k: int| 0 <= k < lam.len() implies (#[trigger] lam[k]).0 >= 0 && lam[k].1 >= 0 by {
                assert(lam[k] == growth(c[k], b[k]));
                if k >= n {
                    assert(plays(pending_of(gm)[k - n], c[k]));
                    lemma_growth_share(c[k], b[k], tie, t, s, 0);
                } else {
                    assert(c[k] == b[k]);
                }
            }
            assert forall|k: int| 0 <= k < w.len() implies (#[trigger] w[k]).0.len() == 5 && w[k].1.len() == 5 by {}
            assert forall|j: int| 0 <= j < 5 implies #[trigger] v[j] == bv[j] + crate::lexorder::cone_sum(w, lam, j) by {
                assert forall|k: int| 0 <= k < b.len() implies #[trigger] crate::lexorder::share(w[k], lam[k], j)
                    == pair_part(c[k], tie, t, s, j) - pair_part(b[k], tie, t, s, j) by {
                    lemma_entry_share(gm, c, b, tie, t, s, j, k);
                }
                lemma_pair_sum_cone(c, b, w, lam, tie, t, s, j);
            }
            lemma_volume_nonneg(b);
            assert forall|k: int, i: int| 0 <= k < w.len() && 0 <= i < 5 implies ((#[trigger] w[k]).0[i] > 0 ==> bv[i]
                + m * w[k].0[i] > 0) && (w[k].1[i] > 0 ==> #[trigger] bv[i] + m * w[k].1[i] > 0) by {
                if i < 4 {
                    lemma_pair_sum_bound(b, tie, t, s, i);
                    lemma_scaled_beats(bv[i], m, w[k].0[i], result_volume(b));
                    lemma_scaled_beats(bv[i], m, w[k].1[i], result_volume(b));
                } else {
                    if k >= n {
                        assert(w[k].0[i] == 0);
                        assert(w[k].1[i] == 0);
                    } else {
                        assert(zeros()[i] == 0);
                    }
                }
            }
            assert(bv.len() == 5 && v.len() == 5);
            crate::lexorder::lemma_lex_cone(bv, w, lam, v, m);
            if crate::lexorder::lexpos_from(bv, 0) {
                assert(rank_before(b, t, s));
            } else {
                let k = choose|k: int|
                    0 <= k < w.len() && (crate::lexorder::lexpos_from(crate::lexorder::moved(bv, m, (#[trigger] w[k]).0), 0)
                        || crate::lexorder::lexpos_from(crate::lexorder::moved(bv, m, w[k].1), 0));
                if k < n {
                    assert(w[k] == (zeros(), zeros()));
                    assert forall|i: int| 0 <= i < 5 implies #[trigger] crate::lexorder::moved(bv, m, zeros())[i] == bv[i] by {
                        assert(zeros()[i] == 0);
                        assert(m * 0 == 0);
                    }
                    assert(crate::lexorder::moved(bv, m, zeros()) =~= bv);
                    assert(rank_before(b, t, s));
                } else {
                    let x: int = if crate::lexorder::lexpos_from(crate::lexorder::moved(bv, m, w[k].0), 0) { 0 } else { 1 };
                    lemma_grown(gm, b, k, x, tie, t, s);
                    let g = grown(b, k, x, m);
                    assert(pair_vector(g, tie, t, s) =~= crate::lexorder::moved(
                        bv,
                        m,
                        dir_vector(b[k].home_id, b[k].away_id, grow_dir(b[k], x), tie, t, s),
                    ));
                    let tg = table_of(g);
                    lemma_same_table(b, g);
                    lemma_same_h2h(b, g, t);
                    lemma_same_h2h(b, g, s);
                    lemma_same_has_id(tb, tg, t);
                    lemma_same_has_id(tb, tg, s);
                    assert(tied_ids(tg, lookup(tg, t).points) =~= tie) by {
                        assert forall|z: i64| tied_ids(tg, p).contains(z) == tie.contains(z) by {
                            lemma_same_lookup(tb, tg, z);
                        }
                    }
                    lemma_rank_by_vector(g, t, s);
                    lemma_completion_table(gm, g);
                    lemma_top_three_by_pair(g, t);
                    assert(rank_before(g, t, s));
                    assert(in_top_three(ranked_of(g), t));
                }
            }
        }
    }
}

proof fn lemma_entry_share(
    gm: Seq<&Match>,
    c: Seq<GroupResult>,
    b: Seq<GroupResult>,
    tie: Set<i64>,
    t: i64,
    s: i64,
    j: int,
    k: int,
)
    requires
        is_completion(gm, c),
        is_completion(gm, b),
        same_outcomes(c, b),
        forall|q: int| results_of(gm).len() <= q < b.len() ==> #[trigger] smallest_result(b[q]),
        0 <= j < 5,
        0 <= k < b.len(),
    ensures
        crate::lexorder::share(
            growth_dirs(b, results_of(gm).len() as int, tie, t, s)[k],
            growths(c, b)[k],
            j,
        ) == pair_part(c[k], tie, t, s, j) - pair_part(b[k], tie, t, s, j),
        growths(c, b)[k].0 >= 0,
        growths(c, b)[k].1 >= 0,
{
    let n = results_of(gm).len() as int;
    let w = growth_dirs(b, n, tie, t, s);
    let lam = growths(c, b);
    assert(lam[k] == growth(c[k], b[k]));
    assert(c[k].home_id == b[k].home_id && c[k].away_id == b[k].away_id && outcome_sign(c[k]) == outcome_sign(b[k]));
    if k >= n {
        assert(plays(pending_of(gm)[k - n], c[k]));
        assert(smallest_result(b[k]));
        assert(w[k] == (
            dir_vector(b[k].home_id, b[k].away_id, first_dir(b[k]), tie, t, s),
            dir_vector(b[k].home_id, b[k].away_id, (1, 1), tie, t, s),
        ));
        lemma_growth_share(c[k], b[k], tie, t, s, j);
    } else {
        assert(c[k] == results_of(gm)[k]);
        assert(b[k] == results_of(gm)[k]);
        assert(w[k] == (zeros(), zeros()));
        assert(zeros()[j] == 0);
        assert(lam[k] == (0int, 0int));
    }
}

proof fn lemma_scaled_beats(bi: int, m: int, wi: int, vol: int)
    requires
        abs(bi) <= 2 * vol,
        m == 2 * vol + 1,
    ensures
        wi > 0 ==> bi + m * wi > 0,
{
    if wi > 0 {
        assert(m * wi >= m) by (nonlinear_arith)
            requires
                wi >= 1,
                m >= 1,
        ;
    }
}

// ---------------------------------------------------------------- elimination
/// The team finishes in the top three of the ranked rows.
pub open spec fn in_top_three(r: Seq<(i64, Record)>, id: i64) -> bool {
    exists|k: int| 0 <= k < 3 && k < r.len() && r[k].0 == id
}

/// Some way the group can end, with any scores, puts the team in the top three.
pub open spec fn can_reach_top_three(gm: Seq<&Match>, id: i64) -> bool {
    exists|c: Seq<GroupResult>| #[trigger] is_completion(gm, c) && in_top_three(ranked_of(c), id)
}

/// Every way the group can end leaves three other teams above `t` whatever
/// the goals of the matches still to play: on points, on head-to-head
/// points, or, when neither team has a match left, in the FIFA order.
pub open spec fn outpaced(gm: Seq<&Match>, t: i64) -> bool {
    forall|c: Seq<GroupResult>| #[trigger] is_completion(gm, c) ==> teams_ahead(c, pending_teams(gm), t).len() >= 3
}

/// Teams of an incomplete group that every ending of its remaining matches,
/// with any scores, leaves behind three other teams on points, on
/// head-to-head points, or in the FIFA order between teams with no match
/// left, so that no result lifts them into the top three.
pub open spec fn shut_out_of_top_three(gm: Seq<&Match>) -> Set<i64> {
    if group_is_complete_spec(gm) {
        Set::empty()
    } else {
        group_team_ids(gm).filter(|id: i64| shut_out_rule(gm, id))
    }
}

/// When a team of an incomplete group is listed as out: in a group of at most
/// four teams, when no way the group can end puts it in the top three; in a
/// larger group, when every way leaves three others surely above it.
pub open spec fn shut_out_rule(gm: Seq<&Match>, id: i64) -> bool {
    if four_or_fewer(gm) {
        !can_reach_top_three(gm, id)
    } else {
        outpaced(gm, id)
    }
}

/// Checking the listed endings, one per way of winning, drawing and losing
/// the pending matches, decides whether a team is outpaced in every ending.
proof fn lemma_outpaced_by_outcomes(gm: Seq<&Match>, t: i64)
    ensures
        outpaced(gm, t) == (forall|i: int|
            0 <= i < completions(gm).len() ==> teams_ahead(#[trigger] completions(gm)[i], pending_teams(gm), t).len()
                >= 3),
{
    lemma_completions_represent(gm);
    let cs = completions(gm);
    let open = pending_teams(gm);
    if outpaced(gm, t) {
        assert forall|i: int| 0 <= i < cs.len() implies teams_ahead(#[trigger] cs[i], open, t).len() >= 3 by {
            assert(is_completion(gm, cs[i]));
        }
    }
    if forall|i: int| 0 <= i < cs.len() ==> teams_ahead(#[trigger] cs[i], open, t).len() >= 3 {
        assert forall|c: Seq<GroupResult>| #[trigger] is_completion(gm, c) implies teams_ahead(c, open, t).len() >= 3 by {
            let i = choose|i: int| 0 <= i < cs.len() && same_outcomes(c, #[trigger] cs[i]);
            assert(is_completion(gm, cs[i]));
            lemma_completions_agree(gm, c, cs[i]);
            lemma_agree_ahead(c, cs[i], open, t);
        }
    }
}

/// How many other teams rank above `t` whatever the goals of the matches
/// between teams of `open`.
fn count_ahead_exec(results: &[GroupResult], open: &Vec<i64>, Ghost(open_set): Ghost<Set<i64>>, t: i64) -> (n: usize)
    requires
        results_fit(results@),
        forall|x: i64| open@.contains(x) == open_set.contains(x),
    ensures
        n == teams_ahead(results@, open_set, t).len(),
{
    let table = standings_from_results(results);
    let ghost tb = table_view(table@);
    let ghost p = ahead_of(results@, open_set, t);
    let kt = rank_key(results, &table, t);
    let t_open = contains_id(open, t);
    let mut n: usize = 0;
    let mut j: usize = 0;
    while j < table.len()
        invariant
            j <= table.len(),
            tb == table_view(table@),
            tb == table_of(results@),
            p == ahead_of(results@, open_set, t),
            forall|x: i64| open@.contains(x) == open_set.contains(x),
            t_open == open_set.contains(t),
            results_fit(results@),
            kt.points == lookup(tb, t).points,
            kt.h2h_points == h2h_record(results@, t).points,
            n == filter_seq(tb.take(j as int), p).len(),
            n <= j,
        decreases table.len() - j,
    {
        let ghost after = tb.take(j + 1);
        assert(after.drop_last() =~= tb.take(j as int));
        assert(after.last() == tb[j as int]);
        let id = table[j].0;
        if id != t {
            let ks = rank_key(results, &table, id);
            let on_points = ks.points > kt.points || (ks.points == kt.points && ks.h2h_points > kt.h2h_points);
            if on_points {
                n = n + 1;
            } else if !t_open && !contains_id(open, id) && rank_before_exec(results, &table, id, t) {
                n = n + 1;
            }
        }
        j = j + 1;
    }
    assert(tb.take(table.len() as int) =~= tb);
    n
}

/// Whether every listed ending leaves three other teams above `t` whatever the goals.
fn outpaced_exec(outcomes: &Vec<Vec<GroupResult>>, open: &Vec<i64>, t: i64, Ghost(gm): Ghost<Seq<&Match>>) -> (r: bool)
    requires
        vviews(outcomes@) == completions(gm),
        forall|j: int| 0 <= j < completions(gm).len() ==> results_fit(#[trigger] completions(gm)[j]),
        forall|x: i64| open@.contains(x) == pending_teams(gm).contains(x),
    ensures
        r == outpaced(gm, t),
{
    let ghost cs = completions(gm);
    let mut out = true;
    let mut i: usize = 0;
    while i < outcomes.len()
        invariant
            i <= outcomes.len(),
            cs == completions(gm),
            vviews(outcomes@) == cs,
            forall|j: int| 0 <= j < cs.len() ==> results_fit(#[trigger] cs[j]),
            forall|x: i64| open@.contains(x) == pending_teams(gm).contains(x),
            out == (forall|j: int| 0 <= j < i ==> teams_ahead(#[trigger] cs[j], pending_teams(gm), t).len() >= 3),
        decreases outcomes.len() - i,
    {
        assert(outcomes@[i as int]@ == cs[i as int]);
        let n = count_ahead_exec(outcomes[i].as_slice(), open, Ghost(pending_teams(gm)), t);
        if n < 3 {
            out = false;
        }
        i = i + 1;
    }
    proof {
        lemma_outpaced_by_outcomes(gm, t);
    }
    out
}

/// The teams of the matches still to be decided.
fn pending_team_ids(group_matches: &[&Match]) -> (r: Vec<i64>)
    ensures
        forall|x: i64| r@.contains(x) == pending_teams(group_matches@).contains(x),
{
    let pending = pending_group_matches(group_matches);
    let ghost p = pending@;
    let mut r: Vec<i64> = Vec::new();
    let mut i: usize = 0;
    while i < pending.len()
        invariant
            i <= pending.len(),
            p == pending@,
            p == pending_of(group_matches@),
            forall|x: i64|
                r@.contains(x) == (exists|j: int|
                    0 <= j < i && (side_is((#[trigger] p[j]).home_team.id, x) || side_is(p[j].away_team.id, x))),
        decreases pending.len() - i,
    {
        let ghost before = r@;
        let m = pending[i];
        match m.home_team.id {
            Some(h) => push_new(&mut r, h),
            None => {},
        }
        let ghost mid = r@;
        match m.away_team.id {
            Some(a) => push_new(&mut r, a),
            None => {},
        }
        proof {
            assert forall|x: i64| r@.contains(x) == (exists|j: int|
                0 <= j < i + 1 && (side_is((#[trigger] p[j]).home_team.id, x) || side_is(p[j].away_team.id, x))) by {
                if r@.contains(x) && !before.contains(x) {
                    assert(side_is(p[i as int].home_team.id, x) || side_is(p[i as int].away_team.id, x));
                }
                if exists|j: int| 0 <= j < i + 1 && (side_is((#[trigger] p[j]).home_team.id, x) || side_is(p[j].away_team.id, x)) {
                    let j = choose|j: int| 0 <= j < i + 1 && (side_is((#[trigger] p[j]).home_team.id, x) || side_is(p[j].away_team.id, x));
                    if j < i {
                        assert(before.contains(x));
                    }
                }
            }
        }
        i = i + 1;
    }
    r
}

/// Whether `t` is among the first three rows.
fn in_top_three_exec(ranked: &Vec<(i64, GroupRow)>, t: i64) -> (r: bool)
    ensures
        r == in_top_three(table_view(ranked@), t),
{
    let ghost v = table_view(ranked@);
    let r = (ranked.len() > 0 && ranked[0].0 == t) || (ranked.len() > 1 && ranked[1].0 == t) || (ranked.len() > 2
        && ranked[2].0 == t);
    proof {
        if ranked.len() > 0 { assert(v[0].0 == ranked@[0].0); }
        if ranked.len() > 1 { assert(v[1].0 == ranked@[1].0); }
        if ranked.len() > 2 { assert(v[2].0 == ranked@[2].0); }
        if in_top_three(v, t) {
            let k = choose|k: int| 0 <= k < 3 && k < v.len() && v[k].0 == t;
            assert(v[k].0 == ranked@[k].0);
        }
    }
    r
}

/// The sum of absolute goal counts.
fn volume_exec(rs: &Vec<GroupResult>) -> (v: i64)
    requires
        grows_fit(rs@),
    ensures
        v == result_volume(rs@),
{
    let mut v: i64 = 0;
    let mut i: usize = 0;
    proof {
        lemma_volume_nonneg(rs@);
    }
    while i < rs.len()
        invariant
            i <= rs.len(),
            grows_fit(rs@),
            v == result_volume(rs@.take(i as int)),
            result_volume(rs@.take(i as int)) <= result_volume(rs@),
        decreases rs.len() - i,
    {
        let ghost after = rs@.take(i + 1);
        assert(after.drop_last() =~= rs@.take(i as int));
        assert(after.last() == rs@[i as int]);
        proof {
            lemma_volume_prefix_le(rs@, i + 1);
            lemma_volume_nonneg(rs@.take(i as int));
        }
        let h = rs[i].home_goals;
        let a = rs[i].away_goals;
        let ah: i64 = if h < 0 { -h } else { h };
        let aa: i64 = if a < 0 { -a } else { a };
        v = v + ah + aa;
        i = i + 1;
    }
    assert(rs@.take(rs.len() as int) =~= rs@);
    v
}

proof fn lemma_volume_prefix_le(rs: Seq<GroupResult>, k: int)
    requires
        0 <= k <= rs.len(),
    ensures
        result_volume(rs.take(k)) <= result_volume(rs),
    decreases rs.len() - k,
{
    if k < rs.len() {
        lemma_volume_prefix_le(rs, k + 1);
        let a = rs.take(k + 1);
        assert(a.drop_last() =~= rs.take(k));
    } else {
        assert(rs.take(k) =~= rs);
    }
}

/// `base` with result `k` grown `m` times along way `x`.
fn grown_exec(base: &Vec<GroupResult>, k: usize, x: usize, m: i64) -> (g: Vec<GroupResult>)
    requires
        k < base.len(),
        x < 2,
        m == step_of(base@),
        grows_fit(base@),
    ensures
        g@ == grown(base@, k as int, x as int, m as int),
{
    proof {
        lemma_volume_nonneg(base@);
        lemma_goal_le_volume(base@, k as int);
    }
    let r = base[k];
    let (d0, d1): (i64, i64) = if x == 0 {
        if r.home_goals > r.away_goals {
            (1, 0)
        } else if r.home_goals == r.away_goals {
            (1, 1)
        } else {
            (0, 1)
        }
    } else {
        (1, 1)
    };
    let add_h: i64 = if d0 == 1 { m } else { 0 };
    let add_a: i64 = if d1 == 1 { m } else { 0 };
    assert(0 <= d0 <= 1 && 0 <= d1 <= 1);
    assert(add_h == m * d0 && add_a == m * d1) by (nonlinear_arith)
        requires
            0 <= d0 <= 1,
            0 <= d1 <= 1,
            add_h == (if d0 == 1 { m } else { 0 }),
            add_a == (if d1 == 1 { m } else { 0 }),
    ;
    let e = GroupResult {
        home_id: r.home_id,
        away_id: r.away_id,
        home_goals: r.home_goals + add_h,
        away_goals: r.away_goals + add_a,
    };
    let mut g: Vec<GroupResult> = Vec::new();
    let mut i: usize = 0;
    while i < base.len()
        invariant
            i <= base.len(),
            k < base.len(),
            g@ == base@.update(k as int, e).take(i as int),
        decreases base.len() - i,
    {
        if i == k {
            g.push(e);
        } else {
            g.push(base[i]);
        }
        i = i + 1;
        assert(g@ =~= base@.update(k as int, e).take(i as int));
    }
    assert(base@.update(k as int, e).take(base.len() as int) =~= base@.update(k as int, e));
    g
}

/// Whether the listed ending `base`, or `base` with one pending result grown,
/// puts `t` in the top three.
fn reach_at_exec(base: &Vec<GroupResult>, n: usize, t: i64, Ghost(gm): Ghost<Seq<&Match>>) -> (r: bool)
    requires
        is_completion(gm, base@),
        grows_fit(base@),
        results_fit(base@),
        n == results_of(gm).len(),
        forall|q: int| n <= q < base@.len() ==> #[trigger] smallest_result(base@[q]),
    ensures
        r == reach_at(base@, n as int, t),
{
    let ranked = ranked_from_results(base.as_slice());
    if in_top_three_exec(&ranked, t) {
        return true;
    }
    let vol = volume_exec(base);
    proof {
        lemma_volume_nonneg(base@);
    }
    let m = 2 * vol + 1;
    let mut k: usize = n;
    while k < base.len()
        invariant
            n <= k <= base.len() || (k == n && n > base.len()),
            is_completion(gm, base@),
            grows_fit(base@),
            n == results_of(gm).len(),
            m == step_of(base@),
            forall|q: int| n <= q < base@.len() ==> #[trigger] smallest_result(base@[q]),
            !in_top_three(ranked_of(base@), t),
            forall|q: int, x: int|
                n <= q < k && 0 <= x < 2 ==> !#[trigger] in_top_three(ranked_of(grown(base@, q, x, step_of(base@))), t),
        decreases base.len() - k,
    {
        let mut x: usize = 0;
        while x < 2
            invariant
                n <= k < base.len(),
                x <= 2,
                is_completion(gm, base@),
                grows_fit(base@),
                n == results_of(gm).len(),
                m == step_of(base@),
                smallest_result(base@[k as int]),
                forall|y: int| 0 <= y < x ==> !#[trigger] in_top_three(ranked_of(grown(base@, k as int, y, step_of(base@))), t),
            decreases 2 - x,
        {
            let g = grown_exec(base, k, x, m);
            proof {
                lemma_grown(gm, base@, k as int, x as int, Set::empty(), t, t);
            }
            let rg = ranked_from_results(g.as_slice());
            if in_top_three_exec(&rg, t) {
                return true;
            }
            x = x + 1;
        }
        k = k + 1;
    }
    false
}

/// Whether some listed ending, or one with a pending result grown, puts `t`
/// in the top three.
fn reach_exec(outcomes: &Vec<Vec<GroupResult>>, n: usize, t: i64, Ghost(gm): Ghost<Seq<&Match>>) -> (r: bool)
    requires
        vviews(outcomes@) == completions(gm),
        matches_fit(gm),
        n == results_of(gm).len(),
    ensures
        r == exists|i: int| 0 <= i < completions(gm).len() && reach_at(#[trigger] completions(gm)[i], n as int, t),
{
    let ghost cs = completions(gm);
    proof {
        lemma_completions_fit(gm);
        lemma_completions_represent(gm);
        lemma_outcomes_smallest(results_of(gm), pending_of(gm));
    }
    let mut i: usize = 0;
    while i < outcomes.len()
        invariant
            i <= outcomes.len(),
            cs == completions(gm),
            vviews(outcomes@) == cs,
            n == results_of(gm).len(),
            forall|j: int| 0 <= j < cs.len() ==> results_fit(#[trigger] cs[j]),
            forall|j: int| 0 <= j < cs.len() ==> grows_fit(#[trigger] cs[j]),
            forall|j: int| 0 <= j < cs.len() ==> is_completion(gm, #[trigger] cs[j]),
            forall|j: int, q: int|
                0 <= j < cs.len() && n <= q < cs[j].len() ==> #[trigger] smallest_result(cs[j][q]),
            forall|j: int| 0 <= j < i ==> !reach_at(#[trigger] cs[j], n as int, t),
        decreases outcomes.len() - i,
    {
        assert(outcomes@[i as int]@ == cs[i as int]);
        let ghost b = cs[i as int];
        assert forall|q: int| n <= q < b.len() implies #[trigger] smallest_result(b[q]) by {
            assert(smallest_result(cs[i as int][q]));
        }
        if reach_at_exec(&outcomes[i], n, t, Ghost(gm)) {
            return true;
        }
        i = i + 1;
    }
    false
}

/// Teams that cannot finish in the top three of an incomplete group, whatever
/// the scores of its remaining matches. In a group of at most four teams the
/// list is exact: a team is listed exactly when no way the remaining matches
/// can end puts it in the top three. In a larger group a team is listed when,
/// in every way they can end, three other teams finish surely above it.
pub fn mathematically_eliminated_from_group(group_matches: &[&Match]) -> (r: Vec<i64>)
    requires
        matches_fit(group_matches@),
    ensures
        forall|x: i64| r@.contains(x) == shut_out_of_top_three(group_matches@).contains(x),
        r@.no_duplicates(),
        group_is_complete_spec(group_matches@) ==> r@.len() == 0,
{
    if group_is_complete(group_matches) {
        return Vec::new();
    }
    let ghost gm = group_matches@;
    proof {
        lemma_completions_fit(gm);
    }
    let all_teams = group_team_ids_exec(group_matches);
    let outcomes = remaining_group_outcomes(group_matches);
    let open = pending_team_ids(group_matches);
    let finished = results_from_group_matches(group_matches);
    let n = finished.len();
    let four = all_teams.len() <= 4;
    proof {
        assert(all_teams@.to_set() =~= group_team_ids(gm));
        all_teams@.unique_seq_to_set();
        assert(four == four_or_fewer(gm));
    }
    let mut r: Vec<i64> = Vec::new();
    let mut t: usize = 0;
    while t < all_teams.len()
        invariant
            t <= all_teams.len(),
            all_teams@.no_duplicates(),
            forall|x: i64| all_teams@.contains(x) == group_team_ids(gm).contains(x),
            vviews(outcomes@) == completions(gm),
            forall|j: int| 0 <= j < completions(gm).len() ==> results_fit(#[trigger] completions(gm)[j]),
            forall|x: i64| open@.contains(x) == pending_teams(gm).contains(x),
            four == four_or_fewer(gm),
            n == results_of(gm).len(),
            matches_fit(gm),
            r@.no_duplicates(),
            forall|x: i64|
                r@.contains(x) == (exists|j: int| 0 <= j < t && all_teams@[j] == x && shut_out_rule(gm, x)),
        decreases all_teams.len() - t,
    {
        let id = all_teams[t];
        let ghost before = r@;
        let out = if four {
            let reach = reach_exec(&outcomes, n, id, Ghost(gm));
            proof {
                lemma_reach_by_candidates(gm, id);
            }
            !reach
        } else {
            outpaced_exec(&outcomes, &open, id, Ghost(gm))
        };
        assert(out == shut_out_rule(gm, id));
        if out {
            proof {
                assert forall|j: int| 0 <= j < before.len() implies before[j] != id by {
                    assert(before.contains(before[j]));
                    let k = choose|k: int| 0 <= k < t && all_teams@[k] == before[j] && shut_out_rule(gm, before[j]);
                    assert(all_teams@[k] != all_teams@[t as int]);
                }
            }
            r.push(id);
        }
        proof {
            assert forall|x: i64| r@.contains(x) == (exists|j: int|
                0 <= j < t + 1 && all_teams@[j] == x && shut_out_rule(gm, x)) by {
                if r@.contains(x) {
                    if before.contains(x) {
                        let j = choose|j: int| 0 <= j < t && all_teams@[j] == x && shut_out_rule(gm, x);
                        assert(0 <= j < t + 1 && all_teams@[j] == x && shut_out_rule(gm, x));
                    } else {
                        let k = choose|k: int| 0 <= k < r@.len() && r@[k] == x;
                        if k < before.len() {
                            assert(before[k] == x);
                        }
                        assert(x == id);
                        assert(out);
                        assert(0 <= t < t + 1 && all_teams@[t as int] == x && shut_out_rule(gm, x));
                    }
                }
                if exists|j: int| 0 <= j < t + 1 && all_teams@[j] == x && shut_out_rule(gm, x) {
                    let j = choose|j: int| 0 <= j < t + 1 && all_teams@[j] == x && shut_out_rule(gm, x);
                    if j < t {
                        assert(before.contains(x));
                        let k = choose|k: int| 0 <= k < before.len() && before[k] == x;
                        assert(r@[k] == x);
                    } else {
                        assert(out);
                        assert(r@[r@.len() - 1] == x);
                    }
                }
            }
        }
        t = t + 1;
    }
    proof {
        assert forall|x: i64| r@.contains(x) == shut_out_of_top_three(gm).contains(x) by {
            if group_team_ids(gm).contains(x) && shut_out_rule(gm, x) {
                assert(all_teams@.contains(x));
            }
        }
    }
    r
}

// ---------------------------------------------------------------- third places
/// `a` ranks strictly below `b` on points, then goal difference, then goals scored.
pub open spec fn record_worse(a: Record, b: Record) -> bool {
    b.points > a.points || (b.points == a.points && (gd(b) > gd(a) || (gd(b) == gd(a)
        && b.goals_for > a.goals_for)))
}

/// The third-placed record of a completed table, or an empty record.
pub open spec fn third_record(c: Seq<GroupResult>) -> Record {
    let r = ranked_of(c);
    if r.len() > 2 {
        r[2].1
    } else {
        zero_record()
    }
}

/// The weakest third-placed record over the endings, the first one among equals.
pub open spec fn weakest_of(cs: Seq<Seq<GroupResult>>) -> Option<Record>
    decreases cs.len(),
{
    if cs.len() == 0 {
        None
    } else {
        let t = third_record(cs.last());
        match weakest_of(cs.drop_last()) {
            None => Some(t),
            Some(cur) => if record_worse(t, cur) {
                Some(t)
            } else {
                Some(cur)
            },
        }
    }
}

/// The weakest third-placed record among the listed endings of the group,
/// where each pending match ends 1-0, 0-0 or 0-1.
pub open spec fn weakest_listed_third(gm: Seq<&Match>) -> Record {
    match weakest_of(completions(gm)) {
        Some(r) => r,
        None => zero_record(),
    }
}

/// Every row of a ranked table comes from the table, so it is bounded the same way.
proof fn lemma_ranked_bounded(rs: Seq<GroupResult>)
    ensures
        table_bounded(ranked_of(rs), result_volume(rs), rs.len() as int),
        ranked_of(rs).len() == table_of(rs).len(),
{
    broadcast use vstd::seq_lib::group_to_multiset_ensures;

    let before = |x: (i64, Record), y: (i64, Record)| rank_before(rs, x.0, y.0);
    crate::sorting::lemma_sort_multiset(table_of(rs), before);
    lemma_table_bounded(rs);
    let r = ranked_of(rs);
    let t = table_of(rs);
    assert forall|j: int| 0 <= j < r.len() implies 0 <= (#[trigger] r[j]).1.points <= 3 * rs.len()
        && abs(r[j].1.goals_for) <= result_volume(rs) && abs(r[j].1.goals_against) <= result_volume(rs) by {
        assert(r.to_multiset().count(r[j]) > 0);
        assert(t.contains(r[j]));
    }
}

fn record_worse_exec(a: GroupRow, b: GroupRow) -> (r: bool)
    requires
        row_in_range(a),
        row_in_range(b),
    ensures
        r == record_worse(record_of(a), record_of(b)),
{
    let gda = a.goal_difference();
    let gdb = b.goal_difference();
    b.points > a.points || (b.points == a.points && (gdb > gda || (gdb == gda && b.goals_for > a.goals_for)))
}

/// The weakest third-placed record among the endings of the group in which
/// each pending match is won 1-0, drawn 0-0 or lost 0-1: its points are the
/// fewest a third-placed team can finish on.
pub fn min_third_place_record(group_matches: &[&Match]) -> (r: GroupRow)
    requires
        matches_fit(group_matches@),
    ensures
        record_of(r) == weakest_listed_third(group_matches@),
        row_in_range(r),
{
    let ghost gm = group_matches@;
    proof {
        lemma_completions_fit(gm);
    }
    let outcomes = remaining_group_outcomes(group_matches);
    let ghost cs = completions(gm);
    let mut weakest: Option<GroupRow> = None;
    let mut i: usize = 0;
    while i < outcomes.len()
        invariant
            i <= outcomes.len(),
            cs == completions(gm),
            vviews(outcomes@) == cs,
            forall|j: int| 0 <= j < cs.len() ==> results_fit(#[trigger] cs[j]),
            weakest_of(cs.take(i as int)) == (match weakest {
                Some(w) => Some(record_of(w)),
                None => None::<Record>,
            }),
            weakest matches Some(w) ==> row_in_range(w),
        decreases outcomes.len() - i,
    {
        assert(outcomes@[i as int]@ == cs[i as int]);
        let ghost c = cs[i as int];
        let ranked = ranked_from_results(outcomes[i].as_slice());
        proof {
            lemma_ranked_bounded(c);
            lemma_volume_nonneg(c);
        }
        let third = if ranked.len() > 2 {
            assert(table_view(ranked@)[2] == (ranked@[2].0, record_of(ranked@[2].1)));
            ranked[2].1
        } else {
            GroupRow { points: 0, goals_for: 0, goals_against: 0 }
        };
        assert(record_of(third) == third_record(c));
        let ghost after = cs.take(i + 1);
        assert(after.drop_last() =~= cs.take(i as int));
        assert(after.last() == c);
        weakest = match weakest {
            None => Some(third),
            Some(cur) => if record_worse_exec(third, cur) {
                Some(third)
            } else {
                Some(cur)
            },
        };
        i = i + 1;
    }
    assert(cs.take(outcomes.len() as int) =~= cs);
    match weakest {
        Some(w) => w,
        None => GroupRow { points: 0, goals_for: 0, goals_against: 0 },
    }
}

/// `a` is placed before `b` by team id, a known team before an unknown one.
pub open spec fn id_before(a: Option<i64>, b: Option<i64>) -> bool {
    match (a, b) {
        (Some(x), Some(y)) => x < y,
        (Some(_), None) => true,
        _ => false,
    }
}

/// Third-place table order: the better record first, then by team id.
pub open spec fn candidate_before(x: (Option<i64>, Record), y: (Option<i64>, Record)) -> bool {
    record_worse(y.1, x.1) || (!record_worse(x.1, y.1) && id_before(x.0, y.0))
}

/// Confirmed third places, then a third-place record for each open group.
pub open spec fn pool_of(confirmed: Seq<(i64, Record)>, mins: Seq<Record>) -> Seq<(Option<i64>, Record)> {
    confirmed.map_values(|e: (i64, Record)| (Some(e.0), e.1)) + mins.map_values(
        |r: Record| (None::<i64>, r),
    )
}

/// The first index of the team in the pool, or -1.
pub open spec fn first_index_of(s: Seq<(Option<i64>, Record)>, id: i64) -> int
    decreases s.len(),
{
    if s.len() == 0 {
        -1
    } else if s[0].0 == Some(id) {
        0
    } else {
        let k = first_index_of(s.drop_first(), id);
        if k < 0 {
            -1
        } else {
            k + 1
        }
    }
}

/// The place of the team in the sorted pool of the confirmed thirds and the
/// given open-group records, or `usize::MAX` when it is not a confirmed third.
pub open spec fn best_case_rank(team: i64, confirmed: Seq<(i64, Record)>, mins: Seq<Record>) -> int {
    let k = first_index_of(sort_seq(pool_of(confirmed, mins), |x: (Option<i64>, Record), y: (Option<i64>, Record)| candidate_before(x, y)), team);
    if k < 0 {
        usize::MAX as int
    } else {
        k + 1
    }
}

/// The numbers of an executable pool.
pub open spec fn pool_view(v: Seq<(Option<i64>, GroupRow)>) -> Seq<(Option<i64>, Record)> {
    v.map_values(|e: (Option<i64>, GroupRow)| (e.0, record_of(e.1)))
}

fn candidate_before_exec(x: (Option<i64>, GroupRow), y: (Option<i64>, GroupRow)) -> (r: bool)
    requires
        row_in_range(x.1),
        row_in_range(y.1),
    ensures
        r == candidate_before((x.0, record_of(x.1)), (y.0, record_of(y.1))),
{
    if record_worse_exec(y.1, x.1) {
        return true;
    }
    if record_worse_exec(x.1, y.1) {
        return false;
    }
    match (x.0, y.0) {
        (Some(a), Some(b)) => a < b,
        (Some(_), None) => true,
        _ => false,
    }
}

fn sort_pool(v: Vec<(Option<i64>, GroupRow)>) -> (r: Vec<(Option<i64>, GroupRow)>)
    requires
        forall|j: int| 0 <= j < v@.len() ==> row_in_range(#[trigger] v@[j].1),
    ensures
        pool_view(r@) == sort_seq(
            pool_view(v@),
            |x: (Option<i64>, Record), y: (Option<i64>, Record)| candidate_before(x, y),
        ),
        forall|j: int| 0 <= j < r@.len() ==> row_in_range(#[trigger] r@[j].1),
    decreases v.len(),
{
    let ghost before = |x: (Option<i64>, Record), y: (Option<i64>, Record)| candidate_before(x, y);
    let mut v = v;
    let ghost orig = v@;
    match v.pop() {
        None => {
            assert(pool_view(orig) =~= Seq::<(Option<i64>, Record)>::empty());
            v
        },
        Some(x) => {
            assert(pool_view(v@) =~= pool_view(orig).drop_last());
            assert(orig[orig.len() - 1] == x);
            assert forall|j: int| 0 <= j < v@.len() implies row_in_range(#[trigger] v@[j].1) by {
                assert(v@[j] == orig[j]);
            }
            let mut r = sort_pool(v);
            let ghost s = pool_view(r@);
            let ghost xv = (x.0, record_of(x.1));
            let mut k: usize = 0;
            while k < r.len() && !candidate_before_exec(x, r[k])
                invariant
                    k <= r.len(),
                    s == pool_view(r@),
                    row_in_range(x.1),
                    forall|j: int| 0 <= j < r@.len() ==> row_in_range(#[trigger] r@[j].1),
                    before == (|x: (Option<i64>, Record), y: (Option<i64>, Record)| candidate_before(x, y)),
                    xv == (x.0, record_of(x.1)),
                    forall|j: int| 0 <= j < k ==> !before(xv, #[trigger] s[j]),
                decreases r.len() - k,
            {
                assert(s[k as int] == (r@[k as int].0, record_of(r@[k as int].1)));
                k = k + 1;
            }
            proof {
                if k < r.len() {
                    assert(s[k as int] == (r@[k as int].0, record_of(r@[k as int].1)));
                }
                lemma_insert_at(xv, s, before, k as int);
            }
            let ghost r0 = r@;
            r.insert(k, x);
            assert(pool_view(r@) =~= s.insert(k as int, xv));
            assert(pool_view(orig).last() == xv);
            assert forall|j: int| 0 <= j < r@.len() implies row_in_range(#[trigger] r@[j].1) by {
                if j < k {
                    assert(r@[j] == r0[j]);
                } else if j > k {
                    assert(r@[j] == r0[j - 1]);
                }
            }
            r
        },
    }
}

proof fn lemma_first_index_at(s: Seq<(Option<i64>, Record)>, id: i64, i: int)
    requires
        0 <= i <= s.len(),
        forall|j: int| 0 <= j < i ==> (#[trigger] s[j]).0 != Some(id),
        i == s.len() || s[i].0 == Some(id),
    ensures
        first_index_of(s, id) == (if i == s.len() {
            -1
        } else {
            i
        }),
    decreases s.len(),
{
    if s.len() > 0 && i > 0 {
        assert(s[0].0 != Some(id));
        let rest = s.drop_first();
        assert forall|j: int| 0 <= j < i - 1 implies (#[trigger] rest[j]).0 != Some(id) by {
            assert(rest[j] == s[j + 1]);
        }
        lemma_first_index_at(rest, id, i - 1);
    }
}

/// The place of the team in the third-place table of the confirmed thirds and
/// one record for each open group (its weakest third, for the team's best
/// case), an open group's record placed after a confirmed team with the same
/// record; `usize::MAX` if it is not a confirmed third.
pub fn best_case_third_place_rank(team_id: i64, confirmed: &[(i64, GroupRow)], min_thirds: &[GroupRow]) -> (r: usize)
    requires
        forall|j: int| 0 <= j < confirmed@.len() ==> row_in_range(#[trigger] confirmed@[j].1),
        forall|j: int| 0 <= j < min_thirds@.len() ==> row_in_range(#[trigger] min_thirds@[j]),
    ensures
        r as int == best_case_rank(team_id, table_view(confirmed@), min_thirds@.map_values(|g: GroupRow| record_of(g))),
{
    let mut pool: Vec<(Option<i64>, GroupRow)> = Vec::new();
    let mut i: usize = 0;
    while i < confirmed.len()
        invariant
            i <= confirmed@.len(),
            pool@.len() == i,
            forall|j: int| 0 <= j < i ==> (#[trigger] pool@[j]) == (Some(confirmed@[j].0), confirmed@[j].1),
        decreases confirmed.len() - i,
    {
        pool.push((Some(confirmed[i].0), confirmed[i].1));
        i = i + 1;
    }
    let mut m: usize = 0;
    while m < min_thirds.len()
        invariant
            m <= min_thirds@.len(),
            pool@.len() == confirmed@.len() + m,
            forall|j: int| 0 <= j < confirmed@.len() ==> (#[trigger] pool@[j]) == (Some(confirmed@[j].0), confirmed@[j].1),
            forall|j: int| confirmed@.len() <= j < confirmed@.len() + m ==> (#[trigger] pool@[j]) == (None::<i64>, min_thirds@[j - confirmed@.len()]),
        decreases min_thirds.len() - m,
    {
        pool.push((None, min_thirds[m]));
        m = m + 1;
    }
    let ghost mins = min_thirds@.map_values(|g: GroupRow| record_of(g));
    assert forall|j: int| 0 <= j < pool@.len() implies #[trigger] pool_view(pool@)[j] == pool_of(table_view(confirmed@), mins)[j] by {
        let cv = table_view(confirmed@).map_values(|e: (i64, Record)| (Some(e.0), e.1));
        let mv = mins.map_values(|r: Record| (None::<i64>, r));
        if j < confirmed@.len() {
            assert(pool_of(table_view(confirmed@), mins)[j] == cv[j]);
        } else {
            assert(pool_of(table_view(confirmed@), mins)[j] == mv[j - confirmed@.len()]);
        }
    }
    assert(pool_view(pool@) =~= pool_of(table_view(confirmed@), mins));
    assert forall|j: int| 0 <= j < pool@.len() implies row_in_range(#[trigger] pool@[j].1) by {
        if j < confirmed@.len() {
            assert(pool@[j] == (Some(confirmed@[j].0), confirmed@[j].1));
        } else {
            assert(pool@[j] == (None::<i64>, min_thirds@[j - confirmed@.len()]));
        }
    }
    let sorted = sort_pool(pool);
    let ghost sv = pool_view(sorted@);
    let mut k: usize = 0;
    while k < sorted.len()
        invariant
            k <= sorted.len(),
            sv == pool_view(sorted@),
            mins == min_thirds@.map_values(|g: GroupRow| record_of(g)),
            sv == sort_seq(
                pool_of(table_view(confirmed@), mins),
                |x: (Option<i64>, Record), y: (Option<i64>, Record)| candidate_before(x, y),
            ),
            forall|j: int| 0 <= j < k ==> (#[trigger] sv[j]).0 != Some(team_id),
        decreases sorted.len() - k,
    {
        assert(sv[k as int].0 == sorted@[k as int].0);
        let hit = match sorted[k].0 {
            Some(x) => x == team_id,
            None => false,
        };
        if hit {
            proof {
                lemma_first_index_at(sv, team_id, k as int);
            }
            return k + 1;
        }
        k = k + 1;
    }
    proof {
        lemma_first_index_at(sv, team_id, sorted.len() as int);
    }
    usize::MAX
}

/// The ids of the confirmed third places that rank below the eighth best
/// place even in their best case, when each open group gives its weakest third.
pub open spec fn early_eliminated_ids(confirmed: Seq<(i64, Record)>, mins: Seq<Record>) -> Seq<i64> {
    if confirmed.len() + mins.len() <= 8 {
        Seq::empty()
    } else {
        filter_seq(confirmed, |e: (i64, Record)| best_case_rank(e.0, confirmed, mins) > 8).map_values(
            |e: (i64, Record)| e.0,
        )
    }
}

/// The weakest third of each open group.
pub open spec fn min_thirds_of(groups: Seq<Vec<&Match>>) -> Seq<Record> {
    groups.map_values(|g: Vec<&Match>| weakest_listed_third(g@))
}

/// Third-placed teams locked out of the top eight even if every remaining group
/// produces its weakest third-placed finisher.
pub fn early_eliminated_third_place_team_ids(confirmed: &[(i64, GroupRow)], incomplete_groups: &[Vec<&Match>]) -> (r: Vec<i64>)
    requires
        forall|j: int| 0 <= j < confirmed@.len() ==> row_in_range(#[trigger] confirmed@[j].1),
        forall|j: int| 0 <= j < incomplete_groups@.len() ==> matches_fit((#[trigger] incomplete_groups@[j])@),
    ensures
        r@ == early_eliminated_ids(table_view(confirmed@), min_thirds_of(incomplete_groups@)),
{
    let total_slots = confirmed.len() as u128 + incomplete_groups.len() as u128;
    if total_slots <= 8 {
        return Vec::new();
    }
    let mut min_thirds: Vec<GroupRow> = Vec::new();
    let mut g: usize = 0;
    while g < incomplete_groups.len()
        invariant
            g <= incomplete_groups@.len(),
            forall|j: int| 0 <= j < incomplete_groups@.len() ==> matches_fit((#[trigger] incomplete_groups@[j])@),
            min_thirds@.len() == g,
            forall|j: int| 0 <= j < g ==> record_of(#[trigger] min_thirds@[j]) == weakest_listed_third(incomplete_groups@[j]@),
            forall|j: int| 0 <= j < g ==> row_in_range(#[trigger] min_thirds@[j]),
        decreases incomplete_groups.len() - g,
    {
        let t = min_third_place_record(incomplete_groups[g].as_slice());
        min_thirds.push(t);
        g = g + 1;
    }
    let ghost conf = table_view(confirmed@);
    let ghost mins = min_thirds_of(incomplete_groups@);
    assert(min_thirds@.map_values(|g: GroupRow| record_of(g)) =~= mins);
    let ghost p = |e: (i64, Record)| best_case_rank(e.0, conf, mins) > 8;
    let mut r: Vec<i64> = Vec::new();
    let mut i: usize = 0;
    while i < confirmed.len()
        invariant
            i <= confirmed@.len(),
            conf == table_view(confirmed@),
            mins == min_thirds@.map_values(|g: GroupRow| record_of(g)),
            p == (|e: (i64, Record)| best_case_rank(e.0, conf, mins) > 8),
            forall|j: int| 0 <= j < confirmed@.len() ==> row_in_range(#[trigger] confirmed@[j].1),
            forall|j: int| 0 <= j < min_thirds@.len() ==> row_in_range(#[trigger] min_thirds@[j]),
            r@ == filter_seq(conf.take(i as int), p).map_values(|e: (i64, Record)| e.0),
        decreases confirmed.len() - i,
    {
        let ghost after = conf.take(i + 1);
        assert(after.drop_last() =~= conf.take(i as int));
        assert(after.last() == (confirmed@[i as int].0, record_of(confirmed@[i as int].1)));
        let rank = best_case_third_place_rank(confirmed[i].0, confirmed, min_thirds.as_slice());
        if rank > 8 {
            r.push(confirmed[i].0);
        }
        assert(r@ =~= filter_seq(after, p).map_values(|e: (i64, Record)| e.0));
        i = i + 1;
    }
    assert(conf.take(confirmed.len() as int) =~= conf);
    r
}

// ---------------------------------------------------------------- classification
/// The match was played to a finish.
pub open spec fn status_finished(m: Match) -> bool {
    m.status matches Some(s) && s@ == "FINISHED"@
}

/// The stage is the third-place play-off.
pub open spec fn is_third_place_stage(stage: Option<String>) -> bool {
    stage matches Some(s) && s@ == "THIRD_PLACE"@
}

/// The finished match knocks the team out: it lost a knockout round, or it
/// played the third-place play-off.
pub open spec fn knocked_out_by(m: Match, id: i64) -> bool {
    status_finished(m) && if is_knockout_stage_spec(m.stage) {
        knockout_loser_spec(m) == Some(id)
    } else if is_third_place_stage(m.stage) {
        side_is(m.home_team.id, id) || side_is(m.away_team.id, id)
    } else {
        false
    }
}

/// The group of a group-stage match.
pub open spec fn group_of(m: Match) -> Option<Seq<char>> {
    if is_group_stage_spec(m.stage) {
        match m.group {
            Some(g) => Some(g@),
            None => None,
        }
    } else {
        None
    }
}

/// The groups of the group-stage matches, in order of first appearance.
pub open spec fn group_names(ms: Seq<Match>) -> Seq<Seq<char>>
    decreases ms.len(),
{
    if ms.len() == 0 {
        Seq::empty()
    } else {
        let prev = group_names(ms.drop_last());
        match group_of(ms.last()) {
            Some(g) => if prev.contains(g) {
                prev
            } else {
                prev.push(g)
            },
            None => prev,
        }
    }
}

/// References to each match, in order.
pub open spec fn match_refs<'a>(ms: Seq<Match>) -> Seq<&'a Match> {
    Seq::new(ms.len(), |i: int| &ms[i])
}

/// The group-stage matches of one group, in order.
pub open spec fn group_matches_of<'a>(ms: Seq<Match>, g: Seq<char>) -> Seq<&'a Match> {
    filter_seq(match_refs(ms), |m: &Match| group_of(*m) == Some(g))
}

/// The matches of every group, group by group.
pub open spec fn groups_of<'a>(ms: Seq<Match>) -> Seq<Seq<&'a Match>> {
    group_names(ms).map_values(|g: Seq<char>| group_matches_of(ms, g))
}

/// The third place of a group table, when it has one.
pub open spec fn third_of(gm: Seq<&Match>) -> Option<(i64, Record)> {
    let r = ranked_of(results_of(gm));
    if r.len() > 2 {
        Some(r[2])
    } else {
        None
    }
}

/// The last place of a group table, when anyone has played.
pub open spec fn fourth_of(gm: Seq<&Match>) -> Option<i64> {
    let r = ranked_of(results_of(gm));
    if r.len() > 0 {
        Some(r.last().0)
    } else {
        None
    }
}

/// Third places of the complete groups, in group order.
pub open spec fn confirmed_thirds(gs: Seq<Seq<&Match>>) -> Seq<(i64, Record)>
    decreases gs.len(),
{
    if gs.len() == 0 {
        Seq::empty()
    } else {
        let prev = confirmed_thirds(gs.drop_last());
        if group_is_complete_spec(gs.last()) && third_of(gs.last()) is Some {
            prev.push(third_of(gs.last())->0)
        } else {
            prev
        }
    }
}

/// The groups still being played, in group order.
pub open spec fn open_groups<'a>(gs: Seq<Seq<&'a Match>>) -> Seq<Seq<&'a Match>> {
    filter_seq(gs, |g: Seq<&Match>| !group_is_complete_spec(g))
}

/// Teams out of the knockout rounds in the first `n` matches.
pub open spec fn knockout_set(ms: Seq<Match>, n: int) -> Set<i64> {
    Set::new(|id: i64| exists|j: int| 0 <= j < n && knocked_out_by(#[trigger] ms[j], id))
}

/// Teams out of the first `n` groups: last place of a complete group, or
/// shut out of the top three of an open one.
pub open spec fn group_set(gs: Seq<Seq<&Match>>, n: int) -> Set<i64> {
    Set::new(
        |id: i64|
            exists|k: int|
                0 <= k < n && ((!group_is_complete_spec(#[trigger] gs[k])
                    && shut_out_of_top_three(gs[k]).contains(id)) || (group_is_complete_spec(gs[k])
                    && fourth_of(gs[k]) == Some(id))),
    )
}

/// Every team the matches have eliminated.
pub open spec fn eliminated_ids(ms: Seq<Match>) -> Set<i64> {
    let gs = groups_of(ms);
    Set::new(
        |id: i64|
            knockout_set(ms, ms.len() as int).contains(id) || group_set(gs, gs.len() as int).contains(id)
                || early_eliminated_ids(
                confirmed_thirds(gs),
                open_groups(gs).map_values(|g: Seq<&Match>| weakest_listed_third(g)),
            ).contains(id),
    )
}

/// The id and name of a listed team.
pub open spec fn team_ref_view(t: TeamRef) -> (i64, Seq<char>) {
    (t.id, t.name@)
}

/// The ids and names of listed teams.
pub open spec fn team_refs_view(v: Seq<TeamRef>) -> Seq<(i64, Seq<char>)> {
    v.map_values(|t: TeamRef| team_ref_view(t))
}

/// The ids and names of competition teams.
pub open spec fn team_entries(teams: Seq<Team>) -> Seq<(i64, Seq<char>)> {
    teams.map_values(|t: Team| (t.id, t.name@))
}

/// Name order.
pub open spec fn name_before(a: (i64, Seq<char>), b: (i64, Seq<char>)) -> bool {
    crate::text::seq_lt(a.1, b.1)
}

/// The teams of `teams` that are still in, sorted by name.
pub open spec fn still_in_of(teams: Seq<Team>, ms: Seq<Match>) -> Seq<(i64, Seq<char>)> {
    sort_seq(
        filter_seq(team_entries(teams), |e: (i64, Seq<char>)| !eliminated_ids(ms).contains(e.0)),
        |a: (i64, Seq<char>), b: (i64, Seq<char>)| name_before(a, b),
    )
}

/// The teams of `teams` that are eliminated, sorted by name.
pub open spec fn eliminated_of(teams: Seq<Team>, ms: Seq<Match>) -> Seq<(i64, Seq<char>)> {
    sort_seq(
        filter_seq(team_entries(teams), |e: (i64, Seq<char>)| eliminated_ids(ms).contains(e.0)),
        |a: (i64, Seq<char>), b: (i64, Seq<char>)| name_before(a, b),
    )
}

proof fn lemma_filter_match_volume<'a>(gm: Seq<&'a Match>, p: spec_fn(&'a Match) -> bool)
    ensures
        match_volume(filter_seq(gm, p)) <= match_volume(gm),
        filter_seq(gm, p).len() <= gm.len(),
        matches_fit(gm) ==> matches_fit(filter_seq(gm, p)),
    decreases gm.len(),
{
    if gm.len() > 0 {
        lemma_filter_match_volume(gm.drop_last(), p);
        lemma_results_volume(gm.drop_last());
        if p(gm.last()) {
            assert(filter_seq(gm, p).drop_last() =~= filter_seq(gm.drop_last(), p));
        }
        lemma_results_volume(gm);
    }
}

/// References to each match, in order.
fn match_refs_exec(matches: &[Match]) -> (r: Vec<&Match>)
    ensures
        r@ == match_refs(matches@),
{
    let mut r: Vec<&Match> = Vec::new();
    let mut i: usize = 0;
    while i < matches.len()
        invariant
            i <= matches.len(),
            r@ == match_refs(matches@).take(i as int),
        decreases matches.len() - i,
    {
        r.push(&matches[i]);
        i = i + 1;
        assert(r@ =~= match_refs(matches@).take(i as int));
    }
    assert(match_refs(matches@).take(matches.len() as int) =~= match_refs(matches@));
    r
}

/// The group-stage matches of `group`, in order.
pub fn group_matches<'a>(matches: &'a [Match], group: &str) -> (r: Vec<&'a Match>)
    ensures
        r@ == group_matches_of(matches@, group@),
{
    let ghost p = |m: &Match| group_of(*m) == Some(group@);
    let ghost refs = match_refs(matches@);
    let mut r: Vec<&'a Match> = Vec::new();
    let mut i: usize = 0;
    while i < matches.len()
        invariant
            i <= matches.len(),
            refs == match_refs(matches@),
            p == (|m: &Match| group_of(*m) == Some(group@)),
            r@ == filter_seq(refs.take(i as int), p),
        decreases matches.len() - i,
    {
        let ghost after = refs.take(i + 1);
        assert(after.drop_last() =~= refs.take(i as int));
        assert(after.last() == &matches@[i as int]);
        let m = &matches[i];
        if is_group_stage(&m.stage) && crate::text::opt_text_eq(&m.group, group) {
            r.push(m);
        }
        i = i + 1;
    }
    assert(refs.take(matches.len() as int) =~= refs);
    r
}

fn contains_name(v: &Vec<String>, g: &str) -> (r: bool)
    ensures
        r == crate::text::views(v@).contains(g@),
{
    let ghost vs = crate::text::views(v@);
    let mut i: usize = 0;
    while i < v.len()
        invariant
            i <= v.len(),
            vs == crate::text::views(v@),
            forall|j: int| 0 <= j < i ==> vs[j] != g@,
        decreases v.len() - i,
    {
        assert(vs[i as int] == v@[i as int]@);
        if crate::text::text_eq(v[i].as_str(), g) {
            return true;
        }
        i = i + 1;
    }
    false
}

fn sort_team_refs(v: Vec<TeamRef>) -> (r: Vec<TeamRef>)
    ensures
        team_refs_view(r@) == sort_seq(
            team_refs_view(v@),
            |a: (i64, Seq<char>), b: (i64, Seq<char>)| name_before(a, b),
        ),
    decreases v.len(),
{
    let ghost before = |a: (i64, Seq<char>), b: (i64, Seq<char>)| name_before(a, b);
    let mut v = v;
    let ghost orig = v@;
    match v.pop() {
        None => {
            assert(team_refs_view(orig) =~= Seq::<(i64, Seq<char>)>::empty());
            v
        },
        Some(x) => {
            assert(team_refs_view(v@) =~= team_refs_view(orig).drop_last());
            let mut r = sort_team_refs(v);
            let ghost s = team_refs_view(r@);
            let ghost xv = team_ref_view(x);
            let mut k: usize = 0;
            while k < r.len() && !crate::text::text_lt(x.name.as_str(), r[k].name.as_str())
                invariant
                    k <= r.len(),
                    s == team_refs_view(r@),
                    before == (|a: (i64, Seq<char>), b: (i64, Seq<char>)| name_before(a, b)),
                    xv == team_ref_view(x),
                    forall|j: int| 0 <= j < k ==> !before(xv, #[trigger] s[j]),
                decreases r.len() - k,
            {
                assert(s[k as int] == team_ref_view(r@[k as int]));
                k = k + 1;
            }
            proof {
                if k < r.len() {
                    assert(s[k as int] == team_ref_view(r@[k as int]));
                }
                lemma_insert_at(xv, s, before, k as int);
            }
            r.insert(k, x);
            assert(team_refs_view(r@) =~= s.insert(k as int, xv));
            assert(team_refs_view(orig).last() == xv);
            r
        },
    }
}

/// Classifies every competition team as still in the tournament or eliminated.
pub fn classify_teams(teams: &[Team], matches: &[Match]) -> (r: TeamClassification)
    requires
        matches_fit(match_refs(matches@)),
    ensures
        team_refs_view(r.still_in@) == still_in_of(teams@, matches@),
        team_refs_view(r.eliminated@) == eliminated_of(teams@, matches@),
{
    let ghost ms = matches@;
    // Knockout losers and third-place play-off teams.
    let mut elim: Vec<i64> = Vec::new();
    let mut i: usize = 0;
    while i < matches.len()
        invariant
            i <= matches.len(),
            ms == matches@,
            forall|x: i64| elim@.contains(x) == knockout_set(ms, i as int).contains(x),
        decreases matches.len() - i,
    {
        let m = &matches[i];
        let ghost before = elim@;
        if opt_text_eq(&m.status, "FINISHED") {
            if is_knockout_stage(&m.stage) {
                match knockout_loser(m) {
                    Some(loser) => push_new(&mut elim, loser),
                    None => {},
                }
            } else if opt_text_eq(&m.stage, "THIRD_PLACE") {
                match m.home_team.id {
                    Some(id) => push_new(&mut elim, id),
                    None => {},
                }
                match m.away_team.id {
                    Some(id) => push_new(&mut elim, id),
                    None => {},
                }
            }
        }
        proof {
            assert forall|x: i64| elim@.contains(x) == knockout_set(ms, i + 1).contains(x) by {
                if elim@.contains(x) && !before.contains(x) {
                    assert(knocked_out_by(ms[i as int], x));
                }
                if knockout_set(ms, i + 1).contains(x) {
                    let j = choose|j: int| 0 <= j < i + 1 && knocked_out_by(#[trigger] ms[j], x);
                    if j < i {
                        assert(knockout_set(ms, i as int).contains(x));
                    }
                }
            }
        }
        i = i + 1;
    }
    // The groups, in order of first appearance.
    let mut groups: Vec<String> = Vec::new();
    let mut j: usize = 0;
    while j < matches.len()
        invariant
            j <= matches.len(),
            ms == matches@,
            crate::text::views(groups@) == group_names(ms.take(j as int)),
        decreases matches.len() - j,
    {
        let ghost after = ms.take(j + 1);
        assert(after.drop_last() =~= ms.take(j as int));
        assert(after.last() == ms[j as int]);
        let m = &matches[j];
        if is_group_stage(&m.stage) {
            match &m.group {
                Some(g) => {
                    if !contains_name(&groups, g.as_str()) {
                        groups.push(g.clone());
                        assert(crate::text::views(groups@) =~= group_names(ms.take(j as int)).push(g@));
                    }
                },
                None => {},
            }
        }
        j = j + 1;
    }
    assert(ms.take(matches.len() as int) =~= ms);
    let ghost gs = groups_of(ms);
    let ghost names = group_names(ms);
    proof {
        assert forall|k: int| 0 <= k < gs.len() implies matches_fit(#[trigger] gs[k]) by {
            lemma_filter_match_volume(match_refs(ms), |m: &Match| group_of(*m) == Some(names[k]));
        }
    }
    let refs = match_refs_exec(matches);
    let mut third_place_candidates: Vec<(i64, GroupRow)> = Vec::new();
    let mut incomplete_group_matches: Vec<Vec<&Match>> = Vec::new();
    let mut k: usize = 0;
    while k < groups.len()
        invariant
            k <= groups.len(),
            ms == matches@,
            refs@ == match_refs(ms),
            crate::text::views(groups@) == names,
            names == group_names(ms),
            gs == groups_of(ms),
            forall|q: int| 0 <= q < gs.len() ==> matches_fit(#[trigger] gs[q]),
            forall|x: i64|
                elim@.contains(x) == (knockout_set(ms, ms.len() as int).contains(x) || group_set(gs, k as int).contains(x)),
            table_view(third_place_candidates@) == confirmed_thirds(gs.take(k as int)),
            forall|q: int| 0 <= q < third_place_candidates@.len() ==> row_in_range(#[trigger] third_place_candidates@[q].1),
            vviews_refs(incomplete_group_matches@) == open_groups(gs.take(k as int)),
        decreases groups.len() - k,
    {
        assert(gs[k as int] == group_matches_of(ms, names[k as int]));
        assert(names[k as int] == groups@[k as int]@);
        let gm = group_matches(matches, groups[k].as_str());
        let ghost g = gm@;
        proof {
            lemma_completions_fit(g);
        }
        let ghost before = elim@;
        let ghost after = gs.take(k + 1);
        assert(after.drop_last() =~= gs.take(k as int));
        assert(after.last() == g);
        if !group_is_complete(gm.as_slice()) {
            let out = mathematically_eliminated_from_group(gm.as_slice());
            extend_new(&mut elim, &out);
            let ghost inc_before = vviews_refs(incomplete_group_matches@);
            incomplete_group_matches.push(gm);
            assert(vviews_refs(incomplete_group_matches@) =~= inc_before.push(g));
            proof {
                assert(open_groups(after) =~= open_groups(gs.take(k as int)).push(g));
                assert(confirmed_thirds(after) == confirmed_thirds(gs.take(k as int)));
                assert forall|x: i64| elim@.contains(x) == (knockout_set(ms, ms.len() as int).contains(x)
                    || group_set(gs, k + 1).contains(x)) by {
                    if elim@.contains(x) && !before.contains(x) {
                        assert(out@.contains(x));
                        assert(group_set(gs, k + 1).contains(x)) by {
                            assert(!group_is_complete_spec(gs[k as int]) && shut_out_of_top_three(gs[k as int]).contains(x));
                        }
                    }
                    if group_set(gs, k + 1).contains(x) {
                        let t = choose|t: int| 0 <= t < k + 1 && ((!group_is_complete_spec(#[trigger] gs[t])
                            && shut_out_of_top_three(gs[t]).contains(x)) || (group_is_complete_spec(gs[t])
                            && fourth_of(gs[t]) == Some(x)));
                        if t < k {
                            assert(group_set(gs, k as int).contains(x));
                        } else {
                            assert(out@.contains(x));
                        }
                    }
                }
            }
        } else {
            let fourth = fourth_place_from_group(gm.as_slice());
            match fourth {
                Some(id) => push_new(&mut elim, id),
                None => {},
            }
            let third = third_place_from_group(gm.as_slice());
            let ghost cands_before = table_view(third_place_candidates@);
            match third {
                Some(t) => {
                    proof {
                        lemma_ranked_bounded(results_of(g));
                        lemma_volume_nonneg(results_of(g));
                    }
                    third_place_candidates.push(t);
                    assert(table_view(third_place_candidates@) =~= cands_before.push((t.0, record_of(t.1))));
                },
                None => {},
            }
            proof {
                assert(open_groups(after) =~= open_groups(gs.take(k as int)));
                assert forall|x: i64| elim@.contains(x) == (knockout_set(ms, ms.len() as int).contains(x)
                    || group_set(gs, k + 1).contains(x)) by {
                    if elim@.contains(x) && !before.contains(x) {
                        assert(fourth_of(gs[k as int]) == Some(x));
                    }
                    if group_set(gs, k + 1).contains(x) {
                        let t = choose|t: int| 0 <= t < k + 1 && ((!group_is_complete_spec(#[trigger] gs[t])
                            && shut_out_of_top_three(gs[t]).contains(x)) || (group_is_complete_spec(gs[t])
                            && fourth_of(gs[t]) == Some(x)));
                        if t < k {
                            assert(group_set(gs, k as int).contains(x));
                        }
                    }
                }
            }
        }
        k = k + 1;
    }
    assert(gs.take(groups.len() as int) =~= gs);
    proof {
        assert forall|q: int| 0 <= q < incomplete_group_matches@.len() implies matches_fit(
            (#[trigger] incomplete_group_matches@[q])@,
        ) by {
            crate::sorting::lemma_filter_members(gs, |g: Seq<&Match>| !group_is_complete_spec(g));
            assert(vviews_refs(incomplete_group_matches@)[q] == incomplete_group_matches@[q]@);
            assert(open_groups(gs).contains(incomplete_group_matches@[q]@));
        }
    }
    let early = early_eliminated_third_place_team_ids(
        third_place_candidates.as_slice(),
        incomplete_group_matches.as_slice(),
    );
    let ghost before_early = elim@;
    extend_new(&mut elim, &early);
    let ghost elim_set = eliminated_ids(ms);
    let ghost mins = open_groups(gs).map_values(|g: Seq<&Match>| weakest_listed_third(g));
    assert(min_thirds_of(incomplete_group_matches@) =~= mins) by {
        assert forall|q: int| 0 <= q < mins.len() implies min_thirds_of(incomplete_group_matches@)[q] == mins[q] by {
            assert(vviews_refs(incomplete_group_matches@)[q] == incomplete_group_matches@[q]@);
        }
    }
    assert forall|x: i64| elim@.contains(x) == elim_set.contains(x) by {
        assert(early@ == early_eliminated_ids(confirmed_thirds(gs), mins));
    }
    // Partition the teams and sort each side by name.
    let ghost entries = team_entries(teams@);
    let ghost pin = |e: (i64, Seq<char>)| !elim_set.contains(e.0);
    let ghost pout = |e: (i64, Seq<char>)| elim_set.contains(e.0);
    let mut still_in: Vec<TeamRef> = Vec::new();
    let mut eliminated: Vec<TeamRef> = Vec::new();
    let mut t: usize = 0;
    while t < teams.len()
        invariant
            t <= teams.len(),
            entries == team_entries(teams@),
            forall|x: i64| elim@.contains(x) == elim_set.contains(x),
            pin == (|e: (i64, Seq<char>)| !elim_set.contains(e.0)),
            pout == (|e: (i64, Seq<char>)| elim_set.contains(e.0)),
            team_refs_view(still_in@) == filter_seq(entries.take(t as int), pin),
            team_refs_view(eliminated@) == filter_seq(entries.take(t as int), pout),
        decreases teams.len() - t,
    {
        let ghost after = entries.take(t + 1);
        assert(after.drop_last() =~= entries.take(t as int));
        assert(after.last() == (teams@[t as int].id, teams@[t as int].name@));
        let team_ref = TeamRef { id: teams[t].id, name: teams[t].name.clone() };
        let ghost s0 = team_refs_view(still_in@);
        let ghost e0 = team_refs_view(eliminated@);
        if contains_id(&elim, teams[t].id) {
            eliminated.push(team_ref);
            assert(team_refs_view(eliminated@) =~= e0.push(after.last()));
        } else {
            still_in.push(team_ref);
            assert(team_refs_view(still_in@) =~= s0.push(after.last()));
        }
        t = t + 1;
    }
    assert(entries.take(teams.len() as int) =~= entries);
    let still_in = sort_team_refs(still_in);
    let eliminated = sort_team_refs(eliminated);
    TeamClassification { still_in, eliminated }
}

/// The match lists of a list of groups.
pub open spec fn vviews_refs<'a>(s: Seq<Vec<&'a Match>>) -> Seq<Seq<&'a Match>> {
    s.map_values(|v: Vec<&'a Match>| v@)
}

// ---------------------------------------------------------------- laws
/// Every competition team lands on exactly one side of the classification:
/// together the two sides hold each team once, teams still in are not
/// eliminated, and eliminated teams are.
pub proof fn law_classification_partitions(teams: Seq<Team>, ms: Seq<Match>)
    ensures
        still_in_of(teams, ms).to_multiset().add(eliminated_of(teams, ms).to_multiset())
            == team_entries(teams).to_multiset(),
        forall|i: int|
            0 <= i < still_in_of(teams, ms).len() ==> !eliminated_ids(ms).contains(
                (#[trigger] still_in_of(teams, ms)[i]).0,
            ),
        forall|i: int|
            0 <= i < eliminated_of(teams, ms).len() ==> eliminated_ids(ms).contains(
                (#[trigger] eliminated_of(teams, ms)[i]).0,
            ),
{
    let entries = team_entries(teams);
    let elim = eliminated_ids(ms);
    let pin = |e: (i64, Seq<char>)| !elim.contains(e.0);
    let pout = |e: (i64, Seq<char>)| elim.contains(e.0);
    let before = |a: (i64, Seq<char>), b: (i64, Seq<char>)| name_before(a, b);
    crate::sorting::lemma_filter_split(entries, pout);
    assert((|x: (i64, Seq<char>)| !pout(x)) =~= pin);
    crate::sorting::lemma_sort_multiset(filter_seq(entries, pin), before);
    crate::sorting::lemma_sort_multiset(filter_seq(entries, pout), before);
    assert(filter_seq(entries, pin).to_multiset().add(filter_seq(entries, pout).to_multiset())
        =~= filter_seq(entries, pout).to_multiset().add(filter_seq(entries, pin).to_multiset()));
    crate::sorting::lemma_filter_members(entries, pin);
    crate::sorting::lemma_filter_members(entries, pout);
    let si = still_in_of(teams, ms);
    let el = eliminated_of(teams, ms);
    assert forall|i: int| 0 <= i < si.len() implies !elim.contains((#[trigger] si[i]).0) by {
        broadcast use vstd::seq_lib::group_to_multiset_ensures;
        let f = filter_seq(entries, pin);
        assert(si.contains(si[i]));
        assert(si.to_multiset().count(si[i]) > 0);
        assert(f.to_multiset().count(si[i]) > 0);
        assert(f.contains(si[i]));
        let k = choose|k: int| 0 <= k < f.len() && f[k] == si[i];
        assert(pin(f[k]));
    }
    assert forall|i: int| 0 <= i < el.len() implies elim.contains((#[trigger] el[i]).0) by {
        broadcast use vstd::seq_lib::group_to_multiset_ensures;
        let f = filter_seq(entries, pout);
        assert(el.contains(el[i]));
        assert(el.to_multiset().count(el[i]) > 0);
        assert(f.to_multiset().count(el[i]) > 0);
        assert(f.contains(el[i]));
        let k = choose|k: int| 0 <= k < f.len() && f[k] == el[i];
        assert(pout(f[k]));
    }
}

/// Both sides of the classification list their teams in name order.
pub proof fn law_team_lists_sorted_by_name(teams: Seq<Team>, ms: Seq<Match>)
    ensures
        crate::sorting::sorted_by(still_in_of(teams, ms), |a: (i64, Seq<char>), b: (i64, Seq<char>)| name_before(a, b)),
        crate::sorting::sorted_by(eliminated_of(teams, ms), |a: (i64, Seq<char>), b: (i64, Seq<char>)| name_before(a, b)),
{
    let before = |a: (i64, Seq<char>), b: (i64, Seq<char>)| name_before(a, b);
    assert(crate::sorting::strict_order(before)) by {
        assert forall|x: (i64, Seq<char>)| !#[trigger] before(x, x) by {
            crate::text::lemma_seq_lt_irreflexive(x.1);
        }
        assert forall|x: (i64, Seq<char>), y: (i64, Seq<char>), z: (i64, Seq<char>)|
            #[trigger] before(x, y) && #[trigger] before(y, z) implies before(x, z) by {
            crate::text::lemma_seq_lt_transitive(x.1, y.1, z.1);
        }
    }
    let elim = eliminated_ids(ms);
    crate::sorting::lemma_sort_sorted(
        filter_seq(team_entries(teams), |e: (i64, Seq<char>)| !elim.contains(e.0)),
        before,
    );
    crate::sorting::lemma_sort_sorted(
        filter_seq(team_entries(teams), |e: (i64, Seq<char>)| elim.contains(e.0)),
        before,
    );
}

/// A fixture outside the group stage that is not finished, such as a
/// knockout or third-place match still to be played or being played,
/// eliminates nobody: adding it changes neither side of the classification.
pub proof fn law_unfinished_fixture_outside_groups_changes_nothing(teams: Seq<Team>, ms: Seq<Match>, m: Match)
    requires
        !status_finished(m),
        !is_group_stage_spec(m.stage),
    ensures
        still_in_of(teams, ms.push(m)) == still_in_of(teams, ms),
        eliminated_of(teams, ms.push(m)) == eliminated_of(teams, ms),
{
    let ms2 = ms.push(m);
    assert(ms2.drop_last() =~= ms);
    assert(ms2.last() == m);
    assert(knockout_set(ms2, ms2.len() as int) =~= knockout_set(ms, ms.len() as int)) by {
        assert forall|x: i64| knockout_set(ms2, ms2.len() as int).contains(x) implies knockout_set(ms, ms.len() as int).contains(x) by {
            let j = choose|j: int| 0 <= j < ms2.len() && knocked_out_by(#[trigger] ms2[j], x);
            assert(j < ms.len());
            assert(ms2[j] == ms[j]);
        }
        assert forall|x: i64| knockout_set(ms, ms.len() as int).contains(x) implies knockout_set(ms2, ms2.len() as int).contains(x) by {
            let j = choose|j: int| 0 <= j < ms.len() && knocked_out_by(#[trigger] ms[j], x);
            assert(ms2[j] == ms[j]);
        }
    }
    assert(group_names(ms2) == group_names(ms));
    let refs2 = match_refs(ms2);
    assert(refs2.drop_last() =~= match_refs(ms));
    assert forall|g: Seq<char>| #[trigger] group_matches_of(ms2, g) == group_matches_of(ms, g) by {
        assert(refs2.last() == &m);
    }
    assert(groups_of(ms2) =~= groups_of(ms)) by {
        assert forall|k: int| 0 <= k < groups_of(ms).len() implies groups_of(ms2)[k] == groups_of(ms)[k] by {
            assert(group_matches_of(ms2, group_names(ms)[k]) == group_matches_of(ms, group_names(ms)[k]));
        }
    }
    assert(eliminated_ids(ms2) =~= eliminated_ids(ms));
}

/// Two match lists of one length that differ only in matches that are not
/// final on either side, between the same teams.
pub open spec fn same_but_unplayed(a: Seq<&Match>, b: Seq<&Match>) -> bool {
    &&& a.len() == b.len()
    &&& forall|j: int|
        0 <= j < a.len() ==> (#[trigger] a[j]) == b[j] || (!match_is_final_spec(*a[j]) && !match_is_final_spec(
            *b[j],
        ) && a[j].home_team.id == b[j].home_team.id && a[j].away_team.id == b[j].away_team.id)
}

proof fn lemma_unplayed_drop_last(a: Seq<&Match>, b: Seq<&Match>)
    requires
        same_but_unplayed(a, b),
        a.len() > 0,
    ensures
        same_but_unplayed(a.drop_last(), b.drop_last()),
        a.last() == b.last() || (!match_is_final_spec(*a.last()) && !match_is_final_spec(*b.last())
            && a.last().home_team.id == b.last().home_team.id && a.last().away_team.id == b.last().away_team.id),
{
    assert forall|j: int| 0 <= j < a.len() - 1 implies (#[trigger] a.drop_last()[j]) == b.drop_last()[j] || (
    !match_is_final_spec(*a.drop_last()[j]) && !match_is_final_spec(*b.drop_last()[j])
        && a.drop_last()[j].home_team.id == b.drop_last()[j].home_team.id && a.drop_last()[j].away_team.id
        == b.drop_last()[j].away_team.id) by {
        assert(a.drop_last()[j] == a[j]);
        assert(b.drop_last()[j] == b[j]);
    }
    assert(a[a.len() - 1] == a.last());
    assert(b[b.len() - 1] == b.last());
}

/// Matches that are not final give no results, and the pending ones pair up
/// team by team.
proof fn lemma_unplayed_same_ends(a: Seq<&Match>, b: Seq<&Match>)
    requires
        same_but_unplayed(a, b),
    ensures
        results_of(a) == results_of(b),
        pending_of(a).len() == pending_of(b).len(),
        forall|k: int|
            0 <= k < pending_of(a).len() ==> (#[trigger] pending_of(a)[k]).home_team.id == pending_of(b)[k].home_team.id
                && pending_of(a)[k].away_team.id == pending_of(b)[k].away_team.id,
    decreases a.len(),
{
    if a.len() > 0 {
        lemma_unplayed_drop_last(a, b);
        lemma_unplayed_same_ends(a.drop_last(), b.drop_last());
        let pa = pending_of(a.drop_last());
        let pb = pending_of(b.drop_last());
        if !match_is_final_spec(*a.last()) {
            let qa = pa.push(a.last());
            let qb = pb.push(b.last());
            assert(pending_of(a) == qa);
            assert(pending_of(b) == qb);
            assert forall|k: int| 0 <= k < qa.len() implies (#[trigger] qa[k]).home_team.id == qb[k].home_team.id
                && qa[k].away_team.id == qb[k].away_team.id by {
                if k < pa.len() {
                    assert(qa[k] == pa[k]);
                    assert(qb[k] == pb[k]);
                }
            }
        } else {
            assert(pending_of(a) == pa);
            assert(pending_of(b) == pb);
        }
    }
}

/// A group match that is over but has no published score counts as unplayed:
/// in place of a match still to be played, the same fixture marked finished
/// without a score (or any other fixture between the same teams that is not
/// final) leaves the ways the group can end, and so the teams shut out, as
/// they were.
pub proof fn law_finished_without_score_counts_as_unplayed(gm: Seq<&Match>, i: int, m: &Match)
    requires
        0 <= i < gm.len(),
        !match_is_final_spec(*gm[i]),
        !match_is_final_spec(*m),
        m.home_team.id == gm[i].home_team.id,
        m.away_team.id == gm[i].away_team.id,
    ensures
        forall|c: Seq<GroupResult>| is_completion(gm.update(i, m), c) == is_completion(gm, c),
        shut_out_of_top_three(gm.update(i, m)) == shut_out_of_top_three(gm),
{
    let gm2 = gm.update(i, m);
    assert(same_but_unplayed(gm2, gm)) by {
        assert forall|j: int| 0 <= j < gm2.len() implies (#[trigger] gm2[j]) == gm[j] || (!match_is_final_spec(*gm2[j])
            && !match_is_final_spec(*gm[j]) && gm2[j].home_team.id == gm[j].home_team.id && gm2[j].away_team.id
            == gm[j].away_team.id) by {
            if j == i {
                assert(gm2[j] == m);
            }
        }
    }
    lemma_unplayed_same_ends(gm2, gm);
    assert forall|c: Seq<GroupResult>| is_completion(gm2, c) == is_completion(gm, c) by {
        let p2 = pending_of(gm2);
        let p1 = pending_of(gm);
        let n = results_of(gm).len();
        if c.len() == n + p1.len() {
            assert forall|k: int| n <= k < c.len() implies plays(p2[k - n], #[trigger] c[k]) == plays(p1[k - n], c[k]) by {
                assert(p2[k - n].home_team.id == p1[k - n].home_team.id);
            }
        }
    }
    assert(!group_is_complete_spec(gm2)) by {
        assert(gm2[i] == m);
    }
    assert(group_team_ids(gm2) =~= group_team_ids(gm)) by {
        assert forall|x: i64| group_team_ids(gm2).contains(x) == group_team_ids(gm).contains(x) by {
            if group_team_ids(gm2).contains(x) {
                let j = choose|j: int| 0 <= j < gm2.len() && (side_is((#[trigger] gm2[j]).home_team.id, x) || side_is(gm2[j].away_team.id, x));
                assert(gm[j].home_team.id == gm2[j].home_team.id && gm[j].away_team.id == gm2[j].away_team.id);
            }
            if group_team_ids(gm).contains(x) {
                let j = choose|j: int| 0 <= j < gm.len() && (side_is((#[trigger] gm[j]).home_team.id, x) || side_is(gm[j].away_team.id, x));
                assert(gm[j].home_team.id == gm2[j].home_team.id && gm[j].away_team.id == gm2[j].away_team.id);
            }
        }
    }
    assert(pending_teams(gm2) =~= pending_teams(gm)) by {
        let p2 = pending_of(gm2);
        let p1 = pending_of(gm);
        assert forall|x: i64| pending_teams(gm2).contains(x) == pending_teams(gm).contains(x) by {
            if pending_teams(gm2).contains(x) {
                let j = choose|j: int| 0 <= j < p2.len() && (side_is((#[trigger] p2[j]).home_team.id, x) || side_is(p2[j].away_team.id, x));
                assert(p1[j].home_team.id == p2[j].home_team.id);
            }
            if pending_teams(gm).contains(x) {
                let j = choose|j: int| 0 <= j < p1.len() && (side_is((#[trigger] p1[j]).home_team.id, x) || side_is(p1[j].away_team.id, x));
                assert(p1[j].home_team.id == p2[j].home_team.id);
            }
        }
    }
    let open = pending_teams(gm);
    assert forall|t: i64| outpaced(gm2, t) == outpaced(gm, t) by {
        if outpaced(gm, t) {
            assert forall|c: Seq<GroupResult>| #[trigger] is_completion(gm2, c) implies teams_ahead(c, open, t).len() >= 3 by {
                assert(is_completion(gm, c));
            }
        }
        if outpaced(gm2, t) {
            assert forall|c: Seq<GroupResult>| #[trigger] is_completion(gm, c) implies teams_ahead(c, open, t).len() >= 3 by {
                assert(is_completion(gm2, c));
            }
        }
    }
    assert(shut_out_of_top_three(gm2) =~= shut_out_of_top_three(gm));
}

/// Three to the power `n`.
pub open spec fn pow3(n: nat) -> nat
    decreases n,
{
    if n == 0 {
        1
    } else {
        3 * pow3((n - 1) as nat)
    }
}

/// Both teams of every match are known.
pub open spec fn teams_known(pending: Seq<&Match>) -> bool {
    forall|j: int| 0 <= j < pending.len() ==> (#[trigger] pending[j]).home_team.id is Some && pending[j].away_team.id is Some
}

proof fn lemma_outcomes_count(prefix: Seq<GroupResult>, pending: Seq<&Match>)
    ensures
        teams_known(pending) ==> extend_outcomes(prefix, pending).len() == pow3(pending.len()),
        !teams_known(pending) ==> extend_outcomes(prefix, pending).len() == 0,
    decreases pending.len(),
{
    if pending.len() > 0 {
        let rest = pending.drop_first();
        assert(teams_known(pending) ==> teams_known(rest)) by {
            if teams_known(pending) {
                assert forall|j: int| 0 <= j < rest.len() implies (#[trigger] rest[j]).home_team.id is Some
                    && rest[j].away_team.id is Some by {
                    assert(rest[j] == pending[j + 1]);
                }
            }
        }
        assert(!teams_known(rest) ==> !teams_known(pending)) by {
            if !teams_known(rest) {
                let j = choose|j: int| 0 <= j < rest.len() && !((#[trigger] rest[j]).home_team.id is Some
                    && rest[j].away_team.id is Some);
                assert(rest[j] == pending[j + 1]);
            }
        }
        match (pending[0].home_team.id, pending[0].away_team.id) {
            (Some(h), Some(a)) => {
                let p1 = prefix.push(GroupResult { home_id: h, away_id: a, home_goals: 1, away_goals: 0 });
                let p2 = prefix.push(GroupResult { home_id: h, away_id: a, home_goals: 0, away_goals: 0 });
                let p3 = prefix.push(GroupResult { home_id: h, away_id: a, home_goals: 0, away_goals: 1 });
                lemma_outcomes_count(p1, rest);
                lemma_outcomes_count(p2, rest);
                lemma_outcomes_count(p3, rest);
                if teams_known(rest) {
                    assert forall|j: int| 0 <= j < pending.len() implies (#[trigger] pending[j]).home_team.id is Some
                        && pending[j].away_team.id is Some by {
                        if j > 0 {
                            assert(pending[j] == rest[j - 1]);
                        }
                    }
                }
            },
            _ => {
                assert(!teams_known(pending));
            },
        }
    }
}

/// The listed endings of a group: one per way of winning, drawing and losing
/// its pending matches, so three to the power of their number when both
/// teams of each are known, and none otherwise; each is a way the group can
/// end, and every way it can end, with any scores, ends match by match like
/// one of them.
pub proof fn law_listed_endings(gm: Seq<&Match>)
    ensures
        teams_known(pending_of(gm)) ==> completions(gm).len() == pow3(pending_of(gm).len()),
        !teams_known(pending_of(gm)) ==> completions(gm).len() == 0,
        forall|i: int| 0 <= i < completions(gm).len() ==> is_completion(gm, #[trigger] completions(gm)[i]),
        forall|c: Seq<GroupResult>|
            #[trigger] is_completion(gm, c) ==> exists|i: int|
                0 <= i < completions(gm).len() && same_outcomes(c, #[trigger] completions(gm)[i]),
{
    lemma_outcomes_count(results_of(gm), pending_of(gm));
    lemma_completions_represent(gm);
}

/// Crediting a team's row with a match changes that row alone.
proof fn lemma_lookup_update(t: Seq<(i64, Record)>, id: i64, gf: int, ga: int, x: i64)
    requires
        distinct_ids(t),
    ensures
        distinct_ids(update_team(t, id, gf, ga)),
        has_id(update_team(t, id, gf, ga), x) == has_id(t, x),
        lookup(update_team(t, id, gf, ga), x) == (if x == id && has_id(t, x) {
            credit(lookup(t, x), gf, ga)
        } else {
            lookup(t, x)
        }),
{
    let u = update_team(t, id, gf, ga);
    assert forall|j: int| 0 <= j < t.len() implies (#[trigger] u[j]).0 == t[j].0 by {}
    assert(distinct_ids(u));
    if has_id(t, x) {
        let j = choose|j: int| 0 <= j < t.len() && t[j].0 == x;
        assert(u[j].0 == x);
        lemma_lookup_distinct(t, j);
        lemma_lookup_distinct(u, j);
    } else {
        assert forall|j: int| 0 <= j < u.len() implies (#[trigger] u[j]).0 != x by {
            assert(u[j].0 == t[j].0);
        }
        assert forall|j: int| 0 <= j < t.len() implies (#[trigger] t[j]).0 != x by {}
        lemma_lookup_at(t, x, t.len() as int);
        lemma_lookup_at(u, x, u.len() as int);
    }
}

/// One result updates a table row by row: when both teams already have a
/// row, the home row gains the home goals, concedes the away goals and takes
/// 3, 1 or 0 points for a win, draw or defeat; the away row likewise with the
/// roles swapped; every other row, and the set of teams, stays as it was.
pub proof fn law_result_updates_two_rows(t: Seq<(i64, Record)>, r: GroupResult, x: i64)
    requires
        distinct_ids(t),
        has_id(t, r.home_id),
        has_id(t, r.away_id),
        r.home_id != r.away_id,
    ensures
        has_id(apply_result(t, r), x) == has_id(t, x),
        lookup(apply_result(t, r), r.home_id) == credit(lookup(t, r.home_id), r.home_goals as int, r.away_goals as int),
        lookup(apply_result(t, r), r.away_id) == credit(lookup(t, r.away_id), r.away_goals as int, r.home_goals as int),
        x != r.home_id && x != r.away_id ==> lookup(apply_result(t, r), x) == lookup(t, x),
{
    let h = r.home_goals as int;
    let a = r.away_goals as int;
    assert(with_team(with_team(t, r.home_id), r.away_id) == t);
    let t2 = update_team(t, r.home_id, h, a);
    lemma_lookup_update(t, r.home_id, h, a, x);
    lemma_lookup_update(t, r.home_id, h, a, r.home_id);
    lemma_lookup_update(t, r.home_id, h, a, r.away_id);
    lemma_lookup_update(t2, r.away_id, a, h, x);
    lemma_lookup_update(t2, r.away_id, a, h, r.home_id);
    lemma_lookup_update(t2, r.away_id, a, h, r.away_id);
}

/// A ranked table with at least three rows lists three different rows of the
/// table at its first three places, none with fewer points than the third.
proof fn lemma_top_three_rows(rs: Seq<GroupResult>)
    requires
        ranked_of(rs).len() > 2,
    ensures
        forall|k: int| 0 <= k < 3 ==> table_of(rs).contains(#[trigger] ranked_of(rs)[k]),
        forall|k: int| 0 <= k < 3 ==> (#[trigger] ranked_of(rs)[k]).1.points >= ranked_of(rs)[2].1.points,
        ranked_of(rs)[0] != ranked_of(rs)[1] && ranked_of(rs)[0] != ranked_of(rs)[2] && ranked_of(rs)[1] != ranked_of(rs)[2],
{
    broadcast use vstd::seq_lib::group_to_multiset_ensures;

    let tb = table_of(rs);
    let r = ranked_of(rs);
    lemma_table_bounded(rs);
    lemma_ranked_sorted(rs);
    assert(tb.no_duplicates()) by {
        assert forall|a: int, b: int| 0 <= a < tb.len() && 0 <= b < tb.len() && a != b implies tb[a] != tb[b] by {
            if a < b {
                assert(tb[a].0 != tb[b].0);
            } else {
                assert(tb[b].0 != tb[a].0);
            }
        }
    }
    tb.lemma_multiset_has_no_duplicates();
    r.lemma_multiset_has_no_duplicates_conv();
    assert forall|k: int| 0 <= k < 3 implies table_of(rs).contains(#[trigger] r[k]) by {
        assert(r.to_multiset().count(r[k]) > 0);
    }
    assert forall|q: int| 0 <= q < 3 implies lookup(tb, (#[trigger] r[q]).0) == r[q].1 by {
        let w = choose|w: int| 0 <= w < tb.len() && tb[w] == r[q];
        lemma_lookup_distinct(tb, w);
    }
    assert(!rank_before(rs, r[2].0, r[0].0));
    assert(!rank_before(rs, r[2].0, r[1].0));
}

/// The third-placed team has more than `p` points exactly when three teams do.
proof fn lemma_third_over_iff(rs: Seq<GroupResult>, p: int)
    requires
        ranked_of(rs).len() > 2,
    ensures
        (third_record(rs).points > p) == (teams_over(rs, p).len() >= 3),
{
    if teams_over(rs, p).len() >= 3 {
        lemma_over_lifts_third(rs, p);
    }
    if third_record(rs).points > p {
        let r = ranked_of(rs);
        let tb = table_of(rs);
        lemma_top_three_rows(rs);
        crate::sorting::lemma_filter_members(tb, over(p));
        let f = teams_over(rs, p);
        assert forall|k: int| 0 <= k < 3 implies f.contains(#[trigger] r[k]) by {
            let w = choose|w: int| 0 <= w < tb.len() && tb[w] == r[k];
            assert(over(p)(tb[w]));
        }
        let j0 = choose|j: int| 0 <= j < f.len() && f[j] == r[0];
        let j1 = choose|j: int| 0 <= j < f.len() && f[j] == r[1];
        let j2 = choose|j: int| 0 <= j < f.len() && f[j] == r[2];
        assert(j0 != j1 && j0 != j2 && j1 != j2);
    }
}

/// Results that end the same way give the third-placed team the same points.
proof fn lemma_same_third_points(a: Seq<GroupResult>, b: Seq<GroupResult>)
    requires
        same_outcomes(a, b),
    ensures
        third_record(a).points == third_record(b).points,
{
    lemma_same_table(a, b);
    lemma_ranked_sorted(a);
    lemma_ranked_sorted(b);
    if ranked_of(a).len() > 2 {
        let x = third_record(a).points;
        let y = third_record(b).points;
        lemma_same_counts(a, b, x);
        lemma_same_counts(a, b, y);
        lemma_third_over_iff(a, x);
        lemma_third_over_iff(b, x);
        lemma_third_over_iff(a, y);
        lemma_third_over_iff(b, y);
    }
}

/// The weakest third of a list of endings is the third of one of them, and
/// none of them gives its third fewer points.
proof fn lemma_weakest_of(cs: Seq<Seq<GroupResult>>)
    ensures
        cs.len() == 0 <==> weakest_of(cs) is None,
        weakest_of(cs) matches Some(w) ==> (exists|i: int| 0 <= i < cs.len() && w == third_record(#[trigger] cs[i]))
            && forall|i: int| 0 <= i < cs.len() ==> w.points <= third_record(#[trigger] cs[i]).points,
    decreases cs.len(),
{
    if cs.len() > 0 {
        let init = cs.drop_last();
        lemma_weakest_of(init);
        assert(cs[cs.len() - 1] == cs.last());
        assert forall|i: int| 0 <= i < init.len() implies init[i] == cs[i] by {}
        match weakest_of(init) {
            Some(cur) => {
                let k = choose|i: int| 0 <= i < init.len() && cur == third_record(#[trigger] init[i]);
                assert(cs[k] == init[k]);
            },
            None => {},
        }
    }
}

/// The points of the weakest listed third are the fewest a third-placed team
/// can finish on: no way the group can end, with any scores, gives its third
/// fewer, and when the group can end at all one of those ways gives exactly
/// that many.
#[verifier::spinoff_prover]
#[verifier::rlimit(40)]
pub proof fn law_weakest_third_has_fewest_points(gm: Seq<&Match>, c: Seq<GroupResult>)
    requires
        is_completion(gm, c),
    ensures
        weakest_listed_third(gm).points <= third_record(c).points,
        exists|d: Seq<GroupResult>| #[trigger] is_completion(gm, d) && third_record(d).points == weakest_listed_third(gm).points,
{
    lemma_completions_represent(gm);
    let cs = completions(gm);
    let i = choose|i: int| 0 <= i < cs.len() && same_outcomes(c, #[trigger] cs[i]);
    lemma_same_third_points(c, cs[i]);
    lemma_weakest_of(cs);
    let w = weakest_of(cs)->0;
    let k = choose|k: int| 0 <= k < cs.len() && w == third_record(#[trigger] cs[k]);
    assert(is_completion(gm, cs[k]));
    assert(third_record(cs[i]).points >= w.points);
}

/// Nobody is shut out of a group whose matches are all decided: the table
/// itself settles who goes through.
pub proof fn law_complete_group_shuts_out_nobody(gm: Seq<&Match>)
    requires
        group_is_complete_spec(gm),
    ensures
        shut_out_of_top_three(gm) == Set::<i64>::empty(),
{
}

/// A team listed as shut out of an open group cannot finish in its top three,
/// whatever the scores of the remaining matches.
pub proof fn law_shut_out_team_cannot_reach_top_three(gm: Seq<&Match>, id: i64)
    requires
        shut_out_of_top_three(gm).contains(id),
    ensures
        !can_reach_top_three(gm, id),
{
    if !four_or_fewer(gm) {
        assert forall|c: Seq<GroupResult>| #[trigger] is_completion(gm, c) implies !in_top_three(ranked_of(c), id) by {
            lemma_ahead_keeps_out(c, pending_teams(gm), id);
        }
    }
}

/// In an open group of at most four teams, the teams shut out are exactly
/// those that no way the remaining matches can end, with any scores, puts in
/// the top three.
pub proof fn law_small_group_shut_out_is_exact(gm: Seq<&Match>, id: i64)
    requires
        !group_is_complete_spec(gm),
        four_or_fewer(gm),
    ensures
        shut_out_of_top_three(gm).contains(id) == (group_team_ids(gm).contains(id) && !can_reach_top_three(gm, id)),
{
}

/// With eight or fewer third-place slots in play, no third-placed team is cut
/// early.
pub proof fn law_eight_slots_spare_every_third(confirmed: Seq<(i64, Record)>, mins: Seq<Record>)
    requires
        confirmed.len() + mins.len() <= 8,
    ensures
        early_eliminated_ids(confirmed, mins).len() == 0,
{
}

/// A third-placed team is cut early only when, even against the weakest
/// thirds of the open groups, it cannot rank in the top eight.
pub proof fn law_cut_thirds_cannot_reach_top_eight(confirmed: Seq<(i64, Record)>, mins: Seq<Record>, i: int)
    requires
        0 <= i < early_eliminated_ids(confirmed, mins).len(),
    ensures
        exists|k: int|
            0 <= k < confirmed.len() && (#[trigger] confirmed[k]).0 == early_eliminated_ids(confirmed, mins)[i]
                && best_case_rank(confirmed[k].0, confirmed, mins) > 8,
{
    let p = |e: (i64, Record)| best_case_rank(e.0, confirmed, mins) > 8;
    crate::sorting::lemma_filter_members(confirmed, p);
    let f = filter_seq(confirmed, p);
    assert(early_eliminated_ids(confirmed, mins)[i] == f[i].0);
    assert(p(f[i]) && confirmed.contains(f[i]));
    let k = choose|k: int| 0 <= k < confirmed.len() && confirmed[k] == f[i];
    assert(confirmed[k].0 == early_eliminated_ids(confirmed, mins)[i]);
}

/// The loser of a finished match of the last 32, last 16, quarter-finals,
/// semi-finals or final, decided on the full-time score, is eliminated and is
/// listed among the eliminated teams of the classification.
pub proof fn law_knockout_round_loser_is_out(
    teams: Seq<Team>,
    ms: Seq<Match>,
    j: int,
    q: int,
    h: i64,
    a: i64,
    home: i64,
    away: i64,
)
    requires
        0 <= j < ms.len(),
        0 <= q < teams.len(),
        ms[j].status matches Some(st) && st@ == "FINISHED"@,
        ms[j].stage matches Some(sg) && (sg@ == "LAST_32"@ || sg@ == "LAST_16"@ || sg@ == "QUARTER_FINALS"@ || sg@
            == "SEMI_FINALS"@ || sg@ == "FINAL"@),
        ms[j].score.full_time.home == Some(h),
        ms[j].score.full_time.away == Some(a),
        h != a,
        ms[j].home_team.id == Some(home),
        ms[j].away_team.id == Some(away),
        teams[q].id == (if h > a { away } else { home }),
    ensures
        eliminated_ids(ms).contains(teams[q].id),
        eliminated_of(teams, ms).contains((teams[q].id, teams[q].name@)),
        !still_in_of(teams, ms).contains((teams[q].id, teams[q].name@)),
{
    broadcast use vstd::seq_lib::group_to_multiset_ensures;

    let x = teams[q].id;
    assert(knocked_out_by(ms[j], x));
    assert(knockout_set(ms, ms.len() as int).contains(x));
    let elim = eliminated_ids(ms);
    assert(elim.contains(x));
    let entries = team_entries(teams);
    let pout = |e: (i64, Seq<char>)| elim.contains(e.0);
    let pin = |e: (i64, Seq<char>)| !elim.contains(e.0);
    let before = |a: (i64, Seq<char>), b: (i64, Seq<char>)| name_before(a, b);
    assert(entries[q] == (x, teams[q].name@));
    crate::sorting::lemma_filter_members(entries, pout);
    crate::sorting::lemma_filter_members(entries, pin);
    let f = filter_seq(entries, pout);
    assert(f.contains(entries[q]));
    crate::sorting::lemma_sort_multiset(f, before);
    assert(f.to_multiset().count(entries[q]) > 0);
    assert(eliminated_of(teams, ms).to_multiset().count(entries[q]) > 0);
    let g = filter_seq(entries, pin);
    crate::sorting::lemma_sort_multiset(g, before);
    if still_in_of(teams, ms).contains(entries[q]) {
        assert(still_in_of(teams, ms).to_multiset().count(entries[q]) > 0);
        assert(g.to_multiset().count(entries[q]) > 0);
        assert(g.contains(entries[q]));
        let k = choose|k: int| 0 <= k < g.len() && g[k] == entries[q];
        assert(pin(g[k]));
    }
}

/// The weakest third listed for a group is no better than the third of any
/// listed ending, on points, then goal difference, then goals scored; and when
/// the group has a listed ending it is the third of one of them.
pub proof fn law_weakest_listed_third_is_weakest(gm: Seq<&Match>)
    ensures
        forall|i: int|
            0 <= i < completions(gm).len() ==> {
                let w = weakest_listed_third(gm);
                let c = third_record(#[trigger] completions(gm)[i]);
                w.points < c.points || (w.points == c.points && (w.goals_for - w.goals_against < c.goals_for
                    - c.goals_against || (w.goals_for - w.goals_against == c.goals_for - c.goals_against
                    && w.goals_for <= c.goals_for)))
            },
        completions(gm).len() > 0 ==> exists|i: int|
            0 <= i < completions(gm).len() && weakest_listed_third(gm) == third_record(#[trigger] completions(gm)[i]),
{
    lemma_weakest_full(completions(gm));
}

proof fn lemma_weakest_full(cs: Seq<Seq<GroupResult>>)
    ensures
        weakest_of(cs) matches Some(w) ==> (exists|i: int| 0 <= i < cs.len() && w == third_record(#[trigger] cs[i]))
            && forall|i: int| 0 <= i < cs.len() ==> !record_worse(third_record(#[trigger] cs[i]), w),
        cs.len() > 0 ==> weakest_of(cs) is Some,
    decreases cs.len(),
{
    if cs.len() > 0 {
        let init = cs.drop_last();
        lemma_weakest_full(init);
        assert(cs[cs.len() - 1] == cs.last());
        assert forall|i: int| 0 <= i < init.len() implies init[i] == cs[i] by {}
        let t = third_record(cs.last());
        match weakest_of(init) {
            Some(cur) => {
                let k = choose|i: int| 0 <= i < init.len() && cur == third_record(#[trigger] init[i]);
                assert(cs[k] == init[k]);
                if record_worse(t, cur) {
                    assert forall|i: int| 0 <= i < cs.len() implies !record_worse(third_record(#[trigger] cs[i]), t) by {
                        if i < init.len() {
                            assert(!record_worse(third_record(init[i]), cur));
                        }
                    }
                } else {
                    assert forall|i: int| 0 <= i < cs.len() implies !record_worse(third_record(#[trigger] cs[i]), cur) by {
                        if i < init.len() {
                            assert(!record_worse(third_record(init[i]), cur));
                        }
                    }
                }
            },
            None => {},
        }
    }
}

/// A team that lost a finished knockout match, or played the third-place
/// play-off, is eliminated.
pub proof fn law_knocked_out_team_is_eliminated(ms: Seq<Match>, j: int, id: i64)
    requires
        0 <= j < ms.len(),
        knocked_out_by(ms[j], id),
    ensures
        eliminated_ids(ms).contains(id),
{
    assert(knockout_set(ms, ms.len() as int).contains(id));
}

/// The FIFA order decides every pair of different teams, one way only.
pub proof fn law_fifa_order_is_strict_and_total(rs: Seq<GroupResult>, a: i64, b: i64)
    requires
        a != b,
    ensures
        rank_before(rs, a, b) != rank_before(rs, b, a),
{
}

/// Ranking a group table keeps every row: the ranking is a rearrangement of
/// the table.
pub proof fn law_ranking_keeps_every_row(rs: Seq<GroupResult>)
    ensures
        ranked_of(rs).to_multiset() == table_of(rs).to_multiset(),
        ranked_of(rs).len() == table_of(rs).len(),
{
    crate::sorting::lemma_sort_multiset(
        table_of(rs),
        |x: (i64, Record), y: (i64, Record)| rank_before(rs, x.0, y.0),
    );
}

// ---------------------------------------------------------------- limits
proof fn lemma_match_volume_grows(gm: Seq<&Match>, i: int, j: int)
    requires
        0 <= i <= j <= gm.len(),
    ensures
        match_volume(gm.take(i)) <= match_volume(gm.take(j)),
    decreases j - i,
{
    if i < j {
        lemma_match_volume_grows(gm, i, j - 1);
        assert(gm.take(j).drop_last() =~= gm.take(j - 1));
    }
}

/// Whether the matches are far enough from the `i64` limits for every group
/// table built from them, the test that `classify_teams` needs first.
pub fn matches_within_limits(matches: &[Match]) -> (r: bool)
    ensures
        r == matches_fit(match_refs(matches@)),
{
    let ghost gm = match_refs(matches@);
    let mut vol: u128 = 0;
    let mut i: usize = 0;
    while i < matches.len()
        invariant
            i <= matches.len(),
            gm == match_refs(matches@),
            vol == match_volume(gm.take(i as int)),
            10 * vol + 13 * i + 8 <= i64::MAX,
        decreases matches.len() - i,
    {
        let ghost after = gm.take(i + 1);
        assert(after.drop_last() =~= gm.take(i as int));
        assert(after.last() == &matches@[i as int]);
        let add: u128 = match matches[i].full_time_score() {
            Some((h, a)) => {
                let ah: u128 = if h < 0 { ((-(h as i128)) as u128) } else { h as u128 };
                let aa: u128 = if a < 0 { ((-(a as i128)) as u128) } else { a as u128 };
                ah + aa
            },
            None => 0,
        };
        vol = vol + add;
        i = i + 1;
        if 10 * vol + 13 * (i as u128) + 8 > i64::MAX as u128 {
            proof {
                lemma_match_volume_grows(gm, i as int, matches@.len() as int);
                assert(gm.take(matches@.len() as int) =~= gm);
            }
            return false;
        }
    }
    assert(gm.take(matches@.len() as int) =~= gm);
    true
}

} // verus!
