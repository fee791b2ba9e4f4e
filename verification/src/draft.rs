//! The team draft: pick order (snake or linear), who is on the clock, and the
//! decisions and answers of starting, picking, undoing and ending a draft.
use vstd::prelude::*;

use rand::seq::SliceRandom;

use crate::season::{RosterPhase, roster_phase_text};
use crate::text::{decimal_int, decimal_nat, decimal_u64, decimal_usize, decimal_i64, join_seq, views};

verus! {

/// How the pick order runs from one round to the next.
#[derive(Debug, Clone, Copy, PartialEq, Eq, Structural)]
pub enum DraftOrderKind {
    /// Every other round runs backwards.
    Snake,
    /// Every round runs in the same order.
    Linear,
}

/// Whether a draft session is still taking picks.
#[derive(Debug, Clone, Copy, PartialEq, Eq, Structural)]
pub enum DraftSessionStatus {
    Active,
    Complete,
}

/// The stored name of an order kind.
pub open spec fn order_kind_text(k: DraftOrderKind) -> Seq<char> {
    match k {
        DraftOrderKind::Snake => "snake"@,
        DraftOrderKind::Linear => "linear"@,
    }
}

/// The order kind stored under `value`, if any.
pub open spec fn order_kind_of(value: Seq<char>) -> Option<DraftOrderKind> {
    if value == "snake"@ {
        Some(DraftOrderKind::Snake)
    } else if value == "linear"@ {
        Some(DraftOrderKind::Linear)
    } else {
        None
    }
}

/// The stored name of a session status.
pub open spec fn session_status_text(s: DraftSessionStatus) -> Seq<char> {
    match s {
        DraftSessionStatus::Active => "active"@,
        DraftSessionStatus::Complete => "complete"@,
    }
}

/// The session status stored under `value`, if any.
pub open spec fn session_status_of(value: Seq<char>) -> Option<DraftSessionStatus> {
    if value == "active"@ {
        Some(DraftSessionStatus::Active)
    } else if value == "complete"@ {
        Some(DraftSessionStatus::Complete)
    } else {
        None
    }
}

impl DraftOrderKind {
    /// The stored name of the order kind.
    pub fn as_str(self) -> (r: &'static str)
        ensures
            r@ == order_kind_text(self),
    {
        match self {
            DraftOrderKind::Snake => "snake",
            DraftOrderKind::Linear => "linear",
        }
    }

    /// The order kind stored under `value`, if any.
    pub fn parse(value: &str) -> (r: Option<Self>)
        ensures
            r == order_kind_of(value@),
    {
        if crate::text::text_eq(value, "snake") {
            Some(DraftOrderKind::Snake)
        } else if crate::text::text_eq(value, "linear") {
            Some(DraftOrderKind::Linear)
        } else {
            None
        }
    }
}

impl DraftSessionStatus {
    /// The stored name of the status.
    pub fn as_str(self) -> (r: &'static str)
        ensures
            r@ == session_status_text(self),
    {
        match self {
            DraftSessionStatus::Active => "active",
            DraftSessionStatus::Complete => "complete",
        }
    }

    /// The status stored under `value`, if any.
    pub fn parse(value: &str) -> (r: Option<Self>)
        ensures
            r == session_status_of(value@),
    {
        if crate::text::text_eq(value, "active") {
            Some(DraftSessionStatus::Active)
        } else if crate::text::text_eq(value, "complete") {
            Some(DraftSessionStatus::Complete)
        } else {
            None
        }
    }
}

/// An order kind read back from its stored name is the same kind.
pub proof fn law_order_kind_round_trip(k: DraftOrderKind)
    ensures
        order_kind_of(order_kind_text(k)) == Some(k),
{
    reveal_strlit("snake");
    reveal_strlit("linear");
    assert("snake"@.len() == 5 && "linear"@.len() == 6);
}

/// A session status read back from its stored name is the same status.
pub proof fn law_session_status_round_trip(s: DraftSessionStatus)
    ensures
        session_status_of(session_status_text(s)) == Some(s),
{
    reveal_strlit("active");
    reveal_strlit("complete");
    assert("active"@.len() == 6 && "complete"@.len() == 8);
}

/// The draft session of a season.
#[derive(Debug, Clone)]
pub struct DraftSession {
    pub season_id: i64,
    pub order_kind: DraftOrderKind,
    pub status: DraftSessionStatus,
    pub created_at: String,
}

/// A participant of a season's draft, at its place in the first round.
#[derive(Debug, Clone, Copy)]
pub struct DraftParticipant {
    pub season_id: i64,
    pub position: i64,
    pub user_id: u64,
}

// ---------------------------------------------------------------- pick order
/// The place in the first-round order of the participant who makes pick
/// `pick` (counted from 0) of a draft of `n` participants.
pub open spec fn picker_position(n: int, pick: int, kind: DraftOrderKind) -> int {
    let round = pick / n;
    let pos = pick % n;
    match kind {
        DraftOrderKind::Linear => pos,
        DraftOrderKind::Snake => if round % 2 == 0 {
            pos
        } else {
            n - 1 - pos
        },
    }
}

/// Who is on the clock for pick `pick` (the number of picks already made).
pub open spec fn picker_of(order: Seq<u64>, pick: int, kind: DraftOrderKind) -> Option<u64> {
    if order.len() == 0 {
        None
    } else {
        Some(order[picker_position(order.len() as int, pick, kind)])
    }
}

proof fn lemma_picker_position_in_range(n: int, pick: int, kind: DraftOrderKind)
    requires
        n > 0,
        pick >= 0,
    ensures
        0 <= picker_position(n, pick, kind) < n,
{
    assert(0 <= pick % n < n) by (nonlinear_arith)
        requires
            n > 0,
    ;
}

/// Whose turn it is for pick `pick_index` (the number of picks already made),
/// `order` being the first round's order.
pub fn next_picker(order: &[u64], pick_index: usize, kind: DraftOrderKind) -> (r: Option<u64>)
    ensures
        r == picker_of(order@, pick_index as int, kind),
{
    if order.len() == 0 {
        return None;
    }
    let n = order.len();
    let round = pick_index / n;
    let pos_in_round = pick_index % n;
    proof {
        lemma_picker_position_in_range(n as int, pick_index as int, kind);
    }
    let index = match kind {
        DraftOrderKind::Linear => pos_in_round,
        DraftOrderKind::Snake => {
            if round % 2 == 0 {
                pos_in_round
            } else {
                n - 1 - pos_in_round
            }
        },
    };
    Some(order[index])
}

/// In round `round` of a draft of `n` participants, pick `p` of the round
/// goes to place `p` of the first-round order, except in the odd rounds of a
/// snake draft, which run backwards.
pub proof fn law_round_order(n: int, round: int, p: int, kind: DraftOrderKind)
    requires
        n > 0,
        round >= 0,
        0 <= p < n,
    ensures
        picker_position(n, round * n + p, kind) == if kind == DraftOrderKind::Snake && round % 2
            == 1 {
            n - 1 - p
        } else {
            p
        },
{
    assert((round * n + p) / n == round && (round * n + p) % n == p) by (nonlinear_arith)
        requires
            n > 0,
            round >= 0,
            0 <= p < n,
    {
        vstd::arithmetic::div_mod::lemma_fundamental_div_mod_converse(round * n + p, n, round, p);
    }
}

/// Every participant picks exactly once in each round: two picks of one round
/// go to different places of the order.
pub proof fn law_each_round_is_a_permutation(
    n: int,
    round: int,
    p: int,
    q: int,
    kind: DraftOrderKind,
)
    requires
        n > 0,
        round >= 0,
        0 <= p < n,
        0 <= q < n,
        p != q,
    ensures
        picker_position(n, round * n + p, kind) != picker_position(n, round * n + q, kind),
        0 <= picker_position(n, round * n + p, kind) < n,
{
    law_round_order(n, round, p, kind);
    law_round_order(n, round, q, kind);
}

/// In a snake draft the last pick of a round and the first pick of the next
/// round go to the same participant.
pub proof fn law_snake_turns_at_round_end(n: int, round: int)
    requires
        n > 0,
        round >= 0,
    ensures
        picker_position(n, round * n + (n - 1), DraftOrderKind::Snake) == picker_position(
            n,
            (round + 1) * n,
            DraftOrderKind::Snake,
        ),
{
    law_round_order(n, round, n - 1, DraftOrderKind::Snake);
    law_round_order(n, round + 1, 0, DraftOrderKind::Snake);
    assert((round + 1) * n == (round + 1) * n + 0);
    assert(round % 2 == 1 <==> (round + 1) % 2 == 0);
}

// ---------------------------------------------------------------- starting
/// Fewest participants a draft may start with.
pub const MIN_PARTICIPANTS: usize = 2;

/// The refusal of a draft of `rounds` rounds among `member_ids`, if any.
pub open spec fn start_error(member_ids: Seq<u64>, rounds: int) -> Option<Seq<char>> {
    if rounds < 1 {
        Some("Draft needs at least one round."@)
    } else if member_ids.len() < 2 {
        Some("Draft needs at least 2 participants."@)
    } else if !member_ids.no_duplicates() {
        Some("Each participant can only appear once."@)
    } else {
        None
    }
}

/// Checks that a draft of `rounds` rounds can start among `member_ids`: at
/// least one round, at least two participants, nobody twice.
pub fn validate_start(member_ids: &[u64], rounds: i64) -> (r: Result<(), String>)
    ensures
        r is Ok <==> start_error(member_ids@, rounds as int) is None,
        r matches Err(e) ==> start_error(member_ids@, rounds as int) == Some(e@),
{
    if rounds < 1 {
        return Err(String::from_str("Draft needs at least one round."));
    }
    if member_ids.len() < MIN_PARTICIPANTS {
        return Err(String::from_str("Draft needs at least 2 participants."));
    }
    let mut i: usize = 0;
    while i < member_ids.len()
        invariant
            i <= member_ids.len(),
            rounds >= 1,
            member_ids.len() >= 2,
            forall|a: int, b: int|
                0 <= a < b < member_ids@.len() && a < i ==> member_ids@[a] != member_ids@[b],
        decreases member_ids.len() - i,
    {
        let mut j: usize = i + 1;
        while j < member_ids.len()
            invariant
                i < member_ids.len(),
                i < j <= member_ids.len(),
                rounds >= 1,
                member_ids.len() >= 2,
                forall|a: int, b: int|
                    0 <= a < b < member_ids@.len() && a < i ==> member_ids@[a] != member_ids@[b],
                forall|b: int| i < b < j ==> member_ids@[i as int] != member_ids@[b],
            decreases member_ids.len() - j,
        {
            if member_ids[i] == member_ids[j] {
                assert(!member_ids@.no_duplicates()) by {
                    assert(member_ids@[i as int] == member_ids@[j as int]);
                }
                return Err(String::from_str("Each participant can only appear once."));
            }
            j = j + 1;
        }
        i = i + 1;
    }
    Ok(())
}

/// A Discord mention of a user.
pub open spec fn mention(user_id: u64) -> Seq<char> {
    "<@"@ + decimal_nat(user_id as nat) + ">"@
}

/// Writes the mention of a user.
pub fn mention_text(user_id: u64) -> (r: String)
    ensures
        r@ == mention(user_id),
{
    let mut r = String::from_str("<@");
    r.append(decimal_u64(user_id).as_str());
    r.append(">");
    r
}

/// The mentions of the participants, in order.
pub open spec fn participant_mentions(ps: Seq<DraftParticipant>) -> Seq<Seq<char>> {
    ps.map_values(|p: DraftParticipant| mention(p.user_id))
}

/// The participants, mentioned in order and separated by commas.
pub fn format_order(participants: &[DraftParticipant]) -> (r: String)
    ensures
        r@ == join_seq(participant_mentions(participants@), ", "@),
{
    let mut parts: Vec<String> = Vec::new();
    let mut i: usize = 0;
    while i < participants.len()
        invariant
            i <= participants.len(),
            parts@.len() == i,
            forall|k: int| 0 <= k < i ==> (#[trigger] parts@[k])@ == mention(participants@[k].user_id),
        decreases participants.len() - i,
    {
        let m = mention_text(participants[i].user_id);
        parts.push(m);
        i = i + 1;
    }
    assert(views(parts@) =~= participant_mentions(participants@)) by {
        assert forall|k: int| 0 <= k < parts@.len() implies views(parts@)[k]
            == participant_mentions(participants@)[k] by {
            assert(parts@[k]@ == mention(participants@[k].user_id));
        }
    }
    crate::text::join(&parts, ", ")
}

/// A draft as shown to the guild.
#[derive(Debug)]
pub struct DraftView {
    pub status: DraftSessionStatus,
    pub rounds: i64,
    pub current_pick: i64,
    pub total_picks: i64,
    pub participants: Vec<DraftParticipant>,
    pub current_picker: Option<u64>,
}

/// What a pick changed: whether the draft is over, and who picks next.
#[derive(Debug, Clone, Copy)]
pub struct TurnChange {
    pub completed: bool,
    pub next_picker: Option<u64>,
    pub pick_number: i64,
    pub total_picks: i64,
}

/// The announcement of a turn change.
pub open spec fn turn_message_text(change: TurnChange) -> Seq<char> {
    if change.completed {
        "Draft complete — all picks are in. Rosters are locked."@
    } else {
        "Pick **"@ + decimal_int(change.pick_number as int) + "** of **"@ + decimal_int(
            change.total_picks as int,
        ) + "** — "@ + match change.next_picker {
            Some(id) => mention(id),
            None => "Unknown"@,
        } + " is on the clock. Use `/draft pick`."@
    }
}

/// Announces a turn change: the end of the draft, or who is on the clock.
pub fn format_turn_message(change: &TurnChange) -> (r: String)
    ensures
        r@ == turn_message_text(*change),
{
    if change.completed {
        return String::from_str("Draft complete — all picks are in. Rosters are locked.");
    }
    let picker = match change.next_picker {
        Some(user_id) => mention_text(user_id),
        None => String::from_str("Unknown"),
    };
    let mut r = String::from_str("Pick **");
    r.append(decimal_i64(change.pick_number).as_str());
    r.append("** of **");
    r.append(decimal_i64(change.total_picks).as_str());
    r.append("** — ");
    r.append(picker.as_str());
    r.append(" is on the clock. Use `/draft pick`.");
    r
}

// ---------------------------------------------------------------- decisions
/// Whether `v` runs strictly upwards.
pub open spec fn strictly_increasing(v: Seq<u64>) -> bool {
    forall|i: int, j: int| 0 <= i < j < v.len() ==> v[i] < v[j]
}

/// The distinct users of `user_ids`, in increasing order.
pub fn distinct_players(user_ids: Vec<u64>) -> (r: Vec<u64>)
    ensures
        strictly_increasing(r@),
        forall|x: u64| r@.contains(x) <==> user_ids@.contains(x),
{
    let mut r: Vec<u64> = Vec::new();
    let mut i: usize = 0;
    while i < user_ids.len()
        invariant
            i <= user_ids.len(),
            strictly_increasing(r@),
            forall|x: u64| r@.contains(x) <==> user_ids@.take(i as int).contains(x),
        decreases user_ids.len() - i,
    {
        let x = user_ids[i];
        let ghost before = r@;
        assert(forall|y: u64| before.contains(y) <==> user_ids@.take(i as int).contains(y));
        let mut k: usize = 0;
        while k < r.len() && r[k] < x
            invariant
                k <= r.len(),
                r@ == before,
                forall|j: int| 0 <= j < k ==> r@[j] < x,
            decreases r.len() - k,
        {
            k = k + 1;
        }
        if k < r.len() && r[k] == x {
            // already listed
        } else {
            r.insert(k, x);
            proof {
                assert(r@ == before.insert(k as int, x));
                assert forall|a: int, b: int| 0 <= a < b < r@.len() implies r@[a] < r@[b] by {
                    if b < k {
                    } else if b == k {
                    } else if a < k {
                        assert(r@[b] == before[b - 1]);
                        assert(before[k as int] >= x);
                    } else if a == k {
                        assert(r@[b] == before[b - 1]);
                        if b - 1 > k {
                            assert(before[k as int] < before[b - 1]);
                        }
                    } else {
                        assert(r@[a] == before[a - 1] && r@[b] == before[b - 1]);
                    }
                }
            }
        }
        proof {
            let t0 = user_ids@.take(i as int);
            let t1 = user_ids@.take(i + 1);
            assert(t1 == t0.push(x));
            assert forall|y: u64| r@.contains(y) <==> t1.contains(y) by {
                if r@.contains(y) && y != x {
                    let j = choose|j: int| 0 <= j < r@.len() && r@[j] == y;
                    if r@ != before {
                        if j < k {
                            assert(before[j] == y);
                        } else if j > k {
                            assert(before[j - 1] == y);
                        }
                    }
                    assert(before.contains(y));
                    let q = choose|q: int| 0 <= q < t0.len() && t0[q] == y;
                    assert(t1[q] == y);
                }
                if r@.contains(y) && y == x {
                    assert(t1[i as int] == x);
                }
                if t1.contains(y) {
                    let q = choose|q: int| 0 <= q < t1.len() && t1[q] == y;
                    if q < i {
                        assert(t0[q] == y);
                        assert(t0.contains(y));
                        assert(before.contains(y));
                        let j = choose|j: int| 0 <= j < before.len() && before[j] == y;
                        if r@ != before {
                            if j < k {
                                assert(r@[j] == y);
                            } else {
                                assert(r@[j + 1] == y);
                            }
                        }
                    } else {
                        if r@ != before {
                            assert(r@[k as int] == x);
                        } else {
                            assert(r@[k as int] == x);
                        }
                    }
                }
            }
        }
        i = i + 1;
    }
    assert(user_ids@.take(user_ids.len() as int) =~= user_ids@);
    r
}

/// Why a draft among `distinct` players cannot start, if it cannot.
pub open spec fn start_refusal_text(
    distinct: int,
    phase: RosterPhase,
    has_registrations: bool,
    active_session: bool,
) -> Option<Seq<char>> {
    if distinct < 2 {
        Some("Need at least two distinct players to start a draft."@)
    } else if phase != RosterPhase::Open {
        Some("Cannot start a draft while roster phase is **"@ + roster_phase_text(phase) + "**."@)
    } else if has_registrations {
        Some("Clear all team claims before starting a draft (season must have no registrations)."@)
    } else if active_session {
        Some("A draft is already active for this season. Use `/draft status`."@)
    } else {
        None
    }
}

/// Why a draft among `distinct` players cannot start: too few players, a
/// roster that is not open, teams already claimed, or a draft already running.
pub fn start_refusal(
    distinct: usize,
    phase: RosterPhase,
    has_registrations: bool,
    active_session: bool,
) -> (r: Option<String>)
    ensures
        match r {
            Some(m) => start_refusal_text(distinct as int, phase, has_registrations, active_session)
                == Some(m@),
            None => start_refusal_text(distinct as int, phase, has_registrations, active_session)
                is None,
        },
{
    if distinct < 2 {
        Some(String::from_str("Need at least two distinct players to start a draft."))
    } else if phase != RosterPhase::Open {
        let mut m = String::from_str("Cannot start a draft while roster phase is **");
        m.append(phase.as_str());
        m.append("**.");
        Some(m)
    } else if has_registrations {
        Some(
            String::from_str(
                "Clear all team claims before starting a draft (season must have no registrations).",
            ),
        )
    } else if active_session {
        Some(String::from_str("A draft is already active for this season. Use `/draft status`."))
    } else {
        None
    }
}

/// Calls `SliceRandom::shuffle` with the thread's generator. What comes out
/// depends on chance; it is a rearrangement of what went in, since shuffling
/// only swaps elements in place.
#[verifier::external_body]
fn shuffle_in_place(v: &mut Vec<u64>)
    ensures
        final(v)@.to_multiset() == old(v)@.to_multiset(),
        final(v)@.len() == old(v)@.len(),
{
    v.shuffle(&mut rand::rng());
}

/// The draft order in random order: the same players, each as often.
pub fn shuffle_order(order: Vec<u64>) -> (r: Vec<u64>)
    ensures
        r@.to_multiset() == order@.to_multiset(),
        r@.len() == order@.len(),
{
    let mut v = order;
    shuffle_in_place(&mut v);
    v
}

/// One line per participant: its place in the order and its mention.
pub open spec fn order_lines(order: Seq<u64>) -> Seq<Seq<char>> {
    Seq::new(
        order.len(),
        |i: int| decimal_nat((i + 1) as nat) + ". "@ + mention(order[i]),
    )
}

/// The participants, numbered from 1 in order, one per line.
pub fn numbered_order(order: &[u64]) -> (r: String)
    ensures
        r@ == join_seq(order_lines(order@), "\n"@),
{
    let mut parts: Vec<String> = Vec::new();
    let mut i: usize = 0;
    while i < order.len()
        invariant
            i <= order.len(),
            parts@.len() == i,
            forall|k: int| 0 <= k < i ==> (#[trigger] parts@[k])@ == order_lines(order@)[k],
        decreases order.len() - i,
    {
        let mut line = decimal_usize(i + 1);
        line.append(". ");
        line.append(mention_text(order[i]).as_str());
        parts.push(line);
        i = i + 1;
    }
    assert(views(parts@) =~= order_lines(order@)) by {
        assert forall|k: int| 0 <= k < parts@.len() implies views(parts@)[k] == order_lines(order@)[k] by {
            assert(parts@[k]@ == order_lines(order@)[k]);
        }
    }
    crate::text::join(&parts, "\n")
}

/// The announcement of a started snake draft.
pub open spec fn started_text(order: Seq<u64>) -> Seq<char> {
    "Snake draft started (order randomized).\n\n"@ + join_seq(order_lines(order), "\n"@)
        + "\n\nOn the clock: "@ + mention(order[0]) + " — use `/draft pick`."@
}

/// Announces a started snake draft: the order, and the first of it on the clock.
pub fn draft_started_message(order: &[u64]) -> (r: String)
    requires
        order@.len() >= 1,
    ensures
        r@ == started_text(order@),
        picker_of(order@, 0, DraftOrderKind::Snake) == Some(order@[0]),
{
    let on_clock = next_picker(order, 0, DraftOrderKind::Snake);
    proof {
        assert(0int / (order@.len() as int) == 0 && 0int % (order@.len() as int) == 0);
    }
    let first = match on_clock {
        Some(id) => id,
        None => order[0],
    };
    let mut r = String::from_str("Snake draft started (order randomized).\n\n");
    r.append(numbered_order(order).as_str());
    r.append("\n\nOn the clock: ");
    r.append(mention_text(first).as_str());
    r.append(" — use `/draft pick`.");
    r
}

/// Where a season's draft stands.
#[derive(Debug, Clone)]
pub struct DraftStatus {
    pub order: Vec<u64>,
    pub order_kind: DraftOrderKind,
    pub pick_index: usize,
    pub on_the_clock: Option<u64>,
    pub session_status: DraftSessionStatus,
    pub roster_phase: RosterPhase,
    pub remaining_teams: usize,
}

/// The standing of a draft after `pick_index` picks: nobody is on the clock
/// once the session is complete.
pub fn draft_status(
    order: Vec<u64>,
    order_kind: DraftOrderKind,
    pick_index: usize,
    session_status: DraftSessionStatus,
    roster_phase: RosterPhase,
    remaining_teams: usize,
) -> (r: DraftStatus)
    ensures
        r.order@ == order@,
        r.order_kind == order_kind,
        r.pick_index == pick_index,
        r.on_the_clock == if session_status == DraftSessionStatus::Active {
            picker_of(order@, pick_index as int, order_kind)
        } else {
            None
        },
        r.session_status == session_status,
        r.roster_phase == roster_phase,
        r.remaining_teams == remaining_teams,
{
    let on_the_clock = if session_status == DraftSessionStatus::Active {
        next_picker(order.as_slice(), pick_index, order_kind)
    } else {
        None
    };
    DraftStatus {
        order,
        order_kind,
        pick_index,
        on_the_clock,
        session_status,
        roster_phase,
        remaining_teams,
    }
}

/// How the status command describes a draft.
pub open spec fn status_text(status: Option<DraftStatus>) -> Seq<char> {
    match status {
        None => "No draft for this season. An admin can `/draft start` with a list of players."@,
        Some(s) => "**Draft status** (`"@ + order_kind_text(s.order_kind) + "`, phase `"@
            + roster_phase_text(s.roster_phase) + "`)\nPick #"@ + decimal_nat(
            (s.pick_index + 1) as nat,
        ) + " · On the clock: "@ + match s.on_the_clock {
            Some(id) => if s.session_status == DraftSessionStatus::Active {
                mention(id)
            } else {
                "—"@
            },
            None => "—"@,
        } + " · "@ + decimal_nat(s.remaining_teams as nat) + " team(s) left\n\nOrder:\n"@
            + join_seq(order_lines(s.order@), "\n"@),
    }
}

/// Describes a draft for the status command.
pub fn status_message(status: &Option<DraftStatus>) -> (r: String)
    requires
        status matches Some(s) ==> s.pick_index < usize::MAX,
    ensures
        r@ == status_text(*status),
{
    match status {
        None => String::from_str(
            "No draft for this season. An admin can `/draft start` with a list of players.",
        ),
        Some(s) => {
            let clock = match s.on_the_clock {
                Some(id) => if s.session_status == DraftSessionStatus::Active {
                    mention_text(id)
                } else {
                    String::from_str("—")
                },
                None => String::from_str("—"),
            };
            let mut r = String::from_str("**Draft status** (`");
            r.append(s.order_kind.as_str());
            r.append("`, phase `");
            r.append(s.roster_phase.as_str());
            r.append("`)\nPick #");
            r.append(decimal_usize(s.pick_index + 1).as_str());
            r.append(" · On the clock: ");
            r.append(clock.as_str());
            r.append(" · ");
            r.append(decimal_usize(s.remaining_teams).as_str());
            r.append(" team(s) left\n\nOrder:\n");
            r.append(numbered_order(s.order.as_slice()).as_str());
            r
        },
    }
}

/// What a draft command does next: go on (with the user on the clock), answer
/// the user and stop, or fail.
#[derive(Debug)]
pub enum DraftGate {
    Proceed(u64),
    Reply(String),
    Fail(String),
}

/// The spec view of a gate decision.
pub enum GateView {
    Proceed(u64),
    Reply(Seq<char>),
    Fail(Seq<char>),
}

/// The spec view of a gate decision.
pub open spec fn gate_view(g: DraftGate) -> GateView {
    match g {
        DraftGate::Proceed(u) => GateView::Proceed(u),
        DraftGate::Reply(m) => GateView::Reply(m@),
        DraftGate::Fail(m) => GateView::Fail(m@),
    }
}

/// The answer to a pick while no draft is running.
pub open spec fn pick_phase_text(phase: RosterPhase) -> Seq<char> {
    match phase {
        RosterPhase::Open => "No active draft. An admin can `/draft start` when ready."@,
        _ => "The roster is frozen after the draft. Picks are locked."@,
    }
}

/// Whether a pick may go ahead: the roster is drafting, the session is
/// active, the order is not empty, the pick is for the user on the clock, and
/// the one making it is that user or an admin picking for them.
pub open spec fn pick_gate_view(
    phase: RosterPhase,
    session: Option<DraftSessionStatus>,
    order: Seq<u64>,
    pick_index: int,
    kind: DraftOrderKind,
    actor: u64,
    beneficiary: u64,
    admin_proxy: bool,
) -> GateView {
    if phase != RosterPhase::Drafting {
        GateView::Reply(pick_phase_text(phase))
    } else if session is None {
        GateView::Fail("Draft session missing while roster phase is drafting."@)
    } else if session != Some(DraftSessionStatus::Active) {
        GateView::Reply("This draft is already complete."@)
    } else if order.len() == 0 {
        GateView::Reply("Draft order is empty."@)
    } else {
        let on_clock = picker_of(order, pick_index, kind)->0;
        if beneficiary != on_clock {
            GateView::Reply(
                "It is "@ + mention(on_clock) + "'s turn to pick (not "@ + mention(beneficiary)
                    + ")."@,
            )
        } else if !admin_proxy && actor != on_clock {
            GateView::Reply("It is "@ + mention(on_clock) + "'s turn to pick."@)
        } else {
            GateView::Proceed(on_clock)
        }
    }
}

/// Decides whether `actor` may pick for `beneficiary` after `pick_index`
/// picks of the draft.
pub fn pick_gate(
    phase: RosterPhase,
    session: Option<DraftSessionStatus>,
    order: &[u64],
    pick_index: usize,
    kind: DraftOrderKind,
    actor: u64,
    beneficiary: u64,
    admin_proxy: bool,
) -> (r: DraftGate)
    ensures
        gate_view(r) == pick_gate_view(
            phase,
            session,
            order@,
            pick_index as int,
            kind,
            actor,
            beneficiary,
            admin_proxy,
        ),
{
    if phase != RosterPhase::Drafting {
        return match phase {
            RosterPhase::Open => DraftGate::Reply(
                String::from_str("No active draft. An admin can `/draft start` when ready."),
            ),
            _ => DraftGate::Reply(
                String::from_str("The roster is frozen after the draft. Picks are locked."),
            ),
        };
    }
    match session {
        None => {
            return DraftGate::Fail(
                String::from_str("Draft session missing while roster phase is drafting."),
            );
        },
        Some(DraftSessionStatus::Complete) => {
            return DraftGate::Reply(String::from_str("This draft is already complete."));
        },
        Some(DraftSessionStatus::Active) => {},
    }
    let on_clock = match next_picker(order, pick_index, kind) {
        None => {
            return DraftGate::Reply(String::from_str("Draft order is empty."));
        },
        Some(id) => id,
    };
    if beneficiary != on_clock {
        let mut m = String::from_str("It is ");
        m.append(mention_text(on_clock).as_str());
        m.append("'s turn to pick (not ");
        m.append(mention_text(beneficiary).as_str());
        m.append(").");
        return DraftGate::Reply(m);
    }
    if !admin_proxy && actor != on_clock {
        let mut m = String::from_str("It is ");
        m.append(mention_text(on_clock).as_str());
        m.append("'s turn to pick.");
        return DraftGate::Reply(m);
    }
    DraftGate::Proceed(on_clock)
}

/// The answer to a pick of a team someone already holds.
pub open spec fn already_claimed_text(team_name: Seq<char>, owner: u64) -> Seq<char> {
    "**"@ + team_name + "** is already claimed by "@ + mention(owner) + "."@
}

/// Answers a pick of a team someone already holds.
pub fn already_claimed_message(team_name: &str, owner: u64) -> (r: String)
    ensures
        r@ == already_claimed_text(team_name@, owner),
{
    let mut m = String::from_str("**");
    m.append(team_name);
    m.append("** is already claimed by ");
    m.append(mention_text(owner).as_str());
    m.append(".");
    m
}

/// The announcement of a pick made: the draft is over when no team is left,
/// else the next pick's user is on the clock.
pub open spec fn pick_made_text(
    team_name: Seq<char>,
    beneficiary: u64,
    remaining: int,
    order: Seq<u64>,
    pick_index: int,
    kind: DraftOrderKind,
) -> Seq<char> {
    if remaining == 0 {
        "**"@ + team_name + "** drafted by "@ + mention(beneficiary)
            + ".\n\nAll teams are taken — draft complete. Roster is **frozen**."@
    } else {
        "**"@ + team_name + "** drafted by "@ + mention(beneficiary) + ".\n\nOn the clock: "@
            + mention(picker_of(order, pick_index + 1, kind)->0) + " · "@ + decimal_nat(
            remaining as nat,
        ) + " team(s) left."@
    }
}

/// Announces pick `pick_index` (counted from 0) of `team_name` for
/// `beneficiary`, with `remaining` teams still unclaimed.
pub fn pick_made_message(
    team_name: &str,
    beneficiary: u64,
    remaining: usize,
    order: &[u64],
    pick_index: usize,
    kind: DraftOrderKind,
) -> (r: String)
    requires
        order@.len() >= 1,
        pick_index < usize::MAX,
    ensures
        r@ == pick_made_text(team_name@, beneficiary, remaining as int, order@, pick_index as int, kind),
{
    let mut m = String::from_str("**");
    m.append(team_name);
    m.append("** drafted by ");
    m.append(mention_text(beneficiary).as_str());
    if remaining == 0 {
        m.append(".\n\nAll teams are taken — draft complete. Roster is **frozen**.");
        return m;
    }
    let next = match next_picker(order, pick_index + 1, kind) {
        Some(id) => id,
        None => order[0],
    };
    m.append(".\n\nOn the clock: ");
    m.append(mention_text(next).as_str());
    m.append(" · ");
    m.append(decimal_usize(remaining).as_str());
    m.append(" team(s) left.");
    m
}

/// The answer to an unpick while no draft is running.
pub open spec fn unpick_phase_text(phase: RosterPhase) -> Seq<char> {
    match phase {
        RosterPhase::Open => "No active draft. Use `/unclaim` while the roster is open."@,
        _ => "The roster is frozen after the draft. Unpicks are locked."@,
    }
}

/// Whether `user_id` may undo the latest pick, whose owner is `latest_owner`
/// (none when nothing was picked yet).
pub open spec fn unpick_gate_view(
    phase: RosterPhase,
    session: Option<DraftSessionStatus>,
    latest_owner: Option<u64>,
    user_id: u64,
) -> GateView {
    if phase != RosterPhase::Drafting {
        GateView::Reply(unpick_phase_text(phase))
    } else if session is None {
        GateView::Fail("Draft session missing while roster phase is drafting."@)
    } else if session != Some(DraftSessionStatus::Active) {
        GateView::Reply("This draft is already complete."@)
    } else {
        match latest_owner {
            None => GateView::Reply("No picks to undo yet."@),
            Some(owner) => if owner != user_id {
                GateView::Reply("Only the last picker ("@ + mention(owner) + ") can `/draft unpick`."@)
            } else {
                GateView::Proceed(owner)
            },
        }
    }
}

/// Decides whether `user_id` may undo the latest pick: only its own, and only
/// while the draft runs.
pub fn unpick_gate(
    phase: RosterPhase,
    session: Option<DraftSessionStatus>,
    latest_owner: Option<u64>,
    user_id: u64,
) -> (r: DraftGate)
    ensures
        gate_view(r) == unpick_gate_view(phase, session, latest_owner, user_id),
{
    if phase != RosterPhase::Drafting {
        return match phase {
            RosterPhase::Open => DraftGate::Reply(
                String::from_str("No active draft. Use `/unclaim` while the roster is open."),
            ),
            _ => DraftGate::Reply(
                String::from_str("The roster is frozen after the draft. Unpicks are locked."),
            ),
        };
    }
    match session {
        None => {
            return DraftGate::Fail(
                String::from_str("Draft session missing while roster phase is drafting."),
            );
        },
        Some(DraftSessionStatus::Complete) => {
            return DraftGate::Reply(String::from_str("This draft is already complete."));
        },
        Some(DraftSessionStatus::Active) => {},
    }
    match latest_owner {
        None => DraftGate::Reply(String::from_str("No picks to undo yet.")),
        Some(owner) => if owner != user_id {
            let mut m = String::from_str("Only the last picker (");
            m.append(mention_text(owner).as_str());
            m.append(") can `/draft unpick`.");
            DraftGate::Reply(m)
        } else {
            DraftGate::Proceed(owner)
        },
    }
}

/// The announcement of an undone pick: the user on the clock after
/// `pick_index` picks, or the undoing user when the order is empty.
pub open spec fn unpicked_text(
    team_name: Seq<char>,
    user_id: u64,
    order: Seq<u64>,
    pick_index: int,
    kind: DraftOrderKind,
) -> Seq<char> {
    "**"@ + team_name + "** unpicked by "@ + mention(user_id) + ".\n\nOn the clock: "@ + mention(
        match picker_of(order, pick_index, kind) {
            Some(id) => id,
            None => user_id,
        },
    ) + "."@
}

/// Announces the undone pick of `team_name`, `pick_index` picks being left.
pub fn unpicked_message(
    team_name: &str,
    user_id: u64,
    order: &[u64],
    pick_index: usize,
    kind: DraftOrderKind,
) -> (r: String)
    ensures
        r@ == unpicked_text(team_name@, user_id, order@, pick_index as int, kind),
{
    let on_clock = match next_picker(order, pick_index, kind) {
        Some(id) => id,
        None => user_id,
    };
    let mut m = String::from_str("**");
    m.append(team_name);
    m.append("** unpicked by ");
    m.append(mention_text(user_id).as_str());
    m.append(".\n\nOn the clock: ");
    m.append(mention_text(on_clock).as_str());
    m.append(".");
    m
}

/// What ending a draft early does: its answer, and whether the session is
/// marked complete and the roster frozen.
#[derive(Debug)]
pub struct FreezeStep {
    pub message: String,
    pub complete_session: bool,
    pub freeze_roster: bool,
}

/// The answer of ending a draft early.
pub open spec fn freeze_text(phase: RosterPhase, session: Option<DraftSessionStatus>) -> Seq<char> {
    match phase {
        RosterPhase::Open =>
            "No active draft. Start one with `/draft start`, or use `/draft end` only while drafting."@,
        RosterPhase::Frozen => "Roster is already **frozen**."@,
        RosterPhase::Drafting => match session {
            None => "No draft session for this season."@,
            Some(DraftSessionStatus::Complete) => "Roster is **frozen**."@,
            Some(DraftSessionStatus::Active) => "Draft ended. Roster is **frozen**."@,
        },
    }
}

/// Ends a draft early: while drafting with a session, the roster freezes, and
/// an active session is marked complete.
pub fn freeze_decision(phase: RosterPhase, session: Option<DraftSessionStatus>) -> (r: FreezeStep)
    ensures
        r.message@ == freeze_text(phase, session),
        r.freeze_roster == (phase == RosterPhase::Drafting && session is Some),
        r.complete_session == (phase == RosterPhase::Drafting && session == Some(
            DraftSessionStatus::Active,
        )),
{
    match phase {
        RosterPhase::Open => FreezeStep {
            message: String::from_str(
                "No active draft. Start one with `/draft start`, or use `/draft end` only while drafting.",
            ),
            complete_session: false,
            freeze_roster: false,
        },
        RosterPhase::Frozen => FreezeStep {
            message: String::from_str("Roster is already **frozen**."),
            complete_session: false,
            freeze_roster: false,
        },
        RosterPhase::Drafting => match session {
            None => FreezeStep {
                message: String::from_str("No draft session for this season."),
                complete_session: false,
                freeze_roster: false,
            },
            Some(DraftSessionStatus::Complete) => FreezeStep {
                message: String::from_str("Roster is **frozen**."),
                complete_session: false,
                freeze_roster: true,
            },
            Some(DraftSessionStatus::Active) => FreezeStep {
                message: String::from_str("Draft ended. Roster is **frozen**."),
                complete_session: true,
                freeze_roster: true,
            },
        },
    }
}

/// What a pick leaves behind: once no team is left unclaimed the draft is
/// over, its session complete and the roster frozen; while teams remain,
/// nothing changes.
pub fn after_pick(remaining: usize) -> (r: Option<(DraftSessionStatus, RosterPhase)>)
    ensures
        r == (if remaining == 0 {
            Some((DraftSessionStatus::Complete, RosterPhase::Frozen))
        } else {
            None
        }),
{
    if remaining == 0 {
        Some((DraftSessionStatus::Complete, RosterPhase::Frozen))
    } else {
        None
    }
}

/// The catalog teams nobody has claimed.
pub open spec fn unclaimed_ids(team_ids: Seq<i64>, claimed: Seq<i64>) -> Seq<i64> {
    crate::sorting::filter_seq(team_ids, |id: i64| !claimed.contains(id))
}

fn contains_i64(v: &[i64], x: i64) -> (r: bool)
    ensures
        r == v@.contains(x),
{
    let mut i: usize = 0;
    while i < v.len()
        invariant
            i <= v.len(),
            forall|j: int| 0 <= j < i ==> v@[j] != x,
        decreases v.len() - i,
    {
        if v[i] == x {
            return true;
        }
        i = i + 1;
    }
    false
}

/// How many of the catalog teams `team_ids` nobody has claimed.
pub fn count_unclaimed(team_ids: &[i64], claimed: &[i64]) -> (r: usize)
    ensures
        r == unclaimed_ids(team_ids@, claimed@).len(),
{
    let ghost p = |id: i64| !claimed@.contains(id);
    let mut n: usize = 0;
    let mut i: usize = 0;
    while i < team_ids.len()
        invariant
            i <= team_ids.len(),
            p == (|id: i64| !claimed@.contains(id)),
            n == crate::sorting::filter_seq(team_ids@.take(i as int), p).len(),
            n <= i,
        decreases team_ids.len() - i,
    {
        let ghost after = team_ids@.take(i + 1);
        assert(after.drop_last() =~= team_ids@.take(i as int));
        assert(after.last() == team_ids@[i as int]);
        if !contains_i64(claimed, team_ids[i]) {
            n = n + 1;
        }
        i = i + 1;
    }
    assert(team_ids@.take(team_ids.len() as int) =~= team_ids@);
    n
}

// ---------------------------------------------------------------- pick counter
/// Why a pick cannot be counted: every pick of the draft is made.
pub fn advance_refusal(current_pick: i64, total_picks: i64) -> (r: Option<String>)
    ensures
        r is Some <==> current_pick >= total_picks,
        r matches Some(m) ==> m@ == "The draft is already finished."@,
{
    if current_pick >= total_picks {
        Some(String::from_str("The draft is already finished."))
    } else {
        None
    }
}

/// The turn change once `current_pick` picks are made of `total_picks`: the
/// draft completes at the last pick, else `next_picker` is on the clock for
/// the next pick.
pub fn turn_after_advance(current_pick: i64, total_picks: i64, next_picker: Option<u64>) -> (r: TurnChange)
    ensures
        r.completed == (current_pick >= total_picks),
        r.total_picks == total_picks,
        r.completed ==> r.next_picker is None && r.pick_number == total_picks,
        !r.completed ==> r.next_picker == next_picker && r.pick_number == current_pick + 1,
        r.pick_number <= r.total_picks,
{
    if current_pick >= total_picks {
        TurnChange { completed: true, next_picker: None, pick_number: total_picks, total_picks }
    } else {
        TurnChange { completed: false, next_picker, pick_number: current_pick + 1, total_picks }
    }
}

/// A draft as shown: whoever is on the clock only while it is active.
pub fn draft_view(
    status: DraftSessionStatus,
    rounds: i64,
    current_pick: i64,
    total_picks: i64,
    participants: Vec<DraftParticipant>,
    current_picker: Option<u64>,
) -> (r: DraftView)
    ensures
        r.status == status,
        r.rounds == rounds,
        r.current_pick == current_pick,
        r.total_picks == total_picks,
        r.participants@ == participants@,
        r.current_picker == if status == DraftSessionStatus::Active {
            current_picker
        } else {
            None
        },
{
    let current_picker = if status == DraftSessionStatus::Active {
        current_picker
    } else {
        None
    };
    DraftView { status, rounds, current_pick, total_picks, participants, current_picker }
}

/// The status lines of a draft: status, rounds, progress, order, and who is
/// on the clock while it is active.
pub open spec fn view_text(v: DraftView) -> Seq<char> {
    let progress = if v.current_pick < v.total_picks {
        v.current_pick
    } else {
        v.total_picks
    };
    "**Status:** "@ + (if v.status == DraftSessionStatus::Active {
        "Active"@
    } else {
        "Complete"@
    }) + "\n**Rounds:** "@ + decimal_int(v.rounds as int) + "\n**Progress:** "@ + decimal_int(
        progress as int,
    ) + " / "@ + decimal_int(v.total_picks as int) + " picks\n**Pick order:** "@ + join_seq(
        participant_mentions(v.participants@),
        ", "@,
    ) + match v.current_picker {
        Some(id) => if v.status == DraftSessionStatus::Active {
            "\n**On the clock:** "@ + mention(id)
        } else {
            Seq::empty()
        },
        None => Seq::empty(),
    }
}

/// Describes a draft: status, rounds, progress, order and who is on the clock.
pub fn draft_view_message(view: &DraftView) -> (r: String)
    ensures
        r@ == view_text(*view),
{
    let mut m = String::from_str("**Status:** ");
    if view.status == DraftSessionStatus::Active {
        m.append("Active");
    } else {
        m.append("Complete");
    }
    m.append("\n**Rounds:** ");
    m.append(decimal_i64(view.rounds).as_str());
    m.append("\n**Progress:** ");
    let progress = if view.current_pick < view.total_picks {
        view.current_pick
    } else {
        view.total_picks
    };
    m.append(decimal_i64(progress).as_str());
    m.append(" / ");
    m.append(decimal_i64(view.total_picks).as_str());
    m.append(" picks\n**Pick order:** ");
    m.append(format_order(view.participants.as_slice()).as_str());
    let clock = match view.current_picker {
        Some(id) => view.status == DraftSessionStatus::Active,
        None => false,
    };
    if clock {
        m.append("\n**On the clock:** ");
        match view.current_picker {
            Some(id) => m.append(mention_text(id).as_str()),
            None => {},
        }
    } else {
        assert(m@ =~= m@ + Seq::<char>::empty());
    }
    m
}

/// Why a draft command that needs a running draft cannot go on, if it cannot:
/// no draft at all, or one that is no longer active.
pub fn draft_state_refusal(session: Option<DraftSessionStatus>) -> (r: Option<String>)
    ensures
        r is None <==> session == Some(DraftSessionStatus::Active),
        r matches Some(m) ==> m@ == (if session is None {
            "No draft is configured for this season."@
        } else {
            "The draft is not active."@
        }),
{
    match session {
        None => Some(String::from_str("No draft is configured for this season.")),
        Some(DraftSessionStatus::Complete) => Some(String::from_str("The draft is not active.")),
        Some(DraftSessionStatus::Active) => None,
    }
}

// ---------------------------------------------------------------- gate laws
/// A pick goes ahead only while drafting with an active session, only for the
/// user on the clock, and only when that user (or an admin for them) makes it.
pub proof fn law_only_the_user_on_the_clock_picks(
    phase: RosterPhase,
    session: Option<DraftSessionStatus>,
    order: Seq<u64>,
    pick_index: int,
    kind: DraftOrderKind,
    actor: u64,
    beneficiary: u64,
    admin_proxy: bool,
    u: u64,
)
    requires
        pick_gate_view(phase, session, order, pick_index, kind, actor, beneficiary, admin_proxy)
            == GateView::Proceed(u),
    ensures
        phase == RosterPhase::Drafting,
        session == Some(DraftSessionStatus::Active),
        picker_of(order, pick_index, kind) == Some(u),
        beneficiary == u,
        admin_proxy || actor == u,
{
}

/// Only the user who made the latest pick may undo it, and only while the
/// draft is running.
pub proof fn law_only_the_last_picker_undoes(
    phase: RosterPhase,
    session: Option<DraftSessionStatus>,
    latest_owner: Option<u64>,
    user_id: u64,
    u: u64,
)
    requires
        unpick_gate_view(phase, session, latest_owner, user_id) == GateView::Proceed(u),
    ensures
        phase == RosterPhase::Drafting,
        session == Some(DraftSessionStatus::Active),
        latest_owner == Some(user_id),
        u == user_id,
{
}

/// Undoing a pick puts its picker back on the clock: a pick made at
/// `pick_index` by the user on the clock, once undone, leaves `pick_index`
/// picks and that user on the clock again.
pub proof fn law_unpick_puts_the_picker_back_on_the_clock(
    order: Seq<u64>,
    pick_index: int,
    kind: DraftOrderKind,
    actor: u64,
    u: u64,
    admin_proxy: bool,
    team_name: Seq<char>,
)
    requires
        pick_gate_view(
            RosterPhase::Drafting,
            Some(DraftSessionStatus::Active),
            order,
            pick_index,
            kind,
            actor,
            u,
            admin_proxy,
        ) == GateView::Proceed(u),
    ensures
        unpicked_text(team_name, u, order, pick_index, kind) == "**"@ + team_name + "** unpicked by "@
            + mention(u) + ".\n\nOn the clock: "@ + mention(u) + "."@,
{
}

/// Ending a draft twice does nothing the second time: the roster is frozen,
/// and the answer says so.
pub proof fn law_freezing_twice_changes_nothing(session: Option<DraftSessionStatus>)
    ensures
        freeze_text(RosterPhase::Frozen, session) == "Roster is already **frozen**."@,
{
}

} // verus!
