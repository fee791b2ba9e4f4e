use league_bot::draft::{advance_refusal, draft_state_refusal, draft_view, draft_view_message, turn_after_advance};
use league_bot::draft::{
    distinct_players, draft_started_message, format_order, format_turn_message, freeze_decision,
    next_picker, pick_gate, pick_made_message, shuffle_order, start_refusal, status_message,
    unpick_gate, unpicked_message, validate_start, count_unclaimed, draft_status, DraftGate,
    DraftOrderKind, DraftParticipant, DraftSessionStatus, TurnChange,
};
use league_bot::season::RosterPhase;

#[test]
fn start_rejects_single_participant() {
    assert!(validate_start(&[1], 1).is_err());
}

#[test]
fn snake_round_zero_goes_forward() {
    let order = [10, 20, 30];
    assert_eq!(next_picker(&order, 0, DraftOrderKind::Snake), Some(10));
    assert_eq!(next_picker(&order, 1, DraftOrderKind::Snake), Some(20));
    assert_eq!(next_picker(&order, 2, DraftOrderKind::Snake), Some(30));
}

#[test]
fn snake_round_one_reverses() {
    let order = [10, 20, 30];
    assert_eq!(next_picker(&order, 3, DraftOrderKind::Snake), Some(30));
    assert_eq!(next_picker(&order, 4, DraftOrderKind::Snake), Some(20));
    assert_eq!(next_picker(&order, 5, DraftOrderKind::Snake), Some(10));
}

#[test]
fn snake_round_two_forward_again() {
    let order = [10, 20, 30];
    assert_eq!(next_picker(&order, 6, DraftOrderKind::Snake), Some(10));
}

#[test]
fn linear_never_reverses() {
    let order = [10, 20, 30];
    assert_eq!(next_picker(&order, 3, DraftOrderKind::Linear), Some(10));
    assert_eq!(next_picker(&order, 4, DraftOrderKind::Linear), Some(20));
}

#[test]
fn empty_order_returns_none() {
    assert_eq!(next_picker(&[], 0, DraftOrderKind::Snake), None);
}

#[test]
fn validate_start_reports_each_error() {
    assert_eq!(validate_start(&[1, 2], 0), Err("Draft needs at least one round.".to_string()));
    assert_eq!(validate_start(&[1], 2), Err("Draft needs at least 2 participants.".to_string()));
    assert_eq!(
        validate_start(&[1, 2, 1], 2),
        Err("Each participant can only appear once.".to_string())
    );
    assert_eq!(validate_start(&[1, 2, 3], 2), Ok(()));
}

#[test]
fn each_snake_round_gives_every_participant_one_pick() {
    let order = [7, 8, 9, 10];
    for round in 0..5 {
        let mut seen: Vec<u64> = (0..4)
            .map(|p| next_picker(&order, round * 4 + p, DraftOrderKind::Snake).unwrap())
            .collect();
        seen.sort_unstable();
        assert_eq!(seen, vec![7, 8, 9, 10]);
    }
    // The last pick of a round and the first of the next go to the same player.
    assert_eq!(
        next_picker(&order, 3, DraftOrderKind::Snake),
        next_picker(&order, 4, DraftOrderKind::Snake)
    );
}

#[test]
fn order_kind_and_status_round_trip() {
    for kind in [DraftOrderKind::Snake, DraftOrderKind::Linear] {
        assert_eq!(DraftOrderKind::parse(kind.as_str()), Some(kind));
    }
    for status in [DraftSessionStatus::Active, DraftSessionStatus::Complete] {
        assert_eq!(DraftSessionStatus::parse(status.as_str()), Some(status));
    }
    assert_eq!(DraftOrderKind::parse("spiral"), None);
    assert_eq!(DraftSessionStatus::parse("paused"), None);
    assert_eq!(DraftOrderKind::Snake.as_str(), "snake");
    assert_eq!(DraftSessionStatus::Complete.as_str(), "complete");
}

#[test]
fn format_order_mentions_participants_in_order() {
    let ps = [
        DraftParticipant { season_id: 1, position: 0, user_id: 5 },
        DraftParticipant { season_id: 1, position: 1, user_id: 42 },
    ];
    assert_eq!(format_order(&ps), "<@5>, <@42>");
    assert_eq!(format_order(&[]), "");
}

#[test]
fn turn_messages() {
    let done = TurnChange { completed: true, next_picker: None, pick_number: 4, total_picks: 4 };
    assert_eq!(format_turn_message(&done), "Draft complete — all picks are in. Rosters are locked.");
    let next = TurnChange { completed: false, next_picker: Some(9), pick_number: 2, total_picks: 6 };
    assert_eq!(
        format_turn_message(&next),
        "Pick **2** of **6** — <@9> is on the clock. Use `/draft pick`."
    );
    let unknown = TurnChange { completed: false, next_picker: None, pick_number: 1, total_picks: 6 };
    assert_eq!(
        format_turn_message(&unknown),
        "Pick **1** of **6** — Unknown is on the clock. Use `/draft pick`."
    );
}

#[test]
fn distinct_players_sorts_and_dedups() {
    assert_eq!(distinct_players(vec![30, 10, 30, 20, 10]), vec![10, 20, 30]);
    assert_eq!(distinct_players(vec![]), Vec::<u64>::new());
}

#[test]
fn start_refusals() {
    assert_eq!(
        start_refusal(1, RosterPhase::Open, false, false).as_deref(),
        Some("Need at least two distinct players to start a draft.")
    );
    assert_eq!(
        start_refusal(3, RosterPhase::Frozen, false, false).as_deref(),
        Some("Cannot start a draft while roster phase is **frozen**.")
    );
    assert_eq!(
        start_refusal(3, RosterPhase::Open, true, false).as_deref(),
        Some("Clear all team claims before starting a draft (season must have no registrations).")
    );
    assert_eq!(
        start_refusal(3, RosterPhase::Open, false, true).as_deref(),
        Some("A draft is already active for this season. Use `/draft status`.")
    );
    assert_eq!(start_refusal(3, RosterPhase::Open, false, false), None);
}

#[test]
fn shuffle_keeps_every_player() {
    let order: Vec<u64> = (1..=50).collect();
    let mut shuffled = shuffle_order(order.clone());
    assert_eq!(shuffled.len(), 50);
    shuffled.sort_unstable();
    assert_eq!(shuffled, order);
}

#[test]
fn started_message_lists_order_and_first_pick() {
    assert_eq!(
        draft_started_message(&[3, 1]),
        "Snake draft started (order randomized).\n\n1. <@3>\n2. <@1>\n\nOn the clock: <@3> — use `/draft pick`."
    );
}

#[test]
fn status_messages() {
    assert_eq!(
        status_message(&None),
        "No draft for this season. An admin can `/draft start` with a list of players."
    );
    let s = draft_status(vec![4, 5], DraftOrderKind::Snake, 2, DraftSessionStatus::Active, RosterPhase::Drafting, 7);
    assert_eq!(s.on_the_clock, Some(5));
    assert_eq!(
        status_message(&Some(s)),
        "**Draft status** (`snake`, phase `drafting`)\nPick #3 · On the clock: <@5> · 7 team(s) left\n\nOrder:\n1. <@4>\n2. <@5>"
    );
    let done = draft_status(vec![4, 5], DraftOrderKind::Snake, 2, DraftSessionStatus::Complete, RosterPhase::Frozen, 0);
    assert_eq!(done.on_the_clock, None);
    assert!(status_message(&Some(done)).contains("On the clock: —"));
}

fn reply(g: DraftGate) -> String {
    match g {
        DraftGate::Reply(m) => m,
        DraftGate::Fail(m) => format!("FAIL {m}"),
        DraftGate::Proceed(u) => format!("GO {u}"),
    }
}

#[test]
fn pick_gate_decisions() {
    let order = [10, 20, 30];
    let snake = DraftOrderKind::Snake;
    let active = Some(DraftSessionStatus::Active);
    assert_eq!(
        reply(pick_gate(RosterPhase::Open, active, &order, 0, snake, 10, 10, false)),
        "No active draft. An admin can `/draft start` when ready."
    );
    assert_eq!(
        reply(pick_gate(RosterPhase::Frozen, active, &order, 0, snake, 10, 10, false)),
        "The roster is frozen after the draft. Picks are locked."
    );
    assert_eq!(
        reply(pick_gate(RosterPhase::Drafting, None, &order, 0, snake, 10, 10, false)),
        "FAIL Draft session missing while roster phase is drafting."
    );
    assert_eq!(
        reply(pick_gate(RosterPhase::Drafting, Some(DraftSessionStatus::Complete), &order, 0, snake, 10, 10, false)),
        "This draft is already complete."
    );
    assert_eq!(
        reply(pick_gate(RosterPhase::Drafting, active, &[], 0, snake, 10, 10, false)),
        "Draft order is empty."
    );
    assert_eq!(
        reply(pick_gate(RosterPhase::Drafting, active, &order, 3, snake, 10, 10, false)),
        "It is <@30>'s turn to pick (not <@10>)."
    );
    assert_eq!(
        reply(pick_gate(RosterPhase::Drafting, active, &order, 3, snake, 10, 30, false)),
        "It is <@30>'s turn to pick."
    );
    assert_eq!(reply(pick_gate(RosterPhase::Drafting, active, &order, 3, snake, 10, 30, true)), "GO 30");
    assert_eq!(reply(pick_gate(RosterPhase::Drafting, active, &order, 3, snake, 30, 30, false)), "GO 30");
}

#[test]
fn pick_and_unpick_messages() {
    let order = [10, 20, 30];
    assert_eq!(
        pick_made_message("Brazil", 10, 5, &order, 0, DraftOrderKind::Snake),
        "**Brazil** drafted by <@10>.\n\nOn the clock: <@20> · 5 team(s) left."
    );
    assert_eq!(
        pick_made_message("Brazil", 10, 0, &order, 0, DraftOrderKind::Snake),
        "**Brazil** drafted by <@10>.\n\nAll teams are taken — draft complete. Roster is **frozen**."
    );
    assert_eq!(
        unpicked_message("Japan", 20, &order, 1, DraftOrderKind::Snake),
        "**Japan** unpicked by <@20>.\n\nOn the clock: <@20>."
    );
    assert_eq!(
        unpicked_message("Japan", 20, &[], 1, DraftOrderKind::Snake),
        "**Japan** unpicked by <@20>.\n\nOn the clock: <@20>."
    );
    let active = Some(DraftSessionStatus::Active);
    assert_eq!(reply(unpick_gate(RosterPhase::Drafting, active, None, 5)), "No picks to undo yet.");
    assert_eq!(
        reply(unpick_gate(RosterPhase::Drafting, active, Some(6), 5)),
        "Only the last picker (<@6>) can `/draft unpick`."
    );
    assert_eq!(reply(unpick_gate(RosterPhase::Drafting, active, Some(5), 5)), "GO 5");
    assert_eq!(
        reply(unpick_gate(RosterPhase::Open, active, Some(5), 5)),
        "No active draft. Use `/unclaim` while the roster is open."
    );
}

#[test]
fn freeze_decisions() {
    let f = freeze_decision(RosterPhase::Drafting, Some(DraftSessionStatus::Active));
    assert_eq!(f.message, "Draft ended. Roster is **frozen**.");
    assert!(f.complete_session && f.freeze_roster);
    let f = freeze_decision(RosterPhase::Drafting, Some(DraftSessionStatus::Complete));
    assert_eq!(f.message, "Roster is **frozen**.");
    assert!(!f.complete_session && f.freeze_roster);
    let f = freeze_decision(RosterPhase::Drafting, None);
    assert_eq!(f.message, "No draft session for this season.");
    assert!(!f.complete_session && !f.freeze_roster);
    let f = freeze_decision(RosterPhase::Frozen, None);
    assert_eq!(f.message, "Roster is already **frozen**.");
    let f = freeze_decision(RosterPhase::Open, None);
    assert_eq!(
        f.message,
        "No active draft. Start one with `/draft start`, or use `/draft end` only while drafting."
    );
}

#[test]
fn counts_unclaimed_teams() {
    assert_eq!(count_unclaimed(&[1, 2, 3, 4], &[2, 4, 9]), 2);
    assert_eq!(count_unclaimed(&[], &[1]), 0);
}

#[test]
fn advance_completes_after_total_picks() {
    // Two picks in a draft of two: the first leaves 20 on the clock, the second completes it.
    assert_eq!(advance_refusal(0, 2), None);
    let first = turn_after_advance(1, 2, Some(20));
    assert!(!first.completed);
    assert_eq!(first.next_picker, Some(20));
    assert_eq!(first.pick_number, 2);
    assert_eq!(advance_refusal(1, 2), None);
    let second = turn_after_advance(2, 2, None);
    assert!(second.completed);
    assert_eq!(second.pick_number, 2);
    assert_eq!(advance_refusal(2, 2).as_deref(), Some("The draft is already finished."));
}

#[test]
fn draft_view_lines() {
    let ps = vec![
        DraftParticipant { season_id: 1, position: 0, user_id: 10 },
        DraftParticipant { season_id: 1, position: 1, user_id: 20 },
    ];
    let view = draft_view(DraftSessionStatus::Active, 2, 1, 4, ps.clone(), Some(20));
    assert_eq!(
        draft_view_message(&view),
        "**Status:** Active\n**Rounds:** 2\n**Progress:** 1 / 4 picks\n**Pick order:** <@10>, <@20>\n**On the clock:** <@20>"
    );
    let done = draft_view(DraftSessionStatus::Complete, 2, 5, 4, ps, Some(20));
    assert_eq!(done.current_picker, None);
    assert_eq!(
        draft_view_message(&done),
        "**Status:** Complete\n**Rounds:** 2\n**Progress:** 4 / 4 picks\n**Pick order:** <@10>, <@20>"
    );
}

#[test]
fn draft_state_refusals() {
    assert_eq!(draft_state_refusal(None).as_deref(), Some("No draft is configured for this season."));
    assert_eq!(draft_state_refusal(Some(DraftSessionStatus::Complete)).as_deref(), Some("The draft is not active."));
    assert_eq!(draft_state_refusal(Some(DraftSessionStatus::Active)), None);
}

#[test]
fn last_pick_completes_the_draft_and_freezes_the_roster() {
    assert_eq!(
        league_bot::draft::after_pick(0),
        Some((DraftSessionStatus::Complete, RosterPhase::Frozen))
    );
    assert_eq!(league_bot::draft::after_pick(3), None);
}
