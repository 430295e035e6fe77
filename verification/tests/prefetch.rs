use zapfast::model::Chat;
use zapfast::prefetch::{targets, HistoryPrefetch, State, HISTORY_GAP, MEDIA_GAP};

fn chat(id: &str, last_activity: i64, pinned: bool, pinned_at: i64, archived: bool) -> Chat {
    let mut chat = Chat::new(id.into(), id.into());
    chat.last_activity = last_activity;
    chat.pinned = pinned;
    chat.pinned_at = pinned_at;
    chat.archived = archived;
    chat
}

/// A reading of the monotonic clock, in milliseconds.
const NOW: u64 = 5_000_000;

const SECOND: u64 = 1_000;

#[test]
fn targets_put_focused_then_pinned_then_recent() {
    let chats = vec![
        chat("pin-low", 1, true, 1, false),
        chat("pin-high", 2, true, 9, false),
        chat("old", 10, false, 0, false),
        chat("focus", 50, false, 0, false),
        chat("archived", 90, false, 0, true),
        chat("r1", 40, false, 0, false),
    ];
    assert!(targets(&chats, HistoryPrefetch::Off, Some("focus")).is_empty());
    assert_eq!(
        targets(&chats, HistoryPrefetch::Focused, Some("focus")),
        vec!["focus".to_owned()]
    );
    assert_eq!(
        targets(&chats, HistoryPrefetch::RecentAndPinned, Some("focus")),
        vec![
            "focus".to_owned(),
            "pin-high".to_owned(),
            "pin-low".to_owned(),
            "r1".to_owned(),
            "old".to_owned(),
        ]
    );
}

#[test]
fn recent_mode_keeps_every_pin_and_ten_unpinned() {
    let mut chats = vec![chat("pin", 1, true, 1, false)];
    for index in 0..12 {
        chats.push(chat(&format!("r{index}"), 100 - index, false, 0, false));
    }
    let ids = targets(&chats, HistoryPrefetch::RecentAndPinned, None);
    assert_eq!(ids[0], "pin");
    assert_eq!(ids.len(), 11);
    assert!(!ids.iter().any(|id| id == "r10" || id == "r11"));
}

#[test]
fn history_waits_for_user_and_backs_off_on_failure() {
    let mut state = State::default();
    state.configure(HistoryPrefetch::Focused, Some("a".into()));
    let now = NOW;
    let targets = vec!["a".into(), "b".into()];
    assert!(state.next_history(now, true, &targets).is_none());
    assert_eq!(
        state.next_history(now, false, &targets).as_deref(),
        Some("a")
    );
    state.start_history("a".into());
    assert!(state.next_history(now, false, &targets).is_none());
    assert!(state.fail_history("a", now));
    assert!(state.next_history(now, false, &targets).is_none());
    assert_eq!(
        state
            .next_history(now + 30 * SECOND, false, &targets)
            .as_deref(),
        Some("a")
    );
    state.start_history("a".into());
    assert!(state.finish_history("a", false, now + 30 * SECOND));
    assert!(
        state
            .next_history(now + 31 * SECOND, false, &targets)
            .is_none()
    );
    assert_eq!(
        state
            .next_history(now + 51 * SECOND, false, &targets)
            .as_deref(),
        Some("b")
    );
}

#[test]
fn a_foreign_history_ack_does_not_advance_the_queue() {
    let mut state = State::default();
    state.configure(HistoryPrefetch::Focused, Some("a".into()));
    state.start_history("a".into());
    assert!(!state.finish_history("other", true, NOW));
    assert!(state.next_history(NOW, false, &["a".into()]).is_none());
}

#[test]
fn a_failed_prefetch_file_is_not_skipped_forever() {
    let mut state = State::default();
    state.configure(HistoryPrefetch::Focused, Some("a".into()));
    let now = NOW;
    state.start_media("a".into(), "m1".into());
    assert!(state.skip_media("a", "m1"));
    assert!(state.finish_media("a", "m1", now));
    assert!(!state.skip_media("a", "m1"));
    assert!(!state.next_media_ready(now));
    assert!(state.next_media_ready(now + MEDIA_GAP));
    assert!(!state.finish_media("a", "m1", now + MEDIA_GAP));
}

#[test]
fn backoff_doubles_and_stops_at_fifteen_minutes() {
    let mut state = State::default();
    state.configure(HistoryPrefetch::Focused, Some("a".into()));
    let targets = vec!["a".to_owned()];
    let mut now = NOW;
    for wait in [30, 60, 120, 240, 480, 900, 900] {
        state.start_history("a".into());
        assert!(state.fail_history("a", now));
        assert!(state
            .next_history(now + wait * SECOND - 1, false, &targets)
            .is_none());
        assert_eq!(
            state.next_history(now + wait * SECOND, false, &targets).as_deref(),
            Some("a")
        );
        now += wait * SECOND;
    }
}

#[test]
fn a_foreign_failure_changes_nothing() {
    let mut state = State::default();
    state.configure(HistoryPrefetch::Focused, Some("a".into()));
    state.start_history("a".into());
    assert!(!state.fail_history("b", NOW));
    assert!(state.finish_history("a", true, NOW));
    assert!(state.next_history(NOW + HISTORY_GAP - 1, false, &["a".into()]).is_none());
    assert_eq!(
        state.next_history(NOW + HISTORY_GAP, false, &["a".into()]).as_deref(),
        Some("a")
    );
}

#[test]
fn exhausted_chats_come_back_after_reconnect() {
    let mut state = State::default();
    state.configure(HistoryPrefetch::RecentAndPinned, None);
    let targets = vec!["a".to_owned(), "b".to_owned()];
    state.start_history("a".into());
    assert!(state.finish_history("a", false, NOW));
    state.start_history("b".into());
    assert!(state.finish_history("b", false, NOW));
    assert!(state.next_history(NOW + HISTORY_GAP, false, &targets).is_none());
    state.on_connected();
    assert_eq!(state.next_history(NOW, false, &targets).as_deref(), Some("a"));
}

#[test]
fn switching_off_drops_work_in_flight() {
    let mut state = State::default();
    state.configure(HistoryPrefetch::Focused, Some("a".into()));
    state.start_history("a".into());
    state.start_media("a".into(), "m1".into());
    state.configure(HistoryPrefetch::Off, None);
    assert!(!state.skip_media("a", "m1"));
    assert!(!state.finish_history("a", true, NOW));
    assert!(!state.next_media_ready(NOW));
    assert!(state.next_history(NOW, false, &["a".into()]).is_none());
}

#[test]
fn reset_session_keeps_mode_and_focus() {
    let mut state = State::default();
    state.configure(HistoryPrefetch::Focused, Some("a".into()));
    state.start_history("a".into());
    assert!(state.fail_history("a", NOW));
    state.start_media("a".into(), "m1".into());
    state.reset_session();
    assert_eq!(state.mode, HistoryPrefetch::Focused);
    assert_eq!(state.focused.as_deref(), Some("a"));
    assert!(!state.skip_media("a", "m1"));
    assert!(state.next_media_ready(NOW));
    assert_eq!(state.next_history(NOW, false, &["a".into()]).as_deref(), Some("a"));
}

#[test]
fn pinned_chats_with_equal_stamps_keep_list_order() {
    let chats = vec![
        chat("x", 5, true, 7, false),
        chat("y", 9, true, 7, true),
        chat("z", 1, true, 8, false),
    ];
    assert_eq!(
        targets(&chats, HistoryPrefetch::RecentAndPinned, Some("missing")),
        vec!["z".to_owned(), "x".to_owned(), "y".to_owned()]
    );
}

#[test]
fn a_focused_chat_outside_the_list_is_only_visited_in_focused_mode() {
    let chats = vec![chat("a", 1, false, 0, false)];
    assert_eq!(
        targets(&chats, HistoryPrefetch::Focused, Some("gone")),
        vec!["gone".to_owned()]
    );
    assert_eq!(
        targets(&chats, HistoryPrefetch::RecentAndPinned, Some("gone")),
        vec!["a".to_owned()]
    );
    assert!(targets(&chats, HistoryPrefetch::Focused, None).is_empty());
}

#[test]
fn duplicate_ids_are_visited_once() {
    let chats = vec![
        chat("a", 1, true, 3, false),
        chat("a", 9, false, 0, false),
        chat("b", 5, false, 0, false),
    ];
    assert_eq!(
        targets(&chats, HistoryPrefetch::RecentAndPinned, Some("a")),
        vec!["a".to_owned(), "b".to_owned()]
    );
}
