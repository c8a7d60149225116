use crdt_db::chat::{ChatAction, ChatHistory, ChatKey};

fn history(n: usize) -> ChatHistory {
    let mut h = ChatHistory::new();
    let lines: Vec<String> = (0..n).map(|i| format!("m{}", i)).collect();
    assert_eq!(h.handle_key(ChatKey::Enter(lines)), ChatAction::ClearInput);
    h
}

#[test]
fn pane_shows_newest_at_bottom() {
    let mut h = history(5);
    assert_eq!(h.visible_lines(3), vec!["m2".to_string(), "m3".to_string(), "m4".to_string()]);
}

#[test]
fn short_history_is_padded_at_top() {
    let mut h = history(2);
    assert_eq!(h.visible_lines(4), vec!["".to_string(), "".to_string(), "m0".to_string(), "m1".to_string()]);
}

#[test]
fn scrolling_back_and_clamping() {
    let mut h = history(5);
    assert_eq!(h.handle_key(ChatKey::Up), ChatAction::Redraw);
    assert_eq!(h.scrollback(), 1);
    assert_eq!(h.visible_lines(3), vec!["m1".to_string(), "m2".to_string(), "m3".to_string()]);
    for _ in 0..10 {
        h.handle_key(ChatKey::Up);
    }
    assert_eq!(h.scrollback(), 5);
    assert_eq!(h.visible_lines(3), vec!["m0".to_string(), "m1".to_string(), "m2".to_string()]);
    assert_eq!(h.scrollback(), 2);
    h.handle_key(ChatKey::Down);
    assert_eq!(h.scrollback(), 1);
    h.handle_key(ChatKey::Down);
    h.handle_key(ChatKey::Down);
    assert_eq!(h.scrollback(), 0);
}

#[test]
fn other_key_returns_to_newest() {
    let mut h = history(5);
    h.handle_key(ChatKey::Up);
    assert_eq!(h.handle_key(ChatKey::Other), ChatAction::ForwardInput);
    assert_eq!(h.scrollback(), 0);
}

#[test]
fn esc_quits_and_keeps_history() {
    let mut h = history(2);
    assert_eq!(h.handle_key(ChatKey::Esc), ChatAction::Quit);
    assert_eq!(h.messages().len(), 2);
}

