use pomme::chat::{normalize_chat_message, ChatState, Suggestions, MAX_MESSAGE_LEN};

#[test]
fn normalize_collapses_and_trims() {
    assert_eq!(normalize_chat_message("  hello   world  "), "hello world");
    assert_eq!(normalize_chat_message("/say   hi   there"), "/say hi there");
    assert_eq!(normalize_chat_message("   "), "");
}

#[test]
fn normalize_clamps_length() {
    let long = "a".repeat(300);
    assert_eq!(normalize_chat_message(&long).chars().count(), MAX_MESSAGE_LEN);
}

#[test]
fn normalize_handles_unicode_space_and_tabs() {
    assert_eq!(normalize_chat_message("\ta\u{3000}b\n\nc\u{a0}"), "a b c");
    assert_eq!(normalize_chat_message(""), "");
    assert_eq!(normalize_chat_message("héllo  wörld"), "héllo wörld");
}

#[test]
fn normalize_cuts_by_characters_not_bytes() {
    let long = "é".repeat(300);
    let out = normalize_chat_message(&long);
    assert_eq!(out.chars().count(), 256);
    assert!(out.chars().all(|c| c == 'é'));
}

#[test]
fn normalize_is_idempotent_on_examples() {
    for s in ["  a  b ", "x", "  ", "/cmd   arg"] {
        let once = normalize_chat_message(s);
        assert_eq!(normalize_chat_message(&once), once);
    }
}

type Completer = fn(&str) -> Suggestions;

fn fixed(cmd: &str) -> Suggestions {
    let last = cmd.rsplit(' ').next().unwrap_or("");
    Suggestions {
        partial_len: last.len(),
        options: vec!["give".to_string(), "gamemode".to_string(), "gamerule".to_string()],
    }
}

#[test]
fn log_keeps_the_last_hundred() {
    let mut chat: ChatState<u32> = ChatState::new();
    for i in 0..150u32 {
        chat.push_message(i);
    }
    let log = chat.messages();
    assert_eq!(log.len(), 100);
    assert_eq!(log[0], 50);
    assert_eq!(log[99], 149);
}

#[test]
fn typing_and_enter_sends_normalized() {
    let mut chat: ChatState<u32> = ChatState::new();
    assert!(!chat.is_open());
    let none: Option<&Completer> = None;
    assert_eq!(chat.handle_key_input(&['x'], false, true, false, false, none), None);
    chat.open();
    assert!(chat.is_open());
    assert!(chat.take_cursor_reset());
    assert!(!chat.take_cursor_reset());
    let r = chat.handle_key_input(&[' ', 'h', 'i', ' ', ' ', 'y', 'o', 'u', '!'], true, false, false, false, none);
    assert_eq!(r, None);
    assert_eq!(chat.input(), " hi  you");
    let r = chat.handle_key_input(&[], false, true, false, false, none);
    assert_eq!(r, Some("hi you".to_string()));
    assert!(!chat.is_open());
    assert_eq!(chat.input(), "");
}

#[test]
fn enter_on_blank_input_sends_nothing() {
    let mut chat: ChatState<u32> = ChatState::new();
    let none: Option<&Completer> = None;
    chat.open();
    assert_eq!(chat.handle_key_input(&[' ', ' '], false, true, false, false, none), None);
    assert!(!chat.is_open());
}

#[test]
fn tab_applies_and_cycles_completions() {
    let mut chat: ChatState<u32> = ChatState::new();
    let tree: Completer = fixed;
    chat.open_with_slash();
    assert_eq!(chat.input(), "/");
    chat.handle_key_input(&['g'], false, false, false, false, Some(&tree));
    assert_eq!(chat.suggestions().len(), 3);
    assert_eq!(chat.suggest_anchor(), "/");
    assert_eq!(chat.suggest_index(), 0);
    chat.handle_key_input(&[], false, false, true, false, Some(&tree));
    assert_eq!(chat.input(), "/give");
    chat.handle_key_input(&[], false, false, true, false, Some(&tree));
    assert_eq!(chat.input(), "/gamemode");
    chat.handle_key_input(&[], false, false, true, true, Some(&tree));
    assert_eq!(chat.input(), "/give");
    chat.handle_key_input(&[], false, false, true, true, Some(&tree));
    assert_eq!(chat.input(), "/gamerule");
}

#[test]
fn plain_text_has_no_suggestions() {
    let mut chat: ChatState<u32> = ChatState::new();
    let tree: Completer = fixed;
    chat.open();
    chat.handle_key_input(&['h', 'i'], false, false, false, false, Some(&tree));
    assert_eq!(chat.suggestions().len(), 0);
}

#[test]
fn completer_cut_off_a_character_gives_nothing() {
    let bad = |_cmd: &str| Suggestions { partial_len: 1, options: vec!["x".to_string()] };
    let mut chat: ChatState<u32> = ChatState::new();
    chat.open_with_slash();
    chat.handle_key_input(&['é'], false, false, false, false, Some(&bad));
    assert_eq!(chat.suggestions().len(), 0);
    assert_eq!(chat.suggest_anchor(), "");
}

#[test]
fn apply_suggestions_anchors_before_the_partial_word() {
    let mut chat: ChatState<u32> = ChatState::new();
    chat.open_with_slash();
    let none: Option<&Completer> = None;
    chat.handle_key_input(&['t', 'p', ' ', 'S', 't'], false, false, false, false, none);
    chat.apply_suggestions(Suggestions { partial_len: 2, options: vec!["Steve".to_string()] });
    assert_eq!(chat.suggest_anchor(), "/tp ");
    assert_eq!(chat.suggestions(), &vec!["Steve".to_string()]);
}

#[test]
fn close_keeps_input() {
    let mut chat: ChatState<u32> = ChatState::new();
    let none: Option<&Completer> = None;
    chat.open();
    chat.handle_key_input(&['a'], false, false, false, false, none);
    chat.close();
    assert!(!chat.is_open());
    assert_eq!(chat.input(), "a");
}

#[test]
fn cut_can_end_on_a_space() {
    let s = format!("{} b", "a".repeat(255));
    let out = normalize_chat_message(&s);
    assert_eq!(out.chars().count(), 256);
    assert!(out.ends_with(' '));
    assert!(!out.contains("  "));
}

use pomme::chat::suggestion_window;

#[test]
fn popup_scrolls_to_the_highlight() {
    assert_eq!(suggestion_window(3, 0), (0, 3));
    assert_eq!(suggestion_window(3, 2), (0, 3));
    assert_eq!(suggestion_window(25, 0), (0, 10));
    assert_eq!(suggestion_window(25, 9), (0, 10));
    assert_eq!(suggestion_window(25, 10), (1, 10));
    assert_eq!(suggestion_window(25, 24), (15, 10));
}

#[test]
fn completer_is_asked_about_the_text_after_the_slash() {
    let asked = std::cell::RefCell::new(Vec::new());
    let spy = |cmd: &str| {
        asked.borrow_mut().push(cmd.to_string());
        Suggestions { partial_len: 0, options: Vec::new() }
    };
    let mut chat: ChatState<u32> = ChatState::new();
    chat.open_with_slash();
    chat.handle_key_input(&['t', 'p'], false, false, false, false, Some(&spy));
    assert_eq!(asked.borrow().as_slice(), &["tp".to_string()]);
}
