use pomme::keys::{
    mouse_to_input, on_frame, on_key, on_resumed, scroll_target, FrameAction, GameFlags, Key, KeyAction, Phase, ScrollTarget,
    UpdateResult,
};

fn survival() -> GameFlags {
    GameFlags {
        chat_open: false,
        inventory_open: false,
        creative_inventory_open: false,
        screen_open: false,
        paused: false,
        dead: false,
        death_confirm: false,
        show_debug: false,
        show_chunk_borders: false,
        advanced_item_tooltips: false,
        game_mode: 0,
    }
}

fn press(flags: GameFlags, key: Key) -> pomme::keys::KeyOutcome {
    on_key(Phase::InGame, flags, key, true, false, false, false)
}

#[test]
fn escape_while_connecting_returns_to_the_menu() {
    let r = on_key(Phase::Connecting, survival(), Key::Escape, true, false, false, false);
    assert_eq!(r.phase, Phase::InMenu);
    assert_eq!(r.action, KeyAction::LeaveToMenu);
    let released = on_key(Phase::Connecting, survival(), Key::Escape, false, false, false, false);
    assert_eq!(released.phase, Phase::Connecting);
    assert_eq!(released.action, KeyAction::Nothing);
    let other = on_key(Phase::Connecting, survival(), Key::T, true, false, false, false);
    assert_eq!(other.phase, Phase::Connecting);
}

#[test]
fn the_menu_takes_every_key() {
    let r = on_key(Phase::InMenu, survival(), Key::T, true, false, false, false);
    assert_eq!(r.phase, Phase::InMenu);
    assert_eq!(r.action, KeyAction::MenuKey);
    assert!(!r.game_input);
    let setup = on_key(Phase::Setup, survival(), Key::F11, true, false, false, false);
    assert_eq!(setup.action, KeyAction::Nothing);
    assert!(!setup.cycle_display);
}

#[test]
fn f11_cycles_the_display_once_a_window_exists() {
    assert!(on_key(Phase::InMenu, survival(), Key::F11, true, false, false, false).cycle_display);
    assert!(on_key(Phase::InGame, survival(), Key::F11, true, true, false, false).cycle_display);
    assert!(!on_key(Phase::InGame, survival(), Key::F11, false, false, false, false).cycle_display);
}

#[test]
fn escape_toggles_pause_in_game() {
    let paused = press(survival(), Key::Escape);
    assert!(paused.flags.paused);
    assert_eq!(paused.action, KeyAction::UpdateCursor);
    assert!(!paused.game_input);
    let resumed = press(paused.flags, Key::Escape);
    assert!(!resumed.flags.paused);
    assert!(resumed.game_input);
}

#[test]
fn escape_closes_the_inventory_before_pausing() {
    let open = press(survival(), Key::E);
    assert!(open.flags.inventory_open);
    let closed = press(open.flags, Key::Escape);
    assert!(!closed.flags.inventory_open);
    assert!(!closed.flags.paused);
}

#[test]
fn e_opens_the_creative_inventory_in_creative() {
    let creative = GameFlags { game_mode: 1, ..survival() };
    let r = press(creative, Key::E);
    assert!(r.flags.creative_inventory_open);
    assert!(!r.flags.inventory_open);
    let back = press(r.flags, Key::E);
    assert!(!back.flags.creative_inventory_open);
    let typed = press(r.flags, Key::Other);
    assert_eq!(typed.action, KeyAction::MenuKey);
    let spectator = GameFlags { game_mode: 3, ..survival() };
    assert_eq!(press(spectator, Key::E).flags, spectator);
}

#[test]
fn chat_opens_and_takes_keys() {
    let r = press(survival(), Key::T);
    assert!(r.flags.chat_open);
    assert_eq!(r.action, KeyAction::OpenChat);
    assert!(!r.game_input);
    let slash = press(survival(), Key::Slash);
    assert_eq!(slash.action, KeyAction::OpenChatWithSlash);
    let typed = press(r.flags, Key::E);
    assert_eq!(typed.action, KeyAction::MenuKey);
    assert!(typed.flags.chat_open);
    let closed = press(r.flags, Key::Escape);
    assert!(!closed.flags.chat_open);
    assert_eq!(closed.action, KeyAction::CloseChat);
    let paused = GameFlags { paused: true, ..survival() };
    assert!(!press(paused, Key::T).flags.chat_open);
}

#[test]
fn death_confirmation_respawns_after_a_second() {
    let dying = GameFlags { dead: true, death_confirm: true, ..survival() };
    let early = press(dying, Key::Escape);
    assert_eq!(early.action, KeyAction::Nothing);
    assert!(early.flags.death_confirm);
    let r = on_key(Phase::InGame, dying, Key::Escape, true, false, false, true);
    assert_eq!(r.action, KeyAction::Respawn);
    assert!(!r.flags.death_confirm);
}

#[test]
fn debug_toggles() {
    assert!(press(survival(), Key::F3).flags.show_debug);
    let borders = on_key(Phase::InGame, survival(), Key::G, true, false, true, false);
    assert!(borders.flags.show_chunk_borders);
    assert!(!press(survival(), Key::G).flags.show_chunk_borders);
    let chat = GameFlags { chat_open: true, ..survival() };
    let tips = on_key(Phase::InGame, chat, Key::H, true, false, true, false);
    assert!(tips.flags.advanced_item_tooltips);
    assert_eq!(press(survival(), Key::F5).action, KeyAction::CycleCamera);
}

#[test]
fn repeats_change_nothing_but_reach_the_game() {
    let r = on_key(Phase::InGame, survival(), Key::Escape, true, true, false, false);
    assert_eq!(r.flags, survival());
    assert_eq!(r.action, KeyAction::Nothing);
    assert!(r.game_input);
    let none = press(survival(), Key::Unidentified);
    assert_eq!(none.action, KeyAction::Nothing);
}

#[test]
fn wheel_and_buttons_are_routed() {
    assert_eq!(scroll_target(Phase::InMenu, survival()), ScrollTarget::Menu);
    assert_eq!(scroll_target(Phase::InGame, survival()), ScrollTarget::Game);
    let creative = GameFlags { creative_inventory_open: true, ..survival() };
    assert_eq!(scroll_target(Phase::InGame, creative), ScrollTarget::Menu);
    let inventory = GameFlags { inventory_open: true, ..survival() };
    assert_eq!(scroll_target(Phase::InGame, inventory), ScrollTarget::Nowhere);
    assert!(mouse_to_input(Phase::Connecting, survival(), false));
    assert!(!mouse_to_input(Phase::InGame, survival(), false));
    assert!(mouse_to_input(Phase::InGame, survival(), true));
    assert!(mouse_to_input(Phase::InGame, inventory, false));
}

#[test]
fn frames_move_between_phases() {
    assert_eq!(on_frame(Phase::InMenu, UpdateResult::Connect), (Phase::Connecting, FrameAction::StartConnection));
    assert_eq!(on_frame(Phase::InMenu, UpdateResult::Quit), (Phase::InMenu, FrameAction::Exit));
    assert_eq!(on_frame(Phase::Connecting, UpdateResult::JoinGame), (Phase::InGame, FrameAction::EnterGame));
    assert_eq!(
        on_frame(Phase::Connecting, UpdateResult::ManualDisconnect),
        (Phase::InMenu, FrameAction::LeaveToMenu { show_reason: false, new_panorama: false })
    );
    assert_eq!(
        on_frame(Phase::InGame, UpdateResult::Disconnected),
        (Phase::InMenu, FrameAction::LeaveToMenu { show_reason: true, new_panorama: true })
    );
    assert_eq!(on_frame(Phase::InGame, UpdateResult::Stay), (Phase::InGame, FrameAction::Nothing));
}

#[test]
fn resuming_leaves_setup() {
    let menu = on_resumed(Phase::Setup, true, false, true);
    assert_eq!(menu.phase, Phase::InMenu);
    assert!(menu.show && menu.load_skin && !menu.connect && !menu.exit);
    let quick = on_resumed(Phase::Setup, true, true, false);
    assert_eq!(quick.phase, Phase::Connecting);
    assert!(quick.connect && !quick.load_skin);
    let failed = on_resumed(Phase::Setup, false, true, true);
    assert_eq!(failed.phase, Phase::Setup);
    assert!(failed.exit && !failed.show && !failed.connect);
    let later = on_resumed(Phase::InGame, true, true, true);
    assert_eq!(later.phase, Phase::InGame);
    assert!(!later.exit && !later.show && !later.connect && !later.load_skin);
}
