//! What a key press does to the game client: which phase follows, which
//! in-game flags change, and what the window loop must then do.
use vstd::prelude::*;

verus! {

/// The client's phase, without what each phase holds.
#[derive(Clone, Copy, Debug, PartialEq, Eq, Structural)]
pub enum Phase {
    Setup,
    InMenu,
    Connecting,
    InGame,
}

/// The keys the client reacts to.
#[derive(Clone, Copy, Debug, PartialEq, Eq, Structural)]
pub enum Key {
    Escape,
    E,
    T,
    Slash,
    F3,
    G,
    H,
    F5,
    F11,
    /// Any other key with a code.
    Other,
    /// A key the platform gives no code for.
    Unidentified,
}

/// The in-game state that key presses read and change.
#[derive(Clone, Copy, Debug, PartialEq, Eq, Structural)]
pub struct GameFlags {
    pub chat_open: bool,
    pub inventory_open: bool,
    pub creative_inventory_open: bool,
    /// A screen other than the chat and the inventories is open.
    pub screen_open: bool,
    pub paused: bool,
    pub dead: bool,
    pub death_confirm: bool,
    pub show_debug: bool,
    pub show_chunk_borders: bool,
    pub advanced_item_tooltips: bool,
    /// 0 survival, 1 creative, 2 adventure, 3 spectator.
    pub game_mode: u8,
}

/// What the window loop does after a key press.
#[derive(Clone, Copy, Debug, PartialEq, Eq, Structural)]
pub enum KeyAction {
    Nothing,
    /// Hand the key to the menu's input.
    MenuKey,
    /// Leave a connection attempt: drop the chunk meshes, show the menu
    /// presence, release the cursor and start a new panorama.
    LeaveToMenu,
    /// Close the chat and grab the cursor again.
    CloseChat,
    /// Open the chat.
    OpenChat,
    /// Open the chat with `/` typed.
    OpenChatWithSlash,
    /// Grab or release the cursor as the new flags ask.
    UpdateCursor,
    /// Send a respawn request.
    Respawn,
    /// Switch to the next camera mode.
    CycleCamera,
}

/// What a key press gives.
#[derive(Clone, Copy, Debug, PartialEq, Eq, Structural)]
pub struct KeyOutcome {
    pub phase: Phase,
    pub flags: GameFlags,
    pub action: KeyAction,
    /// Switch to the next display mode (F11, whenever a window exists).
    pub cycle_display: bool,
    /// Hand the key to the in-game movement and action input as well.
    pub game_input: bool,
}

/// Some screen other than the chat is open.
pub open spec fn gui_open(f: GameFlags) -> bool {
    f.inventory_open || f.creative_inventory_open || f.screen_open
}

/// The in-game flags and action of a fresh press of a key with a code,
/// outside the always-handled F11.
pub open spec fn in_game_press(f: GameFlags, key: Key, f3_held: bool, death_confirm_ready: bool) -> (GameFlags, KeyAction) {
    if key == Key::H && f3_held {
        (GameFlags { advanced_item_tooltips: !f.advanced_item_tooltips, ..f }, KeyAction::Nothing)
    } else if f.chat_open {
        if key == Key::Escape {
            (GameFlags { chat_open: false, ..f }, KeyAction::CloseChat)
        } else if key == Key::F3 {
            (GameFlags { show_debug: !f.show_debug, ..f }, KeyAction::Nothing)
        } else {
            (f, KeyAction::MenuKey)
        }
    } else if f.creative_inventory_open {
        if key == Key::Escape || key == Key::E {
            (GameFlags { creative_inventory_open: false, ..f }, KeyAction::UpdateCursor)
        } else if key == Key::F3 {
            (GameFlags { show_debug: !f.show_debug, ..f }, KeyAction::Nothing)
        } else {
            (f, KeyAction::MenuKey)
        }
    } else if key == Key::Escape && f.death_confirm && death_confirm_ready {
        (GameFlags { death_confirm: false, ..f }, KeyAction::Respawn)
    } else if key == Key::Escape && !f.dead {
        if f.inventory_open {
            (GameFlags { inventory_open: false, ..f }, KeyAction::UpdateCursor)
        } else {
            (GameFlags { paused: !f.paused, ..f }, KeyAction::UpdateCursor)
        }
    } else if key == Key::E && !f.paused && !f.dead && f.game_mode != 3 {
        if f.game_mode == 1 {
            (GameFlags { creative_inventory_open: true, ..f }, KeyAction::UpdateCursor)
        } else {
            (GameFlags { inventory_open: !f.inventory_open, ..f }, KeyAction::UpdateCursor)
        }
    } else if key == Key::T && !f.paused && !gui_open(f) {
        (GameFlags { chat_open: true, ..f }, KeyAction::OpenChat)
    } else if key == Key::Slash && !f.paused && !gui_open(f) {
        (GameFlags { chat_open: true, ..f }, KeyAction::OpenChatWithSlash)
    } else if key == Key::F3 {
        (GameFlags { show_debug: !f.show_debug, ..f }, KeyAction::Nothing)
    } else if key == Key::G && f3_held {
        (GameFlags { show_chunk_borders: !f.show_chunk_borders, ..f }, KeyAction::Nothing)
    } else if key == Key::F5 {
        (f, KeyAction::CycleCamera)
    } else {
        (f, KeyAction::Nothing)
    }
}

/// What a key event does in each phase: F11 cycles the display mode once a
/// window exists; the menu takes every key; Escape while connecting goes
/// back to the menu; in game, a fresh press changes the flags, and the key
/// also drives the game's own input while nothing is paused or open.
pub open spec fn spec_on_key(
    phase: Phase,
    flags: GameFlags,
    key: Key,
    pressed: bool,
    repeat: bool,
    f3_held: bool,
    death_confirm_ready: bool,
) -> KeyOutcome {
    let cycle_display = phase != Phase::Setup && pressed && key == Key::F11;
    match phase {
        Phase::Setup => KeyOutcome { phase, flags, action: KeyAction::Nothing, cycle_display, game_input: false },
        Phase::InMenu => KeyOutcome { phase, flags, action: KeyAction::MenuKey, cycle_display, game_input: false },
        Phase::Connecting => if pressed && key == Key::Escape {
            KeyOutcome {
                phase: Phase::InMenu,
                flags,
                action: KeyAction::LeaveToMenu,
                cycle_display,
                game_input: false,
            }
        } else {
            KeyOutcome { phase, flags, action: KeyAction::Nothing, cycle_display, game_input: false }
        },
        Phase::InGame => {
            let (f2, action) = if pressed && !repeat && key != Key::Unidentified {
                in_game_press(flags, key, f3_held, death_confirm_ready)
            } else {
                (flags, KeyAction::Nothing)
            };
            KeyOutcome {
                phase,
                flags: f2,
                action,
                cycle_display,
                game_input: !f2.paused && !f2.chat_open && !gui_open(f2),
            }
        },
    }
}

fn in_game_flags(f: GameFlags, key: Key, f3_held: bool, death_confirm_ready: bool) -> (r: (GameFlags, KeyAction))
    ensures
        r == in_game_press(f, key, f3_held, death_confirm_ready),
{
    let gui = f.inventory_open || f.creative_inventory_open || f.screen_open;
    if key == Key::H && f3_held {
        (GameFlags { advanced_item_tooltips: !f.advanced_item_tooltips, ..f }, KeyAction::Nothing)
    } else if f.chat_open {
        if key == Key::Escape {
            (GameFlags { chat_open: false, ..f }, KeyAction::CloseChat)
        } else if key == Key::F3 {
            (GameFlags { show_debug: !f.show_debug, ..f }, KeyAction::Nothing)
        } else {
            (f, KeyAction::MenuKey)
        }
    } else if f.creative_inventory_open {
        if key == Key::Escape || key == Key::E {
            (GameFlags { creative_inventory_open: false, ..f }, KeyAction::UpdateCursor)
        } else if key == Key::F3 {
            (GameFlags { show_debug: !f.show_debug, ..f }, KeyAction::Nothing)
        } else {
            (f, KeyAction::MenuKey)
        }
    } else if key == Key::Escape && f.death_confirm && death_confirm_ready {
        (GameFlags { death_confirm: false, ..f }, KeyAction::Respawn)
    } else if key == Key::Escape && !f.dead {
        if f.inventory_open {
            (GameFlags { inventory_open: false, ..f }, KeyAction::UpdateCursor)
        } else {
            (GameFlags { paused: !f.paused, ..f }, KeyAction::UpdateCursor)
        }
    } else if key == Key::E && !f.paused && !f.dead && f.game_mode != 3 {
        if f.game_mode == 1 {
            (GameFlags { creative_inventory_open: true, ..f }, KeyAction::UpdateCursor)
        } else {
            (GameFlags { inventory_open: !f.inventory_open, ..f }, KeyAction::UpdateCursor)
        }
    } else if key == Key::T && !f.paused && !gui {
        (GameFlags { chat_open: true, ..f }, KeyAction::OpenChat)
    } else if key == Key::Slash && !f.paused && !gui {
        (GameFlags { chat_open: true, ..f }, KeyAction::OpenChatWithSlash)
    } else if key == Key::F3 {
        (GameFlags { show_debug: !f.show_debug, ..f }, KeyAction::Nothing)
    } else if key == Key::G && f3_held {
        (GameFlags { show_chunk_borders: !f.show_chunk_borders, ..f }, KeyAction::Nothing)
    } else if key == Key::F5 {
        (f, KeyAction::CycleCamera)
    } else {
        (f, KeyAction::Nothing)
    }
}

/// What a key event does: the next phase and in-game flags, the action for
/// the window loop, whether to cycle the display mode, and whether the key
/// also goes to the game's own input. `death_confirm_ready` says a second
/// has passed since the death screen asked for confirmation.
pub fn on_key(
    phase: Phase,
    flags: GameFlags,
    key: Key,
    pressed: bool,
    repeat: bool,
    f3_held: bool,
    death_confirm_ready: bool,
) -> (r: KeyOutcome)
    ensures
        r == spec_on_key(phase, flags, key, pressed, repeat, f3_held, death_confirm_ready),
{
    let cycle_display = phase != Phase::Setup && pressed && key == Key::F11;
    match phase {
        Phase::Setup => KeyOutcome { phase, flags, action: KeyAction::Nothing, cycle_display, game_input: false },
        Phase::InMenu => KeyOutcome { phase, flags, action: KeyAction::MenuKey, cycle_display, game_input: false },
        Phase::Connecting => {
            if pressed && key == Key::Escape {
                KeyOutcome {
                    phase: Phase::InMenu,
                    flags,
                    action: KeyAction::LeaveToMenu,
                    cycle_display,
                    game_input: false,
                }
            } else {
                KeyOutcome { phase, flags, action: KeyAction::Nothing, cycle_display, game_input: false }
            }
        },
        Phase::InGame => {
            let (f2, action) = if pressed && !repeat && key != Key::Unidentified {
                in_game_flags(flags, key, f3_held, death_confirm_ready)
            } else {
                (flags, KeyAction::Nothing)
            };
            let game_input = !f2.paused && !f2.chat_open && !(f2.inventory_open || f2.creative_inventory_open
                || f2.screen_open);
            KeyOutcome { phase, flags: f2, action, cycle_display, game_input }
        },
    }
}

/// Escape from a connection attempt always returns to the menu, and the
/// menu never hands keys to the game.
pub proof fn law_escape_leaves_connecting(flags: GameFlags, repeat: bool, f3_held: bool, ready: bool)
    ensures
        spec_on_key(Phase::Connecting, flags, Key::Escape, true, repeat, f3_held, ready).phase == Phase::InMenu,
        forall|k: Key, p: bool| !(#[trigger] spec_on_key(Phase::InMenu, flags, k, p, repeat, f3_held, ready)).game_input,
{
}

/// While the chat is open, no key but Escape (and F3+H) changes what is
/// open, and the game's own input gets nothing.
pub proof fn law_chat_holds_keys(flags: GameFlags, key: Key, repeat: bool, f3_held: bool, ready: bool)
    requires
        flags.chat_open,
        key != Key::Escape,
    ensures
        spec_on_key(Phase::InGame, flags, key, true, repeat, f3_held, ready).flags.chat_open,
        !spec_on_key(Phase::InGame, flags, key, true, repeat, f3_held, ready).game_input,
{
}

/// Where a turn of the mouse wheel goes.
#[derive(Clone, Copy, Debug, PartialEq, Eq, Structural)]
pub enum ScrollTarget {
    Menu,
    Game,
    Nowhere,
}

/// Where the wheel goes: to the menu in the menu and while connecting; in
/// game to the hotbar while no screen is open, else to the creative
/// inventory when that is the one open.
pub open spec fn spec_scroll_target(phase: Phase, f: GameFlags) -> ScrollTarget {
    match phase {
        Phase::InMenu | Phase::Connecting => ScrollTarget::Menu,
        Phase::InGame => if !gui_open(f) {
            ScrollTarget::Game
        } else if f.creative_inventory_open {
            ScrollTarget::Menu
        } else {
            ScrollTarget::Nowhere
        },
        Phase::Setup => ScrollTarget::Nowhere,
    }
}

/// Where a turn of the mouse wheel goes.
pub fn scroll_target(phase: Phase, f: GameFlags) -> (r: ScrollTarget)
    ensures
        r == spec_scroll_target(phase, f),
{
    match phase {
        Phase::InMenu | Phase::Connecting => ScrollTarget::Menu,
        Phase::InGame => {
            if !(f.inventory_open || f.creative_inventory_open || f.screen_open) {
                ScrollTarget::Game
            } else if f.creative_inventory_open {
                ScrollTarget::Menu
            } else {
                ScrollTarget::Nowhere
            }
        },
        Phase::Setup => ScrollTarget::Nowhere,
    }
}

/// Whether a mouse button goes to the input: in the menu and while
/// connecting, in game while paused or a screen is open, and whenever the
/// cursor is captured.
pub open spec fn spec_mouse_to_input(phase: Phase, f: GameFlags, cursor_captured: bool) -> bool {
    phase == Phase::InMenu || phase == Phase::Connecting || (phase == Phase::InGame && (f.paused
        || gui_open(f))) || cursor_captured
}

/// Whether a mouse button goes to the input.
pub fn mouse_to_input(phase: Phase, f: GameFlags, cursor_captured: bool) -> (r: bool)
    ensures
        r == spec_mouse_to_input(phase, f, cursor_captured),
{
    match phase {
        Phase::InMenu | Phase::Connecting => true,
        Phase::InGame => f.paused || f.inventory_open || f.creative_inventory_open || f.screen_open
            || cursor_captured,
        Phase::Setup => cursor_captured,
    }
}

/// What a frame's update of the current phase asks for.
#[derive(Clone, Copy, Debug, PartialEq, Eq, Structural)]
pub enum UpdateResult {
    /// Stay where we are.
    Stay,
    /// The menu asks to connect to a server.
    Connect,
    /// The menu asks to quit.
    Quit,
    /// The player left the server.
    ManualDisconnect,
    /// The server closed the connection, with a reason to show.
    Disconnected,
    /// The server let the player join.
    JoinGame,
}

/// What the window loop does after a frame's update.
#[derive(Clone, Copy, Debug, PartialEq, Eq, Structural)]
pub enum FrameAction {
    Nothing,
    /// Start a connection and a fresh game state, and release the cursor.
    StartConnection,
    /// Leave the event loop.
    Exit,
    /// Drop the chunk meshes, show the menu presence and release the
    /// cursor; show the disconnect reason and start a new panorama where
    /// asked.
    LeaveToMenu { show_reason: bool, new_panorama: bool },
    /// Show the in-game presence and grab the cursor for the game.
    EnterGame,
}

/// The results each phase's update can give.
pub open spec fn update_fits(phase: Phase, u: UpdateResult) -> bool {
    match phase {
        Phase::Setup => false,
        Phase::InMenu => u == UpdateResult::Stay || u == UpdateResult::Connect || u == UpdateResult::Quit,
        Phase::Connecting => u != UpdateResult::Connect && u != UpdateResult::Quit,
        Phase::InGame => u == UpdateResult::Stay || u == UpdateResult::ManualDisconnect || u
            == UpdateResult::Disconnected,
    }
}

/// The phase after a frame and what the loop does: the menu connects or
/// quits; a connection attempt joins the game or falls back to the menu
/// (keeping its panorama when the player left); a game falls back to the
/// menu with a new panorama.
pub open spec fn spec_on_frame(phase: Phase, u: UpdateResult) -> (Phase, FrameAction) {
    match u {
        UpdateResult::Stay => (phase, FrameAction::Nothing),
        UpdateResult::Connect => (Phase::Connecting, FrameAction::StartConnection),
        UpdateResult::Quit => (phase, FrameAction::Exit),
        UpdateResult::ManualDisconnect => (
            Phase::InMenu,
            FrameAction::LeaveToMenu { show_reason: false, new_panorama: phase == Phase::InGame },
        ),
        UpdateResult::Disconnected => (Phase::InMenu, FrameAction::LeaveToMenu { show_reason: true, new_panorama: phase == Phase::InGame }),
        UpdateResult::JoinGame => (Phase::InGame, FrameAction::EnterGame),
    }
}

/// The phase after a frame's update, and what the window loop then does.
pub fn on_frame(phase: Phase, u: UpdateResult) -> (r: (Phase, FrameAction))
    requires
        update_fits(phase, u),
    ensures
        r == spec_on_frame(phase, u),
{
    let in_game = match phase {
        Phase::InGame => true,
        _ => false,
    };
    match u {
        UpdateResult::Stay => (phase, FrameAction::Nothing),
        UpdateResult::Connect => (Phase::Connecting, FrameAction::StartConnection),
        UpdateResult::Quit => (phase, FrameAction::Exit),
        UpdateResult::ManualDisconnect => (
            Phase::InMenu,
            FrameAction::LeaveToMenu { show_reason: false, new_panorama: in_game },
        ),
        UpdateResult::Disconnected => (Phase::InMenu, FrameAction::LeaveToMenu { show_reason: true, new_panorama: in_game }),
        UpdateResult::JoinGame => (Phase::InGame, FrameAction::EnterGame),
    }
}

/// Every way out of a game or a connection attempt ends in the menu, and
/// only a connection attempt leads into a game.
pub proof fn law_frames_lead_to_menu_or_game(phase: Phase, u: UpdateResult)
    requires
        update_fits(phase, u),
    ensures
        (u == UpdateResult::ManualDisconnect || u == UpdateResult::Disconnected) ==> spec_on_frame(phase, u).0
            == Phase::InMenu,
        spec_on_frame(phase, u).0 == Phase::InGame ==> phase == Phase::Connecting || phase == Phase::InGame,
{
}

/// What the window loop does once the application resumes.
#[derive(Clone, Copy, Debug, PartialEq, Eq, Structural)]
pub struct ResumeOutcome {
    pub phase: Phase,
    /// Leave the event loop: the window or the renderer could not be made.
    pub exit: bool,
    /// The window and renderer are up: show the menu presence, release the
    /// cursor, and start a new panorama.
    pub show: bool,
    /// Load the player skin that was waiting for a renderer.
    pub load_skin: bool,
    /// Connect to the quick-access server with a fresh game state.
    pub connect: bool,
}

/// Resuming matters only during setup: with a window and a renderer made
/// the client shows the menu, or connects straight away to a quick-access
/// server; without them it leaves.
pub open spec fn spec_on_resumed(phase: Phase, created: bool, quick_access: bool, pending_skin: bool) -> ResumeOutcome {
    if phase != Phase::Setup {
        ResumeOutcome { phase, exit: false, show: false, load_skin: false, connect: false }
    } else if !created {
        ResumeOutcome { phase, exit: true, show: false, load_skin: false, connect: false }
    } else {
        ResumeOutcome {
            phase: if quick_access { Phase::Connecting } else { Phase::InMenu },
            exit: false,
            show: true,
            load_skin: pending_skin,
            connect: quick_access,
        }
    }
}

/// The phase and actions when the application resumes: `created` says the
/// window and the renderer were both made, `quick_access` that a server
/// was given to join at once, `pending_skin` that a skin waits to load.
pub fn on_resumed(phase: Phase, created: bool, quick_access: bool, pending_skin: bool) -> (r: ResumeOutcome)
    ensures
        r == spec_on_resumed(phase, created, quick_access, pending_skin),
{
    match phase {
        Phase::Setup => {
            if !created {
                ResumeOutcome { phase, exit: true, show: false, load_skin: false, connect: false }
            } else {
                ResumeOutcome {
                    phase: if quick_access { Phase::Connecting } else { Phase::InMenu },
                    exit: false,
                    show: true,
                    load_skin: pending_skin,
                    connect: quick_access,
                }
            }
        },
        _ => ResumeOutcome { phase, exit: false, show: false, load_skin: false, connect: false },
    }
}

/// Setup ends on the first resume that makes a window and a renderer, and
/// on no other: otherwise the client stays in setup and leaves.
pub proof fn law_resume_leaves_setup(created: bool, quick_access: bool, pending_skin: bool)
    ensures
        created == (spec_on_resumed(Phase::Setup, created, quick_access, pending_skin).phase != Phase::Setup),
        !created == spec_on_resumed(Phase::Setup, created, quick_access, pending_skin).exit,
{
}

/// In game, with no chat or creative inventory open, not paused, not dead
/// and in survival or adventure, a fresh E opens the inventory when it is
/// closed and closes it when it is open, and grabs or releases the cursor
/// to match: pressing E twice gives the flags back.
pub proof fn law_e_toggles_inventory(f: GameFlags, f3_held: bool, ready: bool)
    requires
        !f.chat_open,
        !f.creative_inventory_open,
        !f.paused,
        !f.dead,
        f.game_mode == 0 || f.game_mode == 2,
    ensures
        spec_on_key(Phase::InGame, f, Key::E, true, false, f3_held, ready).flags.inventory_open == !f.inventory_open,
        spec_on_key(Phase::InGame, f, Key::E, true, false, f3_held, ready).action == KeyAction::UpdateCursor,
        spec_on_key(
            Phase::InGame,
            spec_on_key(Phase::InGame, f, Key::E, true, false, f3_held, ready).flags,
            Key::E,
            true,
            false,
            f3_held,
            ready,
        ).flags == f,
{
}

/// Mouse buttons reach the input in the menu, while connecting, and in a
/// game that is paused or has a screen open, whether or not the cursor is
/// captured; in a running game with nothing open they reach it only while
/// the cursor is captured.
pub proof fn law_mouse_reaches_open_screens(f: GameFlags, captured: bool)
    ensures
        spec_mouse_to_input(Phase::InMenu, f, captured),
        spec_mouse_to_input(Phase::Connecting, f, captured),
        f.paused ==> spec_mouse_to_input(Phase::InGame, f, captured),
        f.inventory_open || f.creative_inventory_open || f.screen_open ==> spec_mouse_to_input(Phase::InGame, f, captured),
        !f.paused && !f.inventory_open && !f.creative_inventory_open && !f.screen_open ==> spec_mouse_to_input(
            Phase::InGame,
            f,
            captured,
        ) == captured,
{
}

} // verus!
