//! The keyboard shortcuts: which key presses the window takes for itself
//! and what each one does. A key press is given as the values the window
//! toolkit reports for it.
use vstd::prelude::*;

use crate::panels::NavDirection;
use crate::text::same_text;

verus! {

/// An action a key press can trigger.
#[derive(Debug, Clone, Copy, PartialEq, Eq, Structural)]
pub enum Shortcut {
    NewTab,
    CloseTab,
    AddProject,
    NextTab,
    PrevTab,
    SplitVertical,
    SplitHorizontal,
    /// Split the active panel into a two-by-two grid.
    SplitGrid,
    ClosePanel,
    CloseOtherPanels,
    ToggleSidebar,
    Navigate(NavDirection),
    IncreaseFontSize,
    DecreaseFontSize,
    Copy,
    Paste,
}

/// The named keys the shortcuts use; every other named key is `Other`.
#[derive(Debug, Clone, Copy, PartialEq, Eq, Structural)]
pub enum NamedKey {
    Tab,
    ArrowLeft,
    ArrowRight,
    ArrowUp,
    ArrowDown,
    Other,
}

/// The physical keys the shortcuts use on macOS; every other one is
/// `Other`.
#[derive(Debug, Clone, Copy, PartialEq, Eq, Structural)]
pub enum KeyCode {
    KeyP,
    Equal,
    NumpadAdd,
    Minus,
    NumpadSubtract,
    Digit1,
    Digit4,
    KeyB,
    Other,
}

/// The logical key of a press: a named key, the text it types, or neither.
#[derive(Debug, PartialEq)]
pub enum LogicalKey {
    Named(NamedKey),
    Character(String),
    Unidentified,
}

/// The modifier keys held during a press.
#[derive(Debug, Clone, Copy, PartialEq, Eq, Structural)]
pub struct Modifiers {
    pub control: bool,
    pub shift: bool,
    pub alt: bool,
    pub meta: bool,
}

/// A key press: its logical key, its physical key, and the modifiers held.
#[derive(Debug, PartialEq)]
pub struct KeyPress {
    pub key: LogicalKey,
    pub code: KeyCode,
    pub modifiers: Modifiers,
}

/// The platform's command modifier is held: Cmd on macOS, Ctrl elsewhere.
pub open spec fn command_held(m: Modifiers, mac: bool) -> bool {
    if mac {
        m.meta
    } else {
        m.control
    }
}

/// Cmd on macOS, Ctrl+Shift elsewhere, since plain Ctrl belongs to the
/// shell there.
pub open spec fn command_shift_held(m: Modifiers, mac: bool) -> bool {
    command_held(m, mac) && (mac || m.shift)
}

/// Is `c` one of the one-character texts `a` and `b`.
pub open spec fn typed(c: Seq<char>, a: char, b: char) -> bool {
    c == seq![a] || c == seq![b]
}

/// What a named key does.
pub open spec fn named_shortcut(k: NamedKey, m: Modifiers) -> Option<Shortcut> {
    match k {
        NamedKey::Tab => if m.control && m.shift {
            Some(Shortcut::PrevTab)
        } else if m.control {
            Some(Shortcut::NextTab)
        } else {
            None
        },
        NamedKey::ArrowLeft => if m.alt { Some(Shortcut::Navigate(NavDirection::Left)) } else { None },
        NamedKey::ArrowRight => if m.alt { Some(Shortcut::Navigate(NavDirection::Right)) } else { None },
        NamedKey::ArrowUp => if m.alt { Some(Shortcut::Navigate(NavDirection::Up)) } else { None },
        NamedKey::ArrowDown => if m.alt { Some(Shortcut::Navigate(NavDirection::Down)) } else { None },
        NamedKey::Other => None,
    }
}

/// The panel shortcuts under Alt: by physical key on macOS, where Option
/// changes the typed text, by typed text elsewhere.
pub open spec fn alt_shortcut(c: Seq<char>, code: KeyCode, mac: bool) -> Option<Shortcut> {
    if mac {
        match code {
            KeyCode::KeyP => Some(Shortcut::SplitVertical),
            KeyCode::Equal => Some(Shortcut::SplitHorizontal),
            KeyCode::NumpadAdd => Some(Shortcut::SplitHorizontal),
            KeyCode::Minus => Some(Shortcut::ClosePanel),
            KeyCode::NumpadSubtract => Some(Shortcut::ClosePanel),
            KeyCode::Digit1 => Some(Shortcut::CloseOtherPanels),
            KeyCode::Digit4 => Some(Shortcut::SplitGrid),
            KeyCode::KeyB => Some(Shortcut::ToggleSidebar),
            KeyCode::Other => None,
        }
    } else if typed(c, 'p', 'P') {
        Some(Shortcut::SplitVertical)
    } else if typed(c, '+', '=') {
        Some(Shortcut::SplitHorizontal)
    } else if c == seq!['-'] {
        Some(Shortcut::ClosePanel)
    } else if c == seq!['1'] {
        Some(Shortcut::CloseOtherPanels)
    } else if c == seq!['4'] {
        Some(Shortcut::SplitGrid)
    } else if typed(c, 'b', 'B') {
        Some(Shortcut::ToggleSidebar)
    } else {
        None
    }
}

/// The window shortcuts under the command modifier and Shift.
pub open spec fn command_shortcut(c: Seq<char>) -> Option<Shortcut> {
    if typed(c, 't', 'T') {
        Some(Shortcut::NewTab)
    } else if typed(c, 'w', 'W') {
        Some(Shortcut::CloseTab)
    } else if typed(c, 'o', 'O') {
        Some(Shortcut::AddProject)
    } else if typed(c, 'c', 'C') {
        Some(Shortcut::Copy)
    } else if typed(c, 'v', 'V') {
        Some(Shortcut::Paste)
    } else {
        None
    }
}

/// The font size shortcuts under the command modifier.
pub open spec fn font_shortcut(c: Seq<char>) -> Option<Shortcut> {
    if typed(c, '+', '=') {
        Some(Shortcut::IncreaseFontSize)
    } else if c == seq!['-'] {
        Some(Shortcut::DecreaseFontSize)
    } else {
        None
    }
}

/// What a typed character does: a panel shortcut under Alt, else a window
/// shortcut under the command modifier and Shift, else a font size
/// shortcut under the command modifier.
pub open spec fn character_shortcut(c: Seq<char>, code: KeyCode, m: Modifiers, mac: bool) -> Option<Shortcut> {
    if m.alt && alt_shortcut(c, code, mac) is Some {
        alt_shortcut(c, code, mac)
    } else if command_shift_held(m, mac) && command_shortcut(c) is Some {
        command_shortcut(c)
    } else if command_held(m, mac) {
        font_shortcut(c)
    } else {
        None
    }
}

/// The shortcut a key press triggers on a macOS (`mac`) or other desktop.
pub open spec fn shortcut_of(e: KeyPress, mac: bool) -> Option<Shortcut> {
    match e.key {
        LogicalKey::Named(k) => named_shortcut(k, e.modifiers),
        LogicalKey::Character(s) => character_shortcut(s@, e.code, e.modifiers, mac),
        LogicalKey::Unidentified => None,
    }
}

/// Is `c` the one-character text `a` or `b`.
fn is_typed(c: &str, a: &str, b: &str) -> (r: bool)
    requires
        a@.len() == 1,
        b@.len() == 1,
    ensures
        r == typed(c@, a@[0], b@[0]),
{
    assert(a@ =~= seq![a@[0]]);
    assert(b@ =~= seq![b@[0]]);
    same_text(c, a) || same_text(c, b)
}

fn alt_resolve(c: &str, code: KeyCode, mac: bool) -> (r: Option<Shortcut>)
    ensures
        r == alt_shortcut(c@, code, mac),
{
    if mac {
        return match code {
            KeyCode::KeyP => Some(Shortcut::SplitVertical),
            KeyCode::Equal => Some(Shortcut::SplitHorizontal),
            KeyCode::NumpadAdd => Some(Shortcut::SplitHorizontal),
            KeyCode::Minus => Some(Shortcut::ClosePanel),
            KeyCode::NumpadSubtract => Some(Shortcut::ClosePanel),
            KeyCode::Digit1 => Some(Shortcut::CloseOtherPanels),
            KeyCode::Digit4 => Some(Shortcut::SplitGrid),
            KeyCode::KeyB => Some(Shortcut::ToggleSidebar),
            KeyCode::Other => None,
        };
    }
    proof {
        reveal_strlit("p");
        reveal_strlit("P");
        reveal_strlit("+");
        reveal_strlit("=");
        reveal_strlit("-");
        reveal_strlit("1");
        reveal_strlit("4");
        reveal_strlit("b");
        reveal_strlit("B");
        assert("-"@ =~= seq!['-']);
        assert("1"@ =~= seq!['1']);
        assert("4"@ =~= seq!['4']);
    }
    if is_typed(c, "p", "P") {
        Some(Shortcut::SplitVertical)
    } else if is_typed(c, "+", "=") {
        Some(Shortcut::SplitHorizontal)
    } else if same_text(c, "-") {
        Some(Shortcut::ClosePanel)
    } else if same_text(c, "1") {
        Some(Shortcut::CloseOtherPanels)
    } else if same_text(c, "4") {
        Some(Shortcut::SplitGrid)
    } else if is_typed(c, "b", "B") {
        Some(Shortcut::ToggleSidebar)
    } else {
        None
    }
}

fn command_resolve(c: &str) -> (r: Option<Shortcut>)
    ensures
        r == command_shortcut(c@),
{
    proof {
        reveal_strlit("t");
        reveal_strlit("T");
        reveal_strlit("w");
        reveal_strlit("W");
        reveal_strlit("o");
        reveal_strlit("O");
        reveal_strlit("c");
        reveal_strlit("C");
        reveal_strlit("v");
        reveal_strlit("V");
    }
    if is_typed(c, "t", "T") {
        Some(Shortcut::NewTab)
    } else if is_typed(c, "w", "W") {
        Some(Shortcut::CloseTab)
    } else if is_typed(c, "o", "O") {
        Some(Shortcut::AddProject)
    } else if is_typed(c, "c", "C") {
        Some(Shortcut::Copy)
    } else if is_typed(c, "v", "V") {
        Some(Shortcut::Paste)
    } else {
        None
    }
}

fn font_resolve(c: &str) -> (r: Option<Shortcut>)
    ensures
        r == font_shortcut(c@),
{
    proof {
        reveal_strlit("+");
        reveal_strlit("=");
        reveal_strlit("-");
        assert("-"@ =~= seq!['-']);
    }
    if is_typed(c, "+", "=") {
        Some(Shortcut::IncreaseFontSize)
    } else if same_text(c, "-") {
        Some(Shortcut::DecreaseFontSize)
    } else {
        None
    }
}

/// Whether the command modifier is held: Cmd on macOS (`mac`), Ctrl
/// elsewhere.
pub fn command(m: Modifiers, mac: bool) -> (r: bool)
    ensures
        r == command_held(m, mac),
{
    if mac {
        m.meta
    } else {
        m.control
    }
}

/// Cmd combos on macOS never reach the shell, even when unbound.
pub fn reserved_for_app(m: Modifiers, mac: bool) -> (r: bool)
    ensures
        r == (mac && m.meta),
{
    mac && m.meta
}

/// The shortcut a key press triggers, if any, on macOS when `mac` holds
/// and on other desktops otherwise.
pub fn resolve(event: &KeyPress, mac: bool) -> (r: Option<Shortcut>)
    ensures
        r == shortcut_of(*event, mac),
{
    let m = event.modifiers;
    match &event.key {
        LogicalKey::Named(named) => match named {
            NamedKey::Tab => if m.control && m.shift {
                Some(Shortcut::PrevTab)
            } else if m.control {
                Some(Shortcut::NextTab)
            } else {
                None
            },
            NamedKey::ArrowLeft => if m.alt { Some(Shortcut::Navigate(NavDirection::Left)) } else { None },
            NamedKey::ArrowRight => if m.alt { Some(Shortcut::Navigate(NavDirection::Right)) } else { None },
            NamedKey::ArrowUp => if m.alt { Some(Shortcut::Navigate(NavDirection::Up)) } else { None },
            NamedKey::ArrowDown => if m.alt { Some(Shortcut::Navigate(NavDirection::Down)) } else { None },
            NamedKey::Other => None,
        },
        LogicalKey::Unidentified => None,
        LogicalKey::Character(ch) => {
            let c = ch.as_str();
            if m.alt {
                let matched = alt_resolve(c, event.code, mac);
                if matched.is_some() {
                    return matched;
                }
            }
            if command(m, mac) && (mac || m.shift) {
                let matched = command_resolve(c);
                if matched.is_some() {
                    return matched;
                }
            }
            if command(m, mac) {
                return font_resolve(c);
            }
            None
        },
    }
}

/// Alt with an arrow key moves focus in that arrow's own direction, on any
/// desktop and whatever else is held.
pub proof fn law_alt_arrow_navigates(e: KeyPress, mac: bool)
    requires
        e.modifiers.alt,
    ensures
        e.key == LogicalKey::Named(NamedKey::ArrowLeft) ==> shortcut_of(e, mac) == Some(
            Shortcut::Navigate(NavDirection::Left),
        ),
        e.key == LogicalKey::Named(NamedKey::ArrowRight) ==> shortcut_of(e, mac) == Some(
            Shortcut::Navigate(NavDirection::Right),
        ),
        e.key == LogicalKey::Named(NamedKey::ArrowUp) ==> shortcut_of(e, mac) == Some(
            Shortcut::Navigate(NavDirection::Up),
        ),
        e.key == LogicalKey::Named(NamedKey::ArrowDown) ==> shortcut_of(e, mac) == Some(
            Shortcut::Navigate(NavDirection::Down),
        ),
{
}

/// Without Alt an arrow key is no shortcut: it belongs to the shell.
pub proof fn law_plain_arrow_passes(e: KeyPress, mac: bool)
    requires
        !e.modifiers.alt,
        e.key == LogicalKey::Named(NamedKey::ArrowLeft) || e.key == LogicalKey::Named(
            NamedKey::ArrowRight,
        ) || e.key == LogicalKey::Named(NamedKey::ArrowUp) || e.key == LogicalKey::Named(
            NamedKey::ArrowDown,
        ),
    ensures
        shortcut_of(e, mac) is None,
{
}

/// One-character texts are equal only when their characters are.
proof fn lemma_one_char_texts()
    ensures
        forall|a: char, b: char| #[trigger] seq![a] == #[trigger] seq![b] ==> a == b,
{
    assert forall|a: char, b: char| #[trigger] seq![a] == #[trigger] seq![b] implies a == b by {
        assert(seq![a][0] == a);
        assert(seq![b][0] == b);
    }
}

/// The panel shortcuts under Alt alone on desktops other than macOS: P
/// splits top and bottom, + or = side by side, 4 into a grid, - closes the
/// panel, 1 closes the others, B toggles the sidebar.
pub proof fn law_alt_keybindings(e: KeyPress, c: char)
    requires
        e.key == LogicalKey::Character(e.key->Character_0),
        e.key->Character_0@ == seq![c],
        e.modifiers.alt,
    ensures
        (c == 'p' || c == 'P') ==> shortcut_of(e, false) == Some(Shortcut::SplitVertical),
        (c == '+' || c == '=') ==> shortcut_of(e, false) == Some(Shortcut::SplitHorizontal),
        c == '4' ==> shortcut_of(e, false) == Some(Shortcut::SplitGrid),
        c == '-' ==> shortcut_of(e, false) == Some(Shortcut::ClosePanel),
        c == '1' ==> shortcut_of(e, false) == Some(Shortcut::CloseOtherPanels),
        (c == 'b' || c == 'B') ==> shortcut_of(e, false) == Some(Shortcut::ToggleSidebar),
{
    lemma_one_char_texts();
}

/// The window shortcuts under Ctrl+Shift on desktops other than macOS: T
/// opens a tab, W closes it, O adds a project, C copies, V pastes.
pub proof fn law_command_keybindings(e: KeyPress, c: char)
    requires
        e.key == LogicalKey::Character(e.key->Character_0),
        e.key->Character_0@ == seq![c],
        e.modifiers.control,
        e.modifiers.shift,
        !e.modifiers.alt,
    ensures
        (c == 't' || c == 'T') ==> shortcut_of(e, false) == Some(Shortcut::NewTab),
        (c == 'w' || c == 'W') ==> shortcut_of(e, false) == Some(Shortcut::CloseTab),
        (c == 'o' || c == 'O') ==> shortcut_of(e, false) == Some(Shortcut::AddProject),
        (c == 'c' || c == 'C') ==> shortcut_of(e, false) == Some(Shortcut::Copy),
        (c == 'v' || c == 'V') ==> shortcut_of(e, false) == Some(Shortcut::Paste),
{
    lemma_one_char_texts();
}

/// The font size shortcuts under the platform's command modifier: + or =
/// grows the font, - shrinks it.
pub proof fn law_font_keybindings(e: KeyPress, c: char, mac: bool)
    requires
        e.key == LogicalKey::Character(e.key->Character_0),
        e.key->Character_0@ == seq![c],
        !e.modifiers.alt,
        command_held(e.modifiers, mac),
    ensures
        (c == '+' || c == '=') ==> shortcut_of(e, mac) == Some(Shortcut::IncreaseFontSize),
        c == '-' ==> shortcut_of(e, mac) == Some(Shortcut::DecreaseFontSize),
{
    lemma_one_char_texts();
}

/// A key pressed with neither Ctrl, Alt nor Cmd held belongs to the shell.
pub proof fn law_plain_typing_passes(e: KeyPress, mac: bool)
    requires
        !e.modifiers.alt,
        !e.modifiers.control,
        !e.modifiers.meta,
    ensures
        shortcut_of(e, mac) is None,
{
}

/// Ctrl+Tab shows the next tab and Ctrl+Shift+Tab the previous one.
pub proof fn law_tab_cycling_keys(e: KeyPress, mac: bool)
    requires
        e.key == LogicalKey::Named(NamedKey::Tab),
        e.modifiers.control,
    ensures
        e.modifiers.shift ==> shortcut_of(e, mac) == Some(Shortcut::PrevTab),
        !e.modifiers.shift ==> shortcut_of(e, mac) == Some(Shortcut::NextTab),
{
}

} // verus!
