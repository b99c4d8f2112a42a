//! Key bindings: a pressed key mapped to a navigation [`Action`].
use vstd::prelude::*;
use crate::deck::FrameId;
use crate::nav::Action;

verus! {

/// A pressed key, as far as the bindings tell keys apart.
#[derive(Debug, Clone, Copy, PartialEq, Eq, Structural)]
pub enum KeyInput {
    /// Right arrow.
    Right,
    /// Left arrow.
    Left,
    /// Up arrow.
    Up,
    /// Down arrow.
    Down,
    /// Home.
    Home,
    /// Enter.
    Enter,
    /// Backspace.
    Backspace,
    /// Page up.
    PageUp,
    /// Page down.
    PageDown,
    /// Escape.
    Esc,
    /// A character key.
    Char(char),
    /// Any other key.
    Other,
}

/// The action bound to `code` (with Control held when `ctrl`):
/// - forward: Right, Space, Enter, PageDown, `j`, `l`, `n`;
/// - back: Left, Backspace, PageUp, `k`, `h`, `p`;
/// - next slide: Down; previous slide: Up; first frame: Home;
/// - reload: `r`; quit: `q`, Esc, Ctrl-C.
pub open spec fn key_action(code: KeyInput, ctrl: bool) -> Option<Action> {
    if ctrl && code == KeyInput::Char('c') {
        Some(Action::Quit)
    } else {
        match code {
            KeyInput::Right | KeyInput::Enter | KeyInput::PageDown => Some(Action::Advance),
            KeyInput::Left | KeyInput::Backspace | KeyInput::PageUp => Some(Action::Retreat),
            KeyInput::Down => Some(Action::NextSlide),
            KeyInput::Up => Some(Action::PrevSlide),
            KeyInput::Home => Some(Action::Goto(FrameId(0))),
            KeyInput::Esc => Some(Action::Quit),
            KeyInput::Char(c) => if c == ' ' || c == 'j' || c == 'l' || c == 'n' {
                Some(Action::Advance)
            } else if c == 'k' || c == 'h' || c == 'p' {
                Some(Action::Retreat)
            } else if c == 'r' {
                Some(Action::Reload)
            } else if c == 'q' {
                Some(Action::Quit)
            } else {
                None
            },
            KeyInput::Other => None,
        }
    }
}

/// Maps a key to its action (see [`key_action`]); unbound keys give `None`.
pub fn map_key(code: KeyInput, ctrl: bool) -> (a: Option<Action>)
    ensures
        a == key_action(code, ctrl),
{
    if ctrl {
        if let KeyInput::Char(c) = code {
            if c == 'c' {
                return Some(Action::Quit);
            }
        }
    }
    match code {
        KeyInput::Right | KeyInput::Enter | KeyInput::PageDown => Some(Action::Advance),
        KeyInput::Left | KeyInput::Backspace | KeyInput::PageUp => Some(Action::Retreat),
        KeyInput::Down => Some(Action::NextSlide),
        KeyInput::Up => Some(Action::PrevSlide),
        KeyInput::Home => Some(Action::Goto(FrameId(0))),
        KeyInput::Esc => Some(Action::Quit),
        KeyInput::Char(c) => {
            if c == ' ' || c == 'j' || c == 'l' || c == 'n' {
                Some(Action::Advance)
            } else if c == 'k' || c == 'h' || c == 'p' {
                Some(Action::Retreat)
            } else if c == 'r' {
                Some(Action::Reload)
            } else if c == 'q' {
                Some(Action::Quit)
            } else {
                None
            }
        },
        KeyInput::Other => None,
    }
}

} // verus!
