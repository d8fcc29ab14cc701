use vstd::prelude::*;

verus! {

/// The keys the terminal screens react to.
#[derive(Copy, Clone, PartialEq, Eq, Structural, Debug)]
pub enum KeyCode {
    Esc,
    Backtick,
    Up,
    Down,
    Left,
    Right,
    Other,
}

/// Whether a key went down, repeats while held, or came up.
#[derive(Copy, Clone, PartialEq, Eq, Structural, Debug)]
pub enum KeyKind {
    Press,
    Repeat,
    Release,
}

/// The page the audio configuration dialog shows.
#[derive(Copy, Clone, PartialEq, Eq, Structural, Debug)]
pub enum DialogTab {
    Hosts,
    Devices,
    /// The page shown before the choice is committed.
    Farewell,
}

/// What the dialog does with a key.
#[derive(Copy, Clone, PartialEq, Eq, Structural, Debug)]
pub enum DialogMove {
    HostsUp,
    HostsDown,
    DevicesUp,
    DevicesDown,
    ToHosts,
    ToDevices,
    ToFarewell,
}

/// Whether the dialog used a key, left it to the screen behind, or asks to close.
#[derive(Copy, Clone, PartialEq, Eq, Structural, Debug)]
pub enum DialogReturn {
    Continue,
    Consumed,
    Escape,
}

/// `true` for a press or a repeat.
pub open spec fn down(kind: KeyKind) -> bool {
    kind == KeyKind::Press || kind == KeyKind::Repeat
}

/// The dialog on page `tab` given key `code`: escape closes it; the arrows, pressed or
/// repeating, scroll a list or turn the page.
pub open spec fn spec_dialog_key(tab: DialogTab, code: KeyCode, kind: KeyKind) -> (DialogReturn, Option<DialogMove>) {
    if code == KeyCode::Esc && kind == KeyKind::Press {
        (DialogReturn::Escape, None)
    } else if !down(kind) {
        (DialogReturn::Continue, None)
    } else {
        let mv = match tab {
            DialogTab::Hosts => match code {
                KeyCode::Up => Some(DialogMove::HostsUp),
                KeyCode::Down => Some(DialogMove::HostsDown),
                KeyCode::Right => Some(DialogMove::ToDevices),
                _ => None,
            },
            DialogTab::Devices => match code {
                KeyCode::Up => Some(DialogMove::DevicesUp),
                KeyCode::Down => Some(DialogMove::DevicesDown),
                KeyCode::Left => Some(DialogMove::ToHosts),
                KeyCode::Right => Some(DialogMove::ToFarewell),
                _ => None,
            },
            DialogTab::Farewell => match code {
                KeyCode::Left => Some(DialogMove::ToDevices),
                _ => None,
            },
        };
        match mv {
            Some(m) => (DialogReturn::Consumed, Some(m)),
            None => (DialogReturn::Continue, None),
        }
    }
}

/// What the audio configuration dialog on page `tab` does with a key.
pub fn dialog_key(tab: DialogTab, code: KeyCode, kind: KeyKind) -> (r: (DialogReturn, Option<DialogMove>))
    ensures
        r == spec_dialog_key(tab, code, kind),
{
    if code == KeyCode::Esc && kind == KeyKind::Press {
        return (DialogReturn::Escape, None);
    }
    if kind == KeyKind::Release {
        return (DialogReturn::Continue, None);
    }
    let mv = match tab {
        DialogTab::Hosts => match code {
            KeyCode::Up => Some(DialogMove::HostsUp),
            KeyCode::Down => Some(DialogMove::HostsDown),
            KeyCode::Right => Some(DialogMove::ToDevices),
            _ => None,
        },
        DialogTab::Devices => match code {
            KeyCode::Up => Some(DialogMove::DevicesUp),
            KeyCode::Down => Some(DialogMove::DevicesDown),
            KeyCode::Left => Some(DialogMove::ToHosts),
            KeyCode::Right => Some(DialogMove::ToFarewell),
            _ => None,
        },
        DialogTab::Farewell => match code {
            KeyCode::Left => Some(DialogMove::ToDevices),
            _ => None,
        },
    };
    match mv {
        Some(m) => (DialogReturn::Consumed, Some(m)),
        None => (DialogReturn::Continue, None),
    }
}

/// What a key does to the screen: the dialog's move, whether the dialog is open after it,
/// and whether the program quits.
#[derive(Copy, Clone, PartialEq, Eq, Structural, Debug)]
pub struct KeyOutcome {
    pub dialog: Option<DialogMove>,
    pub dialog_open: bool,
    pub quit: bool,
}

/// A key on the screen: the open dialog has it first; a key it leaves quits on escape and
/// opens the dialog on the backtick.
pub open spec fn spec_screen_key(dialog_open: bool, tab: DialogTab, code: KeyCode, kind: KeyKind) -> KeyOutcome {
    let (ret, mv) = spec_dialog_key(tab, code, kind);
    if dialog_open && ret == DialogReturn::Consumed {
        KeyOutcome { dialog: mv, dialog_open: true, quit: false }
    } else if dialog_open && ret == DialogReturn::Escape {
        KeyOutcome { dialog: None, dialog_open: false, quit: false }
    } else if code == KeyCode::Esc && kind == KeyKind::Press {
        KeyOutcome { dialog: None, dialog_open, quit: true }
    } else if code == KeyCode::Backtick && kind == KeyKind::Press {
        KeyOutcome { dialog: None, dialog_open: true, quit: false }
    } else {
        KeyOutcome { dialog: None, dialog_open, quit: false }
    }
}

/// What a key does to the screen, with the dialog open on page `tab` or closed.
pub fn screen_key(dialog_open: bool, tab: DialogTab, code: KeyCode, kind: KeyKind) -> (r: KeyOutcome)
    ensures
        r == spec_screen_key(dialog_open, tab, code, kind),
{
    if dialog_open {
        let (ret, mv) = dialog_key(tab, code, kind);
        match ret {
            DialogReturn::Consumed => {
                return KeyOutcome { dialog: mv, dialog_open: true, quit: false };
            },
            DialogReturn::Escape => {
                return KeyOutcome { dialog: None, dialog_open: false, quit: false };
            },
            DialogReturn::Continue => {},
        }
    }
    if code == KeyCode::Esc && kind == KeyKind::Press {
        KeyOutcome { dialog: None, dialog_open, quit: true }
    } else if code == KeyCode::Backtick && kind == KeyKind::Press {
        KeyOutcome { dialog: None, dialog_open: true, quit: false }
    } else {
        KeyOutcome { dialog: None, dialog_open, quit: false }
    }
}

} // verus!
