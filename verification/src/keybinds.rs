//! Rebindable keyboard shortcuts: what the app can do, and which key does it.
//!
//! An [`Action`] names an intent rather than a key. Matching is on the
//! physical position of a key ([`KeyCode`]), never on the character it
//! produces, and the modifiers must match exactly: a binding on plain `S`
//! does not fire on `Ctrl+S`.
//!
//! [`Keymap::set`] keeps the one rule that keeps a keymap usable: a binding
//! belongs to at most one action. Assigning a key already in use takes it from
//! whoever held it and answers with those actions.
//!
//! On disk a keymap is a table from action name to binding text
//! ([`KeymapFile`]). An absent entry means "use the default", an empty one
//! means the user unbound the action, and one that cannot be read is dropped.
//! Only the keys that have a name in that text can be bound at all.

use vstd::prelude::*;
use vstd::string::*;

use crate::text::{decimal, push_decimal, same_text};

verus! {

/// How many layout presets have a shortcut of their own.
pub const LAYOUT_SLOTS: u8 = 10;

/// A key by its position on the keyboard.
#[derive(Debug, Clone, Copy, PartialEq, Eq, Hash, Structural)]
pub enum KeyCode {
    ArrowRight,
    ArrowLeft,
    ArrowUp,
    ArrowDown,
    Equal,
    Minus,
    Digit0,
    Digit1,
    Digit2,
    Digit3,
    Digit4,
    Digit5,
    Digit6,
    Digit7,
    Digit8,
    Digit9,
    KeyA,
    KeyB,
    KeyC,
    KeyD,
    KeyE,
    KeyF,
    KeyG,
    KeyH,
    KeyI,
    KeyJ,
    KeyK,
    KeyL,
    KeyM,
    KeyN,
    KeyO,
    KeyP,
    KeyQ,
    KeyR,
    KeyS,
    KeyT,
    KeyU,
    KeyV,
    KeyW,
    KeyX,
    KeyY,
    KeyZ,
    Space,
    Enter,
    Escape,
    Backspace,
    Tab,
    Delete,
    Home,
    End,
    PageUp,
    PageDown,
    F1,
    F2,
    F3,
    F4,
    F5,
    F6,
    F7,
    F8,
    F9,
    F10,
    F11,
    F12,
    BracketLeft,
    BracketRight,
    Backslash,
    Semicolon,
    Quote,
    Comma,
    Period,
    Slash,
    Backquote,
    ControlLeft,
    ControlRight,
    ShiftLeft,
    ShiftRight,
    AltLeft,
    AltRight,
    SuperLeft,
    SuperRight,
    F13,
    Numpad0,
    /// Any other key, by the number the platform gives it.
    Other(u32),
}

/// A key press as the platform reports it: by position, or not identified.
#[derive(Debug, Clone, Copy, PartialEq, Eq, Structural)]
pub enum Physical {
    Code(KeyCode),
    Unidentified,
}

/// The modifier keys held during a press.
#[derive(Debug, Clone, Copy, PartialEq, Eq, Structural, Default)]
pub struct Modifiers {
    pub ctrl: bool,
    pub shift: bool,
    pub alt: bool,
    pub logo: bool,
}

impl Modifiers {
    /// No modifier held.
    pub fn empty() -> (held: Self)
        ensures
            !held.ctrl && !held.shift && !held.alt && !held.logo,
    {
        Modifiers { ctrl: false, shift: false, alt: false, logo: false }
    }

    pub fn control(self) -> (held: bool)
        ensures
            held == self.ctrl,
    {
        self.ctrl
    }

    pub fn shift(self) -> (held: bool)
        ensures
            held == self.shift,
    {
        self.shift
    }

    pub fn alt(self) -> (held: bool)
        ensures
            held == self.alt,
    {
        self.alt
    }
}

/// The name under which a key is stored, for the keys that can be bound.
pub open spec fn code_name_spec(code: KeyCode) -> Option<Seq<char>> {
    match code {
            KeyCode::ArrowRight => Some("ArrowRight"@),
            KeyCode::ArrowLeft => Some("ArrowLeft"@),
            KeyCode::ArrowUp => Some("ArrowUp"@),
            KeyCode::ArrowDown => Some("ArrowDown"@),
            KeyCode::Equal => Some("Equal"@),
            KeyCode::Minus => Some("Minus"@),
            KeyCode::Digit0 => Some("0"@),
            KeyCode::Digit1 => Some("1"@),
            KeyCode::Digit2 => Some("2"@),
            KeyCode::Digit3 => Some("3"@),
            KeyCode::Digit4 => Some("4"@),
            KeyCode::Digit5 => Some("5"@),
            KeyCode::Digit6 => Some("6"@),
            KeyCode::Digit7 => Some("7"@),
            KeyCode::Digit8 => Some("8"@),
            KeyCode::Digit9 => Some("9"@),
            KeyCode::KeyA => Some("A"@),
            KeyCode::KeyB => Some("B"@),
            KeyCode::KeyC => Some("C"@),
            KeyCode::KeyD => Some("D"@),
            KeyCode::KeyE => Some("E"@),
            KeyCode::KeyF => Some("F"@),
            KeyCode::KeyG => Some("G"@),
            KeyCode::KeyH => Some("H"@),
            KeyCode::KeyI => Some("I"@),
            KeyCode::KeyJ => Some("J"@),
            KeyCode::KeyK => Some("K"@),
            KeyCode::KeyL => Some("L"@),
            KeyCode::KeyM => Some("M"@),
            KeyCode::KeyN => Some("N"@),
            KeyCode::KeyO => Some("O"@),
            KeyCode::KeyP => Some("P"@),
            KeyCode::KeyQ => Some("Q"@),
            KeyCode::KeyR => Some("R"@),
            KeyCode::KeyS => Some("S"@),
            KeyCode::KeyT => Some("T"@),
            KeyCode::KeyU => Some("U"@),
            KeyCode::KeyV => Some("V"@),
            KeyCode::KeyW => Some("W"@),
            KeyCode::KeyX => Some("X"@),
            KeyCode::KeyY => Some("Y"@),
            KeyCode::KeyZ => Some("Z"@),
            KeyCode::Space => Some("Space"@),
            KeyCode::Enter => Some("Enter"@),
            KeyCode::Escape => Some("Escape"@),
            KeyCode::Backspace => Some("Backspace"@),
            KeyCode::Tab => Some("Tab"@),
            KeyCode::Delete => Some("Delete"@),
            KeyCode::Home => Some("Home"@),
            KeyCode::End => Some("End"@),
            KeyCode::PageUp => Some("PageUp"@),
            KeyCode::PageDown => Some("PageDown"@),
            KeyCode::F1 => Some("F1"@),
            KeyCode::F2 => Some("F2"@),
            KeyCode::F3 => Some("F3"@),
            KeyCode::F4 => Some("F4"@),
            KeyCode::F5 => Some("F5"@),
            KeyCode::F6 => Some("F6"@),
            KeyCode::F7 => Some("F7"@),
            KeyCode::F8 => Some("F8"@),
            KeyCode::F9 => Some("F9"@),
            KeyCode::F10 => Some("F10"@),
            KeyCode::F11 => Some("F11"@),
            KeyCode::F12 => Some("F12"@),
            KeyCode::BracketLeft => Some("BracketLeft"@),
            KeyCode::BracketRight => Some("BracketRight"@),
            KeyCode::Backslash => Some("Backslash"@),
            KeyCode::Semicolon => Some("Semicolon"@),
            KeyCode::Quote => Some("Quote"@),
            KeyCode::Comma => Some("Comma"@),
            KeyCode::Period => Some("Period"@),
            KeyCode::Slash => Some("Slash"@),
            KeyCode::Backquote => Some("Backquote"@),
            _ => None,
    }
}

/// A key can be bound exactly when it has a stored name.
pub open spec fn bindable(code: KeyCode) -> bool {
    code_name_spec(code) is Some
}

/// The stored name of a key; `Unknown` for one that has none.
pub open spec fn name_text(code: KeyCode) -> Seq<char> {
    match code_name_spec(code) {
        Some(name) => name,
        None => "Unknown"@,
    }
}

/// How a key is shown to the user: a symbol where it has one, else its name.
pub open spec fn label_text(code: KeyCode) -> Seq<char> {
    match code {
            KeyCode::ArrowRight => "Right"@,
            KeyCode::ArrowLeft => "Left"@,
            KeyCode::ArrowUp => "Up"@,
            KeyCode::ArrowDown => "Down"@,
            KeyCode::Equal => "="@,
            KeyCode::Minus => "-"@,
            KeyCode::BracketLeft => "["@,
            KeyCode::BracketRight => "]"@,
            KeyCode::Backslash => "\\"@,
            KeyCode::Semicolon => ";"@,
            KeyCode::Quote => "'"@,
            KeyCode::Comma => ","@,
            KeyCode::Period => "."@,
            KeyCode::Slash => "/"@,
            KeyCode::Backquote => "`"@,
            _ => name_text(code),
    }
}

/// The key stored under `name`, if there is one.
pub open spec fn code_named(name: Seq<char>) -> Option<KeyCode> {
    if exists|c: KeyCode| bindable(c) && name_text(c) == name {
        Some(choose|c: KeyCode| bindable(c) && name_text(c) == name)
    } else {
        None
    }
}

/// A number that tells the stored key names apart: built from a name's
/// length and its first, last and middle characters.
pub open spec fn name_mark(s: Seq<char>) -> int {
    ((s.len() * 128 + s[0] as int) * 128 + s[s.len() - 1] as int) * 128 + s[(s.len() / 2) as int] as int
}

/// The key whose stored name has the mark `n`.
pub open spec fn code_marked(n: int) -> KeyCode {
    if n == 22051410 {
        KeyCode::ArrowRight
    } else if n == 19954295 {
        KeyCode::ArrowLeft
    } else if n == 15759471 {
        KeyCode::ArrowUp
    } else if n == 19953527 {
        KeyCode::ArrowDown
    } else if n == 11630197 {
        KeyCode::Equal
    } else if n == 11762158 {
        KeyCode::Minus
    } else if n == 2889776 {
        KeyCode::Digit0
    } else if n == 2906289 {
        KeyCode::Digit1
    } else if n == 2922802 {
        KeyCode::Digit2
    } else if n == 2939315 {
        KeyCode::Digit3
    } else if n == 2955828 {
        KeyCode::Digit4
    } else if n == 2972341 {
        KeyCode::Digit5
    } else if n == 2988854 {
        KeyCode::Digit6
    } else if n == 3005367 {
        KeyCode::Digit7
    } else if n == 3021880 {
        KeyCode::Digit8
    } else if n == 3038393 {
        KeyCode::Digit9
    } else if n == 3170497 {
        KeyCode::KeyA
    } else if n == 3187010 {
        KeyCode::KeyB
    } else if n == 3203523 {
        KeyCode::KeyC
    } else if n == 3220036 {
        KeyCode::KeyD
    } else if n == 3236549 {
        KeyCode::KeyE
    } else if n == 3253062 {
        KeyCode::KeyF
    } else if n == 3269575 {
        KeyCode::KeyG
    } else if n == 3286088 {
        KeyCode::KeyH
    } else if n == 3302601 {
        KeyCode::KeyI
    } else if n == 3319114 {
        KeyCode::KeyJ
    } else if n == 3335627 {
        KeyCode::KeyK
    } else if n == 3352140 {
        KeyCode::KeyL
    } else if n == 3368653 {
        KeyCode::KeyM
    } else if n == 3385166 {
        KeyCode::KeyN
    } else if n == 3401679 {
        KeyCode::KeyO
    } else if n == 3418192 {
        KeyCode::KeyP
    } else if n == 3434705 {
        KeyCode::KeyQ
    } else if n == 3451218 {
        KeyCode::KeyR
    } else if n == 3467731 {
        KeyCode::KeyS
    } else if n == 3484244 {
        KeyCode::KeyT
    } else if n == 3500757 {
        KeyCode::KeyU
    } else if n == 3517270 {
        KeyCode::KeyV
    } else if n == 3533783 {
        KeyCode::KeyW
    } else if n == 3550296 {
        KeyCode::KeyX
    } else if n == 3566809 {
        KeyCode::KeyY
    } else if n == 3583322 {
        KeyCode::KeyZ
    } else if n == 11858657 {
        KeyCode::Space
    } else if n == 11630964 {
        KeyCode::Enter
    } else if n == 13726433 {
        KeyCode::Escape
    } else if n == 19968755 {
        KeyCode::Backspace
    } else if n == 7680353 {
        KeyCode::Tab
    } else if n == 13710053 {
        KeyCode::Delete
    } else if n == 9581293 {
        KeyCode::Home
    } else if n == 7434862 {
        KeyCode::End
    } else if n == 13908069 {
        KeyCode::PageUp
    } else if n == 18102084 {
        KeyCode::PageDown
    } else if n == 5347505 {
        KeyCode::F1
    } else if n == 5347634 {
        KeyCode::F2
    } else if n == 5347763 {
        KeyCode::F3
    } else if n == 5347892 {
        KeyCode::F4
    } else if n == 5348021 {
        KeyCode::F5
    } else if n == 5348150 {
        KeyCode::F6
    } else if n == 5348279 {
        KeyCode::F7
    } else if n == 5348408 {
        KeyCode::F8
    } else if n == 5348537 {
        KeyCode::F9
    } else if n == 7444529 {
        KeyCode::F10
    } else if n == 7444657 {
        KeyCode::F11
    } else if n == 7444785 {
        KeyCode::F12
    } else if n == 24164965 {
        KeyCode::BracketLeft
    } else if n == 26262132 {
        KeyCode::BracketRight
    } else if n == 19969139 {
        KeyCode::Backslash
    } else if n == 20248419 {
        KeyCode::Semicolon
    } else if n == 11825903 {
        KeyCode::Quote
    } else if n == 11596013 {
        KeyCode::Comma
    } else if n == 13906537 {
        KeyCode::Period
    } else if n == 11859041 {
        KeyCode::Slash
    } else if n == 19968753 {
        KeyCode::Backquote
    } else {
        KeyCode::Other(0)
    }
}

/// `s` holds no `+`.
pub open spec fn plus_free(s: Seq<char>) -> bool
    decreases s.len(),
{
    s.len() == 0 || (s[0] != '+' && plus_free(s.drop_first()))
}

/// What each stored name is made of: its mark leads back to its key, and it
/// holds no `+`.
proof fn lemma_name(c: KeyCode)
    requires
        bindable(c),
    ensures
        code_marked(name_mark(name_text(c))) == c,
        plus_free(name_text(c)),
        name_text(c).len() > 0,
{
    reveal_with_fuel(plus_free, 13);
    match c {
        KeyCode::ArrowRight => { reveal_strlit("ArrowRight"); },
        KeyCode::ArrowLeft => { reveal_strlit("ArrowLeft"); },
        KeyCode::ArrowUp => { reveal_strlit("ArrowUp"); },
        KeyCode::ArrowDown => { reveal_strlit("ArrowDown"); },
        KeyCode::Equal => { reveal_strlit("Equal"); },
        KeyCode::Minus => { reveal_strlit("Minus"); },
        KeyCode::Digit0 => { reveal_strlit("0"); },
        KeyCode::Digit1 => { reveal_strlit("1"); },
        KeyCode::Digit2 => { reveal_strlit("2"); },
        KeyCode::Digit3 => { reveal_strlit("3"); },
        KeyCode::Digit4 => { reveal_strlit("4"); },
        KeyCode::Digit5 => { reveal_strlit("5"); },
        KeyCode::Digit6 => { reveal_strlit("6"); },
        KeyCode::Digit7 => { reveal_strlit("7"); },
        KeyCode::Digit8 => { reveal_strlit("8"); },
        KeyCode::Digit9 => { reveal_strlit("9"); },
        KeyCode::KeyA => { reveal_strlit("A"); },
        KeyCode::KeyB => { reveal_strlit("B"); },
        KeyCode::KeyC => { reveal_strlit("C"); },
        KeyCode::KeyD => { reveal_strlit("D"); },
        KeyCode::KeyE => { reveal_strlit("E"); },
        KeyCode::KeyF => { reveal_strlit("F"); },
        KeyCode::KeyG => { reveal_strlit("G"); },
        KeyCode::KeyH => { reveal_strlit("H"); },
        KeyCode::KeyI => { reveal_strlit("I"); },
        KeyCode::KeyJ => { reveal_strlit("J"); },
        KeyCode::KeyK => { reveal_strlit("K"); },
        KeyCode::KeyL => { reveal_strlit("L"); },
        KeyCode::KeyM => { reveal_strlit("M"); },
        KeyCode::KeyN => { reveal_strlit("N"); },
        KeyCode::KeyO => { reveal_strlit("O"); },
        KeyCode::KeyP => { reveal_strlit("P"); },
        KeyCode::KeyQ => { reveal_strlit("Q"); },
        KeyCode::KeyR => { reveal_strlit("R"); },
        KeyCode::KeyS => { reveal_strlit("S"); },
        KeyCode::KeyT => { reveal_strlit("T"); },
        KeyCode::KeyU => { reveal_strlit("U"); },
        KeyCode::KeyV => { reveal_strlit("V"); },
        KeyCode::KeyW => { reveal_strlit("W"); },
        KeyCode::KeyX => { reveal_strlit("X"); },
        KeyCode::KeyY => { reveal_strlit("Y"); },
        KeyCode::KeyZ => { reveal_strlit("Z"); },
        KeyCode::Space => { reveal_strlit("Space"); },
        KeyCode::Enter => { reveal_strlit("Enter"); },
        KeyCode::Escape => { reveal_strlit("Escape"); },
        KeyCode::Backspace => { reveal_strlit("Backspace"); },
        KeyCode::Tab => { reveal_strlit("Tab"); },
        KeyCode::Delete => { reveal_strlit("Delete"); },
        KeyCode::Home => { reveal_strlit("Home"); },
        KeyCode::End => { reveal_strlit("End"); },
        KeyCode::PageUp => { reveal_strlit("PageUp"); },
        KeyCode::PageDown => { reveal_strlit("PageDown"); },
        KeyCode::F1 => { reveal_strlit("F1"); },
        KeyCode::F2 => { reveal_strlit("F2"); },
        KeyCode::F3 => { reveal_strlit("F3"); },
        KeyCode::F4 => { reveal_strlit("F4"); },
        KeyCode::F5 => { reveal_strlit("F5"); },
        KeyCode::F6 => { reveal_strlit("F6"); },
        KeyCode::F7 => { reveal_strlit("F7"); },
        KeyCode::F8 => { reveal_strlit("F8"); },
        KeyCode::F9 => { reveal_strlit("F9"); },
        KeyCode::F10 => { reveal_strlit("F10"); },
        KeyCode::F11 => { reveal_strlit("F11"); },
        KeyCode::F12 => { reveal_strlit("F12"); },
        KeyCode::BracketLeft => { reveal_strlit("BracketLeft"); },
        KeyCode::BracketRight => { reveal_strlit("BracketRight"); },
        KeyCode::Backslash => { reveal_strlit("Backslash"); },
        KeyCode::Semicolon => { reveal_strlit("Semicolon"); },
        KeyCode::Quote => { reveal_strlit("Quote"); },
        KeyCode::Comma => { reveal_strlit("Comma"); },
        KeyCode::Period => { reveal_strlit("Period"); },
        KeyCode::Slash => { reveal_strlit("Slash"); },
        KeyCode::Backquote => { reveal_strlit("Backquote"); },
        _ => {},
    }
}

/// No two keys are stored under one name.
pub proof fn lemma_names_differ(a: KeyCode, b: KeyCode)
    requires
        bindable(a),
        bindable(b),
        name_text(a) == name_text(b),
    ensures
        a == b,
{
    lemma_name(a);
    lemma_name(b);
}

proof fn lemma_code_named(name: Seq<char>, c: KeyCode)
    requires
        bindable(c),
        name_text(c) == name,
    ensures
        code_named(name) == Some(c),
{
    let d = choose|d: KeyCode| bindable(d) && name_text(d) == name;
    lemma_names_differ(c, d);
}

/// The name a key is stored under, or `Unknown`.
pub fn code_name(code: KeyCode) -> (name: &'static str)
    ensures
        name@ == name_text(code),
{
    match code {
            KeyCode::ArrowRight => "ArrowRight",
            KeyCode::ArrowLeft => "ArrowLeft",
            KeyCode::ArrowUp => "ArrowUp",
            KeyCode::ArrowDown => "ArrowDown",
            KeyCode::Equal => "Equal",
            KeyCode::Minus => "Minus",
            KeyCode::Digit0 => "0",
            KeyCode::Digit1 => "1",
            KeyCode::Digit2 => "2",
            KeyCode::Digit3 => "3",
            KeyCode::Digit4 => "4",
            KeyCode::Digit5 => "5",
            KeyCode::Digit6 => "6",
            KeyCode::Digit7 => "7",
            KeyCode::Digit8 => "8",
            KeyCode::Digit9 => "9",
            KeyCode::KeyA => "A",
            KeyCode::KeyB => "B",
            KeyCode::KeyC => "C",
            KeyCode::KeyD => "D",
            KeyCode::KeyE => "E",
            KeyCode::KeyF => "F",
            KeyCode::KeyG => "G",
            KeyCode::KeyH => "H",
            KeyCode::KeyI => "I",
            KeyCode::KeyJ => "J",
            KeyCode::KeyK => "K",
            KeyCode::KeyL => "L",
            KeyCode::KeyM => "M",
            KeyCode::KeyN => "N",
            KeyCode::KeyO => "O",
            KeyCode::KeyP => "P",
            KeyCode::KeyQ => "Q",
            KeyCode::KeyR => "R",
            KeyCode::KeyS => "S",
            KeyCode::KeyT => "T",
            KeyCode::KeyU => "U",
            KeyCode::KeyV => "V",
            KeyCode::KeyW => "W",
            KeyCode::KeyX => "X",
            KeyCode::KeyY => "Y",
            KeyCode::KeyZ => "Z",
            KeyCode::Space => "Space",
            KeyCode::Enter => "Enter",
            KeyCode::Escape => "Escape",
            KeyCode::Backspace => "Backspace",
            KeyCode::Tab => "Tab",
            KeyCode::Delete => "Delete",
            KeyCode::Home => "Home",
            KeyCode::End => "End",
            KeyCode::PageUp => "PageUp",
            KeyCode::PageDown => "PageDown",
            KeyCode::F1 => "F1",
            KeyCode::F2 => "F2",
            KeyCode::F3 => "F3",
            KeyCode::F4 => "F4",
            KeyCode::F5 => "F5",
            KeyCode::F6 => "F6",
            KeyCode::F7 => "F7",
            KeyCode::F8 => "F8",
            KeyCode::F9 => "F9",
            KeyCode::F10 => "F10",
            KeyCode::F11 => "F11",
            KeyCode::F12 => "F12",
            KeyCode::BracketLeft => "BracketLeft",
            KeyCode::BracketRight => "BracketRight",
            KeyCode::Backslash => "Backslash",
            KeyCode::Semicolon => "Semicolon",
            KeyCode::Quote => "Quote",
            KeyCode::Comma => "Comma",
            KeyCode::Period => "Period",
            KeyCode::Slash => "Slash",
            KeyCode::Backquote => "Backquote",
            _ => "Unknown",
    }
}

/// How a key is shown to the user.
pub fn code_label(code: KeyCode) -> (label: &'static str)
    ensures
        label@ == label_text(code),
{
    match code {
            KeyCode::ArrowRight => "Right",
            KeyCode::ArrowLeft => "Left",
            KeyCode::ArrowUp => "Up",
            KeyCode::ArrowDown => "Down",
            KeyCode::Equal => "=",
            KeyCode::Minus => "-",
            KeyCode::BracketLeft => "[",
            KeyCode::BracketRight => "]",
            KeyCode::Backslash => "\\",
            KeyCode::Semicolon => ";",
            KeyCode::Quote => "'",
            KeyCode::Comma => ",",
            KeyCode::Period => ".",
            KeyCode::Slash => "/",
            KeyCode::Backquote => "`",
            _ => code_name(code),
    }
}

/// The key stored under `name`, if any.
pub fn name_to_code(name: &str) -> (code: Option<KeyCode>)
    ensures
        code == code_named(name@),
{
    if same_text(name, "ArrowRight") {
        proof { lemma_code_named(name@, KeyCode::ArrowRight); }
        return Some(KeyCode::ArrowRight);
    }
    if same_text(name, "ArrowLeft") {
        proof { lemma_code_named(name@, KeyCode::ArrowLeft); }
        return Some(KeyCode::ArrowLeft);
    }
    if same_text(name, "ArrowUp") {
        proof { lemma_code_named(name@, KeyCode::ArrowUp); }
        return Some(KeyCode::ArrowUp);
    }
    if same_text(name, "ArrowDown") {
        proof { lemma_code_named(name@, KeyCode::ArrowDown); }
        return Some(KeyCode::ArrowDown);
    }
    if same_text(name, "Equal") {
        proof { lemma_code_named(name@, KeyCode::Equal); }
        return Some(KeyCode::Equal);
    }
    if same_text(name, "Minus") {
        proof { lemma_code_named(name@, KeyCode::Minus); }
        return Some(KeyCode::Minus);
    }
    if same_text(name, "0") {
        proof { lemma_code_named(name@, KeyCode::Digit0); }
        return Some(KeyCode::Digit0);
    }
    if same_text(name, "1") {
        proof { lemma_code_named(name@, KeyCode::Digit1); }
        return Some(KeyCode::Digit1);
    }
    if same_text(name, "2") {
        proof { lemma_code_named(name@, KeyCode::Digit2); }
        return Some(KeyCode::Digit2);
    }
    if same_text(name, "3") {
        proof { lemma_code_named(name@, KeyCode::Digit3); }
        return Some(KeyCode::Digit3);
    }
    if same_text(name, "4") {
        proof { lemma_code_named(name@, KeyCode::Digit4); }
        return Some(KeyCode::Digit4);
    }
    if same_text(name, "5") {
        proof { lemma_code_named(name@, KeyCode::Digit5); }
        return Some(KeyCode::Digit5);
    }
    if same_text(name, "6") {
        proof { lemma_code_named(name@, KeyCode::Digit6); }
        return Some(KeyCode::Digit6);
    }
    if same_text(name, "7") {
        proof { lemma_code_named(name@, KeyCode::Digit7); }
        return Some(KeyCode::Digit7);
    }
    if same_text(name, "8") {
        proof { lemma_code_named(name@, KeyCode::Digit8); }
        return Some(KeyCode::Digit8);
    }
    if same_text(name, "9") {
        proof { lemma_code_named(name@, KeyCode::Digit9); }
        return Some(KeyCode::Digit9);
    }
    if same_text(name, "A") {
        proof { lemma_code_named(name@, KeyCode::KeyA); }
        return Some(KeyCode::KeyA);
    }
    if same_text(name, "B") {
        proof { lemma_code_named(name@, KeyCode::KeyB); }
        return Some(KeyCode::KeyB);
    }
    if same_text(name, "C") {
        proof { lemma_code_named(name@, KeyCode::KeyC); }
        return Some(KeyCode::KeyC);
    }
    if same_text(name, "D") {
        proof { lemma_code_named(name@, KeyCode::KeyD); }
        return Some(KeyCode::KeyD);
    }
    if same_text(name, "E") {
        proof { lemma_code_named(name@, KeyCode::KeyE); }
        return Some(KeyCode::KeyE);
    }
    if same_text(name, "F") {
        proof { lemma_code_named(name@, KeyCode::KeyF); }
        return Some(KeyCode::KeyF);
    }
    if same_text(name, "G") {
        proof { lemma_code_named(name@, KeyCode::KeyG); }
        return Some(KeyCode::KeyG);
    }
    if same_text(name, "H") {
        proof { lemma_code_named(name@, KeyCode::KeyH); }
        return Some(KeyCode::KeyH);
    }
    if same_text(name, "I") {
        proof { lemma_code_named(name@, KeyCode::KeyI); }
        return Some(KeyCode::KeyI);
    }
    if same_text(name, "J") {
        proof { lemma_code_named(name@, KeyCode::KeyJ); }
        return Some(KeyCode::KeyJ);
    }
    if same_text(name, "K") {
        proof { lemma_code_named(name@, KeyCode::KeyK); }
        return Some(KeyCode::KeyK);
    }
    if same_text(name, "L") {
        proof { lemma_code_named(name@, KeyCode::KeyL); }
        return Some(KeyCode::KeyL);
    }
    if same_text(name, "M") {
        proof { lemma_code_named(name@, KeyCode::KeyM); }
        return Some(KeyCode::KeyM);
    }
    if same_text(name, "N") {
        proof { lemma_code_named(name@, KeyCode::KeyN); }
        return Some(KeyCode::KeyN);
    }
    if same_text(name, "O") {
        proof { lemma_code_named(name@, KeyCode::KeyO); }
        return Some(KeyCode::KeyO);
    }
    if same_text(name, "P") {
        proof { lemma_code_named(name@, KeyCode::KeyP); }
        return Some(KeyCode::KeyP);
    }
    if same_text(name, "Q") {
        proof { lemma_code_named(name@, KeyCode::KeyQ); }
        return Some(KeyCode::KeyQ);
    }
    if same_text(name, "R") {
        proof { lemma_code_named(name@, KeyCode::KeyR); }
        return Some(KeyCode::KeyR);
    }
    if same_text(name, "S") {
        proof { lemma_code_named(name@, KeyCode::KeyS); }
        return Some(KeyCode::KeyS);
    }
    if same_text(name, "T") {
        proof { lemma_code_named(name@, KeyCode::KeyT); }
        return Some(KeyCode::KeyT);
    }
    if same_text(name, "U") {
        proof { lemma_code_named(name@, KeyCode::KeyU); }
        return Some(KeyCode::KeyU);
    }
    if same_text(name, "V") {
        proof { lemma_code_named(name@, KeyCode::KeyV); }
        return Some(KeyCode::KeyV);
    }
    if same_text(name, "W") {
        proof { lemma_code_named(name@, KeyCode::KeyW); }
        return Some(KeyCode::KeyW);
    }
    if same_text(name, "X") {
        proof { lemma_code_named(name@, KeyCode::KeyX); }
        return Some(KeyCode::KeyX);
    }
    if same_text(name, "Y") {
        proof { lemma_code_named(name@, KeyCode::KeyY); }
        return Some(KeyCode::KeyY);
    }
    if same_text(name, "Z") {
        proof { lemma_code_named(name@, KeyCode::KeyZ); }
        return Some(KeyCode::KeyZ);
    }
    if same_text(name, "Space") {
        proof { lemma_code_named(name@, KeyCode::Space); }
        return Some(KeyCode::Space);
    }
    if same_text(name, "Enter") {
        proof { lemma_code_named(name@, KeyCode::Enter); }
        return Some(KeyCode::Enter);
    }
    if same_text(name, "Escape") {
        proof { lemma_code_named(name@, KeyCode::Escape); }
        return Some(KeyCode::Escape);
    }
    if same_text(name, "Backspace") {
        proof { lemma_code_named(name@, KeyCode::Backspace); }
        return Some(KeyCode::Backspace);
    }
    if same_text(name, "Tab") {
        proof { lemma_code_named(name@, KeyCode::Tab); }
        return Some(KeyCode::Tab);
    }
    if same_text(name, "Delete") {
        proof { lemma_code_named(name@, KeyCode::Delete); }
        return Some(KeyCode::Delete);
    }
    if same_text(name, "Home") {
        proof { lemma_code_named(name@, KeyCode::Home); }
        return Some(KeyCode::Home);
    }
    if same_text(name, "End") {
        proof { lemma_code_named(name@, KeyCode::End); }
        return Some(KeyCode::End);
    }
    if same_text(name, "PageUp") {
        proof { lemma_code_named(name@, KeyCode::PageUp); }
        return Some(KeyCode::PageUp);
    }
    if same_text(name, "PageDown") {
        proof { lemma_code_named(name@, KeyCode::PageDown); }
        return Some(KeyCode::PageDown);
    }
    if same_text(name, "F1") {
        proof { lemma_code_named(name@, KeyCode::F1); }
        return Some(KeyCode::F1);
    }
    if same_text(name, "F2") {
        proof { lemma_code_named(name@, KeyCode::F2); }
        return Some(KeyCode::F2);
    }
    if same_text(name, "F3") {
        proof { lemma_code_named(name@, KeyCode::F3); }
        return Some(KeyCode::F3);
    }
    if same_text(name, "F4") {
        proof { lemma_code_named(name@, KeyCode::F4); }
        return Some(KeyCode::F4);
    }
    if same_text(name, "F5") {
        proof { lemma_code_named(name@, KeyCode::F5); }
        return Some(KeyCode::F5);
    }
    if same_text(name, "F6") {
        proof { lemma_code_named(name@, KeyCode::F6); }
        return Some(KeyCode::F6);
    }
    if same_text(name, "F7") {
        proof { lemma_code_named(name@, KeyCode::F7); }
        return Some(KeyCode::F7);
    }
    if same_text(name, "F8") {
        proof { lemma_code_named(name@, KeyCode::F8); }
        return Some(KeyCode::F8);
    }
    if same_text(name, "F9") {
        proof { lemma_code_named(name@, KeyCode::F9); }
        return Some(KeyCode::F9);
    }
    if same_text(name, "F10") {
        proof { lemma_code_named(name@, KeyCode::F10); }
        return Some(KeyCode::F10);
    }
    if same_text(name, "F11") {
        proof { lemma_code_named(name@, KeyCode::F11); }
        return Some(KeyCode::F11);
    }
    if same_text(name, "F12") {
        proof { lemma_code_named(name@, KeyCode::F12); }
        return Some(KeyCode::F12);
    }
    if same_text(name, "BracketLeft") {
        proof { lemma_code_named(name@, KeyCode::BracketLeft); }
        return Some(KeyCode::BracketLeft);
    }
    if same_text(name, "BracketRight") {
        proof { lemma_code_named(name@, KeyCode::BracketRight); }
        return Some(KeyCode::BracketRight);
    }
    if same_text(name, "Backslash") {
        proof { lemma_code_named(name@, KeyCode::Backslash); }
        return Some(KeyCode::Backslash);
    }
    if same_text(name, "Semicolon") {
        proof { lemma_code_named(name@, KeyCode::Semicolon); }
        return Some(KeyCode::Semicolon);
    }
    if same_text(name, "Quote") {
        proof { lemma_code_named(name@, KeyCode::Quote); }
        return Some(KeyCode::Quote);
    }
    if same_text(name, "Comma") {
        proof { lemma_code_named(name@, KeyCode::Comma); }
        return Some(KeyCode::Comma);
    }
    if same_text(name, "Period") {
        proof { lemma_code_named(name@, KeyCode::Period); }
        return Some(KeyCode::Period);
    }
    if same_text(name, "Slash") {
        proof { lemma_code_named(name@, KeyCode::Slash); }
        return Some(KeyCode::Slash);
    }
    if same_text(name, "Backquote") {
        proof { lemma_code_named(name@, KeyCode::Backquote); }
        return Some(KeyCode::Backquote);
    }
    None
}

/// Whether a key can be bound: only a key with a stored name can be, or the
/// binding would not survive being saved.
pub fn is_bindable(code: KeyCode) -> (can: bool)
    ensures
        can == bindable(code),
{
    match code {
        KeyCode::ArrowRight | KeyCode::ArrowLeft | KeyCode::ArrowUp | KeyCode::ArrowDown | KeyCode::Equal | KeyCode::Minus | KeyCode::Digit0 | KeyCode::Digit1 | KeyCode::Digit2 | KeyCode::Digit3 | KeyCode::Digit4 | KeyCode::Digit5 | KeyCode::Digit6 | KeyCode::Digit7 | KeyCode::Digit8 | KeyCode::Digit9 | KeyCode::KeyA | KeyCode::KeyB | KeyCode::KeyC | KeyCode::KeyD | KeyCode::KeyE | KeyCode::KeyF | KeyCode::KeyG | KeyCode::KeyH | KeyCode::KeyI | KeyCode::KeyJ | KeyCode::KeyK | KeyCode::KeyL | KeyCode::KeyM | KeyCode::KeyN | KeyCode::KeyO | KeyCode::KeyP | KeyCode::KeyQ | KeyCode::KeyR | KeyCode::KeyS | KeyCode::KeyT | KeyCode::KeyU | KeyCode::KeyV | KeyCode::KeyW | KeyCode::KeyX | KeyCode::KeyY | KeyCode::KeyZ | KeyCode::Space | KeyCode::Enter | KeyCode::Escape | KeyCode::Backspace | KeyCode::Tab | KeyCode::Delete | KeyCode::Home | KeyCode::End | KeyCode::PageUp | KeyCode::PageDown | KeyCode::F1 | KeyCode::F2 | KeyCode::F3 | KeyCode::F4 | KeyCode::F5 | KeyCode::F6 | KeyCode::F7 | KeyCode::F8 | KeyCode::F9 | KeyCode::F10 | KeyCode::F11 | KeyCode::F12 | KeyCode::BracketLeft | KeyCode::BracketRight | KeyCode::Backslash | KeyCode::Semicolon | KeyCode::Quote | KeyCode::Comma | KeyCode::Period | KeyCode::Slash | KeyCode::Backquote => true,
        _ => false,
    }
}

pub open spec fn modifier_key(code: KeyCode) -> bool {
    ||| code == KeyCode::ControlLeft
    ||| code == KeyCode::ControlRight
    ||| code == KeyCode::ShiftLeft
    ||| code == KeyCode::ShiftRight
    ||| code == KeyCode::AltLeft
    ||| code == KeyCode::AltRight
    ||| code == KeyCode::SuperLeft
    ||| code == KeyCode::SuperRight
}

/// Whether a key is a modifier, which is never bound on its own.
pub fn is_modifier(code: KeyCode) -> (modifier: bool)
    ensures
        modifier == modifier_key(code),
{
    match code {
        KeyCode::ControlLeft | KeyCode::ControlRight | KeyCode::ShiftLeft | KeyCode::ShiftRight
        | KeyCode::AltLeft | KeyCode::AltRight | KeyCode::SuperLeft | KeyCode::SuperRight => true,
        _ => false,
    }
}

/// The keys that have a stored name, in the order of the name table.
pub open spec fn named_codes_spec() -> Seq<KeyCode> {
    seq![KeyCode::ArrowRight, KeyCode::ArrowLeft, KeyCode::ArrowUp, KeyCode::ArrowDown, KeyCode::Equal, KeyCode::Minus, KeyCode::Digit0, KeyCode::Digit1, KeyCode::Digit2, KeyCode::Digit3, KeyCode::Digit4, KeyCode::Digit5, KeyCode::Digit6, KeyCode::Digit7, KeyCode::Digit8, KeyCode::Digit9, KeyCode::KeyA, KeyCode::KeyB, KeyCode::KeyC, KeyCode::KeyD, KeyCode::KeyE, KeyCode::KeyF, KeyCode::KeyG, KeyCode::KeyH, KeyCode::KeyI, KeyCode::KeyJ, KeyCode::KeyK, KeyCode::KeyL, KeyCode::KeyM, KeyCode::KeyN, KeyCode::KeyO, KeyCode::KeyP, KeyCode::KeyQ, KeyCode::KeyR, KeyCode::KeyS, KeyCode::KeyT, KeyCode::KeyU, KeyCode::KeyV, KeyCode::KeyW, KeyCode::KeyX, KeyCode::KeyY, KeyCode::KeyZ, KeyCode::Space, KeyCode::Enter, KeyCode::Escape, KeyCode::Backspace, KeyCode::Tab, KeyCode::Delete, KeyCode::Home, KeyCode::End, KeyCode::PageUp, KeyCode::PageDown, KeyCode::F1, KeyCode::F2, KeyCode::F3, KeyCode::F4, KeyCode::F5, KeyCode::F6, KeyCode::F7, KeyCode::F8, KeyCode::F9, KeyCode::F10, KeyCode::F11, KeyCode::F12, KeyCode::BracketLeft, KeyCode::BracketRight, KeyCode::Backslash, KeyCode::Semicolon, KeyCode::Quote, KeyCode::Comma, KeyCode::Period, KeyCode::Slash, KeyCode::Backquote]
}

/// The keys that can be bound, in the order of the name table.
pub fn named_codes() -> (codes: Vec<KeyCode>)
    ensures
        codes@ == named_codes_spec(),
{
    let codes = vec![KeyCode::ArrowRight, KeyCode::ArrowLeft, KeyCode::ArrowUp, KeyCode::ArrowDown, KeyCode::Equal, KeyCode::Minus, KeyCode::Digit0, KeyCode::Digit1, KeyCode::Digit2, KeyCode::Digit3, KeyCode::Digit4, KeyCode::Digit5, KeyCode::Digit6, KeyCode::Digit7, KeyCode::Digit8, KeyCode::Digit9, KeyCode::KeyA, KeyCode::KeyB, KeyCode::KeyC, KeyCode::KeyD, KeyCode::KeyE, KeyCode::KeyF, KeyCode::KeyG, KeyCode::KeyH, KeyCode::KeyI, KeyCode::KeyJ, KeyCode::KeyK, KeyCode::KeyL, KeyCode::KeyM, KeyCode::KeyN, KeyCode::KeyO, KeyCode::KeyP, KeyCode::KeyQ, KeyCode::KeyR, KeyCode::KeyS, KeyCode::KeyT, KeyCode::KeyU, KeyCode::KeyV, KeyCode::KeyW, KeyCode::KeyX, KeyCode::KeyY, KeyCode::KeyZ, KeyCode::Space, KeyCode::Enter, KeyCode::Escape, KeyCode::Backspace, KeyCode::Tab, KeyCode::Delete, KeyCode::Home, KeyCode::End, KeyCode::PageUp, KeyCode::PageDown, KeyCode::F1, KeyCode::F2, KeyCode::F3, KeyCode::F4, KeyCode::F5, KeyCode::F6, KeyCode::F7, KeyCode::F8, KeyCode::F9, KeyCode::F10, KeyCode::F11, KeyCode::F12, KeyCode::BracketLeft, KeyCode::BracketRight, KeyCode::Backslash, KeyCode::Semicolon, KeyCode::Quote, KeyCode::Comma, KeyCode::Period, KeyCode::Slash, KeyCode::Backquote];
    proof { assert(codes@ =~= named_codes_spec()); }
    codes
}


/// A key with the modifiers that must be held with it, exactly.
#[derive(Debug, Clone, Copy, PartialEq, Eq, Hash, Structural)]
pub struct KeyBinding {
    pub ctrl: bool,
    pub shift: bool,
    pub alt: bool,
    pub code: KeyCode,
}

/// Whether a press fires a binding: the same key, and the same modifiers
/// held, no more and no fewer.
pub open spec fn fires(binding: KeyBinding, physical: Physical, modifiers: Modifiers) -> bool {
    &&& physical == Physical::Code(binding.code)
    &&& modifiers.ctrl == binding.ctrl
    &&& modifiers.shift == binding.shift
    &&& modifiers.alt == binding.alt
}

/// The modifiers of a binding as text: `Ctrl+`, `Shift+`, `Alt+`, in that
/// order, each where it is held.
pub open spec fn modifier_text(binding: KeyBinding) -> Seq<char> {
    (if binding.ctrl { "Ctrl+"@ } else { Seq::empty() }) + (if binding.shift { "Shift+"@ } else {
        Seq::empty()
    }) + (if binding.alt { "Alt+"@ } else { Seq::empty() })
}

/// A binding as it is stored.
pub open spec fn stored_text(binding: KeyBinding) -> Seq<char> {
    modifier_text(binding) + name_text(binding.code)
}

/// A binding as it is shown.
pub open spec fn shown_text(binding: KeyBinding) -> Seq<char> {
    modifier_text(binding) + label_text(binding.code)
}

/// How many characters of `text` come before its first `+`, or all of them.
pub open spec fn head_len(text: Seq<char>) -> nat
    decreases text.len(),
{
    if text.len() == 0 || text[0] == '+' {
        0
    } else {
        1 + head_len(text.drop_first())
    }
}

proof fn lemma_head_len(text: Seq<char>, n: nat)
    requires
        n <= text.len(),
        forall|k: int| 0 <= k < n ==> text[k] != '+',
        n == text.len() || text[n as int] == '+',
    ensures
        head_len(text) == n,
    decreases n,
{
    if n > 0 {
        lemma_head_len(text.drop_first(), (n - 1) as nat);
    }
}

/// The part before the first `+` is never longer than the text.
pub proof fn lemma_head_len_bound(text: Seq<char>)
    ensures
        head_len(text) <= text.len(),
    decreases text.len(),
{
    if text.len() > 0 && text[0] != '+' {
        lemma_head_len_bound(text.drop_first());
    }
}

proof fn lemma_plus_free_head(text: Seq<char>)
    requires
        plus_free(text),
    ensures
        head_len(text) == text.len(),
    decreases text.len(),
{
    if text.len() > 0 {
        lemma_plus_free_head(text.drop_first());
    }
}

/// What reading `text` gives, with the modifiers read so far: leading parts
/// `Ctrl`, `Shift` and `Alt` (split at `+`) set their modifier, then one key
/// name must end the text.
pub open spec fn parse_from(text: Seq<char>, ctrl: bool, shift: bool, alt: bool) -> Option<KeyBinding>
    decreases text.len(),
{
    let n = head_len(text);
    let head = text.take(n as int);
    if n < text.len() {
        proof {
            lemma_head_len_bound(text);
        }
        let rest = text.skip(n + 1 as int);
        if head == "Ctrl"@ {
            parse_from(rest, true, shift, alt)
        } else if head == "Shift"@ {
            parse_from(rest, ctrl, true, alt)
        } else if head == "Alt"@ {
            parse_from(rest, ctrl, shift, true)
        } else {
            None
        }
    } else {
        match code_named(head) {
            Some(code) => Some(KeyBinding { ctrl, shift, alt, code }),
            None => None,
        }
    }
}

/// What reading a binding from `text` gives.
pub open spec fn parsed(text: Seq<char>) -> Option<KeyBinding> {
    parse_from(text, false, false, false)
}

impl KeyBinding {
    /// A key with no modifier.
    pub fn plain(code: KeyCode) -> (binding: Self)
        ensures
            binding == (KeyBinding { ctrl: false, shift: false, alt: false, code }),
    {
        KeyBinding { ctrl: false, shift: false, alt: false, code }
    }

    /// Whether a press fires this binding.
    pub fn matches(self, physical: Physical, modifiers: Modifiers) -> (fired: bool)
        ensures
            fired == fires(self, physical, modifiers),
    {
        match physical {
            Physical::Code(code) => code == self.code && modifiers.control() == self.ctrl
                && modifiers.shift() == self.shift && modifiers.alt() == self.alt,
            Physical::Unidentified => false,
        }
    }

    fn modifiers_text(self) -> (text: String)
        ensures
            text@ == modifier_text(self),
    {
        let mut text = String::new();
        if self.ctrl {
            text.append("Ctrl+");
        }
        if self.shift {
            text.append("Shift+");
        }
        if self.alt {
            text.append("Alt+");
        }
        proof {
            assert(modifier_text(self) =~= Seq::<char>::empty() + (if self.ctrl { "Ctrl+"@ } else {
                Seq::empty()
            }) + (if self.shift { "Shift+"@ } else { Seq::empty() }) + (if self.alt { "Alt+"@ } else {
                Seq::empty()
            }));
        }
        text
    }

    /// The binding as it is stored, such as `Ctrl+Shift+J`.
    pub fn stored(self) -> (text: String)
        ensures
            text@ == stored_text(self),
    {
        let mut text = self.modifiers_text();
        text.append(code_name(self.code));
        text
    }

    /// The binding as it is shown, with symbols for the punctuation keys.
    pub fn shown(self) -> (text: String)
        ensures
            text@ == shown_text(self),
    {
        let mut text = self.modifiers_text();
        text.append(code_label(self.code));
        text
    }

    /// Reads a binding back from its stored text.
    pub fn parse(text: &str) -> (binding: Option<Self>)
        ensures
            binding == parsed(text@),
    {
        let len = text.unicode_len();
        let mut start: usize = 0;
        let mut ctrl = false;
        let mut shift = false;
        let mut alt = false;
        proof {
            assert(text@.skip(0) =~= text@);
        }
        loop
            invariant
                start <= len,
                len == text@.len(),
                parse_from(text@.skip(start as int), ctrl, shift, alt) == parsed(text@),
            decreases len - start,
        {
            let mut end = start;
            while end < len && text.get_char(end) != '+'
                invariant
                    start <= end <= len,
                    len == text@.len(),
                    forall|k: int| start <= k < end ==> text@[k] != '+',
                decreases len - end,
            {
                end += 1;
            }
            let ghost rest = text@.skip(start as int);
            proof {
                lemma_head_len(rest, (end - start) as nat);
                assert(rest.take((end - start) as int) =~= text@.subrange(start as int, end as int));
            }
            let part = text.substring_char(start, end);
            if end < len {
                if same_text(part, "Ctrl") {
                    ctrl = true;
                } else if same_text(part, "Shift") {
                    shift = true;
                } else if same_text(part, "Alt") {
                    alt = true;
                } else {
                    return None;
                }
                proof {
                    assert(rest.skip(end - start + 1) =~= text@.skip(end + 1));
                }
                start = end + 1;
            } else {
                return match name_to_code(part) {
                    Some(code) => Some(KeyBinding { ctrl, shift, alt, code }),
                    None => None,
                };
            }
        }
    }
}

/// A bindable key comes back from its stored text as the binding it was, with
/// any modifiers.
pub proof fn lemma_stored_parses(binding: KeyBinding)
    requires
        bindable(binding.code),
    ensures
        parsed(stored_text(binding)) == Some(binding),
{
    let name = name_text(binding.code);
    lemma_name(binding.code);
    lemma_plus_free_head(name);
    lemma_code_named(name, binding.code);
    reveal_strlit("Ctrl+");
    reveal_strlit("Shift+");
    reveal_strlit("Alt+");
    reveal_strlit("Ctrl");
    reveal_strlit("Shift");
    reveal_strlit("Alt");
    let alt_part = if binding.alt { "Alt+"@ } else { Seq::empty() };
    let shift_part = if binding.shift { "Shift+"@ } else { Seq::empty() };
    let ctrl_part = if binding.ctrl { "Ctrl+"@ } else { Seq::empty() };
    let t3 = alt_part + name;
    let t2 = shift_part + t3;
    let t1 = ctrl_part + t2;
    assert(stored_text(binding) =~= t1);
    assert(parse_from(name, binding.ctrl, binding.shift, binding.alt) == Some(binding)) by {
        assert(name.take(name.len() as int) =~= name);
    }
    if binding.alt {
        lemma_head_len(t3, 3);
        assert(t3.take(3) =~= "Alt"@);
        assert(t3.skip(4) =~= name);
    } else {
        assert(t3 =~= name);
    }
    assert(parse_from(t3, binding.ctrl, binding.shift, false) == Some(binding));
    if binding.shift {
        lemma_head_len(t2, 5);
        assert(t2.take(5) =~= "Shift"@);
        assert(t2.skip(6) =~= t3);
    } else {
        assert(t2 =~= t3);
    }
    assert(parse_from(t2, binding.ctrl, false, false) == Some(binding));
    if binding.ctrl {
        lemma_head_len(t1, 4);
        assert(t1.take(4) =~= "Ctrl"@);
        assert(t1.skip(5) =~= t2);
    } else {
        assert(t1 =~= t2);
    }
}


/// Something a shortcut can do.
#[derive(Debug, Clone, Copy, PartialEq, Eq, Hash, Structural)]
pub enum Action {
    PlayPause,
    Next,
    Previous,
    ToggleMute,
    VolumeUp,
    VolumeDown,
    CycleLoop,
    Shuffle,
    ToggleEditMode,
    TogglePreferences,
    SelectLayout(u8),
}

/// The groups actions are listed under.
#[derive(Debug, Clone, Copy, PartialEq, Eq, Structural)]
pub enum KeyCategory {
    Playback,
    Interface,
    Layouts,
}

impl KeyCategory {
    pub open spec fn all_spec() -> Seq<KeyCategory> {
        seq![KeyCategory::Playback, KeyCategory::Interface, KeyCategory::Layouts]
    }

    /// Every category, in the order they are listed.
    pub fn all() -> (all: Vec<KeyCategory>)
        ensures
            all@ == Self::all_spec(),
    {
        let all = vec![KeyCategory::Playback, KeyCategory::Interface, KeyCategory::Layouts];
        proof { assert(all@ =~= Self::all_spec()); }
        all
    }

    pub open spec fn label_spec(self) -> Seq<char> {
        match self {
            KeyCategory::Playback => "Playback"@,
            KeyCategory::Interface => "Interface"@,
            KeyCategory::Layouts => "Layouts"@,
        }
    }

    pub fn label(self) -> (label: &'static str)
        ensures
            label@ == self.label_spec(),
    {
        match self {
            KeyCategory::Playback => "Playback",
            KeyCategory::Interface => "Interface",
            KeyCategory::Layouts => "Layouts",
        }
    }
}

/// The actions a keymap lists: every fixed one, and one layout slot for each
/// preset from 1 up to [`LAYOUT_SLOTS`].
pub open spec fn listed(action: Action) -> bool {
    match action {
        Action::SelectLayout(slot) => 1 <= slot <= LAYOUT_SLOTS,
        _ => true,
    }
}

/// Every listed action, in the order they are shown.
pub open spec fn all_actions() -> Seq<Action> {
    seq![
        Action::PlayPause,
        Action::Next,
        Action::Previous,
        Action::ToggleMute,
        Action::VolumeUp,
        Action::VolumeDown,
        Action::CycleLoop,
        Action::Shuffle,
        Action::ToggleEditMode,
        Action::TogglePreferences,
    ] + Seq::new(LAYOUT_SLOTS as nat, |i: int| Action::SelectLayout((i + 1) as u8))
}

/// Where an action stands in a keymap: the fixed actions first, in the order
/// they are shown, then the layout slots by number.
pub open spec fn rank(action: Action) -> int {
    match action {
        Action::PlayPause => 0,
        Action::Next => 1,
        Action::Previous => 2,
        Action::ToggleMute => 3,
        Action::VolumeUp => 4,
        Action::VolumeDown => 5,
        Action::CycleLoop => 6,
        Action::Shuffle => 7,
        Action::ToggleEditMode => 8,
        Action::TogglePreferences => 9,
        Action::SelectLayout(slot) => 10 + slot,
    }
}

/// How many places a keymap has: one for every action there can be.
pub const ACTION_SPACE: usize = 266;

/// The action at place `i` of a keymap.
pub open spec fn action_at(i: int) -> Action {
    if i == 0 {
        Action::PlayPause
    } else if i == 1 {
        Action::Next
    } else if i == 2 {
        Action::Previous
    } else if i == 3 {
        Action::ToggleMute
    } else if i == 4 {
        Action::VolumeUp
    } else if i == 5 {
        Action::VolumeDown
    } else if i == 6 {
        Action::CycleLoop
    } else if i == 7 {
        Action::Shuffle
    } else if i == 8 {
        Action::ToggleEditMode
    } else if i == 9 {
        Action::TogglePreferences
    } else {
        Action::SelectLayout((i - 10) as u8)
    }
}

pub proof fn lemma_rank(action: Action)
    ensures
        0 <= rank(action) < ACTION_SPACE,
        action_at(rank(action)) == action,
{
}

/// The key a layout slot is bound to by default: the number row, `1` to `9`
/// and then `0`.
pub open spec fn slot_digit(slot: u8) -> KeyCode {
    if slot == 1 {
        KeyCode::Digit1
    } else if slot == 2 {
        KeyCode::Digit2
    } else if slot == 3 {
        KeyCode::Digit3
    } else if slot == 4 {
        KeyCode::Digit4
    } else if slot == 5 {
        KeyCode::Digit5
    } else if slot == 6 {
        KeyCode::Digit6
    } else if slot == 7 {
        KeyCode::Digit7
    } else if slot == 8 {
        KeyCode::Digit8
    } else if slot == 9 {
        KeyCode::Digit9
    } else {
        KeyCode::Digit0
    }
}

/// The key each action is bound to by default.
pub open spec fn default_code(action: Action) -> KeyCode {
    match action {
        Action::PlayPause => KeyCode::Space,
        Action::Next => KeyCode::ArrowRight,
        Action::Previous => KeyCode::ArrowLeft,
        Action::ToggleMute => KeyCode::KeyM,
        Action::VolumeUp => KeyCode::ArrowUp,
        Action::VolumeDown => KeyCode::ArrowDown,
        Action::CycleLoop => KeyCode::KeyR,
        Action::Shuffle => KeyCode::KeyH,
        Action::ToggleEditMode => KeyCode::KeyE,
        Action::TogglePreferences => KeyCode::KeyS,
        Action::SelectLayout(slot) => slot_digit(slot),
    }
}

pub open spec fn plain_binding(code: KeyCode) -> KeyBinding {
    KeyBinding { ctrl: false, shift: false, alt: false, code }
}

/// The bindings a fresh keymap holds: every listed action on its default key.
pub open spec fn default_bindings() -> Map<Action, KeyBinding> {
    Map::new(|action: Action| listed(action), |action: Action| plain_binding(default_code(action)))
}

impl Action {
    pub open spec fn label_spec(self) -> Seq<char> {
        match self {
            Action::PlayPause => "Play / pause"@,
            Action::Next => "Next track"@,
            Action::Previous => "Previous track"@,
            Action::ToggleMute => "Mute"@,
            Action::VolumeUp => "Volume up"@,
            Action::VolumeDown => "Volume down"@,
            Action::CycleLoop => "Cycle loop mode"@,
            Action::Shuffle => "Shuffle queue"@,
            Action::ToggleEditMode => "Edit mode"@,
            Action::TogglePreferences => "Preferences"@,
            Action::SelectLayout(slot) => "Switch to layout "@ + decimal(slot as nat),
        }
    }

    /// What the action is called in the list of shortcuts.
    pub fn label(self) -> (label: String)
        ensures
            label@ == self.label_spec(),
    {
        match self {
            Action::PlayPause => String::from_str("Play / pause"),
            Action::Next => String::from_str("Next track"),
            Action::Previous => String::from_str("Previous track"),
            Action::ToggleMute => String::from_str("Mute"),
            Action::VolumeUp => String::from_str("Volume up"),
            Action::VolumeDown => String::from_str("Volume down"),
            Action::CycleLoop => String::from_str("Cycle loop mode"),
            Action::Shuffle => String::from_str("Shuffle queue"),
            Action::ToggleEditMode => String::from_str("Edit mode"),
            Action::TogglePreferences => String::from_str("Preferences"),
            Action::SelectLayout(slot) => {
                let mut label = String::from_str("Switch to layout ");
                push_decimal(&mut label, slot as u64);
                label
            },
        }
    }

    pub open spec fn description_spec(self) -> Seq<char> {
        match self {
            Action::PlayPause => "Start or pause the current track"@,
            Action::Next => "Skip to the next track in the queue"@,
            Action::Previous => "Go back to the previous track"@,
            Action::ToggleMute => "Silence playback without losing the volume level"@,
            Action::VolumeUp => "Raise the volume a step, unmuting if muted"@,
            Action::VolumeDown => "Lower the volume a step, unmuting if muted"@,
            Action::CycleLoop => "Cycle through off, repeat queue, and repeat track"@,
            Action::Shuffle => "Shuffle the tracks waiting in the queue"@,
            Action::ToggleEditMode => "Show the pane handles, split buttons, and locks"@,
            Action::TogglePreferences => "Open or close this preferences view"@,
            Action::SelectLayout(_) => "Switch to a saved layout preset"@,
        }
    }

    /// A sentence on what the action does.
    pub fn description(self) -> (text: &'static str)
        ensures
            text@ == self.description_spec(),
    {
        match self {
            Action::PlayPause => "Start or pause the current track",
            Action::Next => "Skip to the next track in the queue",
            Action::Previous => "Go back to the previous track",
            Action::ToggleMute => "Silence playback without losing the volume level",
            Action::VolumeUp => "Raise the volume a step, unmuting if muted",
            Action::VolumeDown => "Lower the volume a step, unmuting if muted",
            Action::CycleLoop => "Cycle through off, repeat queue, and repeat track",
            Action::Shuffle => "Shuffle the tracks waiting in the queue",
            Action::ToggleEditMode => "Show the pane handles, split buttons, and locks",
            Action::TogglePreferences => "Open or close this preferences view",
            Action::SelectLayout(_) => "Switch to a saved layout preset",
        }
    }

    pub open spec fn category_spec(self) -> KeyCategory {
        match self {
            Action::ToggleEditMode | Action::TogglePreferences => KeyCategory::Interface,
            Action::SelectLayout(_) => KeyCategory::Layouts,
            _ => KeyCategory::Playback,
        }
    }

    /// The group the action is listed under.
    pub fn category(self) -> (category: KeyCategory)
        ensures
            category == self.category_spec(),
    {
        match self {
            Action::PlayPause | Action::Next | Action::Previous | Action::ToggleMute | Action::VolumeUp
            | Action::VolumeDown | Action::CycleLoop | Action::Shuffle => KeyCategory::Playback,
            Action::ToggleEditMode | Action::TogglePreferences => KeyCategory::Interface,
            Action::SelectLayout(_) => KeyCategory::Layouts,
        }
    }

    /// Every listed action, in the order they are shown.
    pub fn all() -> (all: Vec<Action>)
        ensures
            all@ == all_actions(),
    {
        let mut all = vec![
            Action::PlayPause,
            Action::Next,
            Action::Previous,
            Action::ToggleMute,
            Action::VolumeUp,
            Action::VolumeDown,
            Action::CycleLoop,
            Action::Shuffle,
            Action::ToggleEditMode,
            Action::TogglePreferences,
        ];
        let mut slot: u8 = 1;
        while slot <= LAYOUT_SLOTS
            invariant
                1 <= slot <= LAYOUT_SLOTS + 1,
                all@ =~= all_actions().take(9 + slot),
            decreases LAYOUT_SLOTS + 1 - slot,
        {
            all.push(Action::SelectLayout(slot));
            slot += 1;
        }
        proof { assert(all_actions().take(20) =~= all_actions()); }
        all
    }

    pub open spec fn key_spec(self) -> Seq<char> {
        match self {
            Action::PlayPause => "play_pause"@,
            Action::Next => "next"@,
            Action::Previous => "previous"@,
            Action::ToggleMute => "toggle_mute"@,
            Action::VolumeUp => "volume_up"@,
            Action::VolumeDown => "volume_down"@,
            Action::CycleLoop => "cycle_loop"@,
            Action::Shuffle => "shuffle"@,
            Action::ToggleEditMode => "toggle_edit_mode"@,
            Action::TogglePreferences => "toggle_preferences"@,
            Action::SelectLayout(slot) => "select_layout_"@ + decimal(slot as nat),
        }
    }

    /// The name the action is stored under.
    pub fn key(self) -> (key: String)
        ensures
            key@ == self.key_spec(),
    {
        match self {
            Action::PlayPause => String::from_str("play_pause"),
            Action::Next => String::from_str("next"),
            Action::Previous => String::from_str("previous"),
            Action::ToggleMute => String::from_str("toggle_mute"),
            Action::VolumeUp => String::from_str("volume_up"),
            Action::VolumeDown => String::from_str("volume_down"),
            Action::CycleLoop => String::from_str("cycle_loop"),
            Action::Shuffle => String::from_str("shuffle"),
            Action::ToggleEditMode => String::from_str("toggle_edit_mode"),
            Action::TogglePreferences => String::from_str("toggle_preferences"),
            Action::SelectLayout(slot) => {
                let mut key = String::from_str("select_layout_");
                push_decimal(&mut key, slot as u64);
                key
            },
        }
    }

    fn place(self) -> (place: usize)
        ensures
            place == rank(self),
            place < ACTION_SPACE,
    {
        match self {
            Action::PlayPause => 0,
            Action::Next => 1,
            Action::Previous => 2,
            Action::ToggleMute => 3,
            Action::VolumeUp => 4,
            Action::VolumeDown => 5,
            Action::CycleLoop => 6,
            Action::Shuffle => 7,
            Action::ToggleEditMode => 8,
            Action::TogglePreferences => 9,
            Action::SelectLayout(slot) => 10 + slot as usize,
        }
    }

    fn at(place: usize) -> (action: Action)
        requires
            place < ACTION_SPACE,
        ensures
            action == action_at(place as int),
            rank(action) == place,
    {
        if place == 0 {
            Action::PlayPause
        } else if place == 1 {
            Action::Next
        } else if place == 2 {
            Action::Previous
        } else if place == 3 {
            Action::ToggleMute
        } else if place == 4 {
            Action::VolumeUp
        } else if place == 5 {
            Action::VolumeDown
        } else if place == 6 {
            Action::CycleLoop
        } else if place == 7 {
            Action::Shuffle
        } else if place == 8 {
            Action::ToggleEditMode
        } else if place == 9 {
            Action::TogglePreferences
        } else {
            Action::SelectLayout((place - 10) as u8)
        }
    }
}

/// The action whose stored name has the mark `n`.
pub open spec fn action_marked(n: int) -> Action {
    if n == 22819568 {
        Action::PlayPause
    } else if n == 10205816 {
        Action::Next
    } else if n == 18627049 {
        Action::Previous
    } else if n == 24982245 {
        Action::ToggleMute
    } else if n == 20822125 {
        Action::VolumeUp
    } else if n == 25016165 {
        Action::VolumeDown
    } else if n == 22607967 {
        Action::CycleLoop
    } else if n == 16577254 {
        Action::Shuffle
    } else if n == 35468004 {
        Action::ToggleEditMode
    } else if n == 39664101 {
        Action::TogglePreferences
    } else if n == 33347820 {
        Action::SelectLayout(1)
    } else if n == 33347948 {
        Action::SelectLayout(2)
    } else if n == 33348076 {
        Action::SelectLayout(3)
    } else if n == 33348204 {
        Action::SelectLayout(4)
    } else if n == 33348332 {
        Action::SelectLayout(5)
    } else if n == 33348460 {
        Action::SelectLayout(6)
    } else if n == 33348588 {
        Action::SelectLayout(7)
    } else if n == 33348716 {
        Action::SelectLayout(8)
    } else if n == 33348844 {
        Action::SelectLayout(9)
    } else if n == 35444833 {
        Action::SelectLayout(10)
    } else {
        Action::SelectLayout(0)
    }
}

proof fn lemma_key(action: Action)
    requires
        listed(action),
    ensures
        action_marked(name_mark(action.key_spec())) == action,
{
    reveal_strlit("play_pause");
    reveal_strlit("next");
    reveal_strlit("previous");
    reveal_strlit("toggle_mute");
    reveal_strlit("volume_up");
    reveal_strlit("volume_down");
    reveal_strlit("cycle_loop");
    reveal_strlit("shuffle");
    reveal_strlit("toggle_edit_mode");
    reveal_strlit("toggle_preferences");
    reveal_strlit("select_layout_");
    reveal_with_fuel(decimal, 2);
    if let Action::SelectLayout(slot) = action {
        assert(slot == 1 || slot == 2 || slot == 3 || slot == 4 || slot == 5 || slot == 6 || slot == 7
            || slot == 8 || slot == 9 || slot == 10);
    }
}

/// No two listed actions are stored under one name.
pub proof fn lemma_keys_differ(a: Action, b: Action)
    requires
        listed(a),
        listed(b),
        a.key_spec() == b.key_spec(),
    ensures
        a == b,
{
    lemma_key(a);
    lemma_key(b);
}


/// `m` with `action` bound to `binding`, and `binding` taken from every other
/// action that held it.
pub open spec fn rebound(m: Map<Action, KeyBinding>, action: Action, binding: KeyBinding) -> Map<
    Action,
    KeyBinding,
> {
    Map::new(
        |x: Action| x == action || (m.contains_key(x) && m[x] != binding),
        |x: Action| if x == action { binding } else { m[x] },
    )
}

/// The actions other than `action` that hold `binding` in `m`, among the
/// first `n` places, in the order of their places.
pub open spec fn clashes(m: Map<Action, KeyBinding>, action: Action, binding: KeyBinding, n: int) -> Seq<
    Action,
>
    decreases n,
{
    if n <= 0 {
        Seq::empty()
    } else {
        let x = action_at(n - 1);
        let before = clashes(m, action, binding, n - 1);
        if x != action && m.contains_key(x) && m[x] == binding {
            before.push(x)
        } else {
            before
        }
    }
}

/// No two actions of `m` share a binding.
pub open spec fn one_action_per_binding(m: Map<Action, KeyBinding>) -> bool {
    forall|x: Action, y: Action|
        m.contains_key(x) && m.contains_key(y) && #[trigger] m[x] == #[trigger] m[y] ==> x == y
}

/// What the first `n` places list as clashing is every action there that
/// holds `binding` besides `action`, each once, by place.
pub proof fn lemma_clashes(m: Map<Action, KeyBinding>, action: Action, binding: KeyBinding, n: int)
    requires
        0 <= n <= ACTION_SPACE,
    ensures
        forall|x: Action| #[trigger] clashes(m, action, binding, n).contains(x) <==> (rank(x) < n && x != action
            && m.contains_key(x) && m[x] == binding),
        forall|i: int, j: int|
            0 <= i < j < clashes(m, action, binding, n).len() ==> rank(clashes(m, action, binding, n)[i]) < rank(
                clashes(m, action, binding, n)[j],
            ),
        forall|i: int| 0 <= i < clashes(m, action, binding, n).len() ==> rank(clashes(m, action, binding, n)[i]) < n,
    decreases n,
{
    if n > 0 {
        lemma_clashes(m, action, binding, n - 1);
        let x = action_at(n - 1);
        let before = clashes(m, action, binding, n - 1);
        assert(rank(x) == n - 1);
        let now = clashes(m, action, binding, n);
        assert forall|y: Action| #[trigger] now.contains(y) <==> (rank(y) < n && y != action && m.contains_key(y)
            && m[y] == binding) by {
            lemma_rank(y);
            if now.contains(y) {
                let i = choose|i: int| 0 <= i < now.len() && now[i] == y;
                if i < before.len() {
                    assert(before[i] == y);
                    assert(before.contains(y));
                }
            }
            if rank(y) < n && y != action && m.contains_key(y) && m[y] == binding {
                if rank(y) < n - 1 {
                    assert(before.contains(y));
                    let i = choose|i: int| 0 <= i < before.len() && before[i] == y;
                    assert(now[i] == y);
                } else {
                    assert(y == x);
                    assert(now[now.len() - 1] == y);
                }
            }
        }
    }
}

/// Which key does each action: one place for every action there can be,
/// holding its binding or nothing.
#[derive(Debug, Clone, Copy, PartialEq, Eq)]
pub struct Keymap {
    places: [Option<KeyBinding>; ACTION_SPACE],
}

impl View for Keymap {
    type V = Map<Action, KeyBinding>;

    closed spec fn view(&self) -> Map<Action, KeyBinding> {
        Map::new(|a: Action| self.places@[rank(a)] is Some, |a: Action| self.places@[rank(a)]->0)
    }
}

impl Keymap {
    /// The binding `action` holds, if any.
    pub fn binding(&self, action: Action) -> (binding: Option<KeyBinding>)
        ensures
            binding == if self@.contains_key(action) { Some(self@[action]) } else { None },
    {
        self.places[action.place()]
    }

    /// The action a press fires: of the actions whose binding it fires, the
    /// one listed first.
    pub fn resolve(&self, physical: Physical, modifiers: Modifiers) -> (action: Option<Action>)
        ensures
            match action {
                Some(x) => {
                    &&& self@.contains_key(x)
                    &&& fires(self@[x], physical, modifiers)
                    &&& forall|y: Action|
                        #![trigger self@[y]]
                        self@.contains_key(y) && rank(y) < rank(x) ==> !fires(self@[y], physical, modifiers)
                },
                None => forall|y: Action| #[trigger] self@.contains_key(y) ==> !fires(self@[y], physical, modifiers),
            },
    {
        let mut place: usize = 0;
        while place < ACTION_SPACE
            invariant
                place <= ACTION_SPACE,
                forall|y: Action|
                    #![trigger self@[y]]
                    self@.contains_key(y) && rank(y) < place ==> !fires(self@[y], physical, modifiers),
            decreases ACTION_SPACE - place,
        {
            if let Some(held) = self.places[place] {
                if held.matches(physical, modifiers) {
                    let action = Action::at(place);
                    return Some(action);
                }
            }
            proof {
                assert forall|y: Action|
                    #![trigger self@[y]]
                    self@.contains_key(y) && rank(y) < place + 1 implies !fires(self@[y], physical, modifiers) by {
                    lemma_rank(y);
                }
            }
            place += 1;
        }
        proof {
            assert forall|y: Action| #[trigger] self@.contains_key(y) implies !fires(self@[y], physical, modifiers) by {
                lemma_rank(y);
            }
        }
        None
    }

    /// Binds `action` to `binding`, taking `binding` from every other action
    /// that held it; answers those actions, in the order they are listed.
    pub fn set(&mut self, action: Action, binding: KeyBinding) -> (displaced: Vec<Action>)
        ensures
            final(self)@ == rebound(old(self)@, action, binding),
            displaced@ == clashes(old(self)@, action, binding, ACTION_SPACE as int),
            forall|x: Action| #[trigger] displaced@.contains(x) <==> (x != action && old(self)@.contains_key(x)
                && old(self)@[x] == binding),
    {
        let ghost before = self@;
        let target = action.place();
        let mut places = self.places;
        let ghost start = places@;
        let mut displaced: Vec<Action> = Vec::new();
        let mut place: usize = 0;
        while place < ACTION_SPACE
            invariant
                place <= ACTION_SPACE,
                target == rank(action),
                places@.len() == ACTION_SPACE,
                start.len() == ACTION_SPACE,
                forall|a: Action| #[trigger] start[rank(a)] == if before.contains_key(a) { Some(before[a]) } else { None },
                forall|i: int|
                    0 <= i < place && i != target ==> places@[i] == if start[i] == Some(binding) { None } else {
                        start[i]
                    },
                forall|i: int| (place <= i < ACTION_SPACE || i == target) ==> places@[i] == start[i],
                displaced@ == clashes(before, action, binding, place as int),
            decreases ACTION_SPACE - place,
        {
            let ghost x = action_at(place as int);
            proof {
                lemma_rank(x);
                assert(rank(x) == place) by {
                    assert(action_at(place as int) == x);
                }
                lemma_rank(action);
                assert(start[rank(x)] == if before.contains_key(x) { Some(before[x]) } else { None });
                assert((x == action) == (place == target));
            }
            if place != target {
                if let Some(held) = places[place] {
                    if held == binding {
                        places[place] = None;
                        displaced.push(Action::at(place));
                    }
                }
            }
            place += 1;
        }
        places[target] = Some(binding);
        self.places = places;
        proof {
            lemma_clashes(before, action, binding, ACTION_SPACE as int);
            assert forall|a: Action| #[trigger] self.places@[rank(a)] == if rebound(before, action, binding).contains_key(a) {
                Some(rebound(before, action, binding)[a])
            } else {
                None
            } by {
                lemma_rank(a);
            }
            assert(self@ =~= rebound(before, action, binding));
            assert forall|x: Action| #[trigger] displaced@.contains(x) <==> (x != action && before.contains_key(x)
                && before[x] == binding) by {
                lemma_rank(x);
            }
        }
        displaced
    }

    /// Unbinds `action`.
    pub fn clear(&mut self, action: Action)
        ensures
            final(self)@ == old(self)@.remove(action),
    {
        let ghost before = self@;
        let target = action.place();
        self.places[target] = None;
        proof {
            assert forall|a: Action| #[trigger] self@.contains_key(a) == before.remove(action).contains_key(a) by {
                lemma_rank(a);
                lemma_rank(action);
            }
            assert(self@ =~= before.remove(action));
        }
    }
}


impl Action {
    fn is_listed(self) -> (is: bool)
        ensures
            is == listed(self),
    {
        match self {
            Action::SelectLayout(slot) => 1 <= slot && slot <= LAYOUT_SLOTS,
            _ => true,
        }
    }

    fn default_code(self) -> (code: KeyCode)
        ensures
            code == default_code(self),
    {
        match self {
            Action::PlayPause => KeyCode::Space,
            Action::Next => KeyCode::ArrowRight,
            Action::Previous => KeyCode::ArrowLeft,
            Action::ToggleMute => KeyCode::KeyM,
            Action::VolumeUp => KeyCode::ArrowUp,
            Action::VolumeDown => KeyCode::ArrowDown,
            Action::CycleLoop => KeyCode::KeyR,
            Action::Shuffle => KeyCode::KeyH,
            Action::ToggleEditMode => KeyCode::KeyE,
            Action::TogglePreferences => KeyCode::KeyS,
            Action::SelectLayout(slot) => if slot == 1 {
                KeyCode::Digit1
            } else if slot == 2 {
                KeyCode::Digit2
            } else if slot == 3 {
                KeyCode::Digit3
            } else if slot == 4 {
                KeyCode::Digit4
            } else if slot == 5 {
                KeyCode::Digit5
            } else if slot == 6 {
                KeyCode::Digit6
            } else if slot == 7 {
                KeyCode::Digit7
            } else if slot == 8 {
                KeyCode::Digit8
            } else if slot == 9 {
                KeyCode::Digit9
            } else {
                KeyCode::Digit0
            },
        }
    }
}

impl Default for Keymap {
    /// Every listed action on its default key.
    fn default() -> (keymap: Self)
        ensures
            keymap@ == default_bindings(),
    {
        let mut places: [Option<KeyBinding>; ACTION_SPACE] = [None; 266];
        let mut place: usize = 0;
        while place < ACTION_SPACE
            invariant
                place <= ACTION_SPACE,
                forall|i: int|
                    0 <= i < place ==> places@[i] == if listed(action_at(i)) {
                        Some(plain_binding(default_code(action_at(i))))
                    } else {
                        None
                    },
            decreases ACTION_SPACE - place,
        {
            let action = Action::at(place);
            if action.is_listed() {
                places[place] = Some(KeyBinding::plain(action.default_code()));
            } else {
                places[place] = None;
            }
            place += 1;
        }
        let keymap = Keymap { places };
        proof {
            assert forall|a: Action| #[trigger] keymap@.contains_key(a) == default_bindings().contains_key(a) by {
                lemma_rank(a);
            }
            assert(keymap@ =~= default_bindings());
        }
        keymap
    }
}

/// Each entry of a keymap file over the one before: a later entry for the
/// same name replaces an earlier one.
pub open spec fn file_map(entries: Seq<(String, String)>) -> Map<Seq<char>, Seq<char>>
    decreases entries.len(),
{
    if entries.len() == 0 {
        Map::empty()
    } else {
        file_map(entries.drop_last()).insert(entries.last().0@, entries.last().1@)
    }
}

/// A keymap as it is saved: a table from action name to binding text.
#[derive(Debug, Clone)]
pub struct KeymapFile {
    entries: Vec<(String, String)>,
}

impl View for KeymapFile {
    type V = Map<Seq<char>, Seq<char>>;

    closed spec fn view(&self) -> Map<Seq<char>, Seq<char>> {
        file_map(self.entries@)
    }
}

impl Default for KeymapFile {
    /// A table with no entries.
    fn default() -> (file: Self)
        ensures
            file@ == Map::<Seq<char>, Seq<char>>::empty(),
    {
        KeymapFile { entries: Vec::new() }
    }
}

impl KeymapFile {
    /// Files `value` under `name`, in place of what was there.
    pub fn insert(&mut self, name: String, value: String)
        ensures
            final(self)@ == old(self)@.insert(name@, value@),
    {
        let ghost before = self.entries@;
        self.entries.push((name, value));
        proof {
            assert(self.entries@.drop_last() =~= before);
        }
    }

    /// The text filed under `name`, if any.
    pub fn get(&self, name: &str) -> (value: Option<&str>)
        ensures
            match value {
                Some(text) => self@.contains_key(name@) && self@[name@] == text@,
                None => !self@.contains_key(name@),
            },
    {
        let mut end = self.entries.len();
        proof {
            assert(self.entries@.take(end as int) =~= self.entries@);
        }
        while end > 0
            invariant
                end <= self.entries@.len(),
                file_map(self.entries@).contains_key(name@) == file_map(self.entries@.take(end as int)).contains_key(
                    name@,
                ),
                file_map(self.entries@).contains_key(name@) ==> file_map(self.entries@)[name@] == file_map(
                    self.entries@.take(end as int),
                )[name@],
            decreases end,
        {
            let ghost shorter = self.entries@.take(end - 1);
            proof {
                assert(self.entries@.take(end as int).drop_last() =~= shorter);
            }
            if same_text(self.entries[end - 1].0.as_str(), name) {
                return Some(self.entries[end - 1].1.as_str());
            }
            end -= 1;
        }
        proof {
            assert(self.entries@.take(0) =~= Seq::<(String, String)>::empty());
        }
        None
    }
}

/// The text a binding is saved as: its stored text, or nothing for an
/// action that holds no binding.
pub open spec fn saved_text(m: Map<Action, KeyBinding>, action: Action) -> Seq<char> {
    if m.contains_key(action) {
        stored_text(m[action])
    } else {
        Seq::empty()
    }
}

/// A keymap as it is saved, for the listed actions among the first `n`
/// places.
pub open spec fn saved_upto(m: Map<Action, KeyBinding>, n: int) -> Map<Seq<char>, Seq<char>> {
    Map::new(
        |name: Seq<char>| exists|a: Action| listed(a) && rank(a) < n && a.key_spec() == name,
        |name: Seq<char>| saved_text(m, choose|a: Action| listed(a) && a.key_spec() == name),
    )
}

/// A keymap as it is saved: an entry for every listed action.
pub open spec fn saved(m: Map<Action, KeyBinding>) -> Map<Seq<char>, Seq<char>> {
    saved_upto(m, ACTION_SPACE as int)
}

/// What an action is bound to after loading `file`: its default where the
/// file has no entry for it, nothing where the entry is empty, and otherwise
/// what the entry reads as, or nothing if it cannot be read.
pub open spec fn loaded_binding(file: Map<Seq<char>, Seq<char>>, action: Action) -> Option<KeyBinding> {
    if !file.contains_key(action.key_spec()) {
        Some(plain_binding(default_code(action)))
    } else if file[action.key_spec()].len() == 0 {
        None
    } else {
        parsed(file[action.key_spec()])
    }
}

/// A keymap as it is loaded from `file`.
pub open spec fn loaded(file: Map<Seq<char>, Seq<char>>) -> Map<Action, KeyBinding> {
    Map::new(
        |a: Action| listed(a) && loaded_binding(file, a) is Some,
        |a: Action| loaded_binding(file, a)->0,
    )
}

proof fn lemma_saved_step(m: Map<Action, KeyBinding>, n: int)
    requires
        0 <= n < ACTION_SPACE,
        listed(action_at(n)),
    ensures
        saved_upto(m, n + 1) == saved_upto(m, n).insert(action_at(n).key_spec(), saved_text(m, action_at(n))),
{
    let x = action_at(n);
    assert(rank(x) == n);
    let grown = saved_upto(m, n).insert(x.key_spec(), saved_text(m, x));
    assert forall|name: Seq<char>| #[trigger] saved_upto(m, n + 1).contains_key(name) == grown.contains_key(name) by {
        if saved_upto(m, n + 1).contains_key(name) {
            let a = choose|a: Action| listed(a) && rank(a) < n + 1 && a.key_spec() == name;
            if rank(a) == n {
                lemma_rank(a);
            }
        }
    }
    assert forall|name: Seq<char>| saved_upto(m, n + 1).contains_key(name) implies #[trigger] saved_upto(m, n + 1)[name]
        == grown[name] by {
        if name == x.key_spec() {
            let c = choose|a: Action| listed(a) && a.key_spec() == name;
            lemma_keys_differ(c, x);
        }
    }
    assert(saved_upto(m, n + 1) =~= grown);
}

impl KeymapFile {
    /// The table a keymap is saved as: an entry for every listed action, the
    /// stored text of its binding or nothing where it holds none.
    pub fn from_keymap(keymap: &Keymap) -> (file: KeymapFile)
        ensures
            file@ == saved(keymap@),
    {
        let mut file = KeymapFile::default();
        let mut place: usize = 0;
        proof {
            assert(saved_upto(keymap@, 0) =~= Map::<Seq<char>, Seq<char>>::empty());
        }
        while place < ACTION_SPACE
            invariant
                place <= ACTION_SPACE,
                file@ == saved_upto(keymap@, place as int),
            decreases ACTION_SPACE - place,
        {
            let action = Action::at(place);
            if action.is_listed() {
                let text = match keymap.binding(action) {
                    Some(binding) => binding.stored(),
                    None => String::new(),
                };
                file.insert(action.key(), text);
                proof {
                    lemma_saved_step(keymap@, place as int);
                }
            } else {
                proof {
                    assert forall|name: Seq<char>| #[trigger] saved_upto(keymap@, place + 1).contains_key(name)
                        == saved_upto(keymap@, place as int).contains_key(name) by {
                        if saved_upto(keymap@, place + 1).contains_key(name) {
                            let a = choose|a: Action| listed(a) && rank(a) < place + 1 && a.key_spec() == name;
                            lemma_rank(a);
                        }
                    }
                    assert(saved_upto(keymap@, place + 1) =~= saved_upto(keymap@, place as int));
                }
            }
            place += 1;
        }
        file
    }
}

impl Keymap {
    /// The keymap a table loads as: each listed action on its default key
    /// where the table has no entry for it, unbound where the entry is empty,
    /// and on what the entry reads as otherwise, or unbound if it cannot be
    /// read. Entries for names that are no action's are ignored.
    pub fn from_file(file: &KeymapFile) -> (keymap: Keymap)
        ensures
            keymap@ == loaded(file@),
    {
        let mut places: [Option<KeyBinding>; ACTION_SPACE] = [None; 266];
        let mut place: usize = 0;
        while place < ACTION_SPACE
            invariant
                place <= ACTION_SPACE,
                forall|i: int|
                    0 <= i < place ==> places@[i] == if listed(action_at(i)) {
                        loaded_binding(file@, action_at(i))
                    } else {
                        None
                    },
            decreases ACTION_SPACE - place,
        {
            let action = Action::at(place);
            if action.is_listed() {
                let key = action.key();
                places[place] = match file.get(key.as_str()) {
                    None => Some(KeyBinding::plain(action.default_code())),
                    Some(text) => if text.is_empty() {
                        None
                    } else {
                        KeyBinding::parse(text)
                    },
                };
            } else {
                places[place] = None;
            }
            place += 1;
        }
        let keymap = Keymap { places };
        proof {
            assert forall|a: Action| #[trigger] keymap@.contains_key(a) == loaded(file@).contains_key(a) by {
                lemma_rank(a);
            }
            assert forall|a: Action| keymap@.contains_key(a) implies #[trigger] keymap@[a] == loaded(file@)[a] by {
                lemma_rank(a);
            }
            assert(keymap@ =~= loaded(file@));
        }
        keymap
    }
}

/// Saving a keymap and loading it again gives back the same keymap, for any
/// keymap whose actions are listed ones bound to keys that can be bound.
pub proof fn lemma_saved_then_loaded(m: Map<Action, KeyBinding>)
    requires
        forall|a: Action| #[trigger] m.contains_key(a) ==> listed(a) && bindable(m[a].code),
    ensures
        loaded(saved(m)) == m,
{
    let file = saved(m);
    assert forall|a: Action| #[trigger] loaded(file).contains_key(a) == m.contains_key(a) && (m.contains_key(a)
        ==> loaded(file)[a] == m[a]) by {
        lemma_rank(a);
        if listed(a) {
            assert(file.contains_key(a.key_spec()));
            let c = choose|c: Action| listed(c) && c.key_spec() == a.key_spec();
            lemma_keys_differ(c, a);
            if m.contains_key(a) {
                lemma_stored_parses(m[a]);
                lemma_name(m[a].code);
            }
        }
    }
    assert(loaded(file) =~= m);
}

/// A file with no entries loads as the default keymap.
pub proof fn lemma_empty_file_loads_defaults()
    ensures
        loaded(Map::empty()) == default_bindings(),
{
    assert(loaded(Map::empty()) =~= default_bindings());
}

/// In the default keymap no two actions share a key, and every key can be
/// bound.
pub proof fn lemma_defaults_distinct()
    ensures
        one_action_per_binding(default_bindings()),
        forall|a: Action| #[trigger] default_bindings().contains_key(a) ==> bindable(default_bindings()[a].code),
{
}

/// Rebinding an action never leaves two actions sharing a key, where none did
/// before.
pub proof fn lemma_rebound_distinct(m: Map<Action, KeyBinding>, action: Action, binding: KeyBinding)
    requires
        one_action_per_binding(m),
    ensures
        one_action_per_binding(rebound(m, action, binding)),
{
}

/// The keymap out of the box binds each action to a key with no modifier:
/// Space plays or pauses, the left and right arrows step back and forward,
/// the up and down arrows change the volume, M mutes, R cycles the loop mode,
/// H shuffles, E toggles edit mode, S opens the preferences, and the digits
/// 1 to 9, then 0, switch to layouts 1 to 10.
pub proof fn lemma_default_keys(slot: u8)
    ensures
        default_bindings()[Action::PlayPause] == (KeyBinding { ctrl: false, shift: false, alt: false, code: KeyCode::Space }),
        default_bindings()[Action::Next] == (KeyBinding { ctrl: false, shift: false, alt: false, code: KeyCode::ArrowRight }),
        default_bindings()[Action::Previous] == (KeyBinding { ctrl: false, shift: false, alt: false, code: KeyCode::ArrowLeft }),
        default_bindings()[Action::ToggleMute] == (KeyBinding { ctrl: false, shift: false, alt: false, code: KeyCode::KeyM }),
        default_bindings()[Action::VolumeUp] == (KeyBinding { ctrl: false, shift: false, alt: false, code: KeyCode::ArrowUp }),
        default_bindings()[Action::VolumeDown] == (KeyBinding { ctrl: false, shift: false, alt: false, code: KeyCode::ArrowDown }),
        default_bindings()[Action::CycleLoop] == (KeyBinding { ctrl: false, shift: false, alt: false, code: KeyCode::KeyR }),
        default_bindings()[Action::Shuffle] == (KeyBinding { ctrl: false, shift: false, alt: false, code: KeyCode::KeyH }),
        default_bindings()[Action::ToggleEditMode] == (KeyBinding { ctrl: false, shift: false, alt: false, code: KeyCode::KeyE }),
        default_bindings()[Action::TogglePreferences] == (KeyBinding { ctrl: false, shift: false, alt: false, code: KeyCode::KeyS }),
        default_bindings()[Action::SelectLayout(1)].code == KeyCode::Digit1,
        default_bindings()[Action::SelectLayout(2)].code == KeyCode::Digit2,
        default_bindings()[Action::SelectLayout(3)].code == KeyCode::Digit3,
        default_bindings()[Action::SelectLayout(4)].code == KeyCode::Digit4,
        default_bindings()[Action::SelectLayout(5)].code == KeyCode::Digit5,
        default_bindings()[Action::SelectLayout(6)].code == KeyCode::Digit6,
        default_bindings()[Action::SelectLayout(7)].code == KeyCode::Digit7,
        default_bindings()[Action::SelectLayout(8)].code == KeyCode::Digit8,
        default_bindings()[Action::SelectLayout(9)].code == KeyCode::Digit9,
        default_bindings()[Action::SelectLayout(10)].code == KeyCode::Digit0,
        1 <= slot <= 10 ==> {
            &&& default_bindings().contains_key(Action::SelectLayout(slot))
            &&& !default_bindings()[Action::SelectLayout(slot)].ctrl
            &&& !default_bindings()[Action::SelectLayout(slot)].shift
            &&& !default_bindings()[Action::SelectLayout(slot)].alt
        },
        default_bindings().contains_key(Action::PlayPause),
        default_bindings().contains_key(Action::ToggleMute),
        default_bindings().contains_key(Action::Shuffle),
        default_bindings().contains_key(Action::CycleLoop),
{
}

/// In the keymap out of the box a press of M alone fires the mute and
/// nothing else, and H alone fires the shuffle and nothing else.
pub proof fn lemma_default_m_mutes_h_shuffles(action: Action, modifiers: Modifiers)
    requires
        default_bindings().contains_key(action),
        !modifiers.ctrl && !modifiers.shift && !modifiers.alt,
    ensures
        fires(default_bindings()[action], Physical::Code(KeyCode::KeyM), modifiers) <==> action == Action::ToggleMute,
        fires(default_bindings()[action], Physical::Code(KeyCode::KeyH), modifiers) <==> action == Action::Shuffle,
        fires(default_bindings()[action], Physical::Code(KeyCode::KeyR), modifiers) <==> action == Action::CycleLoop,
{
}

} // verus!
