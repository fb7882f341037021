//! The actions a user can trigger, and the keys that trigger them.

use std::collections::HashMap;
use vstd::prelude::*;

verus! {

/// What a key press can ask of the program.
#[derive(Clone, Copy, PartialEq, Eq, Structural, Hash, Debug)]
pub enum Action {
    ClearPoints,
    PlaceNodes,
    PlaceRods,
    PlaceTriangles,
    Delete,
    MoveCamUp,
    MoveCameDown,
    MoveCamLeft,
    MoveCamRight,
    ZoomIn,
    ZoomOut,
    SwitchScene,
    NewCraft,
}

/// A key of the keyboard.
#[derive(Clone, Copy, PartialEq, Eq, Structural, Hash, Debug)]
pub enum Key {
    Space,
    Apostrophe,
    Comma,
    Minus,
    Period,
    Slash,
    Key0,
    Key1,
    Key2,
    Key3,
    Key4,
    Key5,
    Key6,
    Key7,
    Key8,
    Key9,
    Semicolon,
    Equal,
    A,
    B,
    C,
    D,
    E,
    F,
    G,
    H,
    I,
    J,
    K,
    L,
    M,
    N,
    O,
    P,
    Q,
    R,
    S,
    T,
    U,
    V,
    W,
    X,
    Y,
    Z,
    LeftBracket,
    Backslash,
    RightBracket,
    GraveAccent,
    World1,
    World2,
    Escape,
    Enter,
    Tab,
    Backspace,
    Insert,
    Delete,
    Right,
    Left,
    Down,
    Up,
    PageUp,
    PageDown,
    Home,
    End,
    CapsLock,
    ScrollLock,
    NumLock,
    PrintScreen,
    Pause,
    F1,
    F2,
    F3,
    F4,
    F5,
    F6,
    F7,
    F8,
    F9,
    F10,
    F11,
    F12,
    F13,
    F14,
    F15,
    F16,
    F17,
    F18,
    F19,
    F20,
    F21,
    F22,
    F23,
    F24,
    F25,
    Kp0,
    Kp1,
    Kp2,
    Kp3,
    Kp4,
    Kp5,
    Kp6,
    Kp7,
    Kp8,
    Kp9,
    KpDecimal,
    KpDivide,
    KpMultiply,
    KpSubtract,
    KpAdd,
    KpEnter,
    KpEqual,
    LeftShift,
    LeftControl,
    LeftAlt,
    LeftSuper,
    RightShift,
    RightControl,
    RightAlt,
    RightSuper,
    Menu,
    Back,
    Unknown,
}

/// The number under which the key of `action` is kept: each action has a
/// number of its own.
pub open spec fn code(action: Action) -> u64 {
    match action {
        Action::ClearPoints => 0,
        Action::PlaceNodes => 1,
        Action::PlaceRods => 2,
        Action::PlaceTriangles => 3,
        Action::Delete => 4,
        Action::MoveCamUp => 5,
        Action::MoveCameDown => 6,
        Action::MoveCamLeft => 7,
        Action::MoveCamRight => 8,
        Action::ZoomIn => 9,
        Action::ZoomOut => 10,
        Action::SwitchScene => 11,
        Action::NewCraft => 12,
    }
}

fn code_of(action: Action) -> (r: u64)
    ensures
        r == code(action),
{
    match action {
        Action::ClearPoints => 0,
        Action::PlaceNodes => 1,
        Action::PlaceRods => 2,
        Action::PlaceTriangles => 3,
        Action::Delete => 4,
        Action::MoveCamUp => 5,
        Action::MoveCameDown => 6,
        Action::MoveCamLeft => 7,
        Action::MoveCamRight => 8,
        Action::ZoomIn => 9,
        Action::ZoomOut => 10,
        Action::SwitchScene => 11,
        Action::NewCraft => 12,
    }
}

/// Which key triggers which action. A later binding of an action replaces
/// an earlier one.
#[derive(Debug)]
pub struct KeyBinds {
    pub action_to_key: HashMap<u64, Key>,
}

impl KeyBinds {
    /// The key bound to `action`.
    pub open spec fn key_of(&self, action: Action) -> Option<Key> {
        if self.action_to_key@.contains_key(code(action)) {
            Some(self.action_to_key@[code(action)])
        } else {
            None
        }
    }

    /// Bindings for no action.
    pub fn new() -> (r: KeyBinds)
        ensures
            forall|action: Action| r.key_of(action) is None,
    {
        KeyBinds { action_to_key: HashMap::new() }
    }

    /// Binds `action` to `key`.
    pub fn bind(&mut self, action: Action, key: Key)
        ensures
            forall|other: Action|
                #[trigger] final(self).key_of(other) == if other == action {
                    Some(key)
                } else {
                    old(self).key_of(other)
                },
    {
        broadcast use vstd::std_specs::hash::group_hash_axioms;

        self.action_to_key.insert(code_of(action), key);
    }

    /// The key bound to `action`.
    pub fn get_key(&self, action: Action) -> (key: Option<Key>)
        ensures
            key == self.key_of(action),
    {
        broadcast use vstd::std_specs::hash::group_hash_axioms;

        match self.action_to_key.get(&code_of(action)) {
            Some(key) => Some(*key),
            None => None,
        }
    }
}

impl Default for KeyBinds {
    /// The bindings the program starts with.
    fn default() -> (r: KeyBinds)
        ensures
            r.key_of(Action::ClearPoints) == Some(Key::C),
            r.key_of(Action::PlaceNodes) == Some(Key::N),
            r.key_of(Action::PlaceRods) == Some(Key::R),
            r.key_of(Action::PlaceTriangles) == Some(Key::T),
            r.key_of(Action::ZoomIn) == Some(Key::Z),
            r.key_of(Action::ZoomOut) == Some(Key::X),
            r.key_of(Action::Delete) == Some(Key::Backspace),
            r.key_of(Action::SwitchScene) == Some(Key::Space),
            r.key_of(Action::NewCraft) == Some(Key::S),
            r.key_of(Action::MoveCamUp) == Some(Key::Up),
            r.key_of(Action::MoveCameDown) == Some(Key::Down),
            r.key_of(Action::MoveCamLeft) == Some(Key::Left),
            r.key_of(Action::MoveCamRight) == Some(Key::Right),
    {
        let mut binds = KeyBinds::new();
        binds.bind(Action::ClearPoints, Key::C);
        binds.bind(Action::PlaceNodes, Key::N);
        binds.bind(Action::PlaceRods, Key::R);
        binds.bind(Action::PlaceTriangles, Key::T);
        binds.bind(Action::ZoomIn, Key::Z);
        binds.bind(Action::ZoomOut, Key::X);
        binds.bind(Action::Delete, Key::Backspace);
        binds.bind(Action::SwitchScene, Key::Space);
        binds.bind(Action::NewCraft, Key::S);
        binds.bind(Action::MoveCamUp, Key::Up);
        binds.bind(Action::MoveCameDown, Key::Down);
        binds.bind(Action::MoveCamLeft, Key::Left);
        binds.bind(Action::MoveCamRight, Key::Right);
        binds
    }
}

} // verus!
