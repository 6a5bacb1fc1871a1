use vstd::prelude::*;

verus! {

/// The keys that move the player, and which of them are held down.
#[allow(non_snake_case)]
#[derive(Clone, Copy, Debug, PartialEq, Eq, Structural)]
pub struct KeyPresses {
    pub W: bool,
    pub A: bool,
    pub S: bool,
    pub D: bool,
    pub Shift: bool,
    pub Space: bool,
    pub Ctrl: bool,
    pub Up: bool,
    pub Left: bool,
    pub Down: bool,
    pub Right: bool,
}

/// A key that moves the player.
#[derive(Clone, Copy, Debug, PartialEq, Eq, Structural)]
pub enum Key {
    W,
    A,
    S,
    D,
    Shift,
    Space,
    Ctrl,
    Up,
    Left,
    Down,
    Right,
}

/// Whether `key` is held down in `k`.
pub open spec fn held(k: KeyPresses, key: Key) -> bool {
    match key {
        Key::W => k.W,
        Key::A => k.A,
        Key::S => k.S,
        Key::D => k.D,
        Key::Shift => k.Shift,
        Key::Space => k.Space,
        Key::Ctrl => k.Ctrl,
        Key::Up => k.Up,
        Key::Left => k.Left,
        Key::Down => k.Down,
        Key::Right => k.Right,
    }
}

impl KeyPresses {
    /// No key held down.
    pub fn new() -> (k: Self)
        ensures
            forall|key: Key| !#[trigger] held(k, key),
    {
        Self {
            W: false,
            A: false,
            S: false,
            D: false,
            Shift: false,
            Space: false,
            Ctrl: false,
            Up: false,
            Left: false,
            Down: false,
            Right: false,
        }
    }

    /// Records that `key` was pressed (`pressed`) or released; the other keys
    /// stay as they were.
    pub fn set(&mut self, key: Key, pressed: bool)
        ensures
            held(*final(self), key) == pressed,
            forall|other: Key| other != key ==> #[trigger] held(*final(self), other) == held(*old(self), other),
    {
        match key {
            Key::W => self.W = pressed,
            Key::A => self.A = pressed,
            Key::S => self.S = pressed,
            Key::D => self.D = pressed,
            Key::Shift => self.Shift = pressed,
            Key::Space => self.Space = pressed,
            Key::Ctrl => self.Ctrl = pressed,
            Key::Up => self.Up = pressed,
            Key::Left => self.Left = pressed,
            Key::Down => self.Down = pressed,
            Key::Right => self.Right = pressed,
        }
    }
}

} // verus!
