//! The data that entities of the game carry, and the rules that act on it
//! each turn.

use vstd::prelude::*;

use crate::connectivity::open_at;
use crate::level::DungeonLevel;

verus! {

/// Where an entity stands.
#[derive(Debug, Clone, Copy, PartialEq, Eq, Structural)]
pub struct Position {
    pub x: i32,
    pub y: i32,
}

/// How an entity is drawn: as a single character.
#[derive(Debug, Clone, Copy, PartialEq, Eq, Structural)]
pub struct CharRender {
    pub glyph: char,
}

/// An entity the user controls.
#[derive(Debug, Clone)]
pub struct Player {
    /// The cells known to the player, row by row.
    pub known_cells: Vec<Vec<bool>>,
}

/// An entity that takes turns periodically.
#[derive(Debug, Clone, Copy, PartialEq, Eq, Structural)]
pub struct TurnTaker {
    /// Time from now until the next turn.
    pub next: u32,
    /// Time between turns.
    pub maximum: u32,
}

/// An action that takes up a turn.
#[derive(Debug, Clone, Copy, PartialEq, Eq, Structural)]
pub enum MobAction {
    /// Do nothing.
    Nop,
    /// Move by the given vector.
    Move(i32, i32),
}

/// An entity that can move, attack, use items and so on.
#[derive(Debug, Clone, Copy, PartialEq, Eq, Structural)]
pub struct Mobile {
    pub next_action: MobAction,
}

/// What a key press asks for.
#[derive(Debug, Clone, Copy, PartialEq, Eq, Structural)]
pub enum Command {
    /// Take this action as the player's turn.
    Act(MobAction),
    /// Leave the game.
    Quit,
}

/// A key press, as far as the controls tell keys apart.
#[derive(Debug, Clone, Copy, PartialEq, Eq, Structural)]
pub enum Key {
    Char(char),
    Up,
    Down,
    Left,
    Right,
    Other,
}

impl Position {
    /// The coordinates as an (x, y) pair.
    pub fn coords(&self) -> (r: (i32, i32))
        ensures
            r == (self.x, self.y),
    {
        (self.x, self.y)
    }

    /// The position at coordinates (x, y).
    pub fn from_coords(c: (i32, i32)) -> (r: Position)
        ensures
            r.x == c.0,
            r.y == c.1,
    {
        Position { x: c.0, y: c.1 }
    }
}

/// The position reached by taking `action` from `pos`.
pub open spec fn moved(pos: Position, action: MobAction) -> (int, int) {
    match action {
        MobAction::Nop => (pos.x as int, pos.y as int),
        MobAction::Move(dx, dy) => (pos.x + dx, pos.y + dy),
    }
}

impl TurnTaker {
    /// Advances time by one tick: counts down to the next turn, and starts
    /// over from `maximum` once a turn has come.
    pub fn tick(&mut self)
        ensures
            final(self).maximum == old(self).maximum,
            final(self).next == (if old(self).next == 0 { old(self).maximum } else { (old(self).next - 1) as u32 }),
    {
        self.next = match self.next.checked_sub(1) {
            Some(n) => n,
            None => self.maximum,
        };
    }

    /// Whether this entity's turn has come.
    pub fn is_due(&self) -> (r: bool)
        ensures
            r == (self.next == 0),
    {
        self.next == 0
    }
}

impl Mobile {
    /// Carries out the chosen action on `pos`, which must stay within `i32`,
    /// and clears the choice.
    pub fn act(&mut self, pos: &mut Position)
        requires
            -0x8000_0000 <= moved(*old(pos), old(self).next_action).0 < 0x8000_0000,
            -0x8000_0000 <= moved(*old(pos), old(self).next_action).1 < 0x8000_0000,
        ensures
            final(pos).x == moved(*old(pos), old(self).next_action).0,
            final(pos).y == moved(*old(pos), old(self).next_action).1,
            final(self).next_action == MobAction::Nop,
    {
        match self.next_action {
            MobAction::Nop => {},
            MobAction::Move(dx, dy) => {
                pos.x = pos.x + dx;
                pos.y = pos.y + dy;
            },
        }
        self.next_action = MobAction::Nop;
    }
}

/// The command a key asks for: `.` waits, `h` `j` `k` `l` and the arrow
/// keys move west, south, north and east, `y` `u` `b` `n` move north-west,
/// north-east, south-west and south-east, and `q` quits. Other keys ask
/// for nothing.
pub open spec fn key_meaning(key: Key) -> Option<Command> {
    match key {
        Key::Char('.') => Some(Command::Act(MobAction::Nop)),
        Key::Char('h') | Key::Left => Some(Command::Act(MobAction::Move(-1i32, 0))),
        Key::Char('j') | Key::Down => Some(Command::Act(MobAction::Move(0, 1))),
        Key::Char('k') | Key::Up => Some(Command::Act(MobAction::Move(0, -1i32))),
        Key::Char('l') | Key::Right => Some(Command::Act(MobAction::Move(1, 0))),
        Key::Char('y') => Some(Command::Act(MobAction::Move(-1i32, -1i32))),
        Key::Char('u') => Some(Command::Act(MobAction::Move(1, -1i32))),
        Key::Char('b') => Some(Command::Act(MobAction::Move(-1i32, 1))),
        Key::Char('n') => Some(Command::Act(MobAction::Move(1, 1))),
        Key::Char('q') => Some(Command::Quit),
        _ => None,
    }
}

/// The command that `key` asks for, if any.
pub fn key_command(key: Key) -> (r: Option<Command>)
    ensures
        r == key_meaning(key),
{
    match key {
        Key::Char('.') => Some(Command::Act(MobAction::Nop)),
        Key::Char('h') | Key::Left => Some(Command::Act(MobAction::Move(-1i32, 0))),
        Key::Char('j') | Key::Down => Some(Command::Act(MobAction::Move(0, 1))),
        Key::Char('k') | Key::Up => Some(Command::Act(MobAction::Move(0, -1i32))),
        Key::Char('l') | Key::Right => Some(Command::Act(MobAction::Move(1, 0))),
        Key::Char('y') => Some(Command::Act(MobAction::Move(-1i32, -1i32))),
        Key::Char('u') => Some(Command::Act(MobAction::Move(1, -1i32))),
        Key::Char('b') => Some(Command::Act(MobAction::Move(-1i32, 1))),
        Key::Char('n') => Some(Command::Act(MobAction::Move(1, 1))),
        Key::Char('q') => Some(Command::Quit),
        _ => None,
    }
}

impl DungeonLevel {
    /// Whether an entity at `pos` can take `action`: waiting always works,
    /// a move only onto an open cell of the level.
    pub fn allows(&self, pos: Position, action: MobAction) -> (r: bool)
        ensures
            r == (action is Nop || open_at(self.grid(), moved(pos, action))),
    {
        match action {
            MobAction::Nop => true,
            MobAction::Move(dx, dy) => {
                let x = pos.x as i64 + dx as i64;
                let y = pos.y as i64 + dy as i64;
                if x < 0 || y < 0 {
                    false
                } else {
                    match self.tile_at_unchecked(x as usize, y as usize) {
                        Some(t) => t.is_navigable(),
                        None => false,
                    }
                }
            },
        }
    }
}

} // verus!
