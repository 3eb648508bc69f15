//! A single cell of the board: what it holds and whether it is visible.

use vstd::prelude::*;

verus! {

/// Value of a [`Tile`]: a mine, or the number (0 to 8) of mines around the tile.
#[derive(Debug, Clone, Copy, PartialEq, Eq, Structural)]
pub enum Value {
    Near(u8),
    Mine,
}

/// Visibility of a [`Tile`]: closed, open or flagged.
#[derive(Debug, Clone, Copy, PartialEq, Eq, Structural)]
pub enum State {
    Closed,
    Open,
    Flag,
}

impl Value {
    /// A count of mines around a tile lies in `0..=8`.
    pub open spec fn is_valid(self) -> bool {
        self matches Value::Near(n) ==> n <= 8
    }

    /// The value after one more mine was placed next to the tile.
    pub open spec fn incremented(self) -> Value {
        match self {
            Value::Near(n) => Value::Near((n + 1) as u8),
            Value::Mine => Value::Mine,
        }
    }

    /// The character an open tile shows: a blank mark for zero, the digit for
    /// a count, a star for a mine.
    pub open spec fn spec_symbol(self) -> char {
        match self {
            Value::Near(0) => '_',
            Value::Near(1) => '1',
            Value::Near(2) => '2',
            Value::Near(3) => '3',
            Value::Near(4) => '4',
            Value::Near(5) => '5',
            Value::Near(6) => '6',
            Value::Near(7) => '7',
            Value::Near(_) => '8',
            Value::Mine => '*',
        }
    }

    /// Returns the character an open tile with this value shows.
    pub fn symbol(&self) -> (r: char)
        requires
            self.is_valid(),
        ensures
            r == self.spec_symbol(),
    {
        match *self {
            Value::Near(0) => '_',
            Value::Near(1) => '1',
            Value::Near(2) => '2',
            Value::Near(3) => '3',
            Value::Near(4) => '4',
            Value::Near(5) => '5',
            Value::Near(6) => '6',
            Value::Near(7) => '7',
            Value::Near(_) => '8',
            Value::Mine => '*',
        }
    }
}

impl Default for Value {
    fn default() -> (r: Self)
        ensures
            r == Value::Near(0),
    {
        Value::Near(0)
    }
}

impl State {
    /// Opening changes only a closed tile.
    pub open spec fn after_open(self) -> State {
        match self {
            State::Closed => State::Open,
            _ => self,
        }
    }

    /// Flagging changes only a closed tile.
    pub open spec fn after_flag(self) -> State {
        match self {
            State::Closed => State::Flag,
            _ => self,
        }
    }

    /// Toggling swaps closed and flagged and leaves an open tile open.
    pub open spec fn after_toggle(self) -> State {
        match self {
            State::Closed => State::Flag,
            State::Open => State::Open,
            State::Flag => State::Closed,
        }
    }
}

impl Default for State {
    fn default() -> (r: Self)
        ensures
            r == State::Closed,
    {
        State::Closed
    }
}

/// A cell of the board.
#[derive(Debug, Clone, Copy, PartialEq, Eq, Structural)]
pub struct Tile {
    value: Value,
    state: State,
}

impl Tile {
    pub closed spec fn spec_value(&self) -> Value {
        self.value
    }

    pub closed spec fn spec_state(&self) -> State {
        self.state
    }

    /// The character the tile shows: a mask while closed, its value once open,
    /// a marker while flagged.
    pub open spec fn spec_symbol(&self) -> char {
        match self.state() {
            State::Closed => '#',
            State::Open => self.value().spec_symbol(),
            State::Flag => '?',
        }
    }

    /// Constructs a new [`Tile`] with the given value and state.
    pub fn new(value: Value, state: State) -> (r: Self)
        ensures
            r.value() == value,
            r.state() == state,
    {
        Self { value, state }
    }

    /// Constructs a new closed [`Tile`] with the given value.
    pub fn with_value(value: Value) -> (r: Self)
        ensures
            r.value() == value,
            r.state() == State::Closed,
    {
        Self { value, state: State::Closed }
    }

    /// Adds one to the tile's count of neighboring mines; a mine stays a mine.
    pub fn increment_value(&mut self)
        requires
            old(self).value() matches Value::Near(n) ==> n < 8,
        ensures
            final(self).value() == old(self).value().incremented(),
            final(self).state() == old(self).state(),
    {
        match self.value {
            Value::Near(n) => {
                self.value = Value::Near(n + 1);
            },
            Value::Mine => {},
        }
    }

    /// Opens this tile, but only if it is currently closed.
    pub fn open(&mut self)
        ensures
            final(self).value() == old(self).value(),
            final(self).state() == old(self).state().after_open(),
    {
        if self.state == State::Closed {
            self.state = State::Open;
        }
    }

    /// Flags this tile, but only if it is currently closed.
    pub fn flag(&mut self)
        ensures
            final(self).value() == old(self).value(),
            final(self).state() == old(self).state().after_flag(),
    {
        if self.state == State::Closed {
            self.state = State::Flag;
        }
    }

    /// Toggles the flag: closed becomes flagged, flagged becomes closed, open
    /// stays open.
    pub fn toggle_flag(&mut self)
        ensures
            final(self).value() == old(self).value(),
            final(self).state() == old(self).state().after_toggle(),
    {
        self.state = match self.state {
            State::Closed => State::Flag,
            State::Open => State::Open,
            State::Flag => State::Closed,
        };
    }

    /// Returns the value of the tile.
    #[verifier::when_used_as_spec(spec_value)]
    pub fn value(&self) -> (r: Value)
        ensures
            r == self.value(),
    {
        self.value
    }

    /// Returns the state of the tile.
    #[verifier::when_used_as_spec(spec_state)]
    pub fn state(&self) -> (r: State)
        ensures
            r == self.state(),
    {
        self.state
    }

    /// Returns the character the tile shows.
    pub fn symbol(&self) -> (r: char)
        requires
            self.value().is_valid(),
        ensures
            r == self.spec_symbol(),
    {
        match self.state {
            State::Closed => '#',
            State::Open => self.value.symbol(),
            State::Flag => '?',
        }
    }
}

impl Default for Tile {
    fn default() -> (r: Self)
        ensures
            r.value() == Value::Near(0),
            r.state() == State::Closed,
    {
        Self { value: Value::Near(0), state: State::Closed }
    }
}

/// Two tiles are equal exactly when their values and states are.
pub proof fn lemma_tile_eq(a: Tile, b: Tile)
    ensures
        a == b <==> (a.value() == b.value() && a.state() == b.state()),
{
}

/// The state machine of a tile: opening turns a closed tile open for good
/// (opening, flagging and toggling leave an open tile open), flagging and
/// toggling change only a closed or flagged tile, and toggling twice restores
/// any state.
pub proof fn lemma_state_machine(s: State)
    ensures
        s == State::Closed ==> s.after_open() == State::Open,
        s == State::Open ==> s.after_open() == State::Open && s.after_flag() == State::Open
            && s.after_toggle() == State::Open,
        s == State::Flag ==> s.after_open() == State::Flag && s.after_flag() == State::Flag,
        s.after_toggle().after_toggle() == s,
        s.after_open() != State::Closed || s == State::Closed,
        s.after_open() == State::Open ==> s != State::Flag,
{
}

} // verus!
