//! The closed set of Game Boy buttons and the bitmask value that holds a
//! combination of them.

use vstd::prelude::*;

verus! {

/// The eight buttons a recorded input state can hold.
#[derive(Clone, Copy, PartialEq, Eq, Structural, Debug)]
pub enum Button {
    Down,
    Up,
    Left,
    Right,
    Start,
    Select,
    B,
    A,
}

/// The bit each button occupies in the packed representation.
pub open spec fn button_mask(b: Button) -> u8 {
    match b {
        Button::Down => 0x80,
        Button::Up => 0x40,
        Button::Left => 0x20,
        Button::Right => 0x10,
        Button::Start => 0x08,
        Button::Select => 0x04,
        Button::B => 0x02,
        Button::A => 0x01,
    }
}

/// A set of pressed buttons, packed one per bit. Every `u8` value is a
/// valid state; equality is set equality.
#[derive(Clone, Copy, PartialEq, Eq, Structural, Debug)]
pub struct Input {
    pub bits: u8,
}

impl Input {
    /// The neutral state: no button pressed.
    pub fn empty() -> (r: Input)
        ensures
            r.bits == 0,
    {
        Input { bits: 0 }
    }

    /// Rebuild a state from its packed bits.
    pub fn from_bits(bits: u8) -> (r: Input)
        ensures
            r.bits == bits,
    {
        Input { bits }
    }

    /// The packed bits of this state.
    pub fn bits(self) -> (r: u8)
        ensures
            r == self.bits,
    {
        self.bits
    }

    /// The state with `b` pressed in addition to everything in `self`.
    pub fn press(self, b: Button) -> (r: Input)
        ensures
            r.bits == self.bits | button_mask(b),
    {
        let m = mask_of(b);
        Input { bits: self.bits | m }
    }

    /// The union of two states.
    pub fn union(self, other: Input) -> (r: Input)
        ensures
            r.bits == self.bits | other.bits,
    {
        Input { bits: self.bits | other.bits }
    }

    /// Whether `b` is pressed in this state.
    pub fn has(self, b: Button) -> (r: bool)
        ensures
            r == (self.bits & button_mask(b) != 0),
    {
        let m = mask_of(b);
        self.bits & m != 0
    }
}

/// Executable counterpart of `button_mask`.
pub fn mask_of(b: Button) -> (r: u8)
    ensures
        r == button_mask(b),
{
    match b {
        Button::Down => 0x80,
        Button::Up => 0x40,
        Button::Left => 0x20,
        Button::Right => 0x10,
        Button::Start => 0x08,
        Button::Select => 0x04,
        Button::B => 0x02,
        Button::A => 0x01,
    }
}

} // verus!
