//! Edge-aware keypad sampler.
//!
//! The console's keypad register is a 16-bit word with one bit per button,
//! active-low: a clear bit means the button is pressed. `InputHandler` keeps
//! the two most recent samples of that word; the edge predicates compare
//! them. The host program reads the hardware register and hands each sample
//! to `poll`.

use vstd::prelude::*;

verus! {

/// The ten buttons, one per keypad register bit.
#[allow(non_camel_case_types)]
#[derive(Debug, Clone, Copy, PartialEq, Eq, PartialOrd, Ord, Hash, Structural)]
pub enum Key {
    A,
    B,
    SELECT,
    START,
    RIGHT,
    LEFT,
    UP,
    DOWN,
    R,
    L,
}

impl Key {
    /// The keypad register bit belonging to this button.
    pub open spec fn spec_mask(self) -> u16 {
        match self {
            Key::A => 0x0001,
            Key::B => 0x0002,
            Key::SELECT => 0x0004,
            Key::START => 0x0008,
            Key::RIGHT => 0x0010,
            Key::LEFT => 0x0020,
            Key::UP => 0x0040,
            Key::DOWN => 0x0080,
            Key::R => 0x0100,
            Key::L => 0x0200,
        }
    }

    /// The keypad register bit belonging to this button.
    pub fn mask(self) -> (r: u16)
        ensures
            r == self.spec_mask(),
    {
        match self {
            Key::A => 0x0001,
            Key::B => 0x0002,
            Key::SELECT => 0x0004,
            Key::START => 0x0008,
            Key::RIGHT => 0x0010,
            Key::LEFT => 0x0020,
            Key::UP => 0x0040,
            Key::DOWN => 0x0080,
            Key::R => 0x0100,
            Key::L => 0x0200,
        }
    }
}

/// The button is pressed in sample `curr` (active-low: bit clear).
pub open spec fn spec_down(curr: u16, key: Key) -> bool {
    curr & key.spec_mask() == 0
}

/// The button is pressed in both samples.
pub open spec fn spec_held(prev: u16, curr: u16, key: Key) -> bool {
    curr & key.spec_mask() == 0 && prev & key.spec_mask() == 0
}

/// The button was just pressed: down now, up in the previous sample.
pub open spec fn spec_hit(prev: u16, curr: u16, key: Key) -> bool {
    curr & key.spec_mask() == 0 && prev & key.spec_mask() != 0
}

/// The button was just released: up now, down in the previous sample.
pub open spec fn spec_released(prev: u16, curr: u16, key: Key) -> bool {
    curr & key.spec_mask() != 0 && prev & key.spec_mask() == 0
}

/// The button is up in both samples.
pub open spec fn spec_idle(prev: u16, curr: u16, key: Key) -> bool {
    curr & key.spec_mask() != 0 && prev & key.spec_mask() != 0
}

/// Law: for every button and every pair of samples, exactly one of
/// hit / held / released / idle holds, and they follow the four
/// combinations of (pressed before?, pressed now?).
pub proof fn lemma_edge_partition(prev: u16, curr: u16, key: Key)
    ensures
        spec_hit(prev, curr, key) <==> (!spec_down(prev, key) && spec_down(curr, key)),
        spec_held(prev, curr, key) <==> (spec_down(prev, key) && spec_down(curr, key)),
        spec_released(prev, curr, key) <==> (spec_down(prev, key) && !spec_down(curr, key)),
        spec_idle(prev, curr, key) <==> (!spec_down(prev, key) && !spec_down(curr, key)),
        spec_hit(prev, curr, key) || spec_held(prev, curr, key) || spec_released(prev, curr, key)
            || spec_idle(prev, curr, key),
        !(spec_hit(prev, curr, key) && spec_held(prev, curr, key)),
        !(spec_hit(prev, curr, key) && spec_released(prev, curr, key)),
        !(spec_hit(prev, curr, key) && spec_idle(prev, curr, key)),
        !(spec_held(prev, curr, key) && spec_released(prev, curr, key)),
        !(spec_held(prev, curr, key) && spec_idle(prev, curr, key)),
        !(spec_released(prev, curr, key) && spec_idle(prev, curr, key)),
{
}

/// Main interface for handling user inputs (button presses): the two most
/// recent keypad register samples.
pub struct InputHandler {
    input_previous: u16,
    input_current: u16,
}

impl InputHandler {
    /// The older of the two samples.
    pub closed spec fn previous(self) -> u16 {
        self.input_previous
    }

    /// The newer of the two samples.
    pub closed spec fn current(self) -> u16 {
        self.input_current
    }

    /// Both samples start at zero: every button appears pressed until the
    /// first two polls, so callers should discard the first sample pair.
    pub fn new() -> (r: Self)
        ensures
            r.previous() == 0,
            r.current() == 0,
    {
        InputHandler { input_previous: 0, input_current: 0 }
    }

    /// Update the input handler with a fresh keypad register sample: the
    /// newer sample becomes the older one.
    pub fn poll(&mut self, sample: u16)
        ensures
            final(self).previous() == old(self).current(),
            final(self).current() == sample,
    {
        self.input_previous = self.input_current;
        self.input_current = sample;
    }

    /// The newer sample, as read from the keypad register.
    pub fn current_input(&self) -> (r: u16)
        ensures
            r == self.current(),
    {
        self.input_current
    }

    /// The older sample.
    pub fn previous_input(&self) -> (r: u16)
        ensures
            r == self.previous(),
    {
        self.input_previous
    }

    /// True if the specified key is being pressed.
    pub fn key_down(&self, key: Key) -> (r: bool)
        ensures
            r == spec_down(self.current(), key),
    {
        (self.input_current & key.mask()) == 0
    }

    /// True if the specified key is being held down (pressed in both the
    /// previous and the current frame).
    pub fn key_held(&self, key: Key) -> (r: bool)
        ensures
            r == spec_held(self.previous(), self.current(), key),
    {
        self.key_down(key) && ((self.input_previous & key.mask()) == 0)
    }

    /// True if the specified key was just pressed (pressed in the current
    /// frame, but not the previous frame).
    pub fn key_hit(&self, key: Key) -> (r: bool)
        ensures
            r == spec_hit(self.previous(), self.current(), key),
    {
        (self.input_current & key.mask() == 0) && (self.input_previous & key.mask() != 0)
    }

    /// True if the specified key was just released (not pressed in the
    /// current frame, but pressed in the previous frame).
    pub fn key_released(&self, key: Key) -> (r: bool)
        ensures
            r == spec_released(self.previous(), self.current(), key),
    {
        (self.input_current & key.mask() != 0) && (self.input_previous & key.mask() == 0)
    }
}

} // verus!
