//! Small shared utilities: two-dimensional sizes and edge-triggered input
//! tracking.

use std::collections::HashSet;

use vstd::prelude::*;

verus! {

broadcast use vstd::std_specs::hash::group_hash_axioms;

/// A width/height pair.
#[derive(Clone, Copy, Debug, PartialEq, Eq, Hash)]
pub struct Size<T> {
    pub width: T,
    pub height: T,
}

impl<T> Size<T> {
    pub fn new(width: T, height: T) -> (r: Self)
        ensures
            r.width == width,
            r.height == height,
    {
        Self { width, height }
    }
}

/// Tracks keyboard state between frames. Keys are identified by plain codes.
///
/// `pressed` holds every key currently held down; `just_pressed` and
/// `released` hold the edges seen since the last [`reset_input`] call, so a
/// key held across frames triggers `just_pressed` only once.
pub struct Input {
    pressed: HashSet<u32>,
    just_pressed: HashSet<u32>,
    released: HashSet<u32>,
}

impl Input {
    /// The set of keys currently held down.
    pub closed spec fn pressed_set(&self) -> Set<u32> {
        self.pressed@
    }

    /// The set of keys that went down since the last reset.
    pub closed spec fn just_pressed_set(&self) -> Set<u32> {
        self.just_pressed@
    }

    /// The set of keys that went up since the last reset.
    pub closed spec fn released_set(&self) -> Set<u32> {
        self.released@
    }

    pub fn new() -> (r: Self)
        ensures
            r.pressed_set() == Set::<u32>::empty(),
            r.just_pressed_set() == Set::<u32>::empty(),
            r.released_set() == Set::<u32>::empty(),
    {
        Self { pressed: HashSet::new(), just_pressed: HashSet::new(), released: HashSet::new() }
    }

    pub fn pressed(&self, input: u32) -> (r: bool)
        ensures
            r == self.pressed_set().contains(input),
    {
        self.pressed.contains(&input)
    }

    pub fn just_pressed(&self, input: u32) -> (r: bool)
        ensures
            r == self.just_pressed_set().contains(input),
    {
        self.just_pressed.contains(&input)
    }

    pub fn released(&self, input: u32) -> (r: bool)
        ensures
            r == self.released_set().contains(input),
    {
        self.released.contains(&input)
    }
}

/// Records one key event. A press adds the key to the held and just-pressed
/// sets; a release removes it from the held set and adds it to the released
/// set.
pub fn process_inputs(input: &mut Input, val: u32, pressed: bool)
    ensures
        pressed ==> {
            &&& final(input).pressed_set() == old(input).pressed_set().insert(val)
            &&& final(input).just_pressed_set() == old(input).just_pressed_set().insert(val)
            &&& final(input).released_set() == old(input).released_set()
        },
        !pressed ==> {
            &&& final(input).pressed_set() == old(input).pressed_set().remove(val)
            &&& final(input).just_pressed_set() == old(input).just_pressed_set()
            &&& final(input).released_set() == old(input).released_set().insert(val)
        },
{
    if pressed {
        input.pressed.insert(val);
        input.just_pressed.insert(val);
    } else {
        input.pressed.remove(&val);
        input.released.insert(val);
    }
}

/// Clears the per-frame edge sets; held keys stay held.
pub fn reset_input(input: &mut Input)
    ensures
        final(input).pressed_set() == old(input).pressed_set(),
        final(input).just_pressed_set() == Set::<u32>::empty(),
        final(input).released_set() == Set::<u32>::empty(),
{
    input.just_pressed.clear();
    input.released.clear();
}

} // verus!
