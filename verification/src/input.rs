//! The handheld's buttons, as the menus receive them.
use vstd::prelude::*;

verus! {

/// A button press handed to a menu.
#[derive(Clone, Copy, Debug, PartialEq, Eq, Structural)]
pub enum Btn {
    Up,
    Down,
    Left,
    Right,
    A,
    B,
    X,
    Y,
    L1,
    R1,
    L2,
    R2,
    Start,
    Select,
    Menu,
}

/// Milliseconds on the frame clock.
pub type Millis = u64;

/// The next revision of a screen: one more, wrapping rather than stopping, since revisions are
/// only ever compared for a change.
pub open spec fn next_rev(r: u64) -> u64 {
    if r == u64::MAX {
        0
    } else {
        (r + 1) as u64
    }
}

pub fn bump(r: u64) -> (s: u64)
    ensures
        s == next_rev(r),
{
    if r == u64::MAX {
        0
    } else {
        r + 1
    }
}

} // verus!
