//! Small input helpers shared by the player controller.

use vstd::prelude::*;

verus! {

/// Composes the four movement key states into an axis pair, one unit per
/// pressed key, opposing keys cancelling: the first component is right minus
/// left, the second forward minus back. The caller normalizes the resulting
/// direction for movement speed.
pub fn compose_wasd_axes(left: bool, right: bool, back: bool, forward: bool) -> (axes: (i8, i8))
    ensures
        axes.0 == (if right {
            1int
        } else {
            0int
        }) - (if left {
            1int
        } else {
            0int
        }),
        axes.1 == (if forward {
            1int
        } else {
            0int
        }) - (if back {
            1int
        } else {
            0int
        }),
{
    let mut x: i8 = 0;
    let mut y: i8 = 0;
    if left {
        x = x - 1;
    }
    if right {
        x = x + 1;
    }
    if back {
        y = y - 1;
    }
    if forward {
        y = y + 1;
    }
    (x, y)
}

} // verus!
