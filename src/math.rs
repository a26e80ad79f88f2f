use vstd::prelude::*;

verus! {

/// The value of `x` limited to the range from `a` to `b`: `a` when `x` lies
/// below `a`, `b` when it lies above `b`, and `x` itself otherwise.
pub open spec fn clamped(x: int, a: int, b: int) -> int {
    if x < a {
        a
    } else if x > b {
        b
    } else {
        x
    }
}

/// Limits `x` to the range from `a` to `b`.
pub fn clamp(x: i64, a: i64, b: i64) -> (r: i64)
    ensures
        r == clamped(x as int, a as int, b as int),
        a <= b ==> a <= r <= b,
{
    if x < a {
        return a;
    }
    if x > b {
        return b;
    }
    x
}

/// A world axis.
#[derive(Clone, Copy, Debug, PartialEq, Eq, Structural)]
pub enum Axis {
    X,
    Y,
    Z,
}

/// The component of `(ax, ay, az)` along `a`.
pub open spec fn component(a: Axis, ax: u32, ay: u32, az: u32) -> u32 {
    match a {
        Axis::X => ax,
        Axis::Y => ay,
        Axis::Z => az,
    }
}

/// The axis least aligned with a vector whose absolute components, as
/// ordered keys, are `ax`, `ay` and `az`: the smallest component, where `x`
/// wins only if strictly smallest, then `y` only if strictly below `z`, and
/// `z` otherwise.
pub open spec fn least_aligned(ax: u32, ay: u32, az: u32) -> Axis {
    if ax < ay && ax < az {
        Axis::X
    } else if ay <= ax && ay < az {
        Axis::Y
    } else {
        Axis::Z
    }
}

/// Picks the world axis to cross with a vector when building a frame
/// around it.
pub fn least_aligned_axis(ax: u32, ay: u32, az: u32) -> (r: Axis)
    ensures
        r == least_aligned(ax, ay, az),
        component(r, ax, ay, az) <= ax,
        component(r, ax, ay, az) <= ay,
        component(r, ax, ay, az) <= az,
{
    if ax < ay {
        if ax < az {
            Axis::X
        } else {
            Axis::Z
        }
    } else {
        if ay < az {
            Axis::Y
        } else {
            Axis::Z
        }
    }
}

} // verus!
