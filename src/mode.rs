use vstd::prelude::*;

verus! {

/// The turn's strategic focus.
#[derive(Copy, Clone, Debug, PartialEq, Eq, Structural)]
pub enum Mode {
    /// Only egg cells are candidates.
    Growth,
    /// Every resource-bearing cell is a candidate.
    Balanced,
    /// Only crystal cells at least as close to the friendly base as to the
    /// enemy base are candidates.
    Harvest,
}

/// The mode for `needed` crystal still to harvest with `units` friendly units,
/// against `threshold`, where `eggs` tells whether any egg cell still holds eggs.
/// With no units the ratio counts as unbounded.
pub open spec fn mode_of(needed: int, units: int, threshold: int, eggs: bool) -> Mode {
    if units == 0 {
        if eggs {
            Mode::Growth
        } else {
            Mode::Balanced
        }
    } else if needed / units > threshold && eggs {
        Mode::Growth
    } else if needed / units == 0 {
        Mode::Harvest
    } else {
        Mode::Balanced
    }
}

/// Chooses the turn's mode from the ratio of crystal still needed to units.
pub fn select_mode(needed: usize, units: usize, threshold: usize, eggs: bool) -> (m: Mode)
    ensures
        m == mode_of(needed as int, units as int, threshold as int, eggs),
{
    if units == 0 {
        if eggs {
            Mode::Growth
        } else {
            Mode::Balanced
        }
    } else {
        let ratio = needed / units;
        if ratio > threshold && eggs {
            Mode::Growth
        } else if ratio == 0 {
            Mode::Harvest
        } else {
            Mode::Balanced
        }
    }
}

/// `r` is the cube root of `n` rounded to the nearest integer (halves up).
pub open spec fn is_rounded_cube_root(n: int, r: int) -> bool {
    &&& r >= 0
    &&& (2 * r - 1) * (2 * r - 1) * (2 * r - 1) <= 8 * n
    &&& 8 * n < (2 * r + 1) * (2 * r + 1) * (2 * r + 1)
}

/// Cubing keeps the order of non-negative numbers.
proof fn lemma_cube_mono(a: int, b: int)
    requires
        0 <= a <= b,
    ensures
        a * a * a <= b * b * b,
{
    assert(a * a <= b * b) by (nonlinear_arith)
        requires
            0 <= a <= b,
    ;
    assert(a * a * a <= b * b * b) by (nonlinear_arith)
        requires
            0 <= a <= b,
            a * a <= b * b,
    ;
}

/// A board size has one rounded cube root.
pub proof fn lemma_rounded_cube_root_unique(n: int, r1: int, r2: int)
    requires
        is_rounded_cube_root(n, r1),
        is_rounded_cube_root(n, r2),
    ensures
        r1 == r2,
{
    if r1 < r2 {
        lemma_cube_mono(2 * r1 + 1, 2 * r2 - 1);
    } else if r2 < r1 {
        lemma_cube_mono(2 * r2 + 1, 2 * r1 - 1);
    }
}

/// Mode selection is a function of the crystal still needed, the unit count,
/// the board size and whether eggs remain: with the threshold taken as the
/// rounded cube root of the board size, equal inputs give equal modes.
pub proof fn lemma_mode_depends_only_on_inputs(
    needed: int,
    units: int,
    cells: int,
    eggs: bool,
    t1: int,
    t2: int,
)
    requires
        is_rounded_cube_root(cells, t1),
        is_rounded_cube_root(cells, t2),
    ensures
        mode_of(needed, units, t1, eggs) == mode_of(needed, units, t2, eggs),
{
    lemma_rounded_cube_root_unique(cells, t1, t2);
}

/// The mode threshold for a board of `n` cells: the rounded cube root of `n`.
pub fn cube_root_rounded(n: usize) -> (r: usize)
    ensures
        is_rounded_cube_root(n as int, r as int),
{
    let target: u128 = 8 * (n as u128);
    let mut r: u128 = 0;
    assert((2 * r as int - 1) * (2 * r as int - 1) * (2 * r as int - 1) == -1) by (nonlinear_arith)
        requires
            r == 0,
    ;
    loop
        invariant
            target == 8 * n,
            r <= 0x40_0000,
            (2 * r as int - 1) * (2 * r as int - 1) * (2 * r as int - 1) <= 8 * n,
        ensures
            is_rounded_cube_root(n as int, r as int),
        decreases 0x40_0000 - r,
    {
        let x: u128 = 2 * r + 1;
        proof {
            lemma_cube_mono(x as int, 0x80_0001);
            assert(x * x <= 0x80_0001 * 0x80_0001) by (nonlinear_arith)
                requires
                    0 <= x <= 0x80_0001,
            ;
        }
        let c: u128 = x * x * x;
        if c > target {
            break;
        }
        proof {
            if x >= 0x80_0000 {
                lemma_cube_mono(0x80_0000, x as int);
            }
        }
        r = r + 1;
    }
    r as usize
}

} // verus!
