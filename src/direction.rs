use vstd::prelude::*;

verus! {

/// Passage bit towards the row above.
pub const N: u8 = 1;
/// Passage bit towards the row below.
pub const S: u8 = 2;
/// Passage bit towards the next column.
pub const E: u8 = 4;
/// Passage bit towards the previous column.
pub const W: u8 = 8;

/// One of the four single-bit direction masks.
pub open spec fn is_dir(d: u8) -> bool {
    d == N || d == S || d == E || d == W
}

pub open spec fn dx_of(d: u8) -> int {
    if d == E {
        1
    } else if d == W {
        -1
    } else {
        0
    }
}

pub open spec fn dy_of(d: u8) -> int {
    if d == N {
        -1
    } else if d == S {
        1
    } else {
        0
    }
}

pub open spec fn opposite_of(d: u8) -> u8 {
    if d == E {
        W
    } else if d == W {
        E
    } else if d == N {
        S
    } else if d == S {
        N
    } else {
        0
    }
}

/// Column offset of a direction: +1 east, -1 west, 0 otherwise.
pub fn get_dx(dir: u8) -> (r: i64)
    ensures
        r == dx_of(dir),
{
    if dir == E {
        1
    } else if dir == W {
        -1
    } else {
        0
    }
}

/// Row offset of a direction: -1 north, +1 south, 0 otherwise.
pub fn get_dy(dir: u8) -> (r: i64)
    ensures
        r == dy_of(dir),
{
    if dir == N {
        -1
    } else if dir == S {
        1
    } else {
        0
    }
}

/// The reverse direction (N and S, E and W swapped); 0 for anything else.
pub fn get_opposite(dir: u8) -> (r: u8)
    ensures
        r == opposite_of(dir),
        is_dir(dir) ==> is_dir(r) && opposite_of(r) == dir,
        is_dir(dir) ==> dx_of(r) == -dx_of(dir) && dy_of(r) == -dy_of(dir),
{
    if dir == E {
        W
    } else if dir == W {
        E
    } else if dir == N {
        S
    } else if dir == S {
        N
    } else {
        0
    }
}

/// The opposite of a direction undoes its offset and is an involution.
pub proof fn lemma_opposite_involution(d: u8)
    requires
        is_dir(d),
    ensures
        is_dir(opposite_of(d)),
        opposite_of(opposite_of(d)) == d,
        opposite_of(d) != d,
        dx_of(opposite_of(d)) == -dx_of(d),
        dy_of(opposite_of(d)) == -dy_of(d),
{
}

/// Or-ing bits in keeps every bit that was set, and sets only the new ones.
pub proof fn lemma_or_bit(a: u8, b: u8, e: u8)
    ensures
        ((a | b) & e != 0) == ((a & e != 0) || (b & e != 0)),
{
    assert(((a | b) & e != 0) == ((a & e != 0) || (b & e != 0))) by (bit_vector);
}

/// Or-ing into a non-empty mask keeps it non-empty; or-ing into an empty
/// mask gives the bits or-ed in.
pub proof fn lemma_or_nonzero(a: u8, b: u8)
    ensures
        a != 0 ==> (a | b) != 0,
        (0u8 | b) == b,
        (0u8 & b) == 0,
{
    assert((0u8 & b) == 0u8) by (bit_vector);
    assert(a != 0u8 ==> (a | b) != 0u8) by (bit_vector);
    assert((0u8 | b) == b) by (bit_vector);
}

/// Two direction masks share a bit exactly when they are equal.
pub proof fn lemma_dir_bits(d: u8, e: u8)
    requires
        is_dir(d),
        is_dir(e),
    ensures
        (d & e != 0) == (d == e),
        d & d != 0,
        d < 16,
{
    assert(d == 1u8 || d == 2u8 || d == 4u8 || d == 8u8);
    assert(e == 1u8 || e == 2u8 || e == 4u8 || e == 8u8);
    assert((d == 1u8 || d == 2u8 || d == 4u8 || d == 8u8) && (e == 1u8 || e == 2u8 || e == 4u8
        || e == 8u8) ==> ((d & e != 0) == (d == e) && d & d != 0)) by (bit_vector);
}

/// A mask below 16 with none of the four direction bits is empty; or-ing a
/// direction into such a mask keeps it below 16 and makes it non-empty.
pub proof fn lemma_small_mask(m: u8, d: u8)
    requires
        m < 16,
        is_dir(d),
    ensures
        (m & N == 0 && m & S == 0 && m & E == 0 && m & W == 0) ==> m == 0,
        (m | d) < 16,
        (m | d) != 0,
{
    assert(d == 1u8 || d == 2u8 || d == 4u8 || d == 8u8);
    assert(m < 16u8 ==> ((m & 1u8 == 0 && m & 2u8 == 0 && m & 4u8 == 0 && m & 8u8 == 0) ==> m
        == 0u8)) by (bit_vector);
    assert(m < 16u8 && (d == 1u8 || d == 2u8 || d == 4u8 || d == 8u8) ==> ((m | d) < 16u8 && (m
        | d) != 0u8)) by (bit_vector);
}

} // verus!
