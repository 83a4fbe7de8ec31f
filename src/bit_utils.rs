use vstd::prelude::*;

verus! {

/// Whether bit `j` (counted from the least significant end) of `a` is set.
pub open spec fn bit_set(a: u128, j: u32) -> bool {
    (a >> j) & 1u128 == 1u128
}

/// The number of set bits of `a` among its `n` lowest positions.
pub open spec fn ones_below(a: u128, n: int) -> nat
    decreases n,
{
    if n <= 0 {
        0
    } else {
        ones_below(a, n - 1) + if bit_set(a, (n - 1) as u32) {
            1nat
        } else {
            0nat
        }
    }
}

/// The number of set bits of `a`.
pub open spec fn count_ones(a: u128) -> nat {
    ones_below(a, 128)
}

/// Counts the set bits of `a`.
pub fn popcount(a: u128) -> (r: usize)
    ensures
        r == count_ones(a),
        r <= 128,
{
    let mut count: usize = 0;
    let mut i: u32 = 0;
    while i < 128
        invariant
            i <= 128,
            count == ones_below(a, i as int),
            count <= i,
        decreases 128 - i,
    {
        if (a >> i) & 1u128 == 1u128 {
            count = count + 1;
        }
        i = i + 1;
    }
    count
}

} // verus!
