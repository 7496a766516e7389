//! Facts about single bits of a `u64` row mask.
use vstd::prelude::*;
use vstd::std_specs::bits::u64_trailing_zeros;

verus! {

/// Bit `k` of `x` is set.
pub open spec fn bit(x: u64, k: int) -> bool {
    0 <= k < 64 && (x >> (k as u64)) & 1u64 == 1u64
}

pub proof fn lemma_or_shifted(x: u64, v: u64, s: u64)
    requires
        v <= 1,
        s < 64,
    ensures
        forall|k: int| #[trigger] bit(x | (v << s), k) == (bit(x, k) || (v == 1 && k == s)),
{
    assert forall|k: int| #[trigger] bit(x | (v << s), k) == (bit(x, k) || (v == 1 && k == s)) by {
        if 0 <= k < 64 {
            let kk = k as u64;
            assert(v <= 1 && s < 64 && kk < 64 ==> ((((x | (v << s)) >> kk) & 1u64 == 1u64) == (((x
                >> kk) & 1u64 == 1u64) || (v == 1 && kk == s)))) by (bit_vector);
        }
    }
}

pub proof fn lemma_clear_one(x: u64, s: u64)
    requires
        s < 64,
    ensures
        forall|k: int| #[trigger] bit(x & !(1u64 << s), k) == (bit(x, k) && k != s),
{
    assert forall|k: int| #[trigger] bit(x & !(1u64 << s), k) == (bit(x, k) && k != s) by {
        if 0 <= k < 64 {
            let kk = k as u64;
            assert(s < 64 && kk < 64 ==> ((((x & !(1u64 << s)) >> kk) & 1u64 == 1u64) == (((x
                >> kk) & 1u64 == 1u64) && kk != s))) by (bit_vector);
        }
    }
}

/// The mask of the `n` low bits.
pub open spec fn low_bits(n: u64) -> u64 {
    ((1u64 << n) - 1u64) as u64
}

pub proof fn lemma_clear_below(x: u64, n: u64)
    requires
        n < 64,
    ensures
        forall|k: int| #[trigger] bit(x & !low_bits(n), k) == (bit(x, k) && k >= n),
{
    assert forall|k: int| #[trigger] bit(x & !low_bits(n), k) == (bit(x, k) && k >= n) by {
        if 0 <= k < 64 {
            let kk = k as u64;
            let m = low_bits(n);
            assert(n < 64 && kk < 64 && m == ((1u64 << n) - 1u64) as u64 ==> ((((x & !m) >> kk)
                & 1u64 == 1u64) == (((x >> kk) & 1u64 == 1u64) && kk >= n))) by (bit_vector);
        }
    }
}

/// `trailing_zeros` of a nonzero word is its lowest set bit.
pub proof fn lemma_lowest_bit(x: u64)
    requires
        x != 0,
    ensures
        u64_trailing_zeros(x) < 64,
        bit(x, u64_trailing_zeros(x) as int),
        forall|j: int| 0 <= j < u64_trailing_zeros(x) ==> !#[trigger] bit(x, j),
{
    broadcast use vstd::std_specs::bits::axiom_u64_trailing_zeros;

    let t = u64_trailing_zeros(x);
    assert forall|j: int| 0 <= j < t implies !#[trigger] bit(x, j) by {
        let jj = j as u64;
        assert((x >> jj) & 1u64 == 0u64);
    }
}

/// A word is zero exactly when none of its bits is set.
pub proof fn lemma_zero_iff_no_bits(x: u64)
    ensures
        x == 0 <==> forall|k: int| 0 <= k < 64 ==> !#[trigger] bit(x, k),
{
    if x != 0 {
        lemma_lowest_bit(x);
    } else {
        assert forall|k: int| 0 <= k < 64 implies !#[trigger] bit(x, k) by {
            let kk = k as u64;
            assert(x == 0 ==> (x >> kk) & 1u64 == 0u64) by (bit_vector);
        }
    }
}

/// `(x >> k) & 1 != 0` is the executable test for bit `k`.
pub proof fn lemma_test_bit(x: u64, k: u64)
    requires
        k < 64,
    ensures
        ((x >> k) & 1u64 != 0) == bit(x, k as int),
{
    assert(((x >> k) & 1u64 != 0) == ((x >> k) & 1u64 == 1u64)) by (bit_vector);
}

} // verus!
