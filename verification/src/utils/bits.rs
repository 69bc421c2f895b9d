//! Single bits of a 32-bit word: reading, setting, clearing and scanning.

use vstd::prelude::*;
use vstd::std_specs::bits::{axiom_u32_trailing_ones, axiom_u32_trailing_zeros};

verus! {

/// Whether bit `p` of `w` is set. Bit 0 is the lowest.
pub open spec fn bit(w: u32, p: u32) -> bool {
    (w >> p) & 1 == 1
}

/// A word is zero exactly when none of its 32 bits is set.
pub proof fn lemma_zero_iff_no_bit(w: u32)
    ensures
        w == 0 <==> forall|p: u32| p < 32 ==> !#[trigger] bit(w, p),
{
    if w == 0 {
        assert forall|p: u32| p < 32 implies !#[trigger] bit(w, p) by {
            assert((0u32 >> p) & 1 != 1) by (bit_vector);
        }
    } else {
        axiom_u32_trailing_zeros(w);
        let p = vstd::std_specs::bits::u32_trailing_zeros(w);
        assert(bit(w, p));
    }
}

/// Whether bit `p` of `w` is set.
pub fn test_bit(w: u32, p: u32) -> (r: bool)
    requires
        p < 32,
    ensures
        r == bit(w, p),
{
    (w >> p) & 1 == 1
}

/// `w` with bit `p` set and the other bits as they were.
pub fn with_bit(w: u32, p: u32) -> (r: u32)
    requires
        p < 32,
    ensures
        r != 0,
        forall|q: u32| q < 32 ==> (#[trigger] bit(r, q) <==> q == p || bit(w, q)),
{
    let r: u32 = w | (1u32 << p);
    proof {
        assert(r != 0) by (bit_vector)
            requires
                r == w | (1u32 << p),
                p < 32,
        ;
        assert forall|q: u32| q < 32 implies (#[trigger] bit(r, q) <==> q == p || bit(w, q)) by {
            assert(((r >> q) & 1 == 1) <==> (q == p || (w >> q) & 1 == 1)) by (bit_vector)
                requires
                    r == w | (1u32 << p),
                    p < 32,
                    q < 32,
            ;
        }
    }
    r
}

/// `w` with bit `p` cleared and the other bits as they were.
pub fn without_bit(w: u32, p: u32) -> (r: u32)
    requires
        p < 32,
    ensures
        forall|q: u32| q < 32 ==> (#[trigger] bit(r, q) <==> q != p && bit(w, q)),
{
    let r: u32 = w & !(1u32 << p);
    proof {
        assert forall|q: u32| q < 32 implies (#[trigger] bit(r, q) <==> q != p && bit(w, q)) by {
            assert(((r >> q) & 1 == 1) <==> (q != p && (w >> q) & 1 == 1)) by (bit_vector)
                requires
                    r == w & !(1u32 << p),
                    p < 32,
                    q < 32,
            ;
        }
    }
    r
}

/// The lowest bit of `w` that is clear, if there is one.
pub fn lowest_zero(w: u32) -> (r: Option<u32>)
    ensures
        match r {
            Some(p) => p < 32 && !bit(w, p) && forall|q: u32| q < p ==> #[trigger] bit(w, q),
            None => forall|q: u32| q < 32 ==> #[trigger] bit(w, q),
        },
{
    let p: u32 = w.trailing_ones();
    proof {
        axiom_u32_trailing_ones(w);
        assert forall|q: u32| q < p implies #[trigger] bit(w, q) by {
            assert((w >> q) & 1u32 == 1u32);
        }
    }
    if p == 32 {
        None
    } else {
        Some(p)
    }
}

/// The lowest bit of `w` at position `from` or above that is set, if there
/// is one.
pub fn lowest_one_from(w: u32, from: u32) -> (r: Option<u32>)
    ensures
        match r {
            Some(p) => from <= p < 32 && bit(w, p) && forall|q: u32|
                from <= q < p ==> !#[trigger] bit(w, q),
            None => forall|q: u32| from <= q < 32 ==> !#[trigger] bit(w, q),
        },
{
    if from >= 32 {
        return None;
    }
    let rest: u32 = (w >> from) << from;
    let p: u32 = rest.trailing_zeros();
    proof {
        axiom_u32_trailing_zeros(rest);
        assert forall|q: u32| q < 32 implies (#[trigger] bit(rest, q) <==> from <= q && bit(
            w,
            q,
        )) by {
            assert(((rest >> q) & 1 == 1) <==> (from <= q && (w >> q) & 1 == 1)) by (bit_vector)
                requires
                    rest == (w >> from) << from,
                    from < 32,
                    q < 32,
            ;
        }
        assert forall|q: u32| from <= q < p implies !#[trigger] bit(w, q) by {
            assert((rest >> q) & 1u32 == 0u32);
            assert(!bit(rest, q));
        }
        if p < 32 {
            assert(bit(rest, p));
        } else {
            assert forall|q: u32| q < 32 implies (rest >> q) & 1u32 == 0u32 by {
                assert(rest == 0 ==> (rest >> q) & 1u32 == 0u32) by (bit_vector);
            }
        }
    }
    if p == 32 {
        None
    } else {
        Some(p)
    }
}

} // verus!
