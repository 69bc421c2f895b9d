//! The levels of the occupancy index as plain sequences of words, and the
//! aggregation rule that ties each level to the one below it.

use super::bits::bit;
use super::mvec::written;
use vstd::prelude::*;

verus! {

/// 32 to the power `row`, for the rows 0 to 4.
pub open spec fn pow32(row: int) -> int {
    if row <= 0 {
        1
    } else if row == 1 {
        32
    } else if row == 2 {
        1024
    } else if row == 3 {
        32768
    } else {
        1048576
    }
}

/// The first slot that word `node` of level `level` stands for. A root word
/// stands for 32^4 slots, a leaf word for 32; the slots of word `node` end
/// where those of word `node + 1` begin.
pub open spec fn first_slot(level: int, node: int) -> int {
    if level <= 0 {
        node * 1048576
    } else if level == 1 {
        node * 32768
    } else if level == 2 {
        node * 1024
    } else {
        node * 32
    }
}

/// Word `i` of a level. A word that the level does not hold is zero.
pub open spec fn word(level: Seq<Option<u32>>, i: int) -> u32 {
    if 0 <= i < level.len() && level[i] is Some {
        level[i].unwrap()
    } else {
        0
    }
}

/// Whether the leaf level marks `slot` as occupied: slot `s` is bit `s % 32`
/// of leaf word `s / 32`.
pub open spec fn occupied(leaves: Seq<Option<u32>>, slot: int) -> bool {
    slot >= 0 && bit(word(leaves, slot / 32), (slot % 32) as u32)
}

/// The aggregation rule between two neighbouring levels: bit `c % 32` of
/// the upper level's word `c / 32` is set exactly when the lower level's
/// word `c` is not zero.
pub open spec fn summarizes(upper: Seq<Option<u32>>, lower: Seq<Option<u32>>) -> bool {
    forall|c: int|
        0 <= c ==> (bit(word(upper, c / 32), (c % 32) as u32) <==> #[trigger] word(lower, c) != 0)
}

/// Two levels hold the same words, but perhaps for word `i`.
pub open spec fn same_but(a: Seq<Option<u32>>, b: Seq<Option<u32>>, i: int) -> bool {
    forall|j: int| j != i ==> #[trigger] word(a, j) == word(b, j)
}

/// A write at offset `i` changes word `i` and no other.
pub proof fn lemma_word_written(level: Seq<Option<u32>>, i: int, w: u32)
    requires
        0 <= i,
    ensures
        word(written(level, i, w), i) == w,
        same_but(written(level, i, w), level, i),
{
}

/// Setting a bit in the upper level for a lower word that has become, or
/// stayed, nonzero keeps the aggregation rule.
pub proof fn lemma_summarizes_set(
    upper: Seq<Option<u32>>,
    lower: Seq<Option<u32>>,
    upper2: Seq<Option<u32>>,
    lower2: Seq<Option<u32>>,
    c: int,
)
    requires
        summarizes(upper, lower),
        0 <= c,
        same_but(lower2, lower, c),
        word(lower2, c) != 0,
        same_but(upper2, upper, c / 32),
        forall|q: u32|
            q < 32 ==> (#[trigger] bit(word(upper2, c / 32), q) <==> q == c % 32 || bit(
                word(upper, c / 32),
                q,
            )),
    ensures
        summarizes(upper2, lower2),
{
    assert forall|d: int| 0 <= d implies (bit(word(upper2, d / 32), (d % 32) as u32)
        <==> #[trigger] word(lower2, d) != 0) by {
        let q = (d % 32) as u32;
        assert(word(lower, d) != 0 <==> bit(word(upper, d / 32), q));
        if d != c {
            assert(word(lower2, d) == word(lower, d));
            if d / 32 == c / 32 {
                assert(bit(word(upper2, c / 32), q) <==> q == c % 32 || bit(
                    word(upper, c / 32),
                    q,
                ));
            } else {
                assert(word(upper2, d / 32) == word(upper, d / 32));
            }
        } else {
            assert(bit(word(upper2, c / 32), q) <==> q == c % 32 || bit(word(upper, c / 32), q));
        }
    }
}

/// A lower word that changes and stays nonzero leaves the aggregation rule
/// in place, the upper level untouched.
pub proof fn lemma_summarizes_kept(
    upper: Seq<Option<u32>>,
    lower: Seq<Option<u32>>,
    lower2: Seq<Option<u32>>,
    c: int,
)
    requires
        summarizes(upper, lower),
        same_but(lower2, lower, c),
        word(lower, c) != 0,
        word(lower2, c) != 0,
    ensures
        summarizes(upper, lower2),
{
    assert forall|d: int| 0 <= d implies (bit(word(upper, d / 32), (d % 32) as u32)
        <==> #[trigger] word(lower2, d) != 0) by {
        assert(word(lower, d) != 0 <==> bit(word(upper, d / 32), (d % 32) as u32));
        if d != c {
            assert(word(lower2, d) == word(lower, d));
        }
    }
}

/// Clearing the bit in the upper level for a lower word that has become zero
/// keeps the aggregation rule.
pub proof fn lemma_summarizes_cleared(
    upper: Seq<Option<u32>>,
    lower: Seq<Option<u32>>,
    upper2: Seq<Option<u32>>,
    lower2: Seq<Option<u32>>,
    c: int,
)
    requires
        summarizes(upper, lower),
        0 <= c,
        same_but(lower2, lower, c),
        word(lower2, c) == 0,
        same_but(upper2, upper, c / 32),
        forall|q: u32|
            q < 32 ==> (#[trigger] bit(word(upper2, c / 32), q) <==> q != c % 32 && bit(
                word(upper, c / 32),
                q,
            )),
    ensures
        summarizes(upper2, lower2),
{
    assert forall|d: int| 0 <= d implies (bit(word(upper2, d / 32), (d % 32) as u32)
        <==> #[trigger] word(lower2, d) != 0) by {
        let q = (d % 32) as u32;
        assert(word(lower, d) != 0 <==> bit(word(upper, d / 32), q));
        if d != c {
            assert(word(lower2, d) == word(lower, d));
            if d / 32 == c / 32 {
                assert(bit(word(upper2, c / 32), q) <==> q != c % 32 && bit(
                    word(upper, c / 32),
                    q,
                ));
            } else {
                assert(word(upper2, d / 32) == word(upper, d / 32));
            }
        } else {
            assert(bit(word(upper2, c / 32), q) <==> q != c % 32 && bit(word(upper, c / 32), q));
        }
    }
}

} // verus!
