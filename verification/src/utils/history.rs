//! What a sparse vector holds after a run of stores and releases, told from
//! the run alone.

use vstd::prelude::*;

verus! {

/// One change to a sparse vector: `Store` puts a value at a slot, as
/// `insert_at` and a successful `insert_first_empty` do; `Release` empties
/// a slot, as `remove` does.
pub enum SlotOp<T> {
    Store(usize, T),
    Release(usize),
}

/// The slot that a change names.
pub open spec fn slot_of<T>(op: SlotOp<T>) -> usize {
    match op {
        SlotOp::Store(s, _) => s,
        SlotOp::Release(s) => s,
    }
}

/// The contents after one change.
pub open spec fn apply<T>(held: Map<usize, T>, op: SlotOp<T>) -> Map<usize, T> {
    match op {
        SlotOp::Store(s, v) => held.insert(s, v),
        SlotOp::Release(s) => held.remove(s),
    }
}

/// The contents after a run of changes, made in order on an empty vector.
pub open spec fn replay<T>(ops: Seq<SlotOp<T>>) -> Map<usize, T>
    decreases ops.len(),
{
    if ops.len() == 0 {
        Map::empty()
    } else {
        apply(replay(ops.drop_last()), ops.last())
    }
}

/// Change `i` of the run stores `v` at `slot`, and no later change names
/// that slot.
pub open spec fn stands<T>(ops: Seq<SlotOp<T>>, i: int, slot: usize, v: T) -> bool {
    &&& 0 <= i < ops.len()
    &&& ops[i] == SlotOp::Store(slot, v)
    &&& forall|j: int| i < j < ops.len() ==> slot_of(#[trigger] ops[j]) != slot
}

/// After any run of changes, a slot is occupied exactly when a store to it
/// has been followed by no other change to it, and it then holds the value
/// of that store.
pub proof fn lemma_replay_holds_last_store<T>(ops: Seq<SlotOp<T>>, slot: usize)
    ensures
        replay(ops).dom().contains(slot) <==> exists|i: int, v: T| stands(ops, i, slot, v),
        forall|i: int, v: T| stands(ops, i, slot, v) ==> replay(ops)[slot] == v,
    decreases ops.len(),
{
    if ops.len() == 0 {
    } else {
        let init = ops.drop_last();
        let last = ops.last();
        let n = ops.len() - 1;
        lemma_replay_holds_last_store(init, slot);
        if slot_of(last) == slot {
            assert forall|i: int, v: T| stands(ops, i, slot, v) implies i == n by {
                if i < n {
                    assert(slot_of(ops[n]) != slot);
                }
            }
            match last {
                SlotOp::Store(s, v) => {
                    assert(stands(ops, n, slot, v));
                },
                SlotOp::Release(s) => {},
            }
        } else {
            assert forall|i: int, v: T| stands(ops, i, slot, v) implies stands(
                init,
                i,
                slot,
                v,
            ) by {
                assert(i != n);
                assert(init[i] == ops[i]);
                assert forall|j: int| i < j < init.len() implies slot_of(#[trigger] init[j])
                    != slot by {
                    assert(init[j] == ops[j]);
                }
            }
            assert forall|i: int, v: T| stands(init, i, slot, v) implies stands(
                ops,
                i,
                slot,
                v,
            ) by {
                assert(init[i] == ops[i]);
                assert forall|j: int| i < j < ops.len() implies slot_of(#[trigger] ops[j])
                    != slot by {
                    if j < n {
                        assert(init[j] == ops[j]);
                    }
                }
            }
            if replay(ops).dom().contains(slot) {
                let (i, v) = choose|i: int, v: T| stands(init, i, slot, v);
                assert(stands(ops, i, slot, v));
            }
        }
    }
}

} // verus!
