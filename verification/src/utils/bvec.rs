//! A sparse vector: values at integer slots, with a four-level bit index
//! that answers which slots are occupied without walking all of them.

use super::bits::{
    bit, lemma_zero_iff_no_bit, lowest_one_from, lowest_zero, test_bit, with_bit, without_bit,
};
use super::levels::{
    first_slot, lemma_summarizes_cleared, lemma_summarizes_kept, lemma_summarizes_set,
    lemma_word_written, occupied, pow32, same_but, summarizes, word,
};
use super::mvec::MVec;
use vstd::prelude::*;

verus! {

/// The number of slots that the index covers: 32 to the fourth power.
pub const CAPACITY: usize = 1048576;

/// `r` is the lowest slot from `lo` up to, and without, `hi` that `taken`
/// does not hold, and `None` where it holds them all.
pub open spec fn is_first_free(taken: Set<usize>, lo: int, hi: int, r: Option<usize>) -> bool {
    match r {
        Some(s) => lo <= s < hi && !taken.contains(s) && forall|t: usize|
            lo <= t < s ==> taken.contains(t),
        None => forall|t: usize| lo <= t < hi ==> taken.contains(t),
    }
}

/// `r` is the lowest slot from `lo` up to, and without, `hi` that `taken`
/// holds, and `None` where it holds none of them.
pub open spec fn is_first_taken(taken: Set<usize>, lo: int, hi: int, r: Option<usize>) -> bool {
    match r {
        Some(s) => lo <= s < hi && taken.contains(s) && forall|t: usize|
            lo <= t < s ==> !taken.contains(t),
        None => forall|t: usize| lo <= t < hi ==> !taken.contains(t),
    }
}

/// `is_first_free` leaves one answer only.
pub proof fn lemma_first_free_unique(
    taken: Set<usize>,
    lo: int,
    hi: int,
    a: Option<usize>,
    b: Option<usize>,
)
    requires
        is_first_free(taken, lo, hi, a),
        is_first_free(taken, lo, hi, b),
    ensures
        a == b,
{
}

/// `is_first_taken` leaves one answer only.
pub proof fn lemma_first_taken_unique(
    taken: Set<usize>,
    lo: int,
    hi: int,
    a: Option<usize>,
    b: Option<usize>,
)
    requires
        is_first_taken(taken, lo, hi, a),
        is_first_taken(taken, lo, hi, b),
    ensures
        a == b,
{
}

/// Where exactly the slots below `k` are occupied, the first free slot is
/// `k`: an empty vector hands out the slots 0, 1, 2 and so on, in that order.
pub proof fn lemma_first_free_after_prefix(taken: Set<usize>, k: usize, r: Option<usize>)
    requires
        k < CAPACITY,
        forall|s: usize| taken.contains(s) <==> s < k,
        is_first_free(taken, 0, CAPACITY as int, r),
    ensures
        r == Some(k),
{
    assert(!taken.contains(k));
    if r is Some && r.unwrap() > k {
        assert(taken.contains(k));
    }
}

/// Once `slot` has been released, the first free slot is `slot` or a lower
/// one, never a higher one; and it is `slot` exactly where every slot below
/// it is occupied.
pub proof fn lemma_released_slot_is_reused(taken: Set<usize>, slot: usize, r: Option<usize>)
    requires
        slot < CAPACITY,
        is_first_free(taken.remove(slot), 0, CAPACITY as int, r),
    ensures
        r is Some,
        r.unwrap() <= slot,
        r.unwrap() == slot <==> forall|t: usize| t < slot ==> taken.contains(t),
{
    let left = taken.remove(slot);
    assert(!left.contains(slot));
    if r is Some && r.unwrap() > slot {
        assert(left.contains(slot));
    }
    if r.unwrap() == slot {
        assert forall|t: usize| t < slot implies taken.contains(t) by {
            assert(left.contains(t));
        }
    } else {
        assert(!left.contains(r.unwrap()));
    }
}

/// Where slot `idx` is recorded `row_nb` levels above the slots: the number
/// of the word, and the bit within that word. Row 1 is the leaf level, row 4
/// the root.
pub fn position(idx: usize, row_nb: usize) -> (r: (usize, u32))
    requires
        1 <= row_nb <= 4,
    ensures
        r.0 == (idx as int) / pow32(row_nb as int),
        r.1 == ((idx as int) / pow32(row_nb - 1)) % 32,
{
    let (below, here): (usize, usize) = if row_nb == 1 {
        (1, 32)
    } else if row_nb == 2 {
        (32, 1024)
    } else if row_nb == 3 {
        (1024, 32768)
    } else {
        (32768, 1048576)
    };
    let index: usize = idx / here;
    let bit_nb: usize = (idx / below) % 32;
    (index, bit_nb as u32)
}

/// Word `i` of a level.
fn read_word<const N: usize>(level: &MVec<u32, N>, i: usize) -> (r: u32)
    requires
        level.wf(),
    ensures
        r == word(level@, i as int),
{
    if level.holds(i) {
        *level.get(i)
    } else {
        0
    }
}

/// Sets bit `p` of word `i` of a level and leaves the rest of the level as
/// it is.
fn set_in_level<const N: usize>(level: &mut MVec<u32, N>, i: usize, p: u32)
    requires
        old(level).wf(),
        i < N,
        p < 32,
    ensures
        final(level).wf(),
        same_but(final(level)@, old(level)@, i as int),
        word(final(level)@, i as int) != 0,
        forall|q: u32|
            q < 32 ==> (#[trigger] bit(word(final(level)@, i as int), q) <==> q == p || bit(
                word(old(level)@, i as int),
                q,
            )),
{
    let w: u32 = with_bit(read_word(level, i), p);
    level.insert(i, w);
    proof {
        lemma_word_written(old(level)@, i as int, w);
    }
}

/// Clears bit `p` of word `i` of a level, leaves the rest of the level as it
/// is, and tells whether the word is zero now.
fn clear_in_level<const N: usize>(level: &mut MVec<u32, N>, i: usize, p: u32) -> (zero: bool)
    requires
        old(level).wf(),
        i < N,
        p < 32,
    ensures
        final(level).wf(),
        same_but(final(level)@, old(level)@, i as int),
        zero == (word(final(level)@, i as int) == 0),
        forall|q: u32|
            q < 32 ==> (#[trigger] bit(word(final(level)@, i as int), q) <==> q != p && bit(
                word(old(level)@, i as int),
                q,
            )),
{
    let w: u32 = without_bit(read_word(level, i), p);
    level.insert(i, w);
    proof {
        lemma_word_written(old(level)@, i as int, w);
    }
    w == 0
}

/// The occupancy index: one bit per slot at the leaf level, and three
/// levels above it that each condense 32 words of the level below into one.
pub struct BMask {
    root: u32,
    l1: MVec<u32, 32>,
    l2: MVec<u32, 1024>,
    l3: MVec<u32, 32768>,
}

impl View for BMask {
    type V = Set<usize>;

    /// The occupied slots.
    open spec fn view(&self) -> Set<usize> {
        Set::new(|s: usize| occupied(self.words(3), s as int))
    }
}

impl BMask {
    /// The words of a level: level 0 is the root, level 3 the leaves.
    pub closed spec fn words(&self, level: int) -> Seq<Option<u32>> {
        if level <= 0 {
            seq![Some(self.root)]
        } else if level == 1 {
            self.l1@
        } else if level == 2 {
            self.l2@
        } else {
            self.l3@
        }
    }

    /// The storage of the three lower levels is in order.
    pub closed spec fn stored(&self) -> bool {
        self.l1.wf() && self.l2.wf() && self.l3.wf()
    }

    /// The index is consistent: level `k` holds at most 32 to the power `k`
    /// words, and each level obeys the aggregation rule towards the level
    /// below it.
    pub open spec fn wf(&self) -> bool {
        &&& self.stored()
        &&& forall|k: int| 0 <= k <= 3 ==> (#[trigger] self.words(k)).len() <= pow32(k)
        &&& forall|k: int| 0 <= k < 3 ==> summarizes(#[trigger] self.words(k), self.words(k + 1))
    }

    /// An index with no slot occupied.
    pub fn new() -> (r: Self)
        ensures
            r.wf(),
            r@ == Set::<usize>::empty(),
    {
        let r = BMask { root: 0, l1: MVec::new(), l2: MVec::new(), l3: MVec::new() };
        proof {
            lemma_zero_iff_no_bit(0);
            r.l1.lemma_bounds();
            r.l2.lemma_bounds();
            r.l3.lemma_bounds();
            assert(r@ =~= Set::<usize>::empty());
        }
        r
    }

    /// Marks slot `idx` as occupied: sets its leaf bit, and the bit on its
    /// path in each level above.
    pub fn add(&mut self, idx: usize)
        requires
            old(self).wf(),
            idx < CAPACITY,
        ensures
            final(self).wf(),
            final(self)@ == old(self)@.insert(idx),
    {
        let (l3_idx, l3_offset) = position(idx, 1);
        let (l2_idx, l2_offset) = position(idx, 2);
        let (l1_idx, l1_offset) = position(idx, 3);
        let (_, root_offset) = position(idx, 4);
        self.root = with_bit(self.root, root_offset);
        set_in_level(&mut self.l1, l1_idx, l1_offset);
        set_in_level(&mut self.l2, l2_idx, l2_offset);
        set_in_level(&mut self.l3, l3_idx, l3_offset);
        proof {
            self.l1.lemma_bounds();
            self.l2.lemma_bounds();
            self.l3.lemma_bounds();
            lemma_summarizes_set(
                old(self).words(2),
                old(self).words(3),
                self.words(2),
                self.words(3),
                l3_idx as int,
            );
            lemma_summarizes_set(
                old(self).words(1),
                old(self).words(2),
                self.words(1),
                self.words(2),
                l2_idx as int,
            );
            lemma_summarizes_set(
                old(self).words(0),
                old(self).words(1),
                self.words(0),
                self.words(1),
                l1_idx as int,
            );
            assert forall|s: usize| self@.contains(s) <==> old(self)@.insert(idx).contains(s) by {
                if s / 32 == l3_idx {
                    let q = (s % 32) as u32;
                    assert(bit(word(self.words(3), l3_idx as int), q) <==> q == l3_offset || bit(
                        word(old(self).words(3), l3_idx as int),
                        q,
                    ));
                } else {
                    assert(word(self.words(3), s as int / 32) == word(
                        old(self).words(3),
                        s as int / 32,
                    ));
                }
            }
            assert(self@ =~= old(self)@.insert(idx));
        }
    }

    /// Whether slot `idx` is occupied. Only the leaf bit is read.
    pub fn is_present(&self, idx: usize) -> (r: bool)
        requires
            self.wf(),
        ensures
            r == self@.contains(idx),
    {
        let (l3_idx, l3_offset) = position(idx, 1);
        test_bit(read_word(&self.l3, l3_idx), l3_offset)
    }

    /// An occupied slot lies below `CAPACITY`.
    pub proof fn lemma_in_capacity(&self, idx: usize)
        requires
            self.wf(),
            self@.contains(idx),
        ensures
            idx < CAPACITY,
    {
        assert(self.words(3).len() <= pow32(3));
        lemma_zero_iff_no_bit(0);
    }

    /// Marks slot `idx` as empty: clears its leaf bit, and in each level
    /// above clears the bit on its path as long as the word below has become
    /// zero. A slot that was empty stays so.
    pub fn remove(&mut self, idx: usize)
        requires
            old(self).wf(),
        ensures
            final(self).wf(),
            final(self)@ == old(self)@.remove(idx),
    {
        if !self.is_present(idx) {
            assert(self@ =~= old(self)@.remove(idx));
            return ;
        }
        let (l3_idx, l3_offset) = position(idx, 1);
        let (l2_idx, l2_offset) = position(idx, 2);
        let (l1_idx, l1_offset) = position(idx, 3);
        let (_, root_offset) = position(idx, 4);
        proof {
            self.lemma_in_capacity(idx);
            self.lemma_path_set(idx);
        }
        let leaf_zero = clear_in_level(&mut self.l3, l3_idx, l3_offset);
        proof {
            self.l3.lemma_bounds();
            assert forall|s: usize| self@.contains(s) <==> old(self)@.remove(idx).contains(s) by {
                if s / 32 == l3_idx {
                    let q = (s % 32) as u32;
                    assert(bit(word(self.words(3), l3_idx as int), q) <==> q != l3_offset && bit(
                        word(old(self).words(3), l3_idx as int),
                        q,
                    ));
                } else {
                    assert(word(self.words(3), s as int / 32) == word(
                        old(self).words(3),
                        s as int / 32,
                    ));
                }
            }
            assert(self@ =~= old(self)@.remove(idx));
        }
        if !leaf_zero {
            proof {
                lemma_summarizes_kept(
                    old(self).words(2),
                    old(self).words(3),
                    self.words(3),
                    l3_idx as int,
                );
            }
            return ;
        }
        let l2_zero = clear_in_level(&mut self.l2, l2_idx, l2_offset);
        proof {
            self.l2.lemma_bounds();
            lemma_summarizes_cleared(
                old(self).words(2),
                old(self).words(3),
                self.words(2),
                self.words(3),
                l3_idx as int,
            );
        }
        if !l2_zero {
            proof {
                lemma_summarizes_kept(
                    old(self).words(1),
                    old(self).words(2),
                    self.words(2),
                    l2_idx as int,
                );
            }
            return ;
        }
        let l1_zero = clear_in_level(&mut self.l1, l1_idx, l1_offset);
        proof {
            self.l1.lemma_bounds();
            lemma_summarizes_cleared(
                old(self).words(1),
                old(self).words(2),
                self.words(1),
                self.words(2),
                l2_idx as int,
            );
        }
        if !l1_zero {
            proof {
                lemma_summarizes_kept(
                    old(self).words(0),
                    old(self).words(1),
                    self.words(1),
                    l1_idx as int,
                );
            }
            return ;
        }
        self.root = without_bit(self.root, root_offset);
        proof {
            lemma_summarizes_cleared(
                old(self).words(0),
                old(self).words(1),
                self.words(0),
                self.words(1),
                l1_idx as int,
            );
        }
    }

    /// Word `node` of level `level`: level 0 is the root, level 3 the
    /// leaves. A word that the level does not hold reads as zero.
    pub fn word_at(&self, level: usize, node: usize) -> (r: u32)
        requires
            self.wf(),
            level <= 3,
        ensures
            r == word(self.words(level as int), node as int),
    {
        if level == 0 {
            if node == 0 {
                self.root
            } else {
                0
            }
        } else if level == 1 {
            read_word(&self.l1, node)
        } else if level == 2 {
            read_word(&self.l2, node)
        } else {
            read_word(&self.l3, node)
        }
    }

    /// Below a word that is zero, no slot is occupied.
    pub proof fn lemma_empty_below(&self, level: int, node: int)
        requires
            self.wf(),
            0 <= level <= 3,
            0 <= node,
            word(self.words(level), node) == 0,
        ensures
            forall|s: usize|
                first_slot(level, node) <= s < first_slot(level, node + 1) ==> !self@.contains(s),
        decreases 3 - level,
    {
        lemma_zero_iff_no_bit(0);
        assert forall|s: usize|
            first_slot(level, node) <= s < first_slot(level, node + 1) implies !self@.contains(
            s,
        ) by {
            if level == 3 {
                assert(s as int / 32 == node);
            } else {
                let c = s as int / pow32(3 - level);
                assert(c / 32 == node);
                assert(summarizes(self.words(level), self.words(level + 1)));
                assert(word(self.words(level + 1), c) == 0);
                self.lemma_empty_below(level + 1, c);
            }
        }
    }

    /// The lowest empty slot among those that word `node` of level `level`
    /// stands for. A bit that is clear in the word settles the search: the
    /// slots below it are all empty. A bit that is set sends it one level
    /// down.
    fn first_empty_under(&self, level: usize, node: usize) -> (r: Option<usize>)
        requires
            self.wf(),
            level <= 3,
            node < pow32(level as int),
        ensures
            is_first_free(
                self@,
                first_slot(level as int, node as int),
                first_slot(level as int, node + 1),
                r,
            ),
        decreases 3 - level,
    {
        let w: u32 = self.word_at(level, node);
        if level == 3 {
            return match lowest_zero(w) {
                Some(p) => {
                    let s: usize = node * 32 + p as usize;
                    assert forall|t: usize| node * 32 <= t < s implies self@.contains(t) by {
                        assert(t as int / 32 == node);
                        assert(bit(w, (t % 32) as u32));
                    }
                    Some(s)
                },
                None => {
                    assert forall|t: usize| node * 32 <= t < (node + 1) * 32 implies self@.contains(
                        t,
                    ) by {
                        assert(t as int / 32 == node);
                        assert(bit(w, (t % 32) as u32));
                    }
                    None
                },
            };
        }
        let (below, lo): (usize, usize) = if level == 0 {
            (32768, 0)
        } else if level == 1 {
            (1024, node * 32768)
        } else {
            (32, node * 1024)
        };
        let mut p: u32 = 0;
        let mut child_lo: usize = lo;
        while p < 32
            invariant
                p <= 32,
                self.wf(),
                level < 3,
                node < pow32(level as int),
                below == pow32(3 - level),
                lo == first_slot(level as int, node as int),
                child_lo == first_slot(level + 1, node * 32 + p),
                w == word(self.words(level as int), node as int),
                forall|t: usize| lo <= t < child_lo ==> self@.contains(t),
            decreases 32 - p,
        {
            let child: usize = node * 32 + p as usize;
            if !test_bit(w, p) {
                proof {
                    assert(summarizes(self.words(level as int), self.words(level + 1)));
                    assert(word(self.words(level + 1), child as int) == 0);
                    self.lemma_empty_below(level + 1, child as int);
                }
                return Some(child_lo);
            }
            match self.first_empty_under(level + 1, child) {
                Some(s) => {
                    return Some(s);
                },
                None => {},
            }
            p = p + 1;
            child_lo = child_lo + below;
        }
        None
    }

    /// The lowest empty slot, or `None` where every slot below `CAPACITY` is
    /// occupied.
    pub fn first_empty_spot(&self) -> (r: Option<usize>)
        requires
            self.wf(),
        ensures
            is_first_free(self@, 0, CAPACITY as int, r),
    {
        self.first_empty_under(0, 0)
    }

    /// The lowest occupied slot, not below `from`, among those that word
    /// `node` of level `level` stands for. A bit that is clear in the word
    /// lets the search pass over all the slots below it.
    fn first_present_from(&self, level: usize, node: usize, from: usize) -> (r: Option<usize>)
        requires
            self.wf(),
            level <= 3,
            node < pow32(level as int),
        ensures
            is_first_taken(
                self@,
                if from > first_slot(level as int, node as int) {
                    from as int
                } else {
                    first_slot(level as int, node as int)
                },
                first_slot(level as int, node + 1),
                r,
            ),
        decreases 3 - level,
    {
        let w: u32 = self.word_at(level, node);
        if level == 3 {
            let lo: usize = node * 32;
            let start: u32 = if from <= lo {
                0
            } else if from - lo < 32 {
                (from - lo) as u32
            } else {
                32
            };
            return match lowest_one_from(w, start) {
                Some(p) => {
                    let s: usize = lo + p as usize;
                    assert forall|t: usize| lo + start <= t < s implies !self@.contains(t) by {
                        assert(t as int / 32 == node);
                        assert(!bit(w, (t % 32) as u32));
                    }
                    Some(s)
                },
                None => {
                    assert forall|t: usize| lo + start <= t < lo + 32 implies !self@.contains(
                        t,
                    ) by {
                        assert(t as int / 32 == node);
                        assert(!bit(w, (t % 32) as u32));
                    }
                    None
                },
            };
        }
        let (below, lo): (usize, usize) = if level == 0 {
            (32768, 0)
        } else if level == 1 {
            (1024, node * 32768)
        } else {
            (32, node * 1024)
        };
        let mut p: u32 = 0;
        let mut child_lo: usize = lo;
        while p < 32
            invariant
                p <= 32,
                self.wf(),
                level < 3,
                node < pow32(level as int),
                below == pow32(3 - level),
                lo == first_slot(level as int, node as int),
                child_lo == first_slot(level + 1, node * 32 + p),
                w == word(self.words(level as int), node as int),
                forall|t: usize| lo <= t < child_lo && from <= t ==> !self@.contains(t),
            decreases 32 - p,
        {
            let child: usize = node * 32 + p as usize;
            if !test_bit(w, p) {
                proof {
                    assert(summarizes(self.words(level as int), self.words(level + 1)));
                    assert(word(self.words(level + 1), child as int) == 0);
                    self.lemma_empty_below(level + 1, child as int);
                }
            } else if from < child_lo + below {
                match self.first_present_from(level + 1, child, from) {
                    Some(s) => {
                        return Some(s);
                    },
                    None => {},
                }
            }
            p = p + 1;
            child_lo = child_lo + below;
        }
        None
    }

    /// The lowest occupied slot above `idx`, or `None` where no slot above
    /// `idx` is occupied.
    pub fn next(&self, idx: usize) -> (r: Option<usize>)
        requires
            self.wf(),
        ensures
            is_first_taken(self@, idx + 1, CAPACITY as int, r),
    {
        if idx >= CAPACITY - 1 {
            proof {
                assert forall|t: usize| idx + 1 <= t implies !self@.contains(t) by {
                    if self@.contains(t) {
                        self.lemma_in_capacity(t);
                    }
                }
            }
            None
        } else {
            self.first_present_from(0, 0, idx + 1)
        }
    }

    /// Above the leaves, a word is zero exactly when the 32 words that it
    /// condenses are all zero.
    pub proof fn lemma_zero_iff_words_below_zero(&self, level: int, node: int)
        requires
            self.wf(),
            0 <= level < 3,
            0 <= node,
        ensures
            word(self.words(level), node) == 0 <==> forall|q: int|
                0 <= q < 32 ==> word(self.words(level + 1), #[trigger] (node * 32 + q)) == 0,
    {
        let w = word(self.words(level), node);
        lemma_zero_iff_no_bit(w);
        assert(summarizes(self.words(level), self.words(level + 1)));
        if w == 0 {
            assert forall|q: int| 0 <= q < 32 implies word(
                self.words(level + 1),
                #[trigger] (node * 32 + q),
            ) == 0 by {
                let c = node * 32 + q;
                assert(c / 32 == node && c % 32 == q);
                assert(!bit(w, q as u32));
                assert(bit(word(self.words(level), c / 32), (c % 32) as u32) <==> word(
                    self.words(level + 1),
                    c,
                ) != 0);
            }
        } else {
            let p = choose|p: u32| p < 32 && bit(w, p);
            let c = node * 32 + p;
            assert(c / 32 == node && c % 32 == p);
            assert(bit(word(self.words(level), c / 32), (c % 32) as u32) <==> word(
                self.words(level + 1),
                c,
            ) != 0);
            assert(word(self.words(level + 1), node * 32 + p) != 0);
        }
    }

    /// A leaf word is zero exactly when the 32 slots that it records are all
    /// empty.
    pub proof fn lemma_zero_iff_slots_empty(&self, node: usize)
        requires
            self.wf(),
            node < 32768,
        ensures
            word(self.words(3), node as int) == 0 <==> forall|s: usize|
                node * 32 <= s < node * 32 + 32 ==> !self@.contains(s),
    {
        let w = word(self.words(3), node as int);
        lemma_zero_iff_no_bit(w);
        if w == 0 {
            assert forall|s: usize| node * 32 <= s < node * 32 + 32 implies !self@.contains(s) by {
                assert(s as int / 32 == node);
                assert(!bit(w, (s % 32) as u32));
            }
        } else {
            let p = choose|p: u32| p < 32 && bit(w, p);
            let s = (node * 32 + p) as usize;
            assert(s as int / 32 == node && s % 32 == p);
            assert(self@.contains(s));
        }
    }

    /// Above an occupied slot, every word on its path is nonzero.
    pub proof fn lemma_path_set(&self, idx: usize)
        requires
            self.wf(),
            self@.contains(idx),
        ensures
            word(self.words(3), idx as int / 32) != 0,
            word(self.words(2), idx as int / 1024) != 0,
            word(self.words(1), idx as int / 32768) != 0,
            word(self.words(0), 0) != 0,
    {
        self.lemma_in_capacity(idx);
        let i3 = idx as int / 32;
        let i2 = idx as int / 1024;
        let i1 = idx as int / 32768;
        lemma_zero_iff_no_bit(word(self.words(3), i3));
        assert(summarizes(self.words(2), self.words(3)));
        assert(word(self.words(3), i3) != 0);
        assert(bit(word(self.words(2), i3 / 32), (i3 % 32) as u32));
        lemma_zero_iff_no_bit(word(self.words(2), i2));
        assert(summarizes(self.words(1), self.words(2)));
        assert(word(self.words(2), i2) != 0);
        assert(bit(word(self.words(1), i2 / 32), (i2 % 32) as u32));
        lemma_zero_iff_no_bit(word(self.words(1), i1));
        assert(summarizes(self.words(0), self.words(1)));
        assert(word(self.words(1), i1) != 0);
        assert(bit(word(self.words(0), i1 / 32), (i1 % 32) as u32));
        lemma_zero_iff_no_bit(word(self.words(0), 0));
    }
}

/// What `insert_first_empty` hands back where every slot is occupied: the
/// value that found no place.
#[derive(Debug)]
pub struct IndexSpaceExhausted<T>(pub T);

/// A sparse vector of at most `CAPACITY` values, each at a slot of its own.
/// The index knows which slots are occupied; the buffer holds the values.
pub struct BVec<T> {
    mask: BMask,
    buffer: MVec<T, 1048576>,
}

impl<T> View for BVec<T> {
    type V = Map<usize, T>;

    /// The occupied slots, each with its value.
    closed spec fn view(&self) -> Map<usize, T> {
        Map::new(|s: usize| self.mask@.contains(s), |s: usize| self.buffer@[s as int].unwrap())
    }
}

impl<T> BVec<T> {
    /// The index is consistent, and it marks a slot as occupied exactly
    /// where the buffer holds a value.
    pub closed spec fn wf(&self) -> bool {
        &&& self.mask.wf()
        &&& self.buffer.wf()
        &&& forall|s: usize| self.mask@.contains(s) <==> self.buffer.spec_holds(s as int)
    }

    /// Every occupied slot lies below `CAPACITY`.
    pub proof fn lemma_slots_bounded(&self)
        requires
            self.wf(),
        ensures
            forall|s: usize| self@.dom().contains(s) ==> s < CAPACITY,
    {
        assert forall|s: usize| self@.dom().contains(s) implies s < CAPACITY by {
            self.mask.lemma_in_capacity(s);
        }
    }

    /// A vector with no slot occupied.
    pub fn new() -> (r: Self)
        ensures
            r.wf(),
            r@ == Map::<usize, T>::empty(),
    {
        let r = BVec { mask: BMask::new(), buffer: MVec::new() };
        assert(r@ =~= Map::<usize, T>::empty());
        r
    }

    /// The value at slot `idx`, or `None` where the slot is empty.
    pub fn get(&self, idx: usize) -> (r: Option<&T>)
        requires
            self.wf(),
        ensures
            match r {
                Some(v) => self@.dom().contains(idx) && *v == self@[idx],
                None => !self@.dom().contains(idx),
            },
    {
        if !self.mask.is_present(idx) {
            None
        } else {
            Some(self.buffer.get(idx))
        }
    }

    /// The value at slot `idx`, to be changed in place, or `None` where the
    /// slot is empty.
    pub fn get_mut(&mut self, idx: usize) -> (r: Option<&mut T>)
        requires
            old(self).wf(),
        ensures
            final(self).wf(),
            match r {
                Some(v) => (old(self)@.dom().contains(idx)
                    && *v == old(self)@[idx]
                    && final(self)@ == old(self)@.insert(idx, *final(v))),
                None => !old(self)@.dom().contains(idx) && final(self)@ == old(self)@,
            },
    {
        if !self.mask.is_present(idx) {
            None
        } else {
            Some(self.buffer.get_mut(idx))
        }
    }

    /// Stores `elem` at the lowest empty slot and returns that slot. Where
    /// every slot is occupied, the vector stays as it is and `elem` comes
    /// back in the error.
    pub fn insert_first_empty(&mut self, elem: T) -> (r: Result<usize, IndexSpaceExhausted<T>>)
        requires
            old(self).wf(),
        ensures
            final(self).wf(),
            match r {
                Ok(s) => (is_first_free(old(self)@.dom(), 0, CAPACITY as int, Some(s))
                    && final(self)@ == old(self)@.insert(s, elem)),
                Err(e) => (is_first_free(old(self)@.dom(), 0, CAPACITY as int, None)
                    && e.0 == elem
                    && final(self)@ == old(self)@),
            },
    {
        match self.mask.first_empty_spot() {
            Some(idx) => {
                self.insert_at(idx, elem);
                Ok(idx)
            },
            None => Err(IndexSpaceExhausted(elem)),
        }
    }

    /// Stores `elem` at slot `idx` and marks the slot as occupied. A value
    /// that the slot held before is overwritten and dropped.
    pub fn insert_at(&mut self, idx: usize, elem: T)
        requires
            old(self).wf(),
            idx < CAPACITY,
        ensures
            final(self).wf(),
            final(self)@ == old(self)@.insert(idx, elem),
    {
        self.mask.add(idx);
        self.buffer.insert(idx, elem);
        proof {
            assert forall|s: usize|
                self.mask@.contains(s) <==> self.buffer.spec_holds(s as int) by {
                assert(old(self).mask@.contains(s) <==> old(self).buffer.spec_holds(s as int));
            }
            assert(self@ =~= old(self)@.insert(idx, elem));
        }
    }

    /// The lowest occupied slot above `idx`, or `None` where there is none.
    pub fn next_item_index(&self, idx: usize) -> (r: Option<usize>)
        requires
            self.wf(),
        ensures
            is_first_taken(self@.dom(), idx + 1, CAPACITY as int, r),
    {
        self.mask.next(idx)
    }

    /// A pass over the values in ascending order of their slots, from slot 0.
    pub fn iter(&self) -> (it: BVecIterator<'_, T>)
        requires
            self.wf(),
        ensures
            it.wf(),
            it.source() == self@,
            it.cursor() == 0,
    {
        BVecIterator { inner: self, cursor: 0 }
    }

    /// Empties slot `idx` and hands its value to the caller. `None` comes
    /// back, and nothing changes, where the slot was empty.
    pub fn remove(&mut self, idx: usize) -> (r: Option<T>)
        requires
            old(self).wf(),
        ensures
            final(self).wf(),
            final(self)@ == old(self)@.remove(idx),
            r == if old(self)@.dom().contains(idx) {
                Some(old(self)@[idx])
            } else {
                None
            },
    {
        self.mask.remove(idx);
        let r = self.buffer.take(idx);
        proof {
            assert forall|s: usize|
                self.mask@.contains(s) <==> self.buffer.spec_holds(s as int) by {
                assert(old(self).mask@.contains(s) <==> old(self).buffer.spec_holds(s as int));
            }
            assert(old(self).mask@.contains(idx) <==> old(self).buffer.spec_holds(idx as int));
            assert(self@ =~= old(self)@.remove(idx));
        }
        r
    }
}

/// One pass over a sparse vector, in ascending order of the slots. It holds
/// the vector by reference and remembers the lowest slot that it has not
/// passed yet.
pub struct BVecIterator<'a, T> {
    inner: &'a BVec<T>,
    cursor: usize,
}

impl<'a, T> BVecIterator<'a, T> {
    /// What the vector holds.
    pub closed spec fn source(&self) -> Map<usize, T> {
        self.inner@
    }

    /// The lowest slot not passed yet.
    pub closed spec fn cursor(&self) -> usize {
        self.cursor
    }

    /// The vector is consistent and the cursor is within its slots.
    pub closed spec fn wf(&self) -> bool {
        self.inner.wf() && self.cursor <= CAPACITY
    }

    /// `slot` is where the pass comes to next: the lowest occupied slot at
    /// or above the cursor, and `None` where no occupied slot is left.
    pub open spec fn comes_next(&self, slot: Option<usize>) -> bool {
        is_first_taken(self.source().dom(), self.cursor() as int, CAPACITY as int, slot)
    }

    /// The value at the lowest occupied slot that has not been passed, and
    /// past that slot with the cursor. `None` where no occupied slot is
    /// left; the cursor stays where it is then.
    pub fn next(&mut self) -> (r: Option<&'a T>)
        requires
            old(self).wf(),
        ensures
            final(self).wf(),
            final(self).source() == old(self).source(),
            match r {
                Some(v) => (old(self).cursor() < final(self).cursor()
                    && old(self).comes_next(Some((final(self).cursor() - 1) as usize))
                    && *v == old(self).source()[(final(self).cursor() - 1) as usize]),
                None => (final(self).cursor() == old(self).cursor()
                    && old(self).comes_next(None)),
            },
    {
        let found: Option<usize> = if self.cursor == 0 {
            if self.inner.mask.is_present(0) {
                Some(0)
            } else {
                self.inner.next_item_index(0)
            }
        } else {
            self.inner.next_item_index(self.cursor - 1)
        };
        match found {
            Some(s) => {
                self.cursor = s + 1;
                self.inner.get(s)
            },
            None => None,
        }
    }
}

} // verus!
