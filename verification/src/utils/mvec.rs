//! A growable buffer whose capacity never passes a maximum fixed in its type.

use vstd::prelude::*;

verus! {

/// `k` cells that hold nothing.
pub open spec fn vacant<T>(k: nat) -> Seq<Option<T>> {
    Seq::new(k, |i: int| None::<T>)
}

/// The cells in use after a write of `elem` at offset `idx`: the cell at
/// `idx` holds `elem`, and where `idx` lay past the end, the cells between
/// have come into use dead.
pub open spec fn written<T>(cells: Seq<Option<T>>, idx: int, elem: T) -> Seq<Option<T>> {
    if idx < cells.len() {
        cells.update(idx, Some(elem))
    } else {
        (cells + vacant::<T>((idx - cells.len()) as nat)).push(Some(elem))
    }
}

/// A write leaves every other cell in use as it was, and takes none out of
/// use.
pub proof fn lemma_written_keeps<T>(cells: Seq<Option<T>>, idx: int, elem: T, j: int)
    requires
        0 <= idx,
        0 <= j < cells.len(),
        j != idx,
    ensures
        written(cells, idx, elem).len() >= cells.len(),
        written(cells, idx, elem)[j] == cells[j],
        written(cells, idx, elem)[idx] == Some(elem),
{
}

/// The capacity that one doubling step gives a store of capacity `cap` with
/// maximum `max`: one cell for an empty store, else twice as many, and never
/// more than `max`.
pub open spec fn grown(cap: nat, max: nat) -> nat {
    if cap == 0 {
        if max == 0 { 0 } else { 1 }
    } else if 2 * cap <= max {
        2 * cap
    } else {
        max
    }
}

/// A doubling step never shrinks a store and never takes it past the
/// maximum; below the maximum it gains at least one cell.
pub proof fn lemma_grown_bounds(cap: nat, max: nat)
    requires
        cap <= max,
    ensures
        cap <= grown(cap, max) <= max,
        cap < max ==> cap < grown(cap, max),
{
}

/// The cells behind a bounded buffer. Its capacity is the number of cells it
/// owns; a cell is either vacant or holds a value.
pub struct RawVec<T, const N: usize> {
    cells: Vec<Option<T>>,
}

impl<T, const N: usize> RawVec<T, N> {
    /// The cells, in order.
    pub closed spec fn cells(&self) -> Seq<Option<T>> {
        self.cells@
    }

    /// The number of cells owned.
    pub open spec fn cap(&self) -> nat {
        self.cells().len()
    }

    /// The capacity stays within the maximum.
    pub open spec fn wf(&self) -> bool {
        self.cap() <= N
    }

    /// A store that owns no cell yet.
    pub fn new() -> (r: Self)
        ensures
            r.wf(),
            r.cells() == Seq::<Option<T>>::empty(),
    {
        RawVec { cells: Vec::new() }
    }

    /// The number of cells owned.
    pub fn capacity(&self) -> (r: usize)
        ensures
            r == self.cap(),
    {
        self.cells.len()
    }

    /// One doubling step: adds vacant cells up to `grown(cap, N)`.
    pub fn grow(&mut self)
        requires
            old(self).wf(),
        ensures
            final(self).wf(),
            final(self).cap() == grown(old(self).cap(), N as nat),
            final(self).cells() == old(self).cells() + vacant::<T>(
                (final(self).cap() - old(self).cap()) as nat,
            ),
    {
        let cap: usize = self.cells.len();
        let new_cap: usize = if cap == 0 {
            if N == 0 { 0 } else { 1 }
        } else if cap <= N - cap {
            cap + cap
        } else {
            N
        };
        self.fill_to(new_cap);
    }

    /// Adds `count` vacant cells.
    pub fn extend(&mut self, count: usize)
        requires
            old(self).wf(),
            old(self).cap() + count <= N,
        ensures
            final(self).wf(),
            final(self).cap() == old(self).cap() + count,
            final(self).cells() == old(self).cells() + vacant::<T>(count as nat),
    {
        let cap: usize = self.cells.len();
        self.fill_to(cap + count);
    }

    /// Adds vacant cells until there are `new_cap` of them.
    fn fill_to(&mut self, new_cap: usize)
        requires
            old(self).cap() <= new_cap,
        ensures
            final(self).cap() == new_cap,
            final(self).cells() == old(self).cells() + vacant::<T>(
                (new_cap - old(self).cap()) as nat,
            ),
    {
        let ghost before = self.cells@;
        while self.cells.len() < new_cap
            invariant
                before.len() <= self.cells@.len() <= new_cap,
                self.cells@ == before + vacant::<T>((self.cells@.len() - before.len()) as nat),
            decreases new_cap - self.cells@.len(),
        {
            self.cells.push(None);
            assert(self.cells@ =~= before + vacant::<T>(
                (self.cells@.len() - before.len()) as nat,
            ));
        }
        assert(self.cells@ =~= before + vacant::<T>((new_cap - before.len()) as nat));
    }
}

/// A buffer of at most `N` cells. The cells at offsets below `len` are in
/// use: each holds a value or is dead. The buffer does not decide which
/// offsets are live, its owner does.
pub struct MVec<T, const N: usize> {
    buffer: RawVec<T, N>,
    len: usize,
}

impl<T, const N: usize> View for MVec<T, N> {
    type V = Seq<Option<T>>;

    /// The cells in use, in order: `Some` for a value, `None` for a dead cell.
    closed spec fn view(&self) -> Seq<Option<T>> {
        self.buffer.cells().take(self.len as int)
    }
}

impl<T, const N: usize> MVec<T, N> {
    /// The number of cells owned, in use or not.
    pub closed spec fn spec_capacity(&self) -> nat {
        self.buffer.cap()
    }

    /// The length is within the capacity, the capacity within the maximum,
    /// and no cell past the length holds a value.
    pub closed spec fn wf(&self) -> bool {
        &&& self.buffer.wf()
        &&& self.len <= self.buffer.cap()
        &&& forall|i: int| self.len <= i < self.buffer.cap() ==> self.buffer.cells()[i] is None
    }

    /// What `wf` gives a caller: the bounds on length and capacity.
    pub proof fn lemma_bounds(&self)
        requires
            self.wf(),
        ensures
            self@.len() <= self.spec_capacity() <= N,
    {
    }

    /// Whether offset `idx` is in use and holds a value.
    pub open spec fn spec_holds(&self, idx: int) -> bool {
        0 <= idx < self@.len() && self@[idx] is Some
    }

    /// An empty buffer that owns no cell.
    pub fn new() -> (r: Self)
        ensures
            r.wf(),
            r@ == Seq::<Option<T>>::empty(),
            r.spec_capacity() == 0,
    {
        MVec { buffer: RawVec::new(), len: 0 }
    }

    /// One more than the highest offset in use.
    pub fn len(&self) -> (r: usize)
        requires
            self.wf(),
        ensures
            r == self@.len(),
    {
        self.len
    }

    /// The number of cells owned.
    pub fn capacity(&self) -> (r: usize)
        ensures
            r == self.spec_capacity(),
    {
        self.buffer.capacity()
    }

    /// The maximum that the capacity can reach.
    pub fn max_cap() -> (r: usize)
        ensures
            r == N,
    {
        N
    }

    /// Adds `count` cells to the capacity; the cells in use stay as they are.
    pub fn extend(&mut self, count: usize)
        requires
            old(self).wf(),
            old(self).spec_capacity() + count <= N,
        ensures
            final(self).wf(),
            final(self)@ == old(self)@,
            final(self).spec_capacity() == old(self).spec_capacity() + count,
    {
        self.buffer.extend(count);
        assert(self@ =~= old(self)@);
    }

    /// Appends `elem` behind the cells in use and returns its offset. A full
    /// buffer takes one doubling step first.
    pub fn push(&mut self, elem: T) -> (offset: usize)
        requires
            old(self).wf(),
            old(self)@.len() < N,
        ensures
            final(self).wf(),
            offset == old(self)@.len(),
            final(self)@ == old(self)@.push(Some(elem)),
            final(self).spec_capacity() == if old(self)@.len() == old(self).spec_capacity() {
                grown(old(self).spec_capacity(), N as nat)
            } else {
                old(self).spec_capacity()
            },
    {
        if self.len == self.capacity() {
            self.buffer.grow();
        }
        let offset: usize = self.len;
        self.buffer.cells[offset] = Some(elem);
        self.len = offset + 1;
        assert(self@ =~= old(self)@.push(Some(elem)));
        offset
    }

    /// Takes the last cell in use out of the buffer and returns what it held.
    /// `None` comes back from an empty buffer, and from a last cell that was
    /// dead.
    pub fn pop(&mut self) -> (r: Option<T>)
        requires
            old(self).wf(),
        ensures
            final(self).wf(),
            final(self).spec_capacity() == old(self).spec_capacity(),
            old(self)@.len() == 0 ==> r is None && final(self)@ == old(self)@,
            old(self)@.len() > 0 ==> r == old(self)@.last(),
            old(self)@.len() > 0 ==> final(self)@ == old(self)@.drop_last(),
    {
        if self.len == 0 {
            None
        } else {
            self.len = self.len - 1;
            let r = self.buffer.cells[self.len].take();
            assert(self@ =~= old(self)@.drop_last());
            r
        }
    }

    /// Writes `elem` at offset `idx`. The capacity is extended to reach `idx`
    /// if it does not, by just as many cells as that takes; the cells between
    /// the old length and `idx` come into use dead. A value that was at `idx`
    /// is dropped.
    pub fn insert(&mut self, idx: usize, elem: T)
        requires
            old(self).wf(),
            idx < N,
        ensures
            final(self).wf(),
            final(self)@ == written(old(self)@, idx as int, elem),
            final(self).spec_capacity() == if idx < old(self).spec_capacity() {
                old(self).spec_capacity()
            } else {
                idx as nat + 1
            },
    {
        let cap: usize = self.capacity();
        if idx >= cap {
            self.extend(idx - cap + 1);
        }
        if idx >= self.len {
            self.len = idx + 1;
        }
        self.buffer.cells[idx] = Some(elem);
        assert(self@ =~= written(old(self)@, idx as int, elem));
    }

    /// Whether offset `idx` is in use and holds a value.
    pub fn holds(&self, idx: usize) -> (r: bool)
        requires
            self.wf(),
        ensures
            r == self.spec_holds(idx as int),
    {
        idx < self.len && self.buffer.cells[idx].is_some()
    }

    /// The value at offset `idx`.
    pub fn get(&self, idx: usize) -> (r: &T)
        requires
            self.wf(),
            self.spec_holds(idx as int),
        ensures
            Some(*r) == self@[idx as int],
    {
        self.buffer.cells[idx].as_ref().unwrap()
    }

    /// The value at offset `idx`, to be changed in place.
    pub fn get_mut(&mut self, idx: usize) -> (r: &mut T)
        requires
            old(self).wf(),
            old(self).spec_holds(idx as int),
        ensures
            Some(*r) == old(self)@[idx as int],
            final(self).wf(),
            final(self).spec_capacity() == old(self).spec_capacity(),
            final(self)@ == old(self)@.update(idx as int, Some(*final(r))),
    {
        self.buffer.cells[idx].as_mut().unwrap()
    }

    /// The cells in use, as one slice.
    pub fn as_slice(&self) -> (r: &[Option<T>])
        requires
            self.wf(),
        ensures
            r@ == self@,
    {
        vstd::slice::slice_subrange(self.buffer.cells.as_slice(), 0, self.len)
    }

    /// Takes the value at offset `idx` out of the buffer and leaves the cell
    /// dead. `None` comes back where the offset held nothing.
    pub fn take(&mut self, idx: usize) -> (r: Option<T>)
        requires
            old(self).wf(),
        ensures
            final(self).wf(),
            final(self).spec_capacity() == old(self).spec_capacity(),
            idx < old(self)@.len() ==> r == old(self)@[idx as int],
            idx < old(self)@.len() ==> final(self)@ == old(self)@.update(idx as int, None),
            idx >= old(self)@.len() ==> r is None && final(self)@ == old(self)@,
    {
        if idx < self.len {
            let r = self.buffer.cells[idx].take();
            assert(self@ =~= old(self)@.update(idx as int, None));
            r
        } else {
            None
        }
    }
}

} // verus!
