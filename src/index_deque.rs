//! A sparse deque indexed by monotonically growing numbers: slot `n` is at
//! position `n - offset`, and draining the front advances the offset.

use vstd::prelude::*;

use crate::varint::VARINT_MAX;

verus! {

/// Slots `offset .. offset + items.len()`, each holding a `T`.
pub struct IndexDeque<T> {
    pub offset: u64,
    pub items: Vec<T>,
}

impl<T> IndexDeque<T> {
    /// The indices stay within the range of packet numbers.
    pub open spec fn wf(&self) -> bool {
        self.offset + self.items@.len() <= VARINT_MAX
    }

    /// One past the last index.
    pub open spec fn spec_end(&self) -> int {
        self.offset + self.items@.len()
    }

    pub open spec fn contains(&self, idx: int) -> bool {
        self.offset <= idx < self.spec_end()
    }

    /// The slot at index `idx`.
    pub open spec fn at(&self, idx: int) -> T {
        self.items@[idx - self.offset]
    }

    pub fn new() -> (r: Self)
        ensures
            r.wf(),
            r.offset == 0,
            r.items@.len() == 0,
    {
        IndexDeque { offset: 0, items: Vec::new() }
    }

    pub fn offset(&self) -> (r: u64)
        ensures
            r == self.offset,
    {
        self.offset
    }

    pub fn len(&self) -> (r: usize)
        ensures
            r == self.items@.len(),
    {
        self.items.len()
    }

    /// One past the last index: the next index `push` would use.
    pub fn end(&self) -> (r: u64)
        requires
            self.wf(),
        ensures
            r == self.spec_end(),
    {
        self.offset + self.items.len() as u64
    }

    /// The slot at index `idx`, if there is one.
    pub fn get(&self, idx: u64) -> (r: Option<&T>)
        requires
            self.wf(),
        ensures
            match r {
                Some(v) => self.contains(idx as int) && *v == self.at(idx as int),
                None => !self.contains(idx as int),
            },
    {
        if idx >= self.offset && idx - self.offset < self.items.len() as u64 {
            Some(&self.items[(idx - self.offset) as usize])
        } else {
            None
        }
    }

    /// Appends a slot and returns its index; `None` when the indices are used up.
    pub fn push(&mut self, v: T) -> (r: Option<u64>)
        requires
            old(self).wf(),
        ensures
            final(self).wf(),
            final(self).offset == old(self).offset,
            match r {
                Some(idx) => idx == old(self).spec_end() && final(self).items@ == old(self).items@.push(v),
                None => old(self).spec_end() == VARINT_MAX && final(self).items@ == old(self).items@,
            },
    {
        if self.offset + (self.items.len() as u64) < VARINT_MAX {
            let idx = self.offset + self.items.len() as u64;
            self.items.push(v);
            Some(idx)
        } else {
            None
        }
    }

    /// Replaces the slot at index `idx`.
    pub fn set(&mut self, idx: u64, v: T)
        requires
            old(self).wf(),
            old(self).contains(idx as int),
        ensures
            final(self).wf(),
            final(self).offset == old(self).offset,
            final(self).items@ == old(self).items@.update(idx - old(self).offset, v),
    {
        let n = self.items.len();
        let i = (idx - self.offset) as usize;
        self.items.set(i, v);
    }

    /// Replaces the slot at index `idx`, returning what it held.
    pub fn replace(&mut self, idx: u64, v: T) -> (r: T)
        requires
            old(self).wf(),
            old(self).contains(idx as int),
        ensures
            final(self).wf(),
            final(self).offset == old(self).offset,
            r == old(self).at(idx as int),
            final(self).items@ == old(self).items@.update(idx - old(self).offset, v),
    {
        let n = self.items.len();
        let i = (idx - self.offset) as usize;
        let r = self.items.remove(i);
        self.items.insert(i, v);
        r
    }

    /// Removes the slots below index `end` (all of them, if `end` is past the
    /// last) and returns them in order.
    pub fn drain_to(&mut self, end: u64) -> (r: Vec<T>)
        requires
            old(self).wf(),
        ensures
            final(self).wf(),
            ({
                let k = if end <= old(self).offset {
                    0
                } else if end >= old(self).spec_end() {
                    old(self).items@.len() as int
                } else {
                    end - old(self).offset
                };
                &&& r@ == old(self).items@.subrange(0, k)
                &&& final(self).items@ == old(self).items@.subrange(k, old(self).items@.len() as int)
                &&& final(self).offset == old(self).offset + k
            }),
    {
        let k: usize = if end <= self.offset {
            0
        } else if end - self.offset >= self.items.len() as u64 {
            self.items.len()
        } else {
            (end - self.offset) as usize
        };
        let mut tail = self.items.split_off(k);
        std::mem::swap(&mut self.items, &mut tail);
        self.offset = self.offset + k as u64;
        tail
    }
}

impl<T: Copy> IndexDeque<T> {
    /// Sets the slot at index `idx` to `v`, first filling the slots between
    /// the end and `idx` with `filler`. Returns false, and changes nothing,
    /// when `idx` is below the offset (already drained) or past the last
    /// packet number.
    pub fn insert(&mut self, idx: u64, v: T, filler: T) -> (r: bool)
        requires
            old(self).wf(),
        ensures
            final(self).wf(),
            final(self).offset == old(self).offset,
            r == (old(self).offset <= idx < VARINT_MAX),
            !r ==> final(self).items@ == old(self).items@,
            r ==> final(self).spec_end() == if idx < old(self).spec_end() {
                old(self).spec_end()
            } else {
                idx + 1
            },
            r ==> final(self).at(idx as int) == v,
            r ==> forall|j: int|
                old(self).offset <= j < final(self).spec_end() && j != idx ==> #[trigger] final(self).at(j)
                    == if j < old(self).spec_end() {
                    old(self).at(j)
                } else {
                    filler
                },
    {
        if idx < self.offset || idx >= VARINT_MAX {
            return false;
        }
        let ghost old_items = self.items@;
        while self.offset + (self.items.len() as u64) <= idx
            invariant
                self.offset == old(self).offset,
                old_items == old(self).items@,
                self.offset <= idx < VARINT_MAX,
                self.offset + old_items.len() <= VARINT_MAX,
                self.offset + self.items@.len() <= if idx < self.offset + old_items.len() {
                    self.offset + old_items.len()
                } else {
                    idx + 1
                },
                self.items@.len() >= old_items.len(),
                forall|j: int|
                    0 <= j < self.items@.len() ==> #[trigger] self.items@[j] == if j
                        < old_items.len() {
                        old_items[j]
                    } else {
                        filler
                    },
            decreases idx + 1 - self.offset - self.items@.len(),
        {
            self.items.push(filler);
        }
        let n = self.items.len();
        let i = (idx - self.offset) as usize;
        self.items.set(i, v);
        true
    }
}

} // verus!
