//! A list held in two deques split at its middle, so that both ends and
//! the middle are cheap to reach.
use std::collections::VecDeque;
use vstd::prelude::*;

verus! {

/// A list whose front half is `left` and back half is `right`.
pub struct VecTrique<T> {
    left: VecDeque<T>,
    right: VecDeque<T>,
}

impl<T> View for VecTrique<T> {
    type V = Seq<T>;

    closed spec fn view(&self) -> Seq<T> {
        self.left@ + self.right@
    }
}

impl<T: Copy> Default for VecTrique<T> {
    fn default() -> (r: VecTrique<T>)
        ensures
            r@ == Seq::<T>::empty(),
            r.wf(),
    {
        VecTrique { left: VecDeque::new(), right: VecDeque::new() }
    }
}

/// `s` rotated right by `k` places, `0 <= k <= s.len()`.
pub open spec fn rotated<T>(s: Seq<T>, k: int) -> Seq<T> {
    s.subrange(s.len() - k, s.len() as int) + s.subrange(0, s.len() - k)
}

impl<T: Copy> VecTrique<T> {
    /// The two halves differ in length by at most one.
    pub closed spec fn wf(&self) -> bool {
        let len = self.left@.len() + self.right@.len();
        len <= 1 || self.left@.len() == len / 2
    }

    /// Moves elements across the split until the front half holds half of
    /// them.
    fn balance(&mut self)
        requires
            old(self).left@.len() + old(self).right@.len() <= usize::MAX,
        ensures
            final(self)@ == old(self)@,
            final(self).wf(),
    {
        let len = self.left.len() + self.right.len();
        if len <= 1 {
            return;
        }
        let ghost orig = self@;
        while self.left.len() != len / 2
            invariant
                self@ == orig,
                self.left@.len() + self.right@.len() == len,
                len > 1,
            decreases
                if self.left@.len() > len / 2 {
                    self.left@.len() - len / 2
                } else {
                    len / 2 - self.left@.len()
                },
        {
            let ghost l0 = self.left@;
            let ghost r0 = self.right@;
            if self.left.len() > len / 2 {
                match self.left.pop_back() {
                    Some(value) => {
                        self.right.push_front(value);
                        assert(self@ =~= l0 + r0);
                    },
                    None => {},
                }
            } else {
                match self.right.pop_front() {
                    Some(value) => {
                        self.left.push_back(value);
                        assert(self@ =~= l0 + r0);
                    },
                    None => {},
                }
            }
        }
    }

    /// The element at `index`, or none past the end.
    pub fn get(&self, index: usize) -> (r: Option<T>)
        ensures
            r == (if index < self@.len() { Some(self@[index as int]) } else { None::<T> }),
    {
        if index < self.left.len() {
            return Some(self.left[index]);
        }
        if index - self.left.len() < self.right.len() {
            return Some(self.right[index - self.left.len()]);
        }
        None
    }

    /// Replaces the element at `index` with `value` and returns the old
    /// one; past the end, changes nothing and returns none.
    pub fn set(&mut self, index: usize, value: T) -> (r: Option<T>)
        ensures
            index < old(self)@.len() ==> r == Some(old(self)@[index as int]) && final(self)@ == old(
                self,
            )@.update(index as int, value),
            index >= old(self)@.len() ==> r is None && final(self)@ == old(self)@,
            old(self).wf() ==> final(self).wf(),
    {
        let ghost l0 = self.left@;
        let ghost r0 = self.right@;
        if index < self.left.len() {
            let r = self.left.remove(index);
            self.left.insert(index, value);
            assert(self@ =~= old(self)@.update(index as int, value));
            r
        } else if index - self.left.len() < self.right.len() {
            let j = index - self.left.len();
            let r = self.right.remove(j);
            self.right.insert(j, value);
            assert(self@ =~= old(self)@.update(index as int, value));
            r
        } else {
            None
        }
    }

    /// Inserts `value` before position `index`; past the end, changes
    /// nothing.
    pub fn add(&mut self, index: usize, value: T)
        requires
            old(self)@.len() < usize::MAX,
        ensures
            index <= old(self)@.len() ==> final(self)@ == old(self)@.insert(index as int, value),
            index > old(self)@.len() ==> final(self)@ == old(self)@,
            final(self).wf(),
    {
        if index < self.left.len() {
            self.left.insert(index, value);
            assert(self@ =~= old(self)@.insert(index as int, value));
        } else if index - self.left.len() <= self.right.len() {
            let j = index - self.left.len();
            self.right.insert(j, value);
            assert(self@ =~= old(self)@.insert(index as int, value));
        }
        self.balance();
    }

    /// Removes and returns the element at `index`; past the end, changes
    /// nothing and returns none.
    pub fn remove(&mut self, index: usize) -> (r: Option<T>)
        requires
            old(self)@.len() <= usize::MAX,
        ensures
            index < old(self)@.len() ==> r == Some(old(self)@[index as int]) && final(self)@ == old(
                self,
            )@.remove(index as int),
            index >= old(self)@.len() ==> r is None && final(self)@ == old(self)@,
            final(self).wf(),
    {
        let r = if index < self.left.len() {
            let r = self.left.remove(index);
            assert(self@ =~= old(self)@.remove(index as int));
            r
        } else if index - self.left.len() < self.right.len() {
            let r = self.right.remove(index - self.left.len());
            assert(self@ =~= old(self)@.remove(index as int));
            r
        } else {
            None
        };
        self.balance();
        r
    }

    /// The number of elements.
    pub fn size(&self) -> (r: usize)
        requires
            self@.len() <= usize::MAX,
        ensures
            r == self@.len(),
    {
        self.left.len() + self.right.len()
    }

    /// Rotates the list right by `r` places: the element at `i` moves to
    /// `(i + r) % size`.
    pub fn rotate(&mut self, r: usize)
        requires
            0 < old(self)@.len() <= usize::MAX,
        ensures
            final(self)@ == rotated(old(self)@, r as int % old(self)@.len() as int),
    {
        let size = self.size();
        let r = r % size;
        let ghost orig = self@;
        if r < size / 2 {
            let mut k: usize = 0;
            while k < r
                invariant
                    orig.len() == size,
                    r < size,
                    k <= r,
                    self@ == rotated(orig, k as int),
                decreases r - k,
            {
                if let Some(v) = self.remove(size - 1) {
                    self.add(0, v);
                }
                assert(self@ =~= rotated(orig, k + 1));
                k = k + 1;
            }
        } else {
            let mut k: usize = 0;
            while k < size - r
                invariant
                    orig.len() == size,
                    r < size,
                    k <= size - r,
                    self@ == orig.subrange(k as int, size as int) + orig.subrange(0, k as int),
                decreases size - r - k,
            {
                if let Some(v) = self.remove(0) {
                    self.add(size - 1, v);
                }
                assert(self@ =~= orig.subrange(k + 1, size as int) + orig.subrange(0, k + 1));
                k = k + 1;
            }
            assert(self@ =~= rotated(orig, r as int));
        }
    }
}

} // verus!
