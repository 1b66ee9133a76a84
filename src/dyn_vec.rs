use vstd::prelude::*;

verus! {

/// A growable per-column table: reading past the stored entries yields `default`.
pub struct DynVec<T> {
    pub vec: Vec<T>,
    pub default: T,
}

impl<T: Copy> DynVec<T> {
    /// The value read at column `i`.
    pub open spec fn spec_get(&self, i: int) -> T {
        if 0 <= i < self.vec@.len() {
            self.vec@[i]
        } else {
            self.default
        }
    }

    pub fn new(default: T) -> (r: DynVec<T>)
        ensures
            r.vec@ == Seq::<T>::empty(),
            r.default == default,
    {
        DynVec { vec: Vec::new(), default }
    }

    pub fn get(&self, i: usize) -> (r: T)
        ensures
            r == self.spec_get(i as int),
    {
        if i < self.vec.len() {
            self.vec[i]
        } else {
            self.default
        }
    }

    /// Writes column `index`, first filling any gap with the current default.
    pub fn set(&mut self, index: usize, v: T)
        requires
            index < usize::MAX,
        ensures
            final(self).default == old(self).default,
            final(self).vec@.len() == if index < old(self).vec@.len() {
                old(self).vec@.len()
            } else {
                index as nat + 1
            },
            forall|i: int| #![auto] final(self).spec_get(i) == if i == index {
                v
            } else {
                old(self).spec_get(i)
            },
    {
        let l = self.vec.len();
        if index >= l {
            let d = self.default;
            let mut k: usize = l;
            while k <= index
                invariant
                    l <= k <= index + 1,
                    index < usize::MAX,
                    self.vec@.len() == k,
                    self.default == d,
                    self.default == old(self).default,
                    forall|i: int| 0 <= i < l ==> self.vec@[i] == old(self).vec@[i],
                    forall|i: int| l <= i < k ==> self.vec@[i] == d,
                    l == old(self).vec@.len(),
                decreases index + 1 - k,
            {
                self.vec.push(d);
                k = k + 1;
            }
        }
        self.vec.set(index, v);
    }

    /// Appends `v` and makes it the default for every later column.
    pub fn push(&mut self, v: T)
        ensures
            final(self).vec@ == old(self).vec@.push(v),
            final(self).default == v,
    {
        self.default = v;
        self.vec.push(v);
    }
}

} // verus!
