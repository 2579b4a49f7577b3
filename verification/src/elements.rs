use vstd::prelude::*;

use crate::operator::Operator;

verus! {

/// No two positions of the sequence hold the same element.
pub open spec fn distinct<T>(s: Seq<T>) -> bool {
    forall|i: int, j: int| 0 <= i < j < s.len() ==> s[i] !== s[j]
}

/// A finite carrier set of elements, kept as a duplicate-free sequence.
///
/// The set owns its elements; order of insertion is kept but carries no
/// meaning for the algebraic checks, which are stated over membership.
pub struct ElementSet<T> {
    items: Vec<T>,
}

impl<T> View for ElementSet<T> {
    type V = Seq<T>;

    closed spec fn view(&self) -> Seq<T> {
        self.items@
    }
}

impl<T: Operator<T>> ElementSet<T> {
    /// The sequence behind the set holds no element twice.
    pub open spec fn wf(&self) -> bool {
        distinct(self@)
    }

    pub fn new() -> (s: Self)
        ensures
            s@ == Seq::<T>::empty(),
            s.wf(),
    {
        ElementSet { items: Vec::new() }
    }

    pub fn len(&self) -> (n: usize)
        ensures
            n == self@.len(),
    {
        self.items.len()
    }

    pub fn get(&self, i: usize) -> (r: &T)
        requires
            i < self@.len(),
        ensures
            *r == self@[i as int],
    {
        &self.items[i]
    }

    pub fn contains(&self, t: &T) -> (r: bool)
        ensures
            r == self@.contains(*t),
    {
        let n = self.items.len();
        let mut i: usize = 0;
        while i < n
            invariant
                n == self@.len(),
                i <= n,
                forall|k: int| 0 <= k < i ==> self@[k] !== *t,
            decreases n - i,
        {
            if T::equals(&self.items[i], t) {
                return true;
            }
            i += 1;
        }
        false
    }

    /// Add an element; a member already present is left alone.
    pub fn insert(&mut self, t: T)
        requires
            old(self).wf(),
        ensures
            final(self).wf(),
            final(self)@ == if old(self)@.contains(t) {
                old(self)@
            } else {
                old(self)@.push(t)
            },
    {
        if !self.contains(&t) {
            self.items.push(t);
        }
    }
}

} // verus!
