use vstd::prelude::*;

verus! {

/// A vector that starts at a fixed capacity and only shrinks, by swapping the
/// last element into the removed slot.
pub struct ShrinkVec<T> {
    items: Vec<T>,
}

impl<T> ShrinkVec<T> {
    pub closed spec fn view(self) -> Seq<T> {
        self.items@
    }

    pub fn new(items: Vec<T>) -> (v: Self)
        ensures
            v.view() == items@,
    {
        ShrinkVec { items }
    }

    pub fn len(&self) -> (n: usize)
        ensures
            n == self.view().len(),
    {
        self.items.len()
    }

    pub fn get(&self, i: usize) -> (r: &T)
        requires
            i < self.view().len(),
        ensures
            *r == self.view()[i as int],
    {
        &self.items[i]
    }

    /// Remove element `i` by moving the last element into its place.
    pub fn swap_remove(&mut self, i: usize) -> (r: T)
        requires
            i < old(self).view().len(),
        ensures
            r == old(self).view()[i as int],
            final(self).view() == old(self).view().update(
                i as int,
                old(self).view().last(),
            ).drop_last(),
    {
        let r = self.items.swap_remove(i);
        proof {
            assert(final(self).view() =~= old(self).view().update(
                i as int,
                old(self).view().last(),
            ).drop_last());
        }
        r
    }
}

} // verus!
