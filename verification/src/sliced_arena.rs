use vstd::prelude::*;

verus! {

/// Sum of a sequence of sizes.
pub open spec fn sizes_sum(s: Seq<usize>) -> nat
    decreases s.len(),
{
    if s.len() == 0 {
        0
    } else {
        (sizes_sum(s.drop_last()) + s.last()) as nat
    }
}

proof fn lemma_sizes_sum_take(s: Seq<usize>, i: int)
    requires
        0 <= i < s.len(),
    ensures
        sizes_sum(s.take(i + 1)) == sizes_sum(s.take(i as int)) + s[i],
        sizes_sum(s.take(i + 1)) <= sizes_sum(s),
    decreases s.len() - i,
{
    assert(s.take(i + 1).drop_last() =~= s.take(i as int));
    assert(s.take(i + 1).last() == s[i]);
    if i + 1 == s.len() {
        assert(s.take(i + 1) =~= s);
    } else {
        lemma_sizes_sum_take(s, i + 1);
    }
}

struct Slice {
    from: usize,
    to: usize,
}

/// One contiguous allocation carved into fixed-size slices, chosen at
/// construction: slice `i` holds `sizes[i]` elements.
pub struct SlicedArena<T> {
    mem: Vec<T>,
    slices: Vec<Slice>,
}

impl<T: Copy> SlicedArena<T> {
    /// The slices as a sequence of sequences.
    pub closed spec fn view(self) -> Seq<Seq<T>> {
        Seq::new(
            self.slices@.len(),
            |i: int| self.mem@.subrange(self.slices@[i].from as int, self.slices@[i].to as int),
        )
    }

    pub closed spec fn wf(self) -> bool {
        &&& forall|i: int|
            0 <= i < self.slices@.len() ==> {
                &&& (#[trigger] self.slices@[i]).from <= self.slices@[i].to
                &&& self.slices@[i].to <= self.mem@.len()
                &&& (i > 0 ==> self.slices@[i].from == self.slices@[i - 1].to)
            }
        &&& (self.slices@.len() > 0 ==> self.slices@[0].from == 0)
    }

    /// Allocate slices of the given sizes, every element set to `fill`.
    pub fn new(sizes: &Vec<usize>, fill: T) -> (a: Self)
        requires
            sizes_sum(sizes@) <= usize::MAX,
        ensures
            a.wf(),
            a.view().len() == sizes@.len(),
            forall|i: int|
                0 <= i < sizes@.len() ==> (#[trigger] a.view()[i]).len() == sizes@[i],
            forall|i: int, j: int|
                0 <= i < sizes@.len() && 0 <= j < sizes@[i] ==> (#[trigger] a.view()[i][j]) == fill,
    {
        let mut slices: Vec<Slice> = Vec::new();
        let mut mem: Vec<T> = Vec::new();
        let mut i: usize = 0;
        let n = sizes.len();
        while i < n
            invariant
                i <= n,
                n == sizes@.len(),
                slices@.len() == i,
                forall|k: int|
                    0 <= k < i ==> {
                        &&& (#[trigger] slices@[k]).from <= slices@[k].to
                        &&& slices@[k].to <= mem@.len()
                        &&& (k > 0 ==> slices@[k].from == slices@[k - 1].to)
                        &&& slices@[k].to - slices@[k].from == sizes@[k]
                    },
                i > 0 ==> slices@[i - 1].to == mem@.len(),
                i == 0 ==> mem@.len() == 0,
                mem@.len() == sizes_sum(sizes@.take(i as int)),
                sizes_sum(sizes@) <= usize::MAX,
                slices@.len() > 0 ==> slices@[0].from == 0,
                forall|m: int| 0 <= m < mem@.len() ==> (#[trigger] mem@[m]) == fill,
            decreases n - i,
        {
            let from = mem.len();
            let sz = sizes[i];
            proof {
                lemma_sizes_sum_take(sizes@, i as int);
            }
            let mut c: usize = 0;
            while c < sz
                invariant
                    c <= sz,
                    mem@.len() == from + c,
                    from + sz <= usize::MAX,
                    forall|m: int| 0 <= m < mem@.len() ==> (#[trigger] mem@[m]) == fill,
                decreases sz - c,
            {
                mem.push(fill);
                c = c + 1;
            }
            slices.push(Slice { from, to: from + sz });
            i = i + 1;
        }
        let a = SlicedArena { mem, slices };
        proof {
            assert forall|k: int| 0 <= k < sizes@.len() implies (#[trigger] a.view()[k]).len()
                == sizes@[k] by {}
        }
        a
    }

    /// Number of slices.
    pub fn slice_count(&self) -> (n: usize)
        ensures
            n == self.view().len(),
    {
        self.slices.len()
    }

    /// Length of slice `i`.
    pub fn slice_len(&self, i: usize) -> (n: usize)
        requires
            self.wf(),
            i < self.view().len(),
        ensures
            n == self.view()[i as int].len(),
    {
        self.slices[i].to - self.slices[i].from
    }

    /// Borrow slice `i`.
    pub fn slice(&self, i: usize) -> (s: &[T])
        requires
            self.wf(),
            i < self.view().len(),
        ensures
            s@ == self.view()[i as int],
    {
        let sl = &self.slices[i];
        vstd::slice::slice_subrange(self.mem.as_slice(), sl.from, sl.to)
    }

    /// Element `j` of slice `i`.
    pub fn at(&self, i: usize, j: usize) -> (v: T)
        requires
            self.wf(),
            i < self.view().len(),
            j < self.view()[i as int].len(),
        ensures
            v == self.view()[i as int][j as int],
    {
        self.mem[self.slices[i].from + j]
    }

    /// Overwrite element `j` of slice `i`.
    pub fn set_at(&mut self, i: usize, j: usize, v: T)
        requires
            old(self).wf(),
            i < old(self).view().len(),
            j < old(self).view()[i as int].len(),
        ensures
            final(self).wf(),
            final(self).view().len() == old(self).view().len(),
            forall|k: int|
                0 <= k < old(self).view().len() && k != i ==> (#[trigger] final(self).view()[k])
                    == old(self).view()[k],
            final(self).view()[i as int] == old(self).view()[i as int].update(j as int, v),
    {
        let from = self.slices[i].from;
        self.mem.set(from + j, v);
        proof {
            assert forall|k: int|
                0 <= k < old(self).view().len() && k != i implies (#[trigger] final(self).view()[k])
                == old(self).view()[k] by {
                if k < i {
                    assert(self.slices@[k].to <= self.slices@[i as int].from) by {
                        lemma_slices_ordered(self.slices@, k, i as int);
                    }
                    assert(final(self).view()[k] =~= old(self).view()[k]);
                } else {
                    assert(self.slices@[i as int].to <= self.slices@[k].from) by {
                        lemma_slices_ordered(self.slices@, i as int, k);
                    }
                    assert(final(self).view()[k] =~= old(self).view()[k]);
                }
            }
            assert(final(self).view()[i as int] =~= old(self).view()[i as int].update(j as int, v));
        }
    }
}

proof fn lemma_slices_ordered(s: Seq<Slice>, a: int, b: int)
    requires
        0 <= a < b < s.len(),
        forall|i: int|
            0 <= i < s.len() ==> (#[trigger] s[i]).from <= s[i].to && (i > 0 ==> s[i].from == s[i
                - 1].to),
    ensures
        s[a].to <= s[b].from,
    decreases b - a,
{
    if a + 1 < b {
        lemma_slices_ordered(s, a + 1, b);
    }
}


} // verus!
