use vstd::prelude::*;

verus! {

/// Identifier of a dictionary word: dense small integers starting at 0.
pub type WordId = usize;

/// A dictionary word: a dense id and its lowercase letters.
#[derive(Clone, Debug)]
pub struct Word {
    pub id: WordId,
    pub letters: Vec<u8>,
}

impl Word {
    pub fn new(id: WordId, letters: Vec<u8>) -> (w: Word)
        ensures
            w.id == id,
            w.letters@ == letters@,
    {
        Word { id, letters }
    }

    /// Number of letters.
    pub fn len(&self) -> (n: usize)
        ensures
            n == self.letters@.len(),
    {
        self.letters.len()
    }
}

/// Direction of a run or a placement on the board.
#[derive(Clone, Copy, Debug, Hash, PartialEq, Eq, Structural)]
pub enum Orientation {
    VER,
    HOR,
}

impl Orientation {
    /// Both orientations, vertical first: the enumeration order used by the engine.
    pub fn values() -> (v: Vec<Orientation>)
        ensures
            v@ =~= seq![Orientation::VER, Orientation::HOR],
    {
        let mut v: Vec<Orientation> = Vec::new();
        v.push(Orientation::VER);
        v.push(Orientation::HOR);
        v
    }

    pub open spec fn spec_perp(self) -> Orientation {
        match self {
            Orientation::VER => Orientation::HOR,
            Orientation::HOR => Orientation::VER,
        }
    }

    /// The other orientation.
    pub fn perp_orientation(self) -> (r: Orientation)
        ensures
            r == self.spec_perp(),
    {
        match self {
            Orientation::VER => Orientation::HOR,
            Orientation::HOR => Orientation::VER,
        }
    }

    /// `align(v, u)` maps line-relative coordinates (v across the line, u along
    /// the line) to absolute (y, x): the identity for horizontal, the swap for
    /// vertical.
    pub open spec fn spec_align(self, v: int, u: int) -> (int, int) {
        match self {
            Orientation::HOR => (v, u),
            Orientation::VER => (u, v),
        }
    }

    pub fn align(self, v: usize, u: usize) -> (r: (usize, usize))
        ensures
            (r.0 as int, r.1 as int) == self.spec_align(v as int, u as int),
    {
        match self {
            Orientation::HOR => (v, u),
            Orientation::VER => (u, v),
        }
    }
}

/// Identifier of a candidate placement: dense small integers starting at 0.
#[derive(Clone, Copy, Debug, Hash, PartialEq, Eq, PartialOrd, Ord, Default, Structural)]
pub struct PlacementId(pub usize);

/// A key that can index a dense key space.
pub trait Key: Sized + Clone + Copy {
    spec fn spec_usize(self) -> int;

    fn usize(self) -> (r: usize)
        ensures
            r as int == self.spec_usize(),
    ;
}

impl Key for PlacementId {
    open spec fn spec_usize(self) -> int {
        self.0 as int
    }

    fn usize(self) -> (r: usize)
        ensures
            r as int == self.spec_usize(),
    {
        self.0
    }
}

/// Select a value when a flag is set, zero when it is not.
pub trait Cond: Sized {
    fn cond(self, flag: Self) -> Self;
}

impl Cond for usize {
    fn cond(self, flag: usize) -> usize {
        if flag == 1 {
            self
        } else {
            0
        }
    }
}

/// The first `n` elements of `s` whose position is in `ks`, in order.
pub open spec fn kept_prefix<T>(s: Seq<T>, ks: Set<int>, n: int) -> Seq<T>
    decreases n,
{
    if n <= 0 {
        Seq::empty()
    } else if ks.contains(n - 1) {
        kept_prefix(s, ks, n - 1).push(s[n - 1])
    } else {
        kept_prefix(s, ks, n - 1)
    }
}

/// The first `n` elements of `s` whose position is not in `ks`, in order.
pub open spec fn dropped_prefix<T>(s: Seq<T>, ks: Set<int>, n: int) -> Seq<T>
    decreases n,
{
    if n <= 0 {
        Seq::empty()
    } else if !ks.contains(n - 1) {
        dropped_prefix(s, ks, n - 1).push(s[n - 1])
    } else {
        dropped_prefix(s, ks, n - 1)
    }
}

/// The set of values that occur in `s`.
pub open spec fn index_set(s: Seq<usize>) -> Set<int> {
    Set::new(|i: int| exists|j: int| 0 <= j < s.len() && s[j] as int == i)
}

/// Split `items` in two: the elements whose positions occur in `indices`, in
/// position order, and the remaining elements, also in position order.
pub fn filter_indices<T>(items: Vec<T>, indices: &Vec<usize>) -> (r: (Vec<T>, Vec<T>))
    requires
        forall|j: int| 0 <= j < indices@.len() ==> (#[trigger] indices@[j]) < items@.len(),
    ensures
        r.0@ == kept_prefix(items@, index_set(indices@), items@.len() as int),
        r.1@ == dropped_prefix(items@, index_set(indices@), items@.len() as int),
{
    let n = items.len();
    let mut keep: Vec<bool> = Vec::new();
    let mut i: usize = 0;
    while i < n
        invariant
            keep@.len() == i,
            i <= n,
            forall|k: int| 0 <= k < i ==> keep@[k] == false,
        decreases n - i,
    {
        keep.push(false);
        i = i + 1;
    }
    let mut j: usize = 0;
    while j < indices.len()
        invariant
            keep@.len() == n,
            forall|i2: int|
                0 <= i2 < indices@.len() ==> (#[trigger] indices@[i2]) < n,
            forall|k: int|
                0 <= k < n ==> (#[trigger] keep@[k] == index_set(indices@.take(j as int)).contains(
                    k,
                )),
            j <= indices@.len(),
        decreases indices@.len() - j,
    {
        let idx = indices[j];
        keep.set(idx, true);
        proof {
            assert(indices@.take(j + 1).drop_last() =~= indices@.take(j as int));
            assert(indices@.take(j + 1)[j as int] == indices@[j as int]);
            assert forall|k: int| 0 <= k < n implies #[trigger] keep@[k] == index_set(
                indices@.take(j + 1),
            ).contains(k) by {
                if keep@[k] {
                    if k == indices@[j as int] as int {
                        assert(indices@.take(j + 1)[j as int] as int == k);
                    } else {
                        let w = choose|w: int|
                            0 <= w < indices@.take(j as int).len() && (#[trigger] indices@.take(
                                j as int,
                            )[w]) as int == k;
                        assert(indices@.take(j + 1)[w] as int == k);
                    }
                } else {
                    if index_set(indices@.take(j + 1)).contains(k) {
                        let w = choose|w: int|
                            0 <= w < indices@.take(j + 1).len() && (#[trigger] indices@.take(
                                j + 1,
                            )[w]) as int == k;
                        assert(w < j ==> indices@.take(j as int)[w] as int == k);
                    }
                }
            }
        }
        j = j + 1;
    }
    proof {
        assert(indices@.take(indices@.len() as int) =~= indices@);
    }
    let ghost ks = index_set(indices@);
    let mut items = items;
    let mut out: Vec<T> = Vec::new();
    let mut excl: Vec<T> = Vec::new();
    let mut i: usize = 0;
    let ghost items_view = items@;
    while i < n
        invariant
            keep@.len() == n,
            items_view.len() == n,
            i <= n,
            items@ =~= items_view.skip(i as int),
            forall|k: int| 0 <= k < n ==> (#[trigger] keep@[k] == ks.contains(k)),
            out@ == kept_prefix(items_view, ks, i as int),
            excl@ == dropped_prefix(items_view, ks, i as int),
        decreases n - i,
    {
        let it = items.remove(0);
        proof {
            assert(it == items_view[i as int]);
            assert(items@ =~= items_view.skip(i + 1));
        }
        if keep[i] {
            out.push(it);
        } else {
            excl.push(it);
        }
        i = i + 1;
    }
    (out, excl)
}

} // verus!
