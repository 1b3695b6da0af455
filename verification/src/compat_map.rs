use vstd::prelude::*;
use crate::common::PlacementId;
use crate::placement::{spec_compatible, Placement};

verus! {

/// A precomputed table of pairwise placement compatibility, indexed by the
/// dense placement ids.
pub struct CompatMap {
    // incompat[i][j] holds exactly when placements i and j are incompatible
    incompat: Vec<Vec<bool>>,
}

impl CompatMap {
    pub closed spec fn spec_len(self) -> int {
        self.incompat@.len() as int
    }

    pub closed spec fn spec_compat(self, id: int, other: int) -> bool {
        !self.incompat@[id][other]
    }

    pub closed spec fn square(self) -> bool {
        forall|i: int|
            0 <= i < self.incompat@.len() ==> (#[trigger] self.incompat@[i])@.len()
                == self.incompat@.len()
    }

    /// Precompute every pair's compatibility.
    pub fn new(places: &Vec<Placement>) -> (c: CompatMap)
        requires
            forall|i: int| 0 <= i < places@.len() ==> (#[trigger] places@[i]).wf(),
        ensures
            c.square(),
            c.spec_len() == places@.len(),
            forall|i: int, j: int|
                0 <= i < places@.len() && 0 <= j < places@.len() ==> #[trigger] c.spec_compat(i, j)
                    == spec_compatible(places@[i], places@[j]),
    {
        let n = places.len();
        let mut incompat: Vec<Vec<bool>> = Vec::new();
        let mut i: usize = 0;
        while i < n
            invariant
                i <= n,
                n == places@.len(),
                forall|k: int| 0 <= k < places@.len() ==> (#[trigger] places@[k]).wf(),
                incompat@.len() == i,
                forall|a: int| 0 <= a < i ==> (#[trigger] incompat@[a])@.len() == n,
                forall|a: int, b: int|
                    0 <= a < i && 0 <= b < n ==> (#[trigger] incompat@[a]@[b]) == !spec_compatible(
                        places@[a],
                        places@[b],
                    ),
            decreases n - i,
        {
            let mut row: Vec<bool> = Vec::new();
            let mut j: usize = 0;
            while j < n
                invariant
                    j <= n,
                    i < n,
                    n == places@.len(),
                    forall|k: int| 0 <= k < places@.len() ==> (#[trigger] places@[k]).wf(),
                    row@.len() == j,
                    forall|b: int|
                        0 <= b < j ==> (#[trigger] row@[b]) == !spec_compatible(
                            places@[i as int],
                            places@[b],
                        ),
                decreases n - j,
            {
                row.push(!places[i].compatible(&places[j]));
                j = j + 1;
            }
            incompat.push(row);
            i = i + 1;
        }
        CompatMap { incompat }
    }

    /// Whether the two placements are compatible.
    pub fn compat(&self, id: PlacementId, other: PlacementId) -> (r: bool)
        requires
            self.square(),
            id.0 < self.spec_len(),
            other.0 < self.spec_len(),
        ensures
            r == self.spec_compat(id.0 as int, other.0 as int),
    {
        !self.incompat[id.0][other.0]
    }
}

} // verus!
