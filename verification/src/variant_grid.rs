use vstd::prelude::*;
use crate::common::PlacementId;
use crate::placement::Placement;
use crate::sliced_arena::{sizes_sum, SlicedArena};

verus! {

/// Marker stored in the side table for a placement that is no longer
/// admissible.
pub const REMOVED: usize = usize::MAX;

/// For each board cell, the still-admissible placements covering it, with a
/// side table that locates each placement inside its cells' lists in O(1).
pub struct VariantGrid {
    places: Vec<Placement>,
    h: usize,
    w: usize,
    // row-major: cell (y, x) is cells[y * w + x]
    cells: Vec<Vec<usize>>,
    // entries[pid][ci] = position of pid in the list of its ci-th covered cell
    entries: SlicedArena<usize>,
}

/// The word lengths of a placement sequence, the sizes of the side table rows.
pub open spec fn place_lens(ps: Seq<Placement>) -> Seq<usize> {
    ps.map_values(|p: Placement| p.word.letters@.len() as usize)
}

/// The placements all fit the board, have dense ids, and are well formed.
pub open spec fn places_ok(ps: Seq<Placement>, h: int, w: int) -> bool {
    forall|i: int|
        0 <= i < ps.len() ==> {
            &&& (#[trigger] ps[i]).id == PlacementId(i as usize)
            &&& ps[i].wf()
            &&& ps[i].fits(h, w)
        }
}

/// Row-major cell indices stay inside the flat cell array.
pub proof fn lemma_cell_index(y: int, x: int, h: int, w: int)
    requires
        0 <= y < h,
        0 <= x < w,
        h <= 0xFFFF,
        w <= 0xFFFF,
    ensures
        0 <= y * w + x < h * w,
        h * w <= 0xFFFE0001,
{
    assert(0 <= y * w + x < h * w && h * w <= 0xFFFE0001) by (nonlinear_arith)
        requires
            0 <= y < h,
            0 <= x < w,
            h <= 0xFFFF,
            w <= 0xFFFF,
    ;
}

/// Row-major cell indexing is injective.
pub proof fn lemma_cell_index_inj(y1: int, x1: int, y2: int, x2: int, h: int, w: int)
    requires
        0 <= y1 < h,
        0 <= x1 < w,
        0 <= y2 < h,
        0 <= x2 < w,
        y1 * w + x1 == y2 * w + x2,
    ensures
        y1 == y2 && x1 == x2,
{
    assert(y1 == y2 && x1 == x2) by (nonlinear_arith)
        requires
            0 <= y1 < h,
            0 <= x1 < w,
            0 <= y2 < h,
            0 <= x2 < w,
            y1 * w + x1 == y2 * w + x2,
    ;
}


impl VariantGrid {
    /// The side table row of `pid` carries the fill marker below `ci`.
    pub closed spec fn row_cleared_upto(self, pid: int, ci: int) -> bool {
        forall|c2: int| 0 <= c2 < ci ==> #[trigger] self.entries.view()[pid][c2] == REMOVED
    }

    /// The side table row of `pid` is registered from `ci` on.
    pub closed spec fn row_reg_from(self, pid: int, ci: int) -> bool {
        forall|c2: int|
            ci <= c2 < self.places@[pid].wlen() ==> #[trigger] self.slot_ok(pid, c2)
    }

    /// Slot `j` of cell (y, x) is consistent, and holds `pid` only at a letter
    /// index from `ci` on.
    pub closed spec fn cell_keep(self, pid: int, ci: int, y: int, x: int, j: int) -> bool {
        &&& self.cell_slot_ok(y, x, j)
        &&& (self.cells@[y * self.w + x]@[j] == pid ==> self.places@[pid].cover_index(y, x) >= ci)
    }

    pub closed spec fn cells_keep_from(self, pid: int, ci: int) -> bool {
        forall|y: int, x: int, j: int|
            0 <= y < self.h && 0 <= x < self.w && 0 <= j < self.cells@[y * self.w + x]@.len()
                ==> #[trigger] self.cell_keep(pid, ci, y, x, j)
    }

    /// Positions of the first `qn` placements, and of placement `qn` below
    /// letter index `ci`, are registered.
    pub closed spec fn reg_upto(self, qn: int, ci: int) -> bool {
        &&& forall|q: int, c2: int|
            0 <= q < qn && 0 <= c2 < self.places@[q].wlen() ==> #[trigger] self.slot_ok(q, c2)
        &&& forall|c2: int|
            0 <= c2 < ci && qn < self.places@.len() ==> #[trigger] self.slot_ok(qn, c2)
    }

    /// Side table rows from placement `qn` on, and of placement `qn` from
    /// letter index `ci` on, still carry the fill marker.
    pub closed spec fn unreg_from(self, qn: int, ci: int) -> bool {
        &&& forall|q: int, c2: int|
            qn < q < self.places@.len() && 0 <= c2 < self.places@[q].wlen()
                ==> #[trigger] self.entries.view()[q][c2] == REMOVED
        &&& forall|c2: int|
            0 <= qn < self.places@.len() && ci <= c2 < self.places@[qn].wlen()
                ==> #[trigger] self.entries.view()[qn][c2] == REMOVED
    }

    /// Slot `j` of cell (y, x) is consistent and holds a placement of the
    /// registered prefix: below `qn`, or `qn` itself at a letter index
    /// below `ci`.
    pub closed spec fn cell_bound(self, qn: int, ci: int, y: int, x: int, j: int) -> bool {
        &&& self.cell_slot_ok(y, x, j)
        &&& (self.cells@[y * self.w + x]@[j] < qn || (self.cells@[y * self.w + x]@[j] == qn && 0
            <= qn < self.places@.len() && self.places@[qn].cover_index(y, x) < ci))
    }

    /// Cells hold only the registered prefix: placements below `qn`, or `qn`
    /// itself at letter indices below `ci`.
    pub closed spec fn cells_upto(self, qn: int, ci: int) -> bool {
        forall|y: int, x: int, j: int|
            0 <= y < self.h && 0 <= x < self.w && 0 <= j < self.cells@[y * self.w + x]@.len()
                ==> #[trigger] self.cell_bound(qn, ci, y, x, j)
    }
}

impl VariantGrid {
    pub closed spec fn spec_places(self) -> Seq<Placement> {
        self.places@
    }

    pub closed spec fn spec_h(self) -> int {
        self.h as int
    }

    pub closed spec fn spec_w(self) -> int {
        self.w as int
    }

    /// Flat index of the cell covering position ci of placement pid.
    pub closed spec fn cell_of(self, pid: int, ci: int) -> int {
        self.places@[pid].pos_y(ci) * self.w + self.places@[pid].pos_x(ci)
    }

    /// Whether placement `pid` is still admissible.
    pub closed spec fn admissible(self, pid: int) -> bool {
        &&& 0 <= pid < self.places@.len()
        &&& self.entries.view()[pid][0] != REMOVED
    }

    /// Letter position `ci` of placement `pid` is registered: the side table
    /// points at a slot of the covering cell's list that holds `pid`.
    pub closed spec fn slot_ok(self, pid: int, ci: int) -> bool {
        let e = self.entries.view()[pid][ci];
        let c = self.cell_of(pid, ci);
        &&& 0 <= c < self.cells@.len()
        &&& e < self.cells@[c]@.len()
        &&& self.cells@[c]@[e as int] == pid
    }

    /// The side table row of `pid` locates it in every cell it covers.
    pub closed spec fn entry_ok(self, pid: int) -> bool {
        forall|ci: int| 0 <= ci < self.places@[pid].wlen() ==> #[trigger] self.slot_ok(pid, ci)
    }

    pub closed spec fn removed_ok(self, pid: int) -> bool {
        forall|ci: int|
            0 <= ci < self.places@[pid].wlen() ==> #[trigger] self.entries.view()[pid][ci]
                == REMOVED
    }

    /// Slot `j` of the cell (y, x) holds a placement that covers (y, x), and
    /// the placement's side table row points back at slot `j`.
    pub closed spec fn cell_slot_ok(self, y: int, x: int, j: int) -> bool {
        let q = self.cells@[y * self.w + x]@[j] as int;
        &&& 0 <= q < self.places@.len()
        &&& self.places@[q].spec_covers(y, x)
        &&& self.entries.view()[q][self.places@[q].cover_index(y, x)] == j
    }

    /// Every cell lists only placements that cover it, each at the index its
    /// side table row records.
    pub closed spec fn cells_ok(self) -> bool {
        forall|y: int, x: int, j: int|
            0 <= y < self.h && 0 <= x < self.w && 0 <= j < self.cells@[y * self.w + x]@.len()
                ==> #[trigger] self.cell_slot_ok(y, x, j)
    }

    pub closed spec fn dims_ok(self) -> bool {
        &&& self.h <= 0xFFFF
        &&& self.w <= 0xFFFF
        &&& self.cells@.len() == self.h * self.w
        &&& self.places@.len() < usize::MAX
        &&& self.entries.wf()
        &&& self.entries.view().len() == self.places@.len()
        &&& forall|i: int|
            0 <= i < self.places@.len() ==> (#[trigger] self.entries.view()[i]).len()
                == self.places@[i].wlen()
    }

    /// Well-formedness: the cell lists and the side table stay mutually
    /// consistent (for every cell C and index j into C's list, the side table
    /// entry of placement C[j] at C's letter index equals j), and every
    /// admissible placement is registered in each of its covered cells.
    pub closed spec fn wf(self) -> bool {
        &&& self.dims_ok()
        &&& places_ok(self.places@, self.h as int, self.w as int)
        &&& self.cells_ok()
        &&& forall|pid: int|
            0 <= pid < self.places@.len() ==> ((#[trigger] self.admissible(pid)) ==> self.entry_ok(
                pid,
            ))
        &&& forall|pid: int|
            0 <= pid < self.places@.len() ==> (!(#[trigger] self.admissible(pid))
                ==> self.removed_ok(pid))
    }

    /// Whether `place_id` is still admissible.
    pub fn contains(&self, place_id: PlacementId) -> (r: bool)
        requires
            self.wf(),
            place_id.0 < self.spec_places().len(),
        ensures
            r == self.admissible(place_id.0 as int),
    {
        proof {
            if self.admissible(place_id.0 as int) {
                assert(self.entry_ok(place_id.0 as int));
                assert(self.slot_ok(place_id.0 as int, 0));
            }
        }
        self.entries.at(place_id.0, 0) != REMOVED
    }

    /// The pids listed at cell (y, x).
    pub closed spec fn cell_view(self, y: int, x: int) -> Seq<usize> {
        self.cells@[y * self.w + x]@
    }

    /// The list of admissible placements covering cell (y, x).
    pub fn iter_at(&self, y: usize, x: usize) -> (r: &Vec<usize>)
        requires
            self.wf(),
            y < self.spec_h(),
            x < self.spec_w(),
        ensures
            r@ == self.cell_view(y as int, x as int),
    {
        proof {
            lemma_cell_index(y as int, x as int, self.h as int, self.w as int);
        }
        &self.cells[y * self.w + x]
    }

    /// Build the grid: every placement is admissible and registered in each
    /// cell it covers.
    #[verifier::rlimit(100)]
    pub fn new(places: Vec<Placement>, h: usize, w: usize) -> (g: Self)
        requires
            h <= 0xFFFF,
            w <= 0xFFFF,
            places@.len() < usize::MAX,
            places_ok(places@, h as int, w as int),
            sizes_sum(place_lens(places@)) <= usize::MAX,
        ensures
            g.wf(),
            g.spec_places() == places@,
            g.spec_h() == h,
            g.spec_w() == w,
            forall|pid: int| 0 <= pid < places@.len() ==> g.admissible(pid),
    {
        let n = places.len();
        let mut lens: Vec<usize> = Vec::new();
        let mut i: usize = 0;
        while i < n
            invariant
                i <= n,
                n == places@.len(),
                lens@.len() == i,
                forall|k: int| 0 <= k < i ==> (#[trigger] lens@[k]) == place_lens(places@)[k],
            decreases n - i,
        {
            lens.push(places[i].word.len());
            i = i + 1;
        }
        proof {
            assert(lens@ =~= place_lens(places@));
        }
        let entries: SlicedArena<usize> = SlicedArena::new(&lens, REMOVED);
        proof {
            assert(h * w <= 0xFFFE0001) by (nonlinear_arith)
                requires
                    h <= 0xFFFF,
                    w <= 0xFFFF,
            ;
        }
        let hw = h * w;
        let mut cells: Vec<Vec<usize>> = Vec::new();
        let mut c: usize = 0;
        while c < hw
            invariant
                c <= hw,
                cells@.len() == c,
                forall|k: int| 0 <= k < c ==> (#[trigger] cells@[k])@.len() == 0,
            decreases hw - c,
        {
            cells.push(Vec::new());
            c = c + 1;
        }
        let mut g = VariantGrid { places, h, w, cells, entries };
        proof {
            assert forall|y: int, x: int| 0 <= y < h && 0 <= x < w implies #[trigger] g.cells@[y * w
                + x]@.len() == 0 by {
                lemma_cell_index(y, x, h as int, w as int);
            }
            assert(g.reg_upto(0, 0));
            assert(g.unreg_from(0, 0));
            assert(g.cells_upto(0, 0));
        }
        let mut pid: usize = 0;
        while pid < n
            invariant
                pid <= n,
                n == g.places@.len(),
                g.places@ == places@,
                g.h == h,
                g.w == w,
                g.dims_ok(),
                places_ok(g.places@, h as int, w as int),
                g.reg_upto(pid as int, 0),
                g.unreg_from(pid as int, 0),
                g.cells_upto(pid as int, 0),
            decreases n - pid,
        {
            let len = g.places[pid].word.len();
            let mut ci: usize = 0;
            while ci < len
                invariant
                    ci <= len,
                    pid < n,
                    n == g.places@.len(),
                    g.places@ == places@,
                    g.h == h,
                    g.w == w,
                    g.dims_ok(),
                    places_ok(g.places@, h as int, w as int),
                    len == g.places@[pid as int].wlen(),
                    g.reg_upto(pid as int, ci as int),
                    g.unreg_from(pid as int, ci as int),
                    g.cells_upto(pid as int, ci as int),
                decreases len - ci,
            {
                let p = &g.places[pid];
                let (y, x) = p.pos_at(ci);
                proof {
                    p.lemma_pos_covers(ci as int);
                    assert(y < h && x < w) by {
                        assert(g.places@[pid as int].fits(h as int, w as int));
                    }
                    lemma_cell_index(y as int, x as int, h as int, w as int);
                }
                let c = y * w + x;
                let ghost g0 = g;
                let e = g.cells[c].len();
                g.entries.set_at(pid, ci, e);
                let mut cellv = copy_row(&g.cells[c]);
                cellv.push(pid);
                g.cells.set(c, cellv);
                proof {
                    let gp = g.places@[pid as int];
                    let ce = c as int;
                    assert(gp.cover_index(y as int, x as int) == ci as int);
                    assert(g.cells@[ce]@ =~= g0.cells@[ce]@.push(pid));
                    assert forall|y2: int, x2: int, j: int|
                        0 <= y2 < h && 0 <= x2 < w && 0 <= j < g.cells@[y2 * w
                            + x2]@.len() implies #[trigger] g.cell_slot_ok(y2, x2, j) && (g.cells@[
                        y2 * w + x2]@[j] < pid || (g.cells@[y2 * w + x2]@[j] == pid
                        && 0 <= pid < g.places@.len() && g.places@[pid as int].cover_index(y2, x2)
                            < ci + 1)) by {
                        lemma_cell_index(y2, x2, h as int, w as int);
                        let cid = y2 * w + x2;
                        let q = g.cells@[cid]@[j] as int;
                        if cid == ce {
                            lemma_cell_index_inj(y2, x2, y as int, x as int, h as int, w as int);
                            if j == e as int {
                                assert(q == pid);
                                assert(g.entries.view()[pid as int][ci as int] == e);
                                assert(g.cell_slot_ok(y2, x2, j));
                            } else {
                                assert(g.cells@[cid]@[j] == g0.cells@[cid]@[j]);
                                assert(g0.cell_bound(pid as int, ci as int, y2, x2, j));
                                assert(g0.cell_slot_ok(y2, x2, j));
                                assert(q != pid) by {
                                    if q == pid as int {
                                        assert(g0.places@[q].cover_index(y2, x2) < ci);
                                        assert(gp.cover_index(y2, x2) == ci as int);
                                    }
                                }
                                assert(g.entries.view()[q] == g0.entries.view()[q]);
                                assert(g.cell_slot_ok(y2, x2, j));
                            }
                        } else {
                            assert(g.cells@[cid]@ == g0.cells@[cid]@);
                            assert(g0.cell_bound(pid as int, ci as int, y2, x2, j));
                            assert(g0.cell_slot_ok(y2, x2, j));
                            if q == pid as int {
                                assert(g0.places@[q].cover_index(y2, x2) < ci);
                                assert(g.entries.view()[q][g.places@[q].cover_index(y2, x2)]
                                    == g0.entries.view()[q][g0.places@[q].cover_index(y2, x2)]);
                            } else {
                                assert(g.entries.view()[q] == g0.entries.view()[q]);
                            }
                            assert(g.cell_slot_ok(y2, x2, j));
                        }
                    }
                    assert forall|q: int, ci2: int|
                        0 <= q < pid && 0 <= ci2 < g.places@[q].wlen() implies #[trigger] g.slot_ok(
                        q,
                        ci2,
                    ) by {
                        assert(g0.slot_ok(q, ci2));
                        assert(g.entries.view()[q] == g0.entries.view()[q]);
                        let e2 = g0.entries.view()[q][ci2];
                        let cc = g0.cell_of(q, ci2);
                        if cc == ce {
                            assert(g.cells@[cc]@[e2 as int] == g0.cells@[cc]@[e2 as int]);
                        } else {
                            assert(g.cells@[cc]@ == g0.cells@[cc]@);
                        }
                    }
                    assert forall|ci2: int| 0 <= ci2 < ci + 1 implies #[trigger] g.slot_ok(
                        pid as int,
                        ci2,
                    ) by {
                        if ci2 < ci {
                            assert(g0.slot_ok(pid as int, ci2));
                            assert(g.entries.view()[pid as int][ci2] == g0.entries.view()[
                                pid as int][ci2]);
                            let e2 = g0.entries.view()[pid as int][ci2];
                            let cc = g0.cell_of(pid as int, ci2);
                            if cc == ce {
                                assert(g.cells@[cc]@[e2 as int] == g0.cells@[cc]@[e2 as int]);
                            } else {
                                assert(g.cells@[cc]@ == g0.cells@[cc]@);
                            }
                        } else {
                            assert(g.entries.view()[pid as int][ci2] == e);
                            assert(g.cell_of(pid as int, ci2) == ce);
                            assert(g.cells@[ce]@[e as int] == pid);
                        }
                    }
                    assert forall|y2: int, x2: int, j: int|
                        0 <= y2 < g.h && 0 <= x2 < g.w && 0 <= j < g.cells@[y2 * g.w
                            + x2]@.len() implies #[trigger] g.cell_bound(pid as int, ci + 1, y2, x2, j) by {
                        assert(g.h == h && g.w == w);
                        assert(g.cell_slot_ok(y2, x2, j));
                        assert(g.cells@[y2 * w + x2]@[j] < pid as int || (g.cells@[y2 * w + x2]@[j]
                            == pid as int && 0 <= (pid as int) < g.places@.len() && g.places@[
                        pid as int].cover_index(y2, x2) < ci + 1));
                    }
                    assert(g.cells_upto(pid as int, ci + 1));
                    assert(g.reg_upto(pid as int, ci + 1));
                    assert(g.unreg_from(pid as int, ci + 1)) by {
                        assert forall|q2: int, c2: int|
                            pid < q2 < g.places@.len() && 0 <= c2
                                < g.places@[q2].wlen() implies #[trigger] g.entries.view()[q2][c2]
                            == REMOVED by {
                            assert(g.entries.view()[q2] == g0.entries.view()[q2]);
                        }
                        assert forall|c2: int|
                            ci + 1 <= c2 < g.places@[pid as int].wlen() implies (
                            #[trigger] g.entries.view()[pid as int][c2]) == REMOVED by {
                            assert(g0.entries.view()[pid as int][c2] == REMOVED);
                        }
                    }
                }
                ci = ci + 1;
            }
            proof {
                assert(g.reg_upto(pid + 1, 0)) by {
                    assert forall|q2: int, c2: int|
                        0 <= q2 < pid + 1 && 0 <= c2 < g.places@[q2].wlen() implies (
                    #[trigger] g.slot_ok(q2, c2)) by {
                        if q2 == pid as int {
                            assert(g.reg_upto(pid as int, len as int));
                        }
                    }
                }
                assert(g.unreg_from(pid + 1, 0)) by {
                    assert forall|q2: int, c2: int|
                        pid + 1 < q2 < g.places@.len() && 0 <= c2
                            < g.places@[q2].wlen() implies #[trigger] g.entries.view()[q2][c2]
                        == REMOVED by {
                        assert(g.unreg_from(pid as int, len as int));
                    }
                    if pid + 1 < n {
                        assert forall|c2: int|
                            0 <= c2 < g.places@[pid + 1].wlen() implies (
                            #[trigger] g.entries.view()[pid + 1][c2]) == REMOVED by {
                            assert(g.unreg_from(pid as int, len as int));
                        }
                    }
                }
                assert(g.cells_upto(pid + 1, 0)) by {
                    assert forall|y: int, x: int, j: int|
                        0 <= y < g.h && 0 <= x < g.w && 0 <= j < g.cells@[y * g.w
                            + x]@.len() implies #[trigger] g.cell_bound(pid + 1, 0, y, x, j) by {
                        assert(g.cells_upto(pid as int, len as int));
                        assert(g.cell_bound(pid as int, len as int, y, x, j));
                    }
                }
            }
            pid = pid + 1;
        }
        proof {
            assert(g.cells_ok()) by {
                assert forall|y: int, x: int, j: int|
                    0 <= y < g.h && 0 <= x < g.w && 0 <= j < g.cells@[y * g.w
                        + x]@.len() implies #[trigger] g.cell_slot_ok(y, x, j) by {
                    assert(g.cell_bound(n as int, 0, y, x, j));
                }
            }
            assert forall|pid2: int| 0 <= pid2 < n implies g.admissible(pid2) by {
                assert(g.places@[pid2].wf());
                assert(g.reg_upto(n as int, 0));
                assert(g.slot_ok(pid2, 0));
                vstd::std_specs::vec::axiom_spec_len(&g.cells@[g.cell_of(pid2, 0)]);
                assert(g.entries.view()[pid2][0] < g.cells@[g.cell_of(pid2, 0)]@.len());
                assert(g.cells@[g.cell_of(pid2, 0)]@.len() <= usize::MAX);
            }
            assert forall|pid2: int|
                0 <= pid2 < n && #[trigger] g.admissible(pid2) implies g.entry_ok(pid2) by {
                assert forall|c2: int|
                    0 <= c2 < g.places@[pid2].wlen() implies #[trigger] g.slot_ok(pid2, c2) by {
                    assert(g.reg_upto(n as int, 0));
                }
            }
        }
        g
    }
}

/// An identical copy of a cell list.
pub(crate) fn copy_row(v: &Vec<usize>) -> (r: Vec<usize>)
    ensures
        r@ == v@,
{
    let mut r: Vec<usize> = Vec::new();
    let n = v.len();
    let mut i: usize = 0;
    while i < n
        invariant
            i <= n,
            n == v@.len(),
            r@ == v@.take(i as int),
        decreases n - i,
    {
        r.push(v[i]);
        proof {
            assert(r@ =~= v@.take(i + 1));
        }
        i = i + 1;
    }
    proof {
        assert(v@.take(n as int) =~= v@);
    }
    r
}


impl VariantGrid {
    /// Mark `entry_id` inadmissible and unregister it from every cell it
    /// covers, swapping each cell's last element into the vacated slot and
    /// repointing the swapped placement's side table entry.
    #[verifier::rlimit(100)]
    #[verifier::spinoff_prover]
    pub fn remove(&mut self, entry_id: PlacementId)
        requires
            old(self).wf(),
            old(self).admissible(entry_id.0 as int),
        ensures
            final(self).wf(),
            final(self).spec_places() == old(self).spec_places(),
            final(self).spec_h() == old(self).spec_h(),
            final(self).spec_w() == old(self).spec_w(),
            forall|q: int|
                #[trigger] final(self).admissible(q) == (old(self).admissible(q) && q
                    != entry_id.0 as int),
    {
        let pid = entry_id.0;
        let ghost n = self.places@.len() as int;
        let h = self.h;
        let w = self.w;
        let len = self.places[pid].word.len();
        proof {
            assert(self.entry_ok(pid as int));
            assert(self.row_cleared_upto(pid as int, 0));
            assert(self.row_reg_from(pid as int, 0)) by {
                assert forall|c2: int|
                    0 <= c2 < self.places@[pid as int].wlen() implies #[trigger] self.slot_ok(
                    pid as int,
                    c2,
                ) by {}
            }
            assert(self.cells_keep_from(pid as int, 0)) by {
                assert forall|y: int, x: int, j: int|
                    0 <= y < self.h && 0 <= x < self.w && 0 <= j < self.cells@[y * self.w
                        + x]@.len() implies #[trigger] self.cell_keep(pid as int, 0, y, x, j) by {
                    assert(self.cell_slot_ok(y, x, j));
                }
            }
        }
        let mut ci: usize = 0;
        while ci < len
            invariant
                ci <= len,
                pid < n,
                n == self.places@.len(),
                self.places@ == old(self).places@,
                self.h == h,
                self.w == w,
                old(self).h == h,
                old(self).w == w,
                self.dims_ok(),
                places_ok(self.places@, h as int, w as int),
                len == self.places@[pid as int].wlen(),
                self.row_cleared_upto(pid as int, ci as int),
                self.row_reg_from(pid as int, ci as int),
                self.cells_keep_from(pid as int, ci as int),
                forall|q: int|
                    0 <= q < n && q != pid ==> ((#[trigger] self.entries.view()[q][0] == REMOVED)
                        == (old(self).entries.view()[q][0] == REMOVED)),
                forall|q: int|
                    0 <= q < n && q != pid && #[trigger] self.admissible(q) ==> self.entry_ok(q),
                forall|q: int|
                    0 <= q < n && q != pid && !(#[trigger] self.admissible(q))
                        ==> self.removed_ok(q),
            decreases len - ci,
        {
            let (y, x) = self.places[pid].pos_at(ci);
            proof {
                self.places@[pid as int].lemma_pos_covers(ci as int);
                assert(y < h && x < w) by {
                    assert(self.places@[pid as int].fits(h as int, w as int));
                }
                lemma_cell_index(y as int, x as int, h as int, w as int);
                assert(self.slot_ok(pid as int, ci as int)) by {
                    assert(self.row_reg_from(pid as int, ci as int));
                }
            }
            let c = y * w + x;
            let ghost g0 = *self;
            let e = self.entries.at(pid, ci);
            self.entries.set_at(pid, ci, REMOVED);
            let mut cellv = copy_row(&self.cells[c]);
            let lastpos = cellv.len() - 1;
            proof {
                assert(g0.cells_keep_from(pid as int, ci as int));
                assert(g0.cell_keep(pid as int, ci as int, y as int, x as int, lastpos as int));
                assert(g0.cell_slot_ok(y as int, x as int, lastpos as int));
            }
            if e < lastpos {
                let moved = cellv[lastpos];
                proof {
                    // the last slot holds a different placement: pid sits at slot e
                    if moved == pid {
                        assert(g0.entries.view()[pid as int][ci as int] == lastpos);
                        assert(g0.entries.view()[pid as int][ci as int] == e);
                    }
                    assert(g0.places@[moved as int].spec_covers(y as int, x as int));
                    g0.places@[moved as int].lemma_covers_pos(y as int, x as int);
                }
                cellv.set(e, moved);
                let m_y = self.places[moved].y;
                let m_x = self.places[moved].x;
                let ci2 = (y - m_y) + (x - m_x);
                proof {
                    assert(ci2 as int == g0.places@[moved as int].cover_index(y as int, x as int));
                }
                self.entries.set_at(moved, ci2, e);
            }
            let _last = cellv.pop();
            self.cells.set(c, cellv);
            proof {
                let pi = pid as int;
                let cii = ci as int;
                let ce = c as int;
                let yi = y as int;
                let xi = x as int;
                let gp = self.places@[pi];
                let moved: int = g0.cells@[ce]@[lastpos as int] as int;
                let mcov = if e < lastpos {
                    g0.places@[moved].cover_index(yi, xi)
                } else {
                    0
                };
                assert(gp.cover_index(yi, xi) == cii);
                // the new cell list
                if e < lastpos {
                    assert(self.cells@[ce]@ =~= g0.cells@[ce]@.update(
                        e as int,
                        moved as usize,
                    ).drop_last());
                } else {
                    assert(self.cells@[ce]@ =~= g0.cells@[ce]@.drop_last());
                }
                // row pid: cleared one more position
                assert(self.row_cleared_upto(pi, cii + 1)) by {
                    assert forall|c2: int|
                        0 <= c2 < cii + 1 implies #[trigger] self.entries.view()[pi][c2]
                        == REMOVED by {
                        if c2 < cii {
                            assert(g0.row_cleared_upto(pi, cii));
                            assert(g0.entries.view()[pi][c2] == REMOVED);
                        }
                    }
                }
                // row pid: still registered above ci
                assert(self.row_reg_from(pi, cii + 1)) by {
                    assert forall|c2: int|
                        cii + 1 <= c2 < self.places@[pi].wlen() implies #[trigger] self.slot_ok(
                        pi,
                        c2,
                    ) by {
                        assert(g0.slot_ok(pi, c2));
                        assert(self.entries.view()[pi][c2] == g0.entries.view()[pi][c2]);
                        let cc = g0.cell_of(pi, c2);
                        assert(cc != ce) by {
                            if cc == ce {
                                gp.lemma_pos_injective(cii, c2);
                                lemma_cell_index_inj(
                                    gp.pos_y(c2),
                                    gp.pos_x(c2),
                                    yi,
                                    xi,
                                    h as int,
                                    w as int,
                                );
                            }
                        }
                        assert(self.cells@[cc]@ == g0.cells@[cc]@);
                    }
                }
                // every remaining cell slot is consistent
                assert(self.cells_keep_from(pi, cii + 1)) by {
                    assert forall|y2: int, x2: int, j: int|
                        0 <= y2 < self.h && 0 <= x2 < self.w && 0 <= j < self.cells@[y2 * self.w
                            + x2]@.len() implies #[trigger] self.cell_keep(
                        pi,
                        cii + 1,
                        y2,
                        x2,
                        j,
                    ) by {
                        lemma_cell_index(y2, x2, h as int, w as int);
                        let cid = y2 * self.w + x2;
                        if cid == ce {
                            lemma_cell_index_inj(y2, x2, yi, xi, h as int, w as int);
                            if e < lastpos && j == e as int {
                                assert(self.cells@[cid]@[j] == moved as usize);
                                assert(moved != pi);
                                assert(self.entries.view()[moved][mcov] == e);
                                assert(g0.places@[moved].spec_covers(y2, x2));
                                assert(self.cell_slot_ok(y2, x2, j));
                            } else {
                                assert(self.cells@[cid]@[j] == g0.cells@[cid]@[j]);
                                assert(g0.cell_keep(pi, cii, y2, x2, j));
                                assert(g0.cell_slot_ok(y2, x2, j));
                                let q = g0.cells@[cid]@[j] as int;
                                assert(q != pi) by {
                                    if q == pi {
                                        assert(g0.places@[pi].cover_index(y2, x2) >= cii);
                                        assert(g0.places@[pi].cover_index(y2, x2) == cii);
                                        assert(g0.entries.view()[pi][cii] == j);
                                        assert(g0.entries.view()[pi][cii] == e);
                                        assert(j != e as int || e >= lastpos);
                                        assert(j < lastpos);
                                    }
                                }
                                assert(q != moved || !(e < lastpos)) by {
                                    if q == moved && e < lastpos {
                                        assert(g0.entries.view()[moved][mcov] == j);
                                        assert(g0.entries.view()[moved][mcov] == lastpos);
                                        assert(j < lastpos);
                                    }
                                }
                                if e < lastpos && q == moved {
                                } else {
                                    assert(self.entries.view()[q] == g0.entries.view()[q]);
                                }
                                assert(self.cell_slot_ok(y2, x2, j));
                            }
                        } else {
                            assert(self.cells@[cid]@ == g0.cells@[cid]@);
                            assert(g0.cell_keep(pi, cii, y2, x2, j));
                            assert(g0.cell_slot_ok(y2, x2, j));
                            let q = g0.cells@[cid]@[j] as int;
                            let qc = g0.places@[q].cover_index(y2, x2);
                            if q == pi {
                                assert(qc >= cii);
                                assert(qc != cii) by {
                                    if qc == cii {
                                        g0.places@[q].lemma_covers_pos(y2, x2);
                                        lemma_cell_index_inj(y2, x2, yi, xi, h as int, w as int);
                                    }
                                }
                                assert(self.entries.view()[pi][qc] == g0.entries.view()[pi][qc]);
                            } else if e < lastpos && q == moved {
                                assert(qc != mcov) by {
                                    if qc == mcov {
                                        g0.places@[q].lemma_covers_pos(y2, x2);
                                        g0.places@[q].lemma_covers_pos(yi, xi);
                                        lemma_cell_index_inj(y2, x2, yi, xi, h as int, w as int);
                                    }
                                }
                                assert(self.entries.view()[q][qc] == g0.entries.view()[q][qc]);
                            } else {
                                assert(self.entries.view()[q] == g0.entries.view()[q]);
                            }
                            assert(self.cell_slot_ok(y2, x2, j));
                        }
                    }
                }
                // admissibility of other placements is untouched
                assert forall|q: int|
                    0 <= q < n && q != pi implies ((#[trigger] self.entries.view()[q][0] == REMOVED)
                    == (old(self).entries.view()[q][0] == REMOVED)) by {
                    if e < lastpos && q == moved && mcov == 0 {
                        assert(g0.entries.view()[q][0] == lastpos);
                        assert(self.entries.view()[q][0] == e);
                    } else {
                        assert(self.entries.view()[q][0] == g0.entries.view()[q][0]);
                    }
                }
                // entry consistency of the other placements
                assert forall|q: int|
                    0 <= q < n && q != pi && #[trigger] self.admissible(q) implies self.entry_ok(
                    q,
                ) by {
                    assert(g0.admissible(q));
                    assert(g0.entry_ok(q));
                    assert forall|c2: int|
                        0 <= c2 < self.places@[q].wlen() implies #[trigger] self.slot_ok(
                        q,
                        c2,
                    ) by {
                        assert(g0.slot_ok(q, c2));
                        let cc = g0.cell_of(q, c2);
                        let qp = g0.places@[q];
                        if e < lastpos && q == moved && c2 == mcov {
                            assert(self.entries.view()[q][c2] == e);
                            qp.lemma_covers_pos(yi, xi);
                            qp.lemma_pos_covers(c2);
                            assert(cc == ce) by {
                                assert(qp.pos_y(c2) == yi && qp.pos_x(c2) == xi);
                            }
                            assert(self.cells@[ce]@[e as int] == moved as usize);
                        } else {
                            assert(self.entries.view()[q][c2] == g0.entries.view()[q][c2]);
                            let j = g0.entries.view()[q][c2];
                            if cc == ce {
                                assert(g0.cells@[ce]@[j as int] == q);
                                qp.lemma_pos_covers(c2);
                                // q's slot in this cell is neither e nor the last slot
                                assert(j != lastpos || (e < lastpos && q == moved)) by {
                                    if j == lastpos {
                                        assert(g0.cells@[ce]@[lastpos as int] as int == moved);
                                    }
                                }
                                if e < lastpos && q == moved {
                                    assert(g0.places@[q].cover_index(
                                        g0.places@[q].pos_y(c2),
                                        g0.places@[q].pos_x(c2),
                                    ) == c2);
                                    assert(c2 == mcov) by {
                                        lemma_cell_index_inj(
                                            qp.pos_y(c2),
                                            qp.pos_x(c2),
                                            yi,
                                            xi,
                                            h as int,
                                            w as int,
                                        );
                                        qp.lemma_covers_pos(yi, xi);
                                    }
                                } else {
                                    assert(j != lastpos);
                                    assert(j != e || !(e < lastpos)) by {
                                        if j == e && e < lastpos {
                                            assert(g0.cells@[ce]@[e as int] == q);
                                            assert(g0.cell_keep(pi, cii, yi, xi, e as int));
                                            assert(g0.cell_slot_ok(yi, xi, e as int));
                                            assert(g0.entries.view()[pi][cii] == e);
                                            assert(g0.cells@[ce]@[e as int] == pi);
                                        }
                                    }
                                    if e >= lastpos {
                                        // pid itself sat in the last slot
                                        assert(e == lastpos);
                                        assert(j != e) by {
                                            if j == e {
                                                assert(g0.cells@[ce]@[e as int] == q);
                                                assert(g0.entries.view()[pi][cii] == e);
                                                assert(g0.cell_keep(pi, cii, yi, xi, e as int));
                                                assert(g0.cell_slot_ok(yi, xi, e as int));
                                                assert(g0.cells@[ce]@[e as int] == pi);
                                            }
                                        }
                                    }
                                    assert(self.cells@[ce]@[j as int] == g0.cells@[ce]@[j as int]);
                                }
                            } else {
                                assert(self.cells@[cc]@ == g0.cells@[cc]@);
                            }
                        }
                    }
                }
                // rows of inadmissible placements are untouched
                assert forall|q: int|
                    0 <= q < n && q != pi && !(#[trigger] self.admissible(q)) implies self.removed_ok(
                    q,
                ) by {
                    assert(!g0.admissible(q));
                    assert(g0.removed_ok(q));
                    assert(q != moved || !(e < lastpos)) by {
                        if q == moved && e < lastpos {
                            assert(g0.cell_slot_ok(yi, xi, lastpos as int));
                            assert(g0.admissible(moved)) by {
                                assert(g0.entries.view()[moved][mcov] == lastpos);
                                assert(g0.entry_ok(moved) || g0.removed_ok(moved));
                                if !g0.admissible(moved) {
                                    assert(g0.entries.view()[moved][mcov] == REMOVED);
                                }
                            }
                        }
                    }
                    assert(self.entries.view()[q] == g0.entries.view()[q]);
                    assert forall|c2: int|
                        0 <= c2 < self.places@[q].wlen() implies #[trigger] self.entries.view()[q][c2]
                        == REMOVED by {
                        assert(g0.entries.view()[q][c2] == REMOVED);
                    }
                }
            }
            ci = ci + 1;
        }
        proof {
            let pi = pid as int;
            assert(self.entries.view()[pi][0] == REMOVED) by {
                assert(self.row_cleared_upto(pi, len as int));
            }
            assert(!self.admissible(pi));
            assert(self.removed_ok(pi)) by {
                assert(self.row_cleared_upto(pi, len as int));
                assert forall|c2: int|
                    0 <= c2 < self.places@[pi].wlen() implies #[trigger] self.entries.view()[pi][c2]
                    == REMOVED by {}
            }
            assert(self.cells_ok()) by {
                assert forall|y: int, x: int, j: int|
                    0 <= y < self.h && 0 <= x < self.w && 0 <= j < self.cells@[y * self.w
                        + x]@.len() implies #[trigger] self.cell_slot_ok(y, x, j) by {
                    assert(self.cells_keep_from(pi, len as int));
                    assert(self.cell_keep(pi, len as int, y, x, j));
                }
            }
            assert forall|q: int|
                0 <= q < self.places@.len() && (#[trigger] self.admissible(q)) implies self.entry_ok(
                q,
            ) by {
                assert(q != pi);
            }
            assert forall|q: int|
                0 <= q < self.places@.len() && !(#[trigger] self.admissible(q)) implies self.removed_ok(
                q,
            ) by {}
            assert forall|q: int| #[trigger]
                self.admissible(q) == (old(self).admissible(q) && q != pi) by {
                if 0 <= q < n && q != pi {
                    assert((self.entries.view()[q][0] == REMOVED) == (old(self).entries.view()[q][0]
                        == REMOVED));
                }
            }
        }
    }
}


/// Which local filter is applied at a scanned cell.
#[derive(Clone, Copy, PartialEq, Eq, Structural)]
pub enum FilterKind {
    /// A cell of the committed placement itself.
    Own,
    /// The flanking strip one line before the placement.
    FlankAbove,
    /// The flanking strip one line after the placement.
    FlankBelow,
    /// A run-end cap: everything there is incompatible.
    Cap,
}

/// The filter predicate of each kind, against placement `p` at cell (y, x).
pub open spec fn kind_pred(kind: FilterKind, p: Placement, q: Placement, y: int, x: int) -> bool {
    match kind {
        FilterKind::Own => crate::placement::own_pred(p, q, y, x),
        FilterKind::FlankAbove => crate::placement::above_pred(p, q),
        FilterKind::FlankBelow => crate::placement::below_pred(p, q),
        FilterKind::Cap => true,
    }
}

/// Evaluate a filter predicate against the scalar facts of the committed
/// placement `p` (its orientation, anchor and, at its own cells, its letter).
fn eval_pred(
    kind: FilterKind,
    p_or: crate::common::Orientation,
    p_y: usize,
    p_x: usize,
    p_letter: u8,
    Ghost(p): Ghost<Placement>,
    q: &Placement,
    y: usize,
    x: usize,
) -> (r: bool)
    requires
        p.wf(),
        p.orientation == p_or,
        p.y == p_y,
        p.x == p_x,
        q.wf(),
        q.spec_covers(y as int, x as int),
        kind == FilterKind::Own ==> p.spec_covers(y as int, x as int) && p.letter_at(
            y as int,
            x as int,
        ) == p_letter,
    ensures
        r == kind_pred(kind, p, *q, y as int, x as int),
{
    match kind {
        FilterKind::Own => {
            if q.orientation == p_or {
                true
            } else {
                proof {
                    q.lemma_covers_pos(y as int, x as int);
                }
                let qi = match q.orientation {
                    crate::common::Orientation::HOR => x - q.x,
                    crate::common::Orientation::VER => y - q.y,
                };
                q.word.letters[qi] != p_letter
            }
        },
        FilterKind::FlankAbove => {
            if q.orientation == p_or {
                true
            } else {
                match p_or {
                    crate::common::Orientation::HOR => q.y + q.word.len() == p_y,
                    crate::common::Orientation::VER => q.x + q.word.len() == p_x,
                }
            }
        },
        FilterKind::FlankBelow => {
            if q.orientation == p_or {
                true
            } else {
                match p_or {
                    crate::common::Orientation::HOR => p_y < usize::MAX && q.y == p_y + 1,
                    crate::common::Orientation::VER => p_x < usize::MAX && q.x == p_x + 1,
                }
            }
        },
        FilterKind::Cap => true,
    }
}

impl VariantGrid {
    /// An admissible placement stands in the list of every cell it covers,
    /// and cell lists hold only admissible placements covering the cell.
    pub proof fn lemma_cell_members(&self, y: int, x: int, q: int)
        requires
            self.wf(),
            0 <= y < self.spec_h(),
            0 <= x < self.spec_w(),
            0 <= q < self.spec_places().len(),
        ensures
            (self.admissible(q) && self.spec_places()[q].spec_covers(y, x))
                <==> self.cell_view(y, x).contains(q as usize),
    {
        let c = y * self.w + x;
        lemma_cell_index(y, x, self.h as int, self.w as int);
        if self.admissible(q) && self.places@[q].spec_covers(y, x) {
            assert(self.entry_ok(q));
            self.places@[q].lemma_covers_pos(y, x);
            let ci = self.places@[q].cover_index(y, x);
            assert(self.slot_ok(q, ci));
            assert(self.cell_of(q, ci) == c);
            let e = self.entries.view()[q][ci];
            assert(self.cells@[c]@[e as int] == q);
            assert(self.cell_view(y, x).contains(q as usize));
        }
        if self.cell_view(y, x).contains(q as usize) {
            let j = choose|j: int|
                0 <= j < self.cells@[c]@.len() && self.cells@[c]@[j] == q as usize;
            assert(self.cell_slot_ok(y, x, j));
            assert(self.places@[q].spec_covers(y, x));
            let ci = self.places@[q].cover_index(y, x);
            assert(self.entries.view()[q][ci] == j);
            vstd::std_specs::vec::axiom_spec_len(&self.cells@[c]);
            assert(self.entries.view()[q][ci] != REMOVED);
            if !self.admissible(q) {
                assert(self.removed_ok(q));
                self.places@[q].lemma_covers_pos(y, x);
                assert(self.entries.view()[q][ci] == REMOVED);
            }
        }
    }

    /// Remove from the list of cell (cy, cx) every placement that the given
    /// filter catches, appending their ids to `removed`.
    fn filter_cell(
        &mut self,
        cy: usize,
        cx: usize,
        kind: FilterKind,
        p_or: crate::common::Orientation,
        p_y: usize,
        p_x: usize,
        p_letter: u8,
        Ghost(p): Ghost<Placement>,
        removed: &mut Vec<PlacementId>,
    )
        requires
            old(self).wf(),
            cy < old(self).spec_h(),
            cx < old(self).spec_w(),
            p.wf(),
            p.orientation == p_or,
            p.y == p_y,
            p.x == p_x,
            kind == FilterKind::Own ==> p.spec_covers(cy as int, cx as int) && p.letter_at(
                cy as int,
                cx as int,
            ) == p_letter,
        ensures
            final(self).wf(),
            final(self).spec_places() == old(self).spec_places(),
            final(self).spec_h() == old(self).spec_h(),
            final(self).spec_w() == old(self).spec_w(),
            forall|q: int|
                #[trigger] final(self).admissible(q) == (old(self).admissible(q) && !(old(self).spec_places()[q].spec_covers(cy as int, cx as int) && kind_pred(
                    kind,
                    p,
                    old(self).spec_places()[q],
                    cy as int,
                    cx as int,
                ))),
            final(removed)@.len() >= old(removed)@.len(),
            forall|k: int| 0 <= k < old(removed)@.len() ==> final(removed)@[k] == old(removed)@[k],
            forall|k: int|
                old(removed)@.len() <= k < final(removed)@.len() ==> {
                    let q = (#[trigger] final(removed)@[k]).0 as int;
                    &&& 0 <= q < old(self).spec_places().len()
                    &&& old(self).admissible(q)
                    &&& !final(self).admissible(q)
                    &&& old(self).spec_places()[q].spec_covers(cy as int, cx as int)
                    &&& kind_pred(kind, p, old(self).spec_places()[q], cy as int, cx as int)
                },
            forall|q: int|
                old(self).admissible(q) && !final(self).admissible(q) ==> exists|k: int|
                    old(removed)@.len() <= k < final(removed)@.len() && (#[trigger] final(removed)@[k]).0 as int == q,
            forall|k1: int, k2: int|
                old(removed)@.len() <= k1 < k2 < final(removed)@.len() ==> (#[trigger] final(removed)@[k1]).0 != (#[trigger] final(removed)@[k2]).0,
    {
        let ghost n = self.places@.len() as int;
        let snapshot = copy_row(self.iter_at(cy, cx));
        let mut caught: Vec<usize> = Vec::new();
        let mut k: usize = 0;
        proof {
            lemma_cell_index(cy as int, cx as int, self.h as int, self.w as int);
            // the snapshot lists each admissible covering placement exactly once
            assert forall|a: int, b: int| 0 <= a < b < snapshot@.len() implies snapshot@[a]
                != snapshot@[b] by {
                assert(self.cell_slot_ok(cy as int, cx as int, a));
                assert(self.cell_slot_ok(cy as int, cx as int, b));
            }
            assert forall|a: int| 0 <= a < snapshot@.len() implies (#[trigger] snapshot@[a])
                < self.places@.len() by {
                assert(self.cell_slot_ok(cy as int, cx as int, a));
            }
        }
        while k < snapshot.len()
            invariant
                k <= snapshot@.len(),
                self.wf(),
                *self == *old(self),
                snapshot@ == self.cell_view(cy as int, cx as int),
                cy < self.spec_h(),
                cx < self.spec_w(),
                p.wf(),
                kind == FilterKind::Own ==> p.spec_covers(cy as int, cx as int) && p.letter_at(
                    cy as int,
                    cx as int,
                ) == p_letter,
                p.orientation == p_or,
                p.y == p_y,
                p.x == p_x,
                forall|a: int, b: int|
                    0 <= a < b < snapshot@.len() ==> (#[trigger] snapshot@[a]) != (
                    #[trigger] snapshot@[b]),
                forall|a: int|
                    0 <= a < snapshot@.len() ==> (#[trigger] snapshot@[a]) < self.places@.len(),
                forall|a: int|
                    0 <= a < caught@.len() ==> exists|j: int|
                        0 <= j < k && snapshot@[j] == (#[trigger] caught@[a]),
                forall|a: int|
                    0 <= a < caught@.len() ==> {
                        let q = (#[trigger] caught@[a]) as int;
                        &&& 0 <= q < self.places@.len()
                        &&& self.admissible(q)
                        &&& self.spec_places()[q].spec_covers(cy as int, cx as int)
                        &&& kind_pred(kind, p, self.spec_places()[q], cy as int, cx as int)
                    },
                forall|a: int, b: int|
                    0 <= a < b < caught@.len() ==> (#[trigger] caught@[a])
                        != (#[trigger] caught@[b]),
                forall|j: int|
                    0 <= j < k && kind_pred(
                        kind,
                        p,
                        self.spec_places()[snapshot@[j] as int],
                        cy as int,
                        cx as int,
                    ) ==> caught@.contains(#[trigger] snapshot@[j]),
            decreases snapshot@.len() - k,
        {
            let qid = snapshot[k];
            proof {
                assert(self.cell_slot_ok(cy as int, cx as int, k as int));
                assert(self.places@[qid as int].wf()) by {
                    assert(places_ok(self.places@, self.h as int, self.w as int));
                }
                self.lemma_cell_members(cy as int, cx as int, qid as int);
                assert(self.cell_view(cy as int, cx as int).contains(qid));
                assert(self.admissible(qid as int) && self.spec_places()[qid as int].spec_covers(
                    cy as int,
                    cx as int,
                ));
            }
            let ghost caught0 = caught@;
            let hit = eval_pred(kind, p_or, p_y, p_x, p_letter, Ghost(p), &self.places[qid], cy, cx);
            if hit {
                proof {
                    assert forall|a: int, b: int|
                        0 <= a < b < caught@.len() + 1 implies (#[trigger] caught@.push(qid)[a])
                        != (#[trigger] caught@.push(qid)[b]) by {
                        if b == caught@.len() {
                            if caught@[a] == qid {
                                let j = choose|j: int|
                                    0 <= j < k && snapshot@[j] == (#[trigger] caught@[a]);
                                assert(snapshot@[j] == snapshot@[k as int]);
                            }
                        }
                    }
                }
                caught.push(qid);
            }
            proof {
                assert forall|j: int|
                    0 <= j < k + 1 && kind_pred(
                        kind,
                        p,
                        self.spec_places()[snapshot@[j] as int],
                        cy as int,
                        cx as int,
                    ) implies caught@.contains(#[trigger] snapshot@[j]) by {
                    if j < k {
                        assert(caught0.contains(snapshot@[j]));
                        let a = choose|a: int|
                            0 <= a < caught0.len() && (#[trigger] caught0[a]) == snapshot@[j];
                        assert(caught@[a] == snapshot@[j]);
                    } else {
                        assert(hit);
                        assert(caught@[caught@.len() - 1] == qid);
                    }
                }
            }
            k = k + 1;
        }
        proof {
            assert forall|q: int|
                old(self).admissible(q) && old(self).spec_places()[q].spec_covers(
                    cy as int,
                    cx as int,
                ) && kind_pred(
                    kind,
                    p,
                    old(self).spec_places()[q],
                    cy as int,
                    cx as int,
                ) implies caught@.contains(q as usize) by {
                self.lemma_cell_members(cy as int, cx as int, q);
                assert(snapshot@.contains(q as usize));
                let j = choose|j: int| 0 <= j < snapshot@.len() && snapshot@[j] == q as usize;
                assert(snapshot@[j] as int == q);
                assert(kind_pred(
                    kind,
                    p,
                    self.spec_places()[snapshot@[j] as int],
                    cy as int,
                    cx as int,
                ));
                assert(caught@.contains(snapshot@[j]));
            }
        }
        let m = caught.len();
        let mut r: usize = 0;
        while r < m
            invariant
                r <= m,
                m == caught@.len(),
                self.dims_ok(),
                self.wf(),
                self.spec_places() == old(self).spec_places(),
                self.spec_h() == old(self).spec_h(),
                self.spec_w() == old(self).spec_w(),
                cy < self.spec_h(),
                cx < self.spec_w(),
                forall|a: int, b: int|
                    0 <= a < b < caught@.len() ==> (#[trigger] caught@[a]) != (
                    #[trigger] caught@[b]),
                forall|a: int|
                    0 <= a < caught@.len() ==> {
                        let q = (#[trigger] caught@[a]) as int;
                        &&& 0 <= q < old(self).spec_places().len()
                        &&& old(self).admissible(q)
                        &&& old(self).spec_places()[q].spec_covers(cy as int, cx as int)
                        &&& kind_pred(kind, p, old(self).spec_places()[q], cy as int, cx as int)
                    },
                forall|q: int|
                    #[trigger] self.admissible(q) == (old(self).admissible(q) && !caught@.take(
                        r as int,
                    ).contains(q as usize)),
                forall|q: int|
                    old(self).admissible(q) && old(self).spec_places()[q].spec_covers(
                        cy as int,
                        cx as int,
                    ) && kind_pred(kind, p, old(self).spec_places()[q], cy as int, cx as int)
                        ==> caught@.contains(q as usize),
                old(self).wf(),
                removed@.len() == old(removed)@.len() + r,
                forall|k2: int|
                    0 <= k2 < old(removed)@.len() ==> (#[trigger] removed@[k2]) == old(removed)@[k2],
                forall|k2: int|
                    old(removed)@.len() <= k2 < removed@.len() ==> (#[trigger] removed@[k2]).0
                        == caught@[k2 - old(removed)@.len()],
            decreases m - r,
        {
            let qid = caught[r];
            proof {
                assert(!caught@.take(r as int).contains(qid)) by {
                    if caught@.take(r as int).contains(qid) {
                        let a = choose|a: int|
                            0 <= a < r && (#[trigger] caught@.take(r as int)[a]) == qid;
                        assert(caught@[a] == caught@[r as int]);
                    }
                }
                assert(self.admissible(qid as int));
            }
            self.remove(PlacementId(qid));
            removed.push(PlacementId(qid));
            proof {
                assert forall|q: int| #[trigger]
                    self.admissible(q) == (old(self).admissible(q) && !caught@.take(
                        r + 1,
                    ).contains(q as usize)) by {
                    assert(caught@.take(r + 1).drop_last() =~= caught@.take(r as int));
                    if caught@.take(r + 1).contains(q as usize) {
                        let a = choose|a: int|
                            0 <= a < r + 1 && (#[trigger] caught@.take(r + 1)[a]) == q as usize;
                        if a < r {
                            assert(caught@.take(r as int)[a] == q as usize);
                        }
                    } else {
                        assert(!caught@.take(r as int).contains(q as usize)) by {
                            if caught@.take(r as int).contains(q as usize) {
                                let a = choose|a: int|
                                    0 <= a < r && (#[trigger] caught@.take(r as int)[a]) == q
                                        as usize;
                                assert(caught@.take(r + 1)[a] == q as usize);
                            }
                        }
                        assert(q != qid as int) by {
                            if q == qid as int {
                                assert(caught@.take(r + 1)[r as int] == q as usize);
                            }
                        }
                    }
                }
            }
            r = r + 1;
        }
        proof {
            assert(caught@.take(m as int) =~= caught@);
            assert forall|q: int| #[trigger]
                final(self).admissible(q) == (old(self).admissible(q) && !(old(self).spec_places()[q].spec_covers(cy as int, cx as int) && kind_pred(
                    kind,
                    p,
                    old(self).spec_places()[q],
                    cy as int,
                    cx as int,
                ))) by {
                if old(self).admissible(q) {
                    if caught@.contains(q as usize) {
                        let a = choose|a: int|
                            0 <= a < caught@.len() && (#[trigger] caught@[a]) == q as usize;
                        assert(old(self).spec_places()[q].spec_covers(cy as int, cx as int));
                    } else {
                        if old(self).spec_places()[q].spec_covers(cy as int, cx as int)
                            && kind_pred(
                            kind,
                            p,
                            old(self).spec_places()[q],
                            cy as int,
                            cx as int,
                        ) {
                            assert(caught@.contains(q as usize));
                        }
                    }
                }
            }
            assert forall|q: int|
                old(self).admissible(q) && !final(self).admissible(q) implies exists|k2: int|
                old(removed)@.len() <= k2 < final(removed)@.len() && (#[trigger] final(removed)@[k2]).0 as int == q by {
                assert(caught@.contains(q as usize));
                let a = choose|a: int|
                    0 <= a < caught@.len() && (#[trigger] caught@[a]) == q as usize;
                assert(final(removed)@[a + old(removed)@.len()].0 as int == q);
            }
        }
    }
}


impl VariantGrid {
    /// No admissible placement is caught by the own-cell or flanking filters
    /// of `p` at any letter index below `ci`.
    pub closed spec fn scan_clear(self, p: Placement, ci: int) -> bool {
        forall|q: int, i: int|
            0 <= q < self.places@.len() && self.admissible(q) && 0 <= i < ci
                ==> #[trigger] crate::placement::own_clear(p, self.places@[q], i)
                && crate::placement::above_clear(p, self.places@[q], i)
                && crate::placement::below_clear(p, self.places@[q], i)
    }

    /// Every id listed in `removed` names a placement that was admissible in
    /// `old0`, is no longer admissible, and is incompatible with the committed
    /// placement `p` (or is the committed placement itself).
    pub open spec fn rm_sound(
        self,
        old0: VariantGrid,
        p: Placement,
        pid: int,
        removed: Seq<PlacementId>,
    ) -> bool {
        forall|k: int|
            0 <= k < removed.len() ==> {
                let q = (#[trigger] removed[k]).0 as int;
                &&& 0 <= q < old0.spec_places().len()
                &&& old0.admissible(q)
                &&& !self.admissible(q)
                &&& (q == pid || !crate::placement::spec_compatible(p, old0.spec_places()[q]))
            }
    }

    /// Everything that lost admissibility since `old0` is listed in `removed`.
    pub open spec fn rm_complete(
        self,
        old0: VariantGrid,
        removed: Seq<PlacementId>,
    ) -> bool {
        forall|q: int|
            old0.admissible(q) && !self.admissible(q) ==> exists|k: int|
                0 <= k < removed.len() && (#[trigger] removed[k]).0 as int == q
    }

    /// Admissible ids lie inside the placement table.
    pub proof fn lemma_admissible_bounds(&self)
        ensures
            forall|q: int| #[trigger] self.admissible(q) ==> 0 <= q < self.spec_places().len(),
    {
    }

    /// Remove every placement that the committed placement `place_id` makes
    /// inadmissible: all placements caught by the local filters at its cells,
    /// its two flanking strips and its two run-end caps. Afterwards every
    /// still-admissible placement is compatible with it, or belongs to the
    /// same word: other placements of the committed word are incompatible
    /// wherever they stand, including far from any scanned cell, so no
    /// cell-local filter can reach them all; the rollout sweeps them out by
    /// word id before calling here.
    pub fn remove_incompat(&mut self, place_id: PlacementId) -> (removed: Vec<PlacementId>)
        requires
            old(self).wf(),
            place_id.0 < old(self).spec_places().len(),
        ensures
            final(self).wf(),
            final(self).spec_places() == old(self).spec_places(),
            final(self).spec_h() == old(self).spec_h(),
            final(self).spec_w() == old(self).spec_w(),
            forall|q: int| #[trigger] final(self).admissible(q) ==> old(self).admissible(q),
            forall|q: int|
                #[trigger] final(self).admissible(q)
                    ==> crate::placement::spec_compatible(
                    old(self).spec_places()[place_id.0 as int],
                    old(self).spec_places()[q],
                ) || old(self).spec_places()[q].word.id == old(self).spec_places()[place_id.0
                    as int].word.id,
            final(self).rm_sound(
                *old(self),
                old(self).spec_places()[place_id.0 as int],
                place_id.0 as int,
                removed@,
            ),
            final(self).rm_complete(*old(self), removed@),
            forall|k1: int, k2: int|
                0 <= k1 < k2 < removed@.len() ==> (#[trigger] removed@[k1]).0 != (
                #[trigger] removed@[k2]).0,
    {
        let pid = place_id.0;
        let h = self.h;
        let w = self.w;
        let ghost p = self.places@[pid as int];
        let ghost n = self.places@.len() as int;
        let len = self.places[pid].word.len();
        let p_or = self.places[pid].orientation;
        let p_y = self.places[pid].y;
        let p_x = self.places[pid].x;
        let mut removed: Vec<PlacementId> = Vec::new();
        proof {
            assert(p.wf() && p.fits(h as int, w as int)) by {
                assert(places_ok(self.places@, h as int, w as int));
            }
        }
        let mut ci: usize = 0;
        while ci < len
            invariant
                ci <= len,
                0 <= (pid as int) < n,
                n == self.places@.len(),
                self.places@ == old(self).places@,
                self.h == h,
                self.w == w,
                self.wf(),
                old(self).wf(),
                old(self).h == h,
                old(self).w == w,
                p == self.places@[pid as int],
                p.wf(),
                p.fits(h as int, w as int),
                p.orientation == p_or,
                p.y == p_y,
                p.x == p_x,
                len == p.wlen(),
                forall|q: int| #[trigger] self.admissible(q) ==> old(self).admissible(q),
                self.scan_clear(p, ci as int),
                self.rm_sound(*old(self), p, pid as int, removed@),
                self.rm_complete(*old(self), removed@),
                forall|k1: int, k2: int|
                    0 <= k1 < k2 < removed@.len() ==> (#[trigger] removed@[k1]).0 != (
                    #[trigger] removed@[k2]).0,
            decreases len - ci,
        {
            let (y, x) = self.places[pid].pos_at(ci);
            let p_letter = self.places[pid].word.letters[ci];
            proof {
                p.lemma_pos_covers(ci as int);
                assert(y < h && x < w) by {
                    assert(p.fits(h as int, w as int));
                }
            }
            let ghost s_start = *self;
            let ghost rm_start = removed@;
            self.filter_cell(y, x, FilterKind::Own, p_or, p_y, p_x, p_letter, Ghost(p), &mut removed);
            proof {
                lemma_filter_step(
                    *old(self),
                    s_start,
                    *self,
                    p,
                    pid as int,
                    rm_start,
                    removed@,
                    y as int,
                    x as int,
                    FilterKind::Own,
                    ci as int,
                );
            }
            let ghost s_own = *self;
            let ghost rm_own = removed@;
            match p_or {
                crate::common::Orientation::HOR => {
                    if y > 0 {
                        self.filter_cell(
                            y - 1,
                            x,
                            FilterKind::FlankAbove,
                            p_or,
                            p_y,
                            p_x,
                            p_letter,
                            Ghost(p),
                            &mut removed,
                        );
                    }
                },
                crate::common::Orientation::VER => {
                    if x > 0 {
                        self.filter_cell(
                            y,
                            x - 1,
                            FilterKind::FlankAbove,
                            p_or,
                            p_y,
                            p_x,
                            p_letter,
                            Ghost(p),
                            &mut removed,
                        );
                    }
                },
            }
            proof {
                lemma_filter_step(
                    *old(self),
                    s_own,
                    *self,
                    p,
                    pid as int,
                    rm_own,
                    removed@,
                    crate::placement::flank_above_y(p, ci as int),
                    crate::placement::flank_above_x(p, ci as int),
                    FilterKind::FlankAbove,
                    ci as int,
                );
            }
            let ghost s_ab = *self;
            let ghost rm_ab = removed@;
            match p_or {
                crate::common::Orientation::HOR => {
                    if y + 1 < h {
                        self.filter_cell(
                            y + 1,
                            x,
                            FilterKind::FlankBelow,
                            p_or,
                            p_y,
                            p_x,
                            p_letter,
                            Ghost(p),
                            &mut removed,
                        );
                    }
                },
                crate::common::Orientation::VER => {
                    if x + 1 < w {
                        self.filter_cell(
                            y,
                            x + 1,
                            FilterKind::FlankBelow,
                            p_or,
                            p_y,
                            p_x,
                            p_letter,
                            Ghost(p),
                            &mut removed,
                        );
                    }
                },
            }
            proof {
                lemma_filter_step(
                    *old(self),
                    s_ab,
                    *self,
                    p,
                    pid as int,
                    rm_ab,
                    removed@,
                    crate::placement::flank_below_y(p, ci as int),
                    crate::placement::flank_below_x(p, ci as int),
                    FilterKind::FlankBelow,
                    ci as int,
                );
                // every filter this round leaves the scanned prefix clear
                assert(self.scan_clear(p, ci + 1)) by {
                    assert forall|q: int, i: int|
                        0 <= q < self.places@.len() && self.admissible(q) && 0 <= i < ci
                            + 1 implies #[trigger] crate::placement::own_clear(p, self.places@[q], i)
                        && crate::placement::above_clear(p, self.places@[q], i)
                        && crate::placement::below_clear(p, self.places@[q], i) by {
                        assert(s_start.admissible(q) && s_own.admissible(q) && s_ab.admissible(q));
                        if i < ci {
                            assert(s_start.scan_clear(p, ci as int));
                        } else {
                            let qq = self.places@[q];
                            assert(!(qq.spec_covers(y as int, x as int) && kind_pred(
                                FilterKind::Own,
                                p,
                                qq,
                                y as int,
                                x as int,
                            )));
                            assert(crate::placement::own_clear(p, qq, i)) by {
                                assert(p.pos_y(i) == y as int && p.pos_x(i) == x as int);
                            }
                            assert(crate::placement::above_clear(p, qq, i)) by {
                                let fy = crate::placement::flank_above_y(p, i);
                                let fx = crate::placement::flank_above_x(p, i);
                                if qq.spec_covers(fy, fx) {
                                    assert(fy >= 0 && fx >= 0);
                                }
                            }
                            assert(crate::placement::below_clear(p, qq, i)) by {
                                let fy = crate::placement::flank_below_y(p, i);
                                let fx = crate::placement::flank_below_x(p, i);
                                if qq.spec_covers(fy, fx) {
                                    assert(qq.fits(h as int, w as int)) by {
                                        assert(places_ok(self.places@, h as int, w as int));
                                    }
                                }
                            }
                        }
                    }
                }
            }
            ci = ci + 1;
        }
        // the two run-end caps
        let ghost s_caps = *self;
        let ghost rm_caps = removed@;
        match p_or {
            crate::common::Orientation::HOR => {
                if p_x > 0 {
                    self.filter_cell(
                        p_y,
                        p_x - 1,
                        FilterKind::Cap,
                        p_or,
                        p_y,
                        p_x,
                        0,
                        Ghost(p),
                        &mut removed,
                    );
                }
            },
            crate::common::Orientation::VER => {
                if p_y > 0 {
                    self.filter_cell(
                        p_y - 1,
                        p_x,
                        FilterKind::Cap,
                        p_or,
                        p_y,
                        p_x,
                        0,
                        Ghost(p),
                        &mut removed,
                    );
                }
            },
        }
        proof {
            lemma_filter_step(
                *old(self),
                s_caps,
                *self,
                p,
                pid as int,
                rm_caps,
                removed@,
                crate::placement::cap_before_y(p),
                crate::placement::cap_before_x(p),
                FilterKind::Cap,
                0,
            );
        }
        let ghost s_cap1 = *self;
        let ghost rm_cap1 = removed@;
        match p_or {
            crate::common::Orientation::HOR => {
                if p_x + len < w {
                    self.filter_cell(
                        p_y,
                        p_x + len,
                        FilterKind::Cap,
                        p_or,
                        p_y,
                        p_x,
                        0,
                        Ghost(p),
                        &mut removed,
                    );
                }
            },
            crate::common::Orientation::VER => {
                if p_y + len < h {
                    self.filter_cell(
                        p_y + len,
                        p_x,
                        FilterKind::Cap,
                        p_or,
                        p_y,
                        p_x,
                        0,
                        Ghost(p),
                        &mut removed,
                    );
                }
            },
        }
        proof {
            lemma_filter_step(
                *old(self),
                s_cap1,
                *self,
                p,
                pid as int,
                rm_cap1,
                removed@,
                crate::placement::cap_after_y(p),
                crate::placement::cap_after_x(p),
                FilterKind::Cap,
                0,
            );
            // completeness: whatever is still admissible escaped every filter,
            // so it is compatible or of the same word
            assert forall|q: int|
                #[trigger] self.admissible(q) implies crate::placement::spec_compatible(
                old(self).spec_places()[pid as int],
                old(self).spec_places()[q],
            ) || old(self).spec_places()[q].word.id == old(self).spec_places()[pid
                as int].word.id by {
                let qq = self.places@[q];
                if qq.word.id != p.word.id {
                    assert(qq.wf() && qq.fits(h as int, w as int)) by {
                        assert(places_ok(self.places@, h as int, w as int));
                    }
                    assert(s_caps.admissible(q) && s_cap1.admissible(q));
                    assert(s_caps.scan_clear(p, len as int));
                    assert forall|i: int| 0 <= i < p.wlen() implies #[trigger]
                        crate::placement::own_clear(p, qq, i) by {
                        assert(crate::placement::own_clear(p, s_caps.places@[q], i));
                    }
                    assert forall|i: int| 0 <= i < p.wlen() implies #[trigger]
                        crate::placement::above_clear(p, qq, i) by {
                        assert(crate::placement::own_clear(p, s_caps.places@[q], i));
                        assert(crate::placement::above_clear(p, s_caps.places@[q], i));
                    }
                    assert forall|i: int| 0 <= i < p.wlen() implies #[trigger]
                        crate::placement::below_clear(p, qq, i) by {
                        assert(crate::placement::own_clear(p, s_caps.places@[q], i));
                        assert(crate::placement::below_clear(p, s_caps.places@[q], i));
                    }
                    // the caps are clear: filtered when on the board, otherwise
                    // no placement reaches them
                    assert(!qq.spec_covers(
                        crate::placement::cap_before_y(p),
                        crate::placement::cap_before_x(p),
                    )) by {
                        let cy = crate::placement::cap_before_y(p);
                        let cx = crate::placement::cap_before_x(p);
                        if qq.spec_covers(cy, cx) {
                            assert(cy >= 0 && cx >= 0);
                            assert(!(s_caps.spec_places()[q].spec_covers(cy, cx) && kind_pred(
                                FilterKind::Cap,
                                p,
                                s_caps.spec_places()[q],
                                cy,
                                cx,
                            )));
                        }
                    }
                    assert(!qq.spec_covers(
                        crate::placement::cap_after_y(p),
                        crate::placement::cap_after_x(p),
                    )) by {
                        let cy = crate::placement::cap_after_y(p);
                        let cx = crate::placement::cap_after_x(p);
                        if qq.spec_covers(cy, cx) {
                            assert(qq.fits(h as int, w as int));
                            assert(cy < h && cx < w);
                            assert(!(s_cap1.spec_places()[q].spec_covers(cy, cx) && kind_pred(
                                FilterKind::Cap,
                                p,
                                s_cap1.spec_places()[q],
                                cy,
                                cx,
                            )));
                        }
                    }
                    crate::placement::lemma_unscanned_compatible(p, qq);
                }
            }
        }
        removed
    }
}

/// One filter pass only removes, keeps the removal bookkeeping exact, and
/// justifies every id it appends.
proof fn lemma_filter_step(
    old0: VariantGrid,
    s1: VariantGrid,
    s2: VariantGrid,
    p: Placement,
    pid: int,
    rm1: Seq<PlacementId>,
    rm2: Seq<PlacementId>,
    cy: int,
    cx: int,
    kind: FilterKind,
    ci: int,
)
    requires
        old0.wf(),
        s1.wf(),
        p.wf(),
        0 <= pid < old0.places@.len(),
        p == old0.places@[pid],
        s1.places@ == old0.places@,
        s2.places@ == old0.places@,
        forall|q: int| #[trigger] s1.admissible(q) ==> old0.admissible(q),
        s1.rm_sound(old0, p, pid, rm1),
        s1.rm_complete(old0, rm1),
        forall|k1: int, k2: int|
            0 <= k1 < k2 < rm1.len() ==> (#[trigger] rm1[k1]).0 != (#[trigger] rm1[k2]).0,
        // either nothing happened, or one filter ran at (cy, cx)
        (s2 == s1 && rm2 == rm1) || {
            &&& rm2.len() >= rm1.len()
            &&& (forall|k: int| 0 <= k < rm1.len() ==> #[trigger] rm2[k] == rm1[k])
            &&& (forall|q: int|
                #[trigger] s2.admissible(q) == (s1.admissible(q) && !(s1.spec_places()[q].spec_covers(
                    cy,
                    cx,
                ) && kind_pred(kind, p, s1.spec_places()[q], cy, cx))))
            &&& (forall|k: int|
                rm1.len() <= k < rm2.len() ==> {
                    let q = (#[trigger] rm2[k]).0 as int;
                    &&& 0 <= q < s1.spec_places().len()
                    &&& s1.admissible(q)
                    &&& !s2.admissible(q)
                    &&& s1.spec_places()[q].spec_covers(cy, cx)
                    &&& kind_pred(kind, p, s1.spec_places()[q], cy, cx)
                })
            &&& (forall|q: int|
                s1.admissible(q) && !s2.admissible(q) ==> exists|k: int|
                    rm1.len() <= k < rm2.len() && (#[trigger] rm2[k]).0 as int == q)
            &&& (forall|k1: int, k2: int|
                rm1.len() <= k1 < k2 < rm2.len() ==> (#[trigger] rm2[k1]).0 != (
                #[trigger] rm2[k2]).0)
        },
        // the scanned cell matches the filter kind
        kind == FilterKind::Own ==> 0 <= ci < p.wlen() && cy == p.pos_y(ci) && cx == p.pos_x(ci),
        kind == FilterKind::FlankAbove ==> 0 <= ci < p.wlen() && cy
            == crate::placement::flank_above_y(p, ci) && cx == crate::placement::flank_above_x(
            p,
            ci,
        ),
        kind == FilterKind::FlankBelow ==> 0 <= ci < p.wlen() && cy
            == crate::placement::flank_below_y(p, ci) && cx == crate::placement::flank_below_x(
            p,
            ci,
        ),
        kind == FilterKind::Cap ==> (cy == crate::placement::cap_before_y(p) && cx
            == crate::placement::cap_before_x(p)) || (cy == crate::placement::cap_after_y(p) && cx
            == crate::placement::cap_after_x(p)),
    ensures
        forall|q: int| #[trigger] s2.admissible(q) ==> old0.admissible(q),
        s2.rm_sound(old0, p, pid, rm2),
        s2.rm_complete(old0, rm2),
        forall|k1: int, k2: int|
            0 <= k1 < k2 < rm2.len() ==> (#[trigger] rm2[k1]).0 != (#[trigger] rm2[k2]).0,
{
    if s2 == s1 && rm2 == rm1 {
    } else {
        assert forall|q: int| #[trigger] s2.admissible(q) implies old0.admissible(q) by {}
        assert forall|k: int| 0 <= k < rm2.len() implies {
            let q = (#[trigger] rm2[k]).0 as int;
            &&& 0 <= q < old0.places@.len()
            &&& old0.admissible(q)
            &&& !s2.admissible(q)
            &&& (q == pid || !crate::placement::spec_compatible(p, old0.places@[q]))
        } by {
            if k < rm1.len() {
                assert(rm2[k] == rm1[k]);
                let q = rm1[k].0 as int;
                assert(!s1.admissible(q));
                assert(!s2.admissible(q));
            } else {
                let q = rm2[k].0 as int;
                let qq = old0.places@[q];
                assert(qq.wf()) by {
                    assert(places_ok(old0.places@, old0.h as int, old0.w as int));
                }
                if q != pid {
                    assert(qq.id != p.id) by {
                        assert(places_ok(old0.places@, old0.h as int, old0.w as int));
                    }
                    match kind {
                        FilterKind::Own => {
                            crate::placement::lemma_own_pred_sound(p, qq, ci);
                        },
                        FilterKind::FlankAbove => {
                            crate::placement::lemma_above_pred_sound(p, qq, ci);
                        },
                        FilterKind::FlankBelow => {
                            crate::placement::lemma_below_pred_sound(p, qq, ci);
                        },
                        FilterKind::Cap => {
                            crate::placement::lemma_cap_sound(p, qq);
                        },
                    }
                }
            }
        }
        assert forall|q: int|
            old0.admissible(q) && !s2.admissible(q) implies exists|k: int|
            0 <= k < rm2.len() && (#[trigger] rm2[k]).0 as int == q by {
            if s1.admissible(q) {
                let k = choose|k: int|
                    rm1.len() <= k < rm2.len() && (#[trigger] rm2[k]).0 as int == q;
                assert(rm2[k].0 as int == q);
            } else {
                let k = choose|k: int| 0 <= k < rm1.len() && (#[trigger] rm1[k]).0 as int == q;
                assert(rm2[k].0 as int == q);
            }
        }
        assert forall|k1: int, k2: int|
            0 <= k1 < k2 < rm2.len() implies (#[trigger] rm2[k1]).0 != (#[trigger] rm2[k2]).0 by {
            if k1 < rm1.len() && k2 >= rm1.len() {
                let q1 = rm1[k1].0 as int;
                assert(!s1.admissible(q1));
                assert(s1.admissible(rm2[k2].0 as int));
            }
        }
    }
}


impl VariantGrid {
    /// The stored placement table.
    pub fn place_at(&self, pid: usize) -> (r: &Placement)
        requires
            pid < self.spec_places().len(),
        ensures
            *r == self.spec_places()[pid as int],
    {
        &self.places[pid]
    }

    pub fn places_len(&self) -> (r: usize)
        ensures
            r == self.spec_places().len(),
    {
        self.places.len()
    }

    pub fn grid_h(&self) -> (r: usize)
        ensures
            r == self.spec_h(),
    {
        self.h
    }

    pub fn grid_w(&self) -> (r: usize)
        ensures
            r == self.spec_w(),
    {
        self.w
    }

    /// Well-formedness facts of the stored placements, for callers.
    pub proof fn lemma_places_wf(&self)
        requires
            self.wf(),
        ensures
            places_ok(self.spec_places(), self.spec_h(), self.spec_w()),
            self.spec_h() <= 0xFFFF,
            self.spec_w() <= 0xFFFF,
    {
    }
}


impl VariantGrid {
    /// Every id listed at a cell lies inside the placement table.
    pub proof fn lemma_cell_elems(&self, y: int, x: int)
        requires
            self.wf(),
            0 <= y < self.spec_h(),
            0 <= x < self.spec_w(),
        ensures
            forall|j: int|
                0 <= j < self.cell_view(y, x).len() ==> (#[trigger] self.cell_view(y, x)[j])
                    < self.spec_places().len(),
    {
        assert forall|j: int|
            0 <= j < self.cell_view(y, x).len() implies (#[trigger] self.cell_view(y, x)[j])
            < self.spec_places().len() by {
            assert(self.cell_slot_ok(y, x, j));
        }
    }
}

} // verus!
