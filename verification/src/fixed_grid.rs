use vstd::prelude::*;
use crate::common::Orientation;
use crate::placement::PlacedSpan;
use crate::rng::AbstractRng;
use crate::variant_grid::{lemma_cell_index, lemma_cell_index_inj};

verus! {

/// Integer score of a committed board: the sum, over every committed
/// placement and each of its cells, of one less than the number of
/// placements on that cell - twice the number of crossing cells.
#[derive(Clone, Copy, Debug, PartialEq, Eq, Structural)]
pub struct Eff(pub i64);

/// A cell of a committed placement whose perpendicular neighbor holds exactly
/// one placement that does not cross it there: an illegal touch to resolve.
#[derive(Clone, Copy, Debug, PartialEq, Eq, Structural)]
pub struct AdjacencyInfo {
    pub y: usize,
    pub x: usize,
    pub or: Orientation,
}

/// A committed placement with its insertion stamp.
#[derive(Clone, Debug)]
pub struct FixedGridMove {
    pub place: PlacedSpan,
    pub moves_idx: usize,
}

/// Records the placements committed during a rollout: each board cell lists
/// the committed placements covering it (at most two, a crossing).
pub struct FixedGrid {
    h: usize,
    w: usize,
    // row-major: cell (y, x) is cells[y * w + x]
    cells: Vec<Vec<usize>>,
    // dense by placement id
    moves: Vec<Option<FixedGridMove>>,
    counter: usize,
}

impl FixedGrid {
    pub closed spec fn spec_h(self) -> int {
        self.h as int
    }

    pub closed spec fn spec_w(self) -> int {
        self.w as int
    }

    pub closed spec fn key_space(self) -> int {
        self.moves@.len() as int
    }

    /// Whether placement id `pid` is committed.
    pub closed spec fn committed(self, pid: int) -> bool {
        &&& 0 <= pid < self.moves@.len()
        &&& self.moves@[pid] is Some
    }

    /// The committed placement stored under `pid`.
    pub closed spec fn place_of(self, pid: int) -> PlacedSpan {
        self.moves@[pid]->0.place
    }

    /// Its insertion stamp.
    pub closed spec fn idx_of(self, pid: int) -> int {
        self.moves@[pid]->0.moves_idx as int
    }

    pub closed spec fn spec_counter(self) -> int {
        self.counter as int
    }

    /// Number of committed placements among ids below `k`.
    pub closed spec fn n_committed(self, k: int) -> nat
        decreases k,
    {
        if k <= 0 {
            0
        } else {
            self.n_committed(k - 1) + (if self.committed(k - 1) {
                1nat
            } else {
                0nat
            })
        }
    }

    /// How many committed placements cover cell (y, x): the cell list length,
    /// zero off the board.
    pub closed spec fn count_at(self, y: int, x: int) -> nat {
        if 0 <= y < self.h && 0 <= x < self.w {
            self.cells@[y * self.w + x]@.len()
        } else {
            0
        }
    }

    /// Slot `j` of cell (y, x) holds a committed placement covering (y, x).
    pub closed spec fn fcell_ok(self, y: int, x: int, j: int) -> bool {
        let q = self.cells@[y * self.w + x]@[j] as int;
        &&& self.committed(q)
        &&& self.place_of(q).s_covers(y, x)
    }

    pub closed spec fn cells_ok(self) -> bool {
        &&& forall|y: int, x: int, j: int|
            0 <= y < self.h && 0 <= x < self.w && 0 <= j < self.cells@[y * self.w + x]@.len()
                ==> #[trigger] self.fcell_ok(y, x, j)
        &&& forall|y: int, x: int, j1: int, j2: int|
            0 <= y < self.h && 0 <= x < self.w && 0 <= j1 < j2 < self.cells@[y * self.w
                + x]@.len() ==> (#[trigger] self.cells@[y * self.w + x]@[j1]) != (
            #[trigger] self.cells@[y * self.w + x]@[j2])
    }

    /// A committed placement is listed in each cell it covers.
    pub closed spec fn move_ok(self, pid: int) -> bool {
        &&& self.place_of(pid).pid == pid
        &&& self.place_of(pid).s_wf()
        &&& self.place_of(pid).s_fits(self.h as int, self.w as int)
        &&& self.idx_of(pid) < self.counter
        &&& forall|y: int, x: int|
            #[trigger] self.place_of(pid).s_covers(y, x) ==> self.cells@[y * self.w
                + x]@.contains(pid as usize)
    }

    pub closed spec fn dims_ok(self) -> bool {
        &&& self.h <= 0xFFFF
        &&& self.w <= 0xFFFF
        &&& self.cells@.len() == self.h * self.w
        &&& self.moves@.len() <= 0x7FFFFFFF
    }

    /// Well-formedness: cells list exactly the committed placements covering
    /// them, at most two per cell (a crossing), and insertion stamps are
    /// distinct.
    pub closed spec fn wf(self) -> bool {
        &&& self.dims_ok()
        &&& self.cells_ok()
        &&& forall|pid: int| #[trigger] self.committed(pid) ==> self.move_ok(pid)
        &&& forall|y: int, x: int|
            0 <= y < self.h && 0 <= x < self.w ==> #[trigger] self.cells@[y * self.w + x]@.len()
                <= 2
        &&& forall|p1: int, p2: int|
            #[trigger] self.committed(p1) && #[trigger] self.committed(p2) && p1 != p2
                ==> self.idx_of(p1) != self.idx_of(p2)
    }

    /// An empty grid over an h-by-w board for placement ids below `key_space`.
    pub fn new(h: usize, w: usize, key_space: usize) -> (g: Self)
        requires
            h <= 0xFFFF,
            w <= 0xFFFF,
            key_space <= 0x7FFFFFFF,
        ensures
            g.wf(),
            g.spec_h() == h,
            g.spec_w() == w,
            g.key_space() == key_space,
            forall|pid: int| !g.committed(pid),
            g.spec_counter() == 0,
    {
        proof {
            assert(h * w <= 0xFFFE0001) by (nonlinear_arith)
                requires
                    h <= 0xFFFF,
                    w <= 0xFFFF,
            ;
        }
        let hw = h * w;
        let mut cells: Vec<Vec<usize>> = Vec::new();
        let mut c: usize = 0;
        while c < hw
            invariant
                c <= hw,
                cells@.len() == c,
                forall|k: int| 0 <= k < c ==> (#[trigger] cells@[k])@.len() == 0,
            decreases hw - c,
        {
            cells.push(Vec::new());
            c = c + 1;
        }
        let mut moves: Vec<Option<FixedGridMove>> = Vec::new();
        let mut i: usize = 0;
        while i < key_space
            invariant
                i <= key_space,
                moves@.len() == i,
                forall|k: int| 0 <= k < i ==> (#[trigger] moves@[k]) is None,
            decreases key_space - i,
        {
            moves.push(None);
            i = i + 1;
        }
        let g = FixedGrid { h, w, cells, moves, counter: 0 };
        proof {
            assert forall|y: int, x: int| 0 <= y < h && 0 <= x < w implies #[trigger] g.cells@[y * w
                + x]@.len() == 0 by {
                lemma_cell_index(y, x, h as int, w as int);
            }
        }
        g
    }

    pub fn counter(&self) -> (r: usize)
        ensures
            r == self.spec_counter(),
    {
        self.counter
    }

    pub fn contains_move(&self, pid: usize) -> (r: bool)
        requires
            pid < self.key_space(),
        ensures
            r == self.committed(pid as int),
    {
        self.moves[pid].is_some()
    }

    /// Commit a placement: append its id to each covered cell. The caller
    /// guarantees that every covered cell holds at most one placement so far
    /// (the new placement crosses, it never stacks).
    pub fn place(&mut self, place: PlacedSpan)
        requires
            old(self).wf(),
            place.s_wf(),
            place.s_fits(old(self).spec_h(), old(self).spec_w()),
            place.pid < old(self).key_space(),
            !old(self).committed(place.pid as int),
            old(self).spec_counter() < usize::MAX,
            forall|y: int, x: int|
                #[trigger] place.s_covers(y, x) ==> old(self).count_at(y, x) <= 1,
        ensures
            final(self).wf(),
            final(self).spec_h() == old(self).spec_h(),
            final(self).spec_w() == old(self).spec_w(),
            final(self).key_space() == old(self).key_space(),
            final(self).spec_counter() == old(self).spec_counter() + 1,
            forall|q: int|
                #[trigger] final(self).committed(q) == (old(self).committed(q) || q == place.pid
                    as int),
            final(self).place_of(place.pid as int) == place,
            final(self).idx_of(place.pid as int) == old(self).spec_counter(),
            forall|q: int|
                old(self).committed(q) ==> final(self).place_of(q) == old(self).place_of(q)
                    && final(self).idx_of(q) == old(self).idx_of(q),
            forall|y: int, x: int|
                #[trigger] final(self).count_at(y, x) == old(self).count_at(y, x) + (
                if place.s_covers(y, x) {
                    1int
                } else {
                    0int
                }),
    {
        let pid = place.pid;
        let h = self.h;
        let w = self.w;
        let len = place.len;
        let ghost g0 = *self;
        let mut ci: usize = 0;
        while ci < len
            invariant
                ci <= len,
                len == place.slen(),
                place.s_wf(),
                place.s_fits(h as int, w as int),
                self.h == h,
                self.w == w,
                h <= 0xFFFF,
                w <= 0xFFFF,
                g0.h == h,
                g0.w == w,
                self.moves@ == g0.moves@,
                self.counter == g0.counter,
                self.cells@.len() == g0.cells@.len(),
                self.cells@.len() == h * w,
                g0.wf(),
                pid == place.pid,
                (pid as int) < g0.moves@.len(),
                !g0.committed(pid as int),
                forall|y: int, x: int|
                    #[trigger] place.s_covers(y, x) ==> g0.count_at(y, x) <= 1,
                // cells got pid appended exactly at the first ci covered cells
                forall|y: int, x: int|
                    0 <= y < h && 0 <= x < w ==> #[trigger] self.cells@[y * self.w + x]@ == (
                    if place.s_covers(y, x) && place.s_cover_index(y, x) < ci {
                        g0.cells@[y * self.w + x]@.push(pid)
                    } else {
                        g0.cells@[y * self.w + x]@
                    }),
            decreases len - ci,
        {
            let (y, x) = place.s_pos_at(ci);
            proof {
                place.lemma_s_pos_covers(ci as int);
                assert(y < h && x < w) by {
                    assert(place.s_fits(h as int, w as int));
                }
                lemma_cell_index(y as int, x as int, h as int, w as int);
            }
            let c = y * w + x;
            let ghost before = self.cells@;
            let mut cellv = crate::variant_grid::copy_row(&self.cells[c]);
            cellv.push(pid);
            self.cells.set(c, cellv);
            proof {
                assert forall|y2: int, x2: int|
                    0 <= y2 < h && 0 <= x2 < w implies #[trigger] self.cells@[y2 * self.w + x2]@
                    == (if place.s_covers(y2, x2) && place.s_cover_index(y2, x2) < ci + 1 {
                    g0.cells@[y2 * self.w + x2]@.push(pid)
                } else {
                    g0.cells@[y2 * self.w + x2]@
                }) by {
                    lemma_cell_index(y2, x2, h as int, w as int);
                    if y2 * self.w + x2 == c as int {
                        lemma_cell_index_inj(y2, x2, y as int, x as int, h as int, w as int);
                        assert(place.s_cover_index(y2, x2) == ci as int);
                        assert(before[c as int]@ == g0.cells@[c as int]@) by {
                            assert(!(place.s_cover_index(y as int, x as int) < ci));
                        }
                        assert(self.cells@[c as int]@ =~= g0.cells@[c as int]@.push(pid));
                    } else {
                        if place.s_covers(y2, x2) && place.s_cover_index(y2, x2) == ci as int {
                            place.lemma_s_covers_pos(y2, x2);
                            lemma_cell_index_inj(y2, x2, y as int, x as int, h as int, w as int);
                        }
                    }
                }
            }
            ci = ci + 1;
        }
        let idx = self.counter;
        self.moves.set(pid, Some(FixedGridMove { place, moves_idx: idx }));
        self.counter = self.counter + 1;
        proof {
            let pi = pid as int;
            assert forall|y: int, x: int|
                0 <= y < h && 0 <= x < w implies #[trigger] self.cells@[y * self.w + x]@ == (
            if place.s_covers(y, x) {
                g0.cells@[y * self.w + x]@.push(pid)
            } else {
                g0.cells@[y * self.w + x]@
            }) by {
                if place.s_covers(y, x) {
                    place.lemma_s_covers_pos(y, x);
                }
            }
            assert(self.cells_ok()) by {
                assert forall|y: int, x: int, j: int|
                    0 <= y < self.h && 0 <= x < self.w && 0 <= j < self.cells@[y * self.w
                        + x]@.len() implies #[trigger] self.fcell_ok(y, x, j) by {
                    if place.s_covers(y, x) && j == g0.cells@[y * self.w + x]@.len() {
                    } else {
                        assert(g0.fcell_ok(y, x, j));
                    }
                }
                assert forall|y: int, x: int, j1: int, j2: int|
                    0 <= y < self.h && 0 <= x < self.w && 0 <= j1 < j2 < self.cells@[y * self.w
                        + x]@.len() implies (#[trigger] self.cells@[y * self.w + x]@[j1]) != (
                #[trigger] self.cells@[y * self.w + x]@[j2]) by {
                    if place.s_covers(y, x) && j2 == g0.cells@[y * self.w + x]@.len() {
                        assert(g0.fcell_ok(y, x, j1));
                        assert(self.cells@[y * self.w + x]@[j1] == g0.cells@[y * self.w + x]@[j1]);
                    } else {
                        assert(g0.fcell_ok(y, x, j1));
                        assert(g0.fcell_ok(y, x, j2));
                    }
                }
            }
            assert forall|q: int| #[trigger] self.committed(q) implies self.move_ok(q) by {
                if q == pi {
                    assert forall|y: int, x: int| #[trigger]
                        place.s_covers(y, x) implies self.cells@[y * self.w + x]@.contains(
                        pid,
                    ) by {
                        place.lemma_s_covers_pos(y, x);
                        assert(y < h && x < w) by {
                            assert(place.s_fits(h as int, w as int));
                        }
                        let cl = self.cells@[y * self.w + x]@;
                        assert(cl[cl.len() - 1] == pid);
                    }
                } else {
                    assert(g0.committed(q));
                    assert(g0.move_ok(q));
                    assert forall|y: int, x: int| #[trigger]
                        self.place_of(q).s_covers(y, x) implies self.cells@[y * self.w
                        + x]@.contains(q as usize) by {
                        assert(g0.cells@[y * self.w + x]@.contains(q as usize));
                        let j = choose|j: int|
                            0 <= j < g0.cells@[y * self.w + x]@.len() && (#[trigger] g0.cells@[y
                                * self.w + x]@[j]) == q as usize;
                        assert(g0.place_of(q).s_fits(h as int, w as int));
                        assert(0 <= y < h && 0 <= x < w);
                        assert(self.cells@[y * self.w + x]@[j] == q as usize);
                    }
                }
            }
            assert forall|y: int, x: int|
                0 <= y < self.h && 0 <= x < self.w implies #[trigger] self.cells@[y * self.w
                + x]@.len() <= 2 by {
                if place.s_covers(y, x) {
                    assert(g0.count_at(y, x) <= 1);
                }
            }
            assert forall|p1: int, p2: int|
                #[trigger] self.committed(p1) && #[trigger] self.committed(p2) && p1
                    != p2 implies self.idx_of(p1) != self.idx_of(p2) by {
                if p1 != pi && p2 != pi {
                    assert(g0.committed(p1) && g0.committed(p2));
                } else if p1 == pi {
                    assert(g0.committed(p2));
                    assert(g0.move_ok(p2));
                } else {
                    assert(g0.committed(p1));
                    assert(g0.move_ok(p1));
                }
            }
        }
    }
}


impl FixedGrid {
    /// Remove a committed placement from the grid; returns whether it was
    /// committed.
    pub fn delete(&mut self, pid: usize) -> (was: bool)
        requires
            old(self).wf(),
            pid < old(self).key_space(),
        ensures
            final(self).wf(),
            final(self).spec_h() == old(self).spec_h(),
            final(self).spec_w() == old(self).spec_w(),
            final(self).key_space() == old(self).key_space(),
            final(self).spec_counter() == old(self).spec_counter(),
            was == old(self).committed(pid as int),
            forall|q: int|
                #[trigger] final(self).committed(q) == (old(self).committed(q) && q != pid as int),
            forall|q: int|
                old(self).committed(q) && q != pid as int ==> final(self).place_of(q) == old(self).place_of(q) && final(self).idx_of(q) == old(self).idx_of(q),
            forall|y: int, x: int|
                #[trigger] final(self).count_at(y, x) == old(self).count_at(y, x) - (
                if old(self).committed(pid as int) && old(self).place_of(pid as int).s_covers(
                    y,
                    x,
                ) {
                    1int
                } else {
                    0int
                }),
    {
        if self.moves[pid].is_none() {
            return false;
        }
        let sp: PlacedSpan = match &self.moves[pid] {
            Some(m) => m.place,
            None => PlacedSpan {
                pid: 0,
                y: 0,
                x: 0,
                orientation: Orientation::HOR,
                len: 0,
            },
        };
        let h = self.h;
        let w = self.w;
        let len = sp.len;
        let ghost g0 = *self;
        proof {
            assert(g0.committed(pid as int));
            assert(g0.move_ok(pid as int));
            assert(sp == g0.place_of(pid as int));
        }
        let mut ci: usize = 0;
        while ci < len
            invariant
                ci <= len,
                len == sp.slen(),
                sp.s_wf(),
                sp.s_fits(h as int, w as int),
                self.h == h,
                self.w == w,
                h <= 0xFFFF,
                w <= 0xFFFF,
                g0.h == h,
                g0.w == w,
                self.moves@ == g0.moves@,
                self.counter == g0.counter,
                self.cells@.len() == g0.cells@.len(),
                self.cells@.len() == h * w,
                g0.wf(),
                pid < g0.moves@.len(),
                g0.committed(pid as int),
                sp == g0.place_of(pid as int),
                forall|y: int, x: int|
                    0 <= y < h && 0 <= x < w && !(sp.s_covers(y, x) && sp.s_cover_index(y, x)
                        < ci) ==> #[trigger] self.cells@[y * self.w + x]@ == g0.cells@[y * self.w
                        + x]@,
                forall|y: int, x: int|
                    0 <= y < h && 0 <= x < w && sp.s_covers(y, x) && sp.s_cover_index(y, x) < ci
                        ==> #[trigger] self.cells@[y * self.w + x]@.len() == g0.cells@[y * self.w
                        + x]@.len() - 1,
                forall|y: int, x: int, j: int|
                    0 <= y < h && 0 <= x < w && sp.s_covers(y, x) && sp.s_cover_index(y, x) < ci
                        && 0 <= j < self.cells@[y * self.w + x]@.len() ==> g0.cells@[y * self.w
                        + x]@.contains(#[trigger] self.cells@[y * self.w + x]@[j])
                        && self.cells@[y * self.w + x]@[j] != pid,
                forall|y: int, x: int, j1: int, j2: int|
                    0 <= y < h && 0 <= x < w && sp.s_covers(y, x) && sp.s_cover_index(y, x) < ci
                        && 0 <= j1 < j2 < self.cells@[y * self.w + x]@.len() ==> (
                    #[trigger] self.cells@[y * self.w + x]@[j1]) != (#[trigger] self.cells@[y
                        * self.w + x]@[j2]),
                forall|y: int, x: int, q: usize|
                    0 <= y < h && 0 <= x < w && sp.s_covers(y, x) && sp.s_cover_index(y, x) < ci
                        && g0.cells@[y * self.w + x]@.contains(q) && q != pid
                        ==> #[trigger] self.cells@[y * self.w + x]@.contains(q),
            decreases len - ci,
        {
            let (y, x) = sp.s_pos_at(ci);
            proof {
                sp.lemma_s_pos_covers(ci as int);
                assert(y < h && x < w) by {
                    assert(sp.s_fits(h as int, w as int));
                }
                lemma_cell_index(y as int, x as int, h as int, w as int);
                assert(self.cells@[y as int * self.w + x as int]@ == g0.cells@[y as int * self.w
                    + x as int]@);
                assert(g0.cells@[y as int * self.w + x as int]@.contains(pid)) by {
                    assert(g0.move_ok(pid as int));
                    assert(g0.place_of(pid as int).s_covers(y as int, x as int));
                }
            }
            let c = y * w + x;
            let clen = self.cells[c].len();
            let mut j: usize = 0;
            while j < clen && self.cells[c][j] != pid
                invariant
                    j <= clen,
                    c < self.cells@.len(),
                    clen == self.cells@[c as int]@.len(),
                    self.cells@[c as int]@.contains(pid),
                    forall|k: int| 0 <= k < j ==> (#[trigger] self.cells@[c as int]@[k]) != pid,
                decreases clen - j,
            {
                j = j + 1;
            }
            proof {
                assert(j < clen) by {
                    if j == clen {
                        let k = choose|k: int|
                            0 <= k < clen && (#[trigger] self.cells@[c as int]@[k]) == pid;
                    }
                }
                assert(self.cells@[c as int]@[j as int] == pid);
            }
            let ghost before = self.cells@[c as int]@;
            let ghost s0 = *self;
            let mut cellv = crate::variant_grid::copy_row(&self.cells[c]);
            let _removed_entry = cellv.swap_remove(j);
            self.cells.set(c, cellv);
            proof {
                let ce = c as int;
                assert(self.cells@[ce]@ =~= before.update(j as int, before.last()).drop_last());
                assert forall|cid: int|
                    0 <= cid < self.cells@.len() && cid != ce implies #[trigger] self.cells@[cid]@
                    == s0.cells@[cid]@ by {}
                // pid occurs only at slot j of this cell
                assert forall|k: int|
                    0 <= k < before.len() && k != j implies (#[trigger] before[k]) != pid by {
                    assert(g0.fcell_ok(y as int, x as int, k));
                    assert(g0.fcell_ok(y as int, x as int, j as int));
                    if k < j {
                        assert(before[k] != before[j as int]);
                    } else {
                        assert(before[j as int] != before[k]);
                    }
                }
                // cells not yet processed keep their earlier contents
                assert forall|y2: int, x2: int|
                    0 <= y2 < h && 0 <= x2 < w && !(sp.s_covers(y2, x2) && sp.s_cover_index(y2, x2)
                        < ci + 1) implies #[trigger] self.cells@[y2 * self.w + x2]@ == g0.cells@[y2
                    * self.w + x2]@ by {
                    lemma_cell_index(y2, x2, h as int, w as int);
                    if y2 * self.w + x2 == ce {
                        lemma_cell_index_inj(y2, x2, y as int, x as int, h as int, w as int);
                        assert(sp.s_covers(y2, x2) && sp.s_cover_index(y2, x2) == ci as int);
                    } else {
                        assert(self.cells@[y2 * self.w + x2]@ == s0.cells@[y2 * self.w + x2]@);
                    }
                }
                // processed cells lost exactly the one slot that held pid
                assert forall|y2: int, x2: int|
                    0 <= y2 < h && 0 <= x2 < w && sp.s_covers(y2, x2) && sp.s_cover_index(y2, x2)
                        < ci + 1 implies #[trigger] self.cells@[y2 * self.w + x2]@.len()
                    == g0.cells@[y2 * self.w + x2]@.len() - 1 by {
                    lemma_cell_index(y2, x2, h as int, w as int);
                    if y2 * self.w + x2 == ce {
                        lemma_cell_index_inj(y2, x2, y as int, x as int, h as int, w as int);
                    } else {
                        assert(sp.s_cover_index(y2, x2) < ci) by {
                            if sp.s_cover_index(y2, x2) == ci as int {
                                sp.lemma_s_covers_pos(y2, x2);
                                lemma_cell_index_inj(y2, x2, y as int, x as int, h as int, w as int);
                            }
                        }
                        assert(self.cells@[y2 * self.w + x2]@ == s0.cells@[y2 * self.w + x2]@);
                    }
                }
                assert forall|y2: int, x2: int, j2: int|
                    0 <= y2 < h && 0 <= x2 < w && sp.s_covers(y2, x2) && sp.s_cover_index(y2, x2)
                        < ci + 1 && 0 <= j2 < self.cells@[y2 * self.w + x2]@.len() implies g0.cells@[
                    y2 * self.w + x2]@.contains(#[trigger] self.cells@[y2 * self.w + x2]@[j2])
                    && self.cells@[y2 * self.w + x2]@[j2] != pid by {
                    lemma_cell_index(y2, x2, h as int, w as int);
                    if y2 * self.w + x2 == ce {
                        lemma_cell_index_inj(y2, x2, y as int, x as int, h as int, w as int);
                        let v = self.cells@[ce]@[j2];
                        if j2 == j as int {
                            assert(v == before.last());
                            assert(before.contains(v)) by {
                                assert(before[before.len() - 1] == v);
                            }
                        } else {
                            assert(v == before[j2]);
                            assert(before.contains(v)) by {
                                assert(before[j2] == v);
                            }
                        }
                    } else {
                        assert(sp.s_cover_index(y2, x2) < ci) by {
                            if sp.s_cover_index(y2, x2) == ci as int {
                                sp.lemma_s_covers_pos(y2, x2);
                                lemma_cell_index_inj(y2, x2, y as int, x as int, h as int, w as int);
                            }
                        }
                        assert(self.cells@[y2 * self.w + x2]@ == s0.cells@[y2 * self.w + x2]@);
                    }
                }
                assert forall|y2: int, x2: int, q: usize|
                    0 <= y2 < h && 0 <= x2 < w && sp.s_covers(y2, x2) && sp.s_cover_index(y2, x2)
                        < ci + 1 && g0.cells@[y2 * self.w + x2]@.contains(q) && q
                        != pid implies #[trigger] self.cells@[y2 * self.w + x2]@.contains(q) by {
                    lemma_cell_index(y2, x2, h as int, w as int);
                    if y2 * self.w + x2 == ce {
                        lemma_cell_index_inj(y2, x2, y as int, x as int, h as int, w as int);
                        let k = choose|k: int| 0 <= k < before.len() && (#[trigger] before[k]) == q;
                        if k == before.len() - 1 {
                            if j as int != k {
                                assert(self.cells@[ce]@[j as int] == q);
                            }
                        } else {
                            if k != j as int {
                                assert(self.cells@[ce]@[k] == q);
                            }
                        }
                    } else {
                        assert(sp.s_cover_index(y2, x2) < ci) by {
                            if sp.s_cover_index(y2, x2) == ci as int {
                                sp.lemma_s_covers_pos(y2, x2);
                                lemma_cell_index_inj(y2, x2, y as int, x as int, h as int, w as int);
                            }
                        }
                        assert(self.cells@[y2 * self.w + x2]@ == s0.cells@[y2 * self.w + x2]@);
                        assert(s0.cells@[y2 * self.w + x2]@.contains(q));
                    }
                }
                assert forall|y2: int, x2: int, j1: int, j2: int|
                    0 <= y2 < h && 0 <= x2 < w && sp.s_covers(y2, x2) && sp.s_cover_index(y2, x2)
                        < ci + 1 && 0 <= j1 < j2 < self.cells@[y2 * self.w + x2]@.len() implies (
                #[trigger] self.cells@[y2 * self.w + x2]@[j1]) != (#[trigger] self.cells@[y2
                    * self.w + x2]@[j2]) by {
                    lemma_cell_index(y2, x2, h as int, w as int);
                    if y2 * self.w + x2 == ce {
                        lemma_cell_index_inj(y2, x2, y as int, x as int, h as int, w as int);
                        assert forall|a: int, b: int|
                            0 <= a < b < before.len() implies (#[trigger] before[a]) != (
                        #[trigger] before[b]) by {
                            assert(g0.cells@[ce]@[a] == before[a]);
                            assert(g0.cells@[ce]@[b] == before[b]);
                        }
                    } else {
                        assert(sp.s_cover_index(y2, x2) < ci) by {
                            if sp.s_cover_index(y2, x2) == ci as int {
                                sp.lemma_s_covers_pos(y2, x2);
                                lemma_cell_index_inj(y2, x2, y as int, x as int, h as int, w as int);
                            }
                        }
                        assert(self.cells@[y2 * self.w + x2]@ == s0.cells@[y2 * self.w + x2]@);
                        assert(s0.cells@[y2 * self.w + x2]@[j1] != s0.cells@[y2 * self.w + x2]@[j2]);
                    }
                }
            }
            ci = ci + 1;
        }
        self.moves.set(pid, None);
        proof {
            let pi = pid as int;
            assert forall|y: int, x: int|
                0 <= y < self.h && 0 <= x < self.w implies #[trigger] self.cells@[y * self.w
                + x]@.len() <= 2 by {
                if sp.s_covers(y, x) {
                } else {
                    assert(self.cells@[y * self.w + x]@ == g0.cells@[y * self.w + x]@);
                }
            }
            assert(self.cells_ok()) by {
                assert forall|y: int, x: int, j: int|
                    0 <= y < self.h && 0 <= x < self.w && 0 <= j < self.cells@[y * self.w
                        + x]@.len() implies #[trigger] self.fcell_ok(y, x, j) by {
                    if sp.s_covers(y, x) {
                        assert(sp.s_cover_index(y, x) < len) by {
                            sp.lemma_s_covers_pos(y, x);
                        }
                        let q = self.cells@[y * self.w + x]@[j];
                        assert(g0.cells@[y * self.w + x]@.contains(q) && q != pid);
                        let k = choose|k: int|
                            0 <= k < g0.cells@[y * self.w + x]@.len() && (#[trigger] g0.cells@[y
                                * self.w + x]@[k]) == q;
                        assert(g0.fcell_ok(y, x, k));
                    } else {
                        assert(self.cells@[y * self.w + x]@ == g0.cells@[y * self.w + x]@);
                        assert(g0.fcell_ok(y, x, j));
                    }
                }
                assert forall|y: int, x: int, j1: int, j2: int|
                    0 <= y < self.h && 0 <= x < self.w && 0 <= j1 < j2 < self.cells@[y * self.w
                        + x]@.len() implies (#[trigger] self.cells@[y * self.w + x]@[j1]) != (
                #[trigger] self.cells@[y * self.w + x]@[j2]) by {
                    if sp.s_covers(y, x) {
                        assert(sp.s_cover_index(y, x) < len) by {
                            sp.lemma_s_covers_pos(y, x);
                        }
                    } else {
                        assert(self.cells@[y * self.w + x]@ == g0.cells@[y * self.w + x]@);
                        assert(g0.cells@[y * self.w + x]@[j1] != g0.cells@[y * self.w + x]@[j2]);
                    }
                }
            }
            assert forall|q: int| #[trigger] self.committed(q) implies self.move_ok(q) by {
                assert(g0.committed(q) && q != pi);
                assert(g0.move_ok(q));
                assert forall|y: int, x: int| #[trigger]
                    self.place_of(q).s_covers(y, x) implies self.cells@[y * self.w + x]@.contains(
                    q as usize,
                ) by {
                    assert(g0.place_of(q).s_covers(y, x));
                    assert(g0.cells@[y * self.w + x]@.contains(q as usize));
                    assert(g0.place_of(q).s_fits(h as int, w as int));
                    assert(0 <= y < h && 0 <= x < w);
                    if sp.s_covers(y, x) {
                        assert(sp.s_cover_index(y, x) < len) by {
                            sp.lemma_s_covers_pos(y, x);
                        }
                        assert(q as usize != pid);
                        assert(self.cells@[y * self.w + x]@.contains(q as usize));
                    } else {
                        assert(self.cells@[y * self.w + x]@ == g0.cells@[y * self.w + x]@);
                    }
                }
            }
            assert forall|p1: int, p2: int|
                #[trigger] self.committed(p1) && #[trigger] self.committed(p2) && p1
                    != p2 implies self.idx_of(p1) != self.idx_of(p2) by {
                assert(g0.committed(p1) && g0.committed(p2));
            }
            assert forall|y: int, x: int| #[trigger]
                final(self).count_at(y, x) == old(self).count_at(y, x) - (
            if old(self).committed(pi) && old(self).place_of(pi).s_covers(y, x) {
                1int
            } else {
                0int
            }) by {
                if 0 <= y < h && 0 <= x < w {
                    if sp.s_covers(y, x) {
                        assert(sp.s_cover_index(y, x) < len) by {
                            sp.lemma_s_covers_pos(y, x);
                        }
                    } else {
                        assert(self.cells@[y * self.w + x]@ == g0.cells@[y * self.w + x]@);
                    }
                }
            }
        }
        true
    }
}


impl FixedGrid {
    /// Whether cell `i` of the committed placement `pid` has an adjacency
    /// violation: the cell is not a crossing, and a perpendicular neighbor
    /// holds exactly one placement.
    pub closed spec fn has_adj_at(self, pid: int, i: int) -> bool {
        let sp = self.place_of(pid);
        &&& self.count_at(sp.s_pos_y(i), sp.s_pos_x(i)) != 2
        &&& (self.count_at(sp.s_pos_y(i) - sp.s_dx(), sp.s_pos_x(i) - sp.s_dy()) == 1
            || self.count_at(sp.s_pos_y(i) + sp.s_dx(), sp.s_pos_x(i) + sp.s_dy()) == 1)
    }

    /// The adjacency reports for the first `k` cells of `pid`.
    pub closed spec fn adj_seq(self, pid: int, k: int) -> Seq<AdjacencyInfo>
        decreases k,
    {
        if k <= 0 {
            Seq::empty()
        } else if self.has_adj_at(pid, k - 1) {
            self.adj_seq(pid, k - 1).push(
                AdjacencyInfo {
                    y: self.place_of(pid).s_pos_y(k - 1) as usize,
                    x: self.place_of(pid).s_pos_x(k - 1) as usize,
                    or: self.place_of(pid).orientation.spec_perp(),
                },
            )
        } else {
            self.adj_seq(pid, k - 1)
        }
    }

    /// Whether the committed placement has any adjacency violation.
    pub closed spec fn has_adjacency(self, pid: int) -> bool {
        exists|i: int| 0 <= i < self.place_of(pid).slen() && self.has_adj_at(pid, i)
    }

    /// The number of committed placements covering cell (y, x); zero for
    /// cells outside the board.
    pub fn count_words_at(&self, y: usize, x: usize) -> (r: usize)
        requires
            self.wf(),
        ensures
            r == self.count_at(y as int, x as int),
    {
        if y < self.h && x < self.w {
            proof {
                lemma_cell_index(y as int, x as int, self.h as int, self.w as int);
            }
            self.cells[y * self.w + x].len()
        } else {
            0
        }
    }

    /// The adjacency violations of a committed placement, cell by cell.
    pub fn adjacencies_of(&self, pid: usize) -> (r: Vec<AdjacencyInfo>)
        requires
            self.wf(),
            self.committed(pid as int),
        ensures
            r@ == self.adj_seq(pid as int, self.place_of(pid as int).slen()),
            r@.len() > 0 <==> self.has_adjacency(pid as int),
    {
        let sp: PlacedSpan = match &self.moves[pid] {
            Some(m) => m.place,
            None => PlacedSpan { pid: 0, y: 0, x: 0, orientation: Orientation::HOR, len: 0 },
        };
        proof {
            assert(self.move_ok(pid as int));
            assert(sp == self.place_of(pid as int));
        }
        let len = sp.len;
        // the perpendicular step
        let (pdy, pdx): (usize, usize) = match sp.orientation {
            Orientation::HOR => (1, 0),
            Orientation::VER => (0, 1),
        };
        let perp_or = sp.orientation.perp_orientation();
        let mut out: Vec<AdjacencyInfo> = Vec::new();
        let mut ci: usize = 0;
        while ci < len
            invariant
                ci <= len,
                len == sp.slen(),
                sp.s_wf(),
                sp.s_fits(self.spec_h(), self.spec_w()),
                self.wf(),
                self.committed(pid as int),
                sp == self.place_of(pid as int),
                pdy as int == sp.s_dx(),
                pdx as int == sp.s_dy(),
                perp_or == sp.orientation.spec_perp(),
                out@ == self.adj_seq(pid as int, ci as int),
            decreases len - ci,
        {
            let (y, x) = sp.s_pos_at(ci);
            proof {
                sp.lemma_s_pos_covers(ci as int);
                assert(y < self.h && x < self.w) by {
                    assert(sp.s_fits(self.spec_h(), self.spec_w()));
                }
            }
            let own = self.count_words_at(y, x);
            if own != 2 {
                let up = if y >= pdy && x >= pdx {
                    self.count_words_at(y - pdy, x - pdx)
                } else {
                    proof {
                        assert(self.count_at(y as int - pdy, x as int - pdx) == 0);
                    }
                    0
                };
                let down = if y <= usize::MAX - pdy && x <= usize::MAX - pdx {
                    self.count_words_at(y + pdy, x + pdx)
                } else {
                    proof {
                        assert(self.count_at(y as int + pdy, x as int + pdx) == 0);
                    }
                    0
                };
                if up == 1 || down == 1 {
                    out.push(AdjacencyInfo { y, x, or: perp_or });
                    proof {
                        assert(self.has_adj_at(pid as int, ci as int));
                        assert(out@ =~= self.adj_seq(pid as int, ci + 1));
                    }
                } else {
                    proof {
                        assert(!self.has_adj_at(pid as int, ci as int));
                    }
                }
            } else {
                proof {
                    assert(!self.has_adj_at(pid as int, ci as int));
                }
            }
            ci = ci + 1;
        }
        proof {
            lemma_adj_seq_len(*self, pid as int, len as int);
        }
        out
    }

    /// Excess occupancy summed over the first `k` cells of the committed
    /// placement `pid`: one for each of those cells that carries a crossing.
    pub closed spec fn cross_cells(self, pid: int, k: int) -> int
        decreases k,
    {
        if k <= 0 {
            0
        } else {
            self.cross_cells(pid, k - 1) + (self.count_at(
                self.place_of(pid).s_pos_y(k - 1),
                self.place_of(pid).s_pos_x(k - 1),
            ) - 1)
        }
    }

    /// The efficiency contribution of ids below `k`: for each committed
    /// placement, the excess occupancy of its cells.
    pub closed spec fn eff_upto(self, k: int) -> int
        decreases k,
    {
        if k <= 0 {
            0
        } else {
            self.eff_upto(k - 1) + (if self.committed(k - 1) {
                self.cross_cells(k - 1, self.place_of(k - 1).slen())
            } else {
                0int
            })
        }
    }

    pub closed spec fn spec_eff(self) -> int {
        self.eff_upto(self.moves@.len() as int)
    }

    /// Each cell of a committed placement carries it, so its excess there is
    /// zero or one, and a placement's total excess is at most its length.
    proof fn lemma_cross_cells_bounds(&self, pid: int, k: int)
        requires
            self.wf(),
            self.committed(pid),
            0 <= k <= self.place_of(pid).slen(),
        ensures
            0 <= self.cross_cells(pid, k) <= k,
        decreases k,
    {
        if k > 0 {
            self.lemma_cross_cells_bounds(pid, k - 1);
            let sp = self.place_of(pid);
            assert(self.move_ok(pid));
            sp.lemma_s_pos_covers(k - 1);
            assert(sp.s_covers(sp.s_pos_y(k - 1), sp.s_pos_x(k - 1)));
            assert(self.cells@[sp.s_pos_y(k - 1) * self.w + sp.s_pos_x(k - 1)]@.contains(
                pid as usize,
            ));
            assert(0 <= sp.s_pos_y(k - 1) < self.h && 0 <= sp.s_pos_x(k - 1) < self.w) by {
                assert(sp.s_fits(self.h as int, self.w as int));
            }
            let cl = self.cells@[sp.s_pos_y(k - 1) * self.w + sp.s_pos_x(k - 1)]@;
            assert(cl.len() >= 1) by {
                let j = choose|j: int| 0 <= j < cl.len() && cl[j] == pid as usize;
            }
        }
    }

    /// The board's score: the summed excess occupancy of every committed
    /// placement's cells.
    pub fn efficiency(&self) -> (r: Eff)
        requires
            self.wf(),
        ensures
            r.0 == self.spec_eff(),
    {
        let n = self.moves.len();
        let mut acc: i64 = 0;
        let mut pid: usize = 0;
        while pid < n
            invariant
                pid <= n,
                n == self.moves@.len(),
                self.wf(),
                acc == self.eff_upto(pid as int),
                0 <= acc <= pid * 0xFFFF,
            decreases n - pid,
        {
            if self.moves[pid].is_some() {
                let sp: PlacedSpan = match &self.moves[pid] {
                    Some(m) => m.place,
                    None => PlacedSpan {
                        pid: 0,
                        y: 0,
                        x: 0,
                        orientation: Orientation::HOR,
                        len: 0,
                    },
                };
                proof {
                    assert(self.committed(pid as int));
                    assert(self.move_ok(pid as int));
                    assert(sp == self.place_of(pid as int));
                    assert(sp.slen() <= 0xFFFF) by {
                        assert(sp.s_fits(self.h as int, self.w as int));
                    }
                }
                let len = sp.len;
                let mut sum: usize = 0;
                let mut ci: usize = 0;
                while ci < len
                    invariant
                        ci <= len,
                        len == sp.slen(),
                        sp.s_wf(),
                        sp.s_fits(self.spec_h(), self.spec_w()),
                        self.wf(),
                        self.committed(pid as int),
                        sp == self.place_of(pid as int),
                        sum == self.cross_cells(pid as int, ci as int),
                        sum <= ci,
                    decreases len - ci,
                {
                    let (y, x) = sp.s_pos_at(ci);
                    proof {
                        sp.lemma_s_pos_covers(ci as int);
                        assert(y < self.h && x < self.w) by {
                            assert(sp.s_fits(self.spec_h(), self.spec_w()));
                        }
                        assert(self.move_ok(pid as int));
                        assert(self.cells@[y as int * self.w + x as int]@.contains(pid as usize));
                        let cl = self.cells@[y as int * self.w + x as int]@;
                        assert(cl.len() >= 1) by {
                            let j = choose|j: int| 0 <= j < cl.len() && cl[j] == pid as usize;
                        }
                    }
                    let cnt = self.count_words_at(y, x);
                    sum = sum + (cnt - 1);
                    ci = ci + 1;
                }
                proof {
                    self.lemma_cross_cells_bounds(pid as int, len as int);
                    assert(self.moves@.len() <= 0x7FFFFFFF);
                }
                acc = acc + (sum as i64);
            }
            pid = pid + 1;
        }
        Eff(acc)
    }
}

/// The adjacency report list is empty exactly when no cell has a violation./// The adjacency report list is empty exactly when no cell has a violation.
proof fn lemma_adj_seq_len(g: FixedGrid, pid: int, k: int)
    requires
        0 <= k,
    ensures
        g.adj_seq(pid, k).len() > 0 <==> exists|i: int| 0 <= i < k && g.has_adj_at(pid, i),
    decreases k,
{
    if k > 0 {
        lemma_adj_seq_len(g, pid, k - 1);
        if g.adj_seq(pid, k).len() > 0 {
            if !g.has_adj_at(pid, k - 1) {
                let i = choose|i: int| 0 <= i < k - 1 && g.has_adj_at(pid, i);
                assert(0 <= i < k && g.has_adj_at(pid, i));
            } else {
                assert(0 <= k - 1 < k && g.has_adj_at(pid, k - 1));
            }
        } else {
            if exists|i: int| 0 <= i < k && g.has_adj_at(pid, i) {
                let i = choose|i: int| 0 <= i < k && g.has_adj_at(pid, i);
                if i < k - 1 {
                    assert(g.adj_seq(pid, k - 1).len() > 0);
                }
            }
        }
    }
}


impl FixedGrid {
    /// Resolve every adjacency violation by deleting offenders, each kept or
    /// deleted by a coin flip per round; when a whole round keeps everything,
    /// the first offender goes, so every round shrinks the committed set.
    /// Returns the retained ids in insertion order, the deleted ids, and the
    /// efficiency of the retained board.
    pub fn fixup_adjacent<R: AbstractRng>(&mut self, rng: &mut R) -> (r: (
        Vec<usize>,
        Vec<usize>,
        Eff,
    ))
        requires
            old(self).wf(),
        ensures
            final(self).wf(),
            final(self).spec_h() == old(self).spec_h(),
            final(self).spec_w() == old(self).spec_w(),
            final(self).key_space() == old(self).key_space(),
            forall|q: int| #[trigger] final(self).committed(q) ==> old(self).committed(q),
            forall|q: int|
                #[trigger] final(self).committed(q) ==> final(self).place_of(q) == old(self).place_of(q) && final(self).idx_of(q) == old(self).idx_of(q),
            // no adjacency violation is left on the retained board
            forall|q: int| #[trigger] final(self).committed(q) ==> !final(self).has_adjacency(q),
            // the retained ids, in insertion order
            forall|k: int|
                0 <= k < r.0@.len() ==> final(self).committed((#[trigger] r.0@[k]) as int),
            forall|q: int| #[trigger] final(self).committed(q) ==> lists_id(r.0@, q),
            forall|k1: int, k2: int|
                0 <= k1 < k2 < r.0@.len() ==> final(self).idx_of(r.0@[k1] as int) < final(self).idx_of(r.0@[k2] as int),
            // the deleted ids, once each
            forall|k: int|
                0 <= k < r.1@.len() ==> old(self).committed((#[trigger] r.1@[k]) as int) && !final(self).committed(r.1@[k] as int),
            forall|q: int|
                old(self).committed(q) && !final(self).committed(q) ==> lists_id(r.1@, q),
            forall|k1: int, k2: int|
                0 <= k1 < k2 < r.1@.len() ==> (#[trigger] r.1@[k1]) != (#[trigger] r.1@[k2]),
            r.2.0 == final(self).spec_eff(),
    {
        let n = self.moves.len();
        let mut removed: Vec<usize> = Vec::new();
        loop
            invariant_except_break
                n == self.moves@.len(),
                self.wf(),
                self.spec_h() == old(self).spec_h(),
                self.spec_w() == old(self).spec_w(),
                self.key_space() == old(self).key_space(),
                self.spec_counter() == old(self).spec_counter(),
                forall|q: int| #[trigger] self.committed(q) ==> old(self).committed(q),
                forall|q: int|
                    #[trigger] self.committed(q) ==> self.place_of(q) == old(self).place_of(q)
                        && self.idx_of(q) == old(self).idx_of(q),
                forall|k: int|
                    0 <= k < removed@.len() ==> old(self).committed((#[trigger] removed@[k]) as int)
                        && !self.committed(removed@[k] as int),
                forall|q: int|
                    old(self).committed(q) && !self.committed(q) ==> exists|k: int|
                        0 <= k < removed@.len() && (#[trigger] removed@[k]) as int == q,
                forall|k1: int, k2: int|
                    0 <= k1 < k2 < removed@.len() ==> (#[trigger] removed@[k1]) != (
                    #[trigger] removed@[k2]),
            ensures
                n == self.moves@.len(),
                self.wf(),
                self.spec_h() == old(self).spec_h(),
                self.spec_w() == old(self).spec_w(),
                self.key_space() == old(self).key_space(),
                forall|q: int| #[trigger] self.committed(q) ==> old(self).committed(q),
                forall|q: int|
                    #[trigger] self.committed(q) ==> self.place_of(q) == old(self).place_of(q)
                        && self.idx_of(q) == old(self).idx_of(q),
                forall|q: int| #[trigger] self.committed(q) ==> !self.has_adjacency(q),
                forall|k: int|
                    0 <= k < removed@.len() ==> old(self).committed((#[trigger] removed@[k]) as int)
                        && !self.committed(removed@[k] as int),
                forall|q: int|
                    old(self).committed(q) && !self.committed(q) ==> exists|k: int|
                        0 <= k < removed@.len() && (#[trigger] removed@[k]) as int == q,
                forall|k1: int, k2: int|
                    0 <= k1 < k2 < removed@.len() ==> (#[trigger] removed@[k1]) != (
                    #[trigger] removed@[k2]),
            decreases self.n_committed(n as int),
        {
            // gather every committed placement with a violation
            let mut suspects: Vec<usize> = Vec::new();
            let mut pid: usize = 0;
            while pid < n
                invariant
                    pid <= n,
                    n == self.moves@.len(),
                    self.wf(),
                    forall|k: int|
                        0 <= k < suspects@.len() ==> {
                            let q = (#[trigger] suspects@[k]) as int;
                            &&& 0 <= q < n
                            &&& self.committed(q)
                            &&& self.has_adjacency(q)
                        },
                    forall|q: int|
                        0 <= q < pid && self.committed(q) && self.has_adjacency(q)
                            ==> suspects@.contains(q as usize),
                    forall|k1: int, k2: int|
                        0 <= k1 < k2 < suspects@.len() ==> (#[trigger] suspects@[k1]) != (
                        #[trigger] suspects@[k2]),
                    forall|k: int|
                        0 <= k < suspects@.len() ==> (#[trigger] suspects@[k]) < pid,
                decreases n - pid,
            {
                let ghost su0 = suspects@;
                let mut pushed = false;
                if self.moves[pid].is_some() {
                    let adjs = self.adjacencies_of(pid);
                    if adjs.len() > 0 {
                        suspects.push(pid);
                        pushed = true;
                    }
                }
                proof {
                    assert forall|q: int|
                        0 <= q < pid + 1 && self.committed(q) && self.has_adjacency(
                            q,
                        ) implies suspects@.contains(q as usize) by {
                        if q < pid {
                            assert(su0.contains(q as usize));
                            let k2 = choose|k2: int|
                                0 <= k2 < su0.len() && (#[trigger] su0[k2]) == q as usize;
                            assert(suspects@[k2] == q as usize);
                        } else {
                            assert(pushed);
                            assert(suspects@[suspects@.len() - 1] == q as usize);
                        }
                    }
                }
                pid = pid + 1;
            }
            if suspects.len() == 0 {
                proof {
                    assert forall|q: int| #[trigger] self.committed(q) implies !self.has_adjacency(
                        q,
                    ) by {
                        if self.has_adjacency(q) {
                            assert(suspects@.contains(q as usize));
                        }
                    }
                }
                break ;
            }
            let ghost count0 = self.n_committed(n as int);
            let ghost mid0 = *self;
            let mut deleted_any = false;
            let m = suspects.len();
            let mut k: usize = 0;
            while k < m
                invariant
                    k <= m,
                    m == suspects@.len(),
                    n == self.moves@.len(),
                    self.wf(),
                    self.spec_h() == mid0.spec_h(),
                    self.spec_w() == mid0.spec_w(),
                    forall|k2: int|
                        0 <= k2 < suspects@.len() ==> (#[trigger] suspects@[k2]) < n,
                    forall|q: int| #[trigger] self.committed(q) ==> mid0.committed(q),
                    forall|q: int|
                        #[trigger] self.committed(q) ==> self.place_of(q) == mid0.place_of(q)
                            && self.idx_of(q) == mid0.idx_of(q),
                    forall|k2: int|
                        0 <= k2 < removed@.len() ==> mid0.committed((#[trigger] removed@[k2]) as int)
                            || !mid0.committed(removed@[k2] as int),
                    // global bookkeeping against the grid as it was on entry
                    forall|k2: int|
                        0 <= k2 < removed@.len() ==> old(self).committed(
                            (#[trigger] removed@[k2]) as int,
                        ) && !self.committed(removed@[k2] as int),
                    forall|q: int|
                        old(self).committed(q) && !self.committed(q) ==> exists|k2: int|
                            0 <= k2 < removed@.len() && (#[trigger] removed@[k2]) as int == q,
                    forall|k1: int, k2: int|
                        0 <= k1 < k2 < removed@.len() ==> (#[trigger] removed@[k1]) != (
                        #[trigger] removed@[k2]),
                    self.n_committed(n as int) <= count0,
                    deleted_any ==> self.n_committed(n as int) < count0,
                    !deleted_any ==> self.n_committed(n as int) == count0 && *self == mid0,
                    self.spec_counter() == mid0.spec_counter(),
                    self.key_space() == mid0.key_space(),
                    forall|q: int|
                        mid0.committed(q) ==> old(self).committed(q),
                    forall|q: int|
                        mid0.committed(q) ==> mid0.place_of(q) == old(self).place_of(q)
                            && mid0.idx_of(q) == old(self).idx_of(q),
                decreases m - k,
            {
                let s = suspects[k];
                let coin = rng.gen_usize(2);
                let ghost rm0 = removed@;
                if coin == 0 && self.moves[s].is_some() {
                    let ghost before = *self;
                    self.delete(s);
                    removed.push(s);
                    deleted_any = true;
                    proof {
                        lemma_n_committed_drop(before, *self, s as int, n as int);
                        lemma_n_committed_mono(mid0, before, n as int);
                        assert forall|q: int|
                            old(self).committed(q) && !self.committed(q) implies exists|k2: int|
                            0 <= k2 < removed@.len() && (#[trigger] removed@[k2]) as int == q by {
                            if q == s as int {
                                assert(removed@[removed@.len() - 1] as int == q);
                            } else {
                                assert(!before.committed(q));
                                let k2 = choose|k2: int|
                                    0 <= k2 < rm0.len() && (#[trigger] rm0[k2]) as int == q;
                                assert(removed@[k2] as int == q);
                            }
                        }
                    }
                }
                k = k + 1;
            }
            if !deleted_any {
                let s = suspects[0];
                proof {
                    assert(mid0.committed(s as int));
                    assert(self.n_committed(n as int) == count0);
                    lemma_n_committed_same(mid0, *self, n as int);
                    assert(self.committed(s as int));
                }
                let ghost before = *self;
                let ghost rm0 = removed@;
                self.delete(s);
                removed.push(s);
                proof {
                    lemma_n_committed_drop(before, *self, s as int, n as int);
                    assert forall|q: int|
                        old(self).committed(q) && !self.committed(q) implies exists|k2: int|
                        0 <= k2 < removed@.len() && (#[trigger] removed@[k2]) as int == q by {
                        if q == s as int {
                            assert(removed@[removed@.len() - 1] as int == q);
                        } else {
                            assert(!before.committed(q));
                            let k2 = choose|k2: int|
                                0 <= k2 < rm0.len() && (#[trigger] rm0[k2]) as int == q;
                            assert(removed@[k2] as int == q);
                        }
                    }
                }
            }
            proof {
                assert(self.n_committed(n as int) < count0);
            }
        }
        // collect the survivors in insertion order
        let cmax = self.counter;
        let mut retained: Vec<usize> = Vec::new();
        let mut t: usize = 0;
        while t < cmax
            invariant
                t <= cmax,
                cmax == self.spec_counter(),
                n == self.moves@.len(),
                self.wf(),
                self.spec_h() == old(self).spec_h(),
                self.spec_w() == old(self).spec_w(),
                self.key_space() == old(self).key_space(),
                forall|q: int| #[trigger] self.committed(q) ==> old(self).committed(q),
                forall|q: int|
                    #[trigger] self.committed(q) ==> self.place_of(q) == old(self).place_of(q)
                        && self.idx_of(q) == old(self).idx_of(q),
                forall|q: int| #[trigger] self.committed(q) ==> !self.has_adjacency(q),
                forall|k: int|
                    0 <= k < removed@.len() ==> old(self).committed((#[trigger] removed@[k]) as int)
                        && !self.committed(removed@[k] as int),
                forall|q: int|
                    old(self).committed(q) && !self.committed(q) ==> exists|k: int|
                        0 <= k < removed@.len() && (#[trigger] removed@[k]) as int == q,
                forall|k1: int, k2: int|
                    0 <= k1 < k2 < removed@.len() ==> (#[trigger] removed@[k1]) != (
                    #[trigger] removed@[k2]),
                forall|k: int|
                    0 <= k < retained@.len() ==> self.committed((#[trigger] retained@[k]) as int)
                        && self.idx_of(retained@[k] as int) < t,
                forall|q: int|
                    #[trigger] self.committed(q) && self.idx_of(q) < t ==> exists|k: int|
                        0 <= k < retained@.len() && (#[trigger] retained@[k]) as int == q,
                forall|k1: int, k2: int|
                    0 <= k1 < k2 < retained@.len() ==> self.idx_of(retained@[k1] as int)
                        < self.idx_of(retained@[k2] as int),
            decreases cmax - t,
        {
            let mut found: bool = false;
            let mut fpid: usize = 0;
            let mut pid: usize = 0;
            while pid < n && !found
                invariant
                    pid <= n,
                    n == self.moves@.len(),
                    self.wf(),
                    !found ==> forall|q: int|
                        0 <= q < pid && #[trigger] self.committed(q) ==> self.idx_of(q) != t,
                    found ==> (fpid as int) < n && self.committed(fpid as int) && self.idx_of(
                        fpid as int,
                    ) == t,
                decreases n - pid,
            {
                let hit = match &self.moves[pid] {
                    Some(m) => m.moves_idx == t,
                    None => false,
                };
                if hit {
                    found = true;
                    fpid = pid;
                }
                pid = pid + 1;
            }
            let ghost ret0 = retained@;
            if found {
                retained.push(fpid);
                proof {
                    assert forall|q: int|
                        #[trigger] self.committed(q) && self.idx_of(q) < t + 1 implies exists|
                        k: int,
                    |
                        0 <= k < retained@.len() && (#[trigger] retained@[k]) as int == q by {
                        if self.idx_of(q) < t {
                            let k = choose|k: int|
                                0 <= k < ret0.len() && (#[trigger] ret0[k]) as int == q;
                            assert(retained@[k] as int == q);
                        } else {
                            assert(q == fpid as int) by {
                                if q != fpid as int {
                                    assert(self.idx_of(q) != self.idx_of(fpid as int));
                                }
                            }
                            assert(retained@[retained@.len() - 1] as int == q);
                        }
                    }
                }
            } else {
                proof {
                    assert forall|q: int|
                        #[trigger] self.committed(q) && self.idx_of(q) < t + 1 implies exists|
                        k: int,
                    |
                        0 <= k < retained@.len() && (#[trigger] retained@[k]) as int == q by {
                        assert(self.idx_of(q) != t);
                        let k = choose|k: int|
                            0 <= k < ret0.len() && (#[trigger] ret0[k]) as int == q;
                        assert(retained@[k] as int == q);
                    }
                }
            }
            t = t + 1;
        }
        proof {
            assert forall|q: int| #[trigger] self.committed(q) implies exists|k: int|
                0 <= k < retained@.len() && (#[trigger] retained@[k]) as int == q by {
                assert(self.move_ok(q));
                assert(self.idx_of(q) < cmax);
            }
        }
        let eff = self.efficiency();

        (retained, removed, eff)
    }
}

/// Whether the id sequence mentions `q`.
pub open spec fn lists_id(s: Seq<usize>, q: int) -> bool {
    exists|k: int| 0 <= k < s.len() && (#[trigger] s[k]) as int == q
}

/// Deleting one committed id lowers the committed count by one.
proof fn lemma_n_committed_drop(g1: FixedGrid, g2: FixedGrid, pid: int, k: int)
    requires
        g1.committed(pid),
        forall|q: int| #[trigger] g2.committed(q) == (g1.committed(q) && q != pid),
        0 <= k,
    ensures
        g2.n_committed(k) == g1.n_committed(k) - (if pid < k {
            1int
        } else {
            0int
        }),
    decreases k,
{
    if k > 0 {
        lemma_n_committed_drop(g1, g2, pid, k - 1);
    }
}

/// A grid committing no more than another counts no more.
proof fn lemma_n_committed_mono(g1: FixedGrid, g2: FixedGrid, k: int)
    requires
        forall|q: int| #[trigger] g2.committed(q) ==> g1.committed(q),
        0 <= k,
    ensures
        g2.n_committed(k) <= g1.n_committed(k),
    decreases k,
{
    if k > 0 {
        lemma_n_committed_mono(g1, g2, k - 1);
    }
}

/// Equal counts under inclusion force equal committed sets.
proof fn lemma_n_committed_same(g1: FixedGrid, g2: FixedGrid, k: int)
    requires
        forall|q: int| #[trigger] g2.committed(q) ==> g1.committed(q),
        g2.n_committed(k) == g1.n_committed(k),
        0 <= k,
    ensures
        forall|q: int| 0 <= q < k ==> (#[trigger] g1.committed(q) ==> g2.committed(q)),
    decreases k,
{
    if k > 0 {
        lemma_n_committed_mono(g1, g2, k - 1);
        if g1.committed(k - 1) && !g2.committed(k - 1) {
            lemma_n_committed_mono(g1, g2, k - 1);
            assert(g2.n_committed(k) < g1.n_committed(k));
        }
        lemma_n_committed_same(g1, g2, k - 1);
    }
}


impl FixedGrid {
    /// Committed ids lie inside the key space.
    pub proof fn lemma_committed_bounds(&self)
        ensures
            forall|q: int| #[trigger] self.committed(q) ==> 0 <= q < self.key_space(),
    {
    }

    /// A cell holding two entries holds two distinct committed placements
    /// covering it.
    pub proof fn lemma_two_at_cell(&self, y: int, x: int)
        requires
            self.wf(),
            self.count_at(y, x) >= 2,
        ensures
            exists|q1: int, q2: int|
                #[trigger] self.committed(q1) && #[trigger] self.committed(q2) && q1 != q2
                    && self.place_of(q1).s_covers(y, x) && self.place_of(q2).s_covers(y, x),
    {
        assert(0 <= y < self.h && 0 <= x < self.w);
        assert(self.fcell_ok(y, x, 0));
        assert(self.fcell_ok(y, x, 1));
        let q1 = self.cells@[y * self.w + x]@[0] as int;
        let q2 = self.cells@[y * self.w + x]@[1] as int;
        assert(self.cells@[y * self.w + x]@[0] != self.cells@[y * self.w + x]@[1]);
        assert(self.committed(q1) && self.committed(q2) && q1 != q2 && self.place_of(
            q1,
        ).s_covers(y, x) && self.place_of(q2).s_covers(y, x));
    }
}


impl FixedGrid {
    /// Adjacency reports point at cells of the committed placement, inside
    /// the board.
    pub proof fn lemma_adj_seq_coords(&self, pid: int, k: int)
        requires
            self.wf(),
            self.committed(pid),
            0 <= k <= self.place_of(pid).slen(),
        ensures
            forall|j: int|
                0 <= j < self.adj_seq(pid, k).len() ==> ((#[trigger] self.adj_seq(pid, k)[j]).y
                    as int) < self.spec_h() && (self.adj_seq(pid, k)[j].x as int) < self.spec_w(),
        decreases k,
    {
        if k > 0 {
            self.lemma_adj_seq_coords(pid, k - 1);
            let sp = self.place_of(pid);
            if self.has_adj_at(pid, k - 1) {
                assert(self.move_ok(pid));
                sp.lemma_s_pos_covers(k - 1);
                assert(sp.s_fits(self.spec_h(), self.spec_w()));
                assert forall|j: int|
                    0 <= j < self.adj_seq(pid, k).len() implies ((#[trigger] self.adj_seq(
                    pid,
                    k,
                )[j]).y as int) < self.spec_h() && (self.adj_seq(pid, k)[j].x as int)
                    < self.spec_w() by {
                    if j < self.adj_seq(pid, k - 1).len() {
                        assert(self.adj_seq(pid, k)[j] == self.adj_seq(pid, k - 1)[j]);
                    }
                }
            }
        }
    }
}

} // verus!
