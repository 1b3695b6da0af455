use vstd::prelude::*;
use crate::common::PlacementId;
use crate::fixed_grid::{Eff, FixedGrid};
use crate::placement::{spec_compatible, Placement};
use crate::rng::AbstractRng;
use crate::variant_grid::{places_ok, VariantGrid};
use crate::weighted_selection_tree::{seq_sum, WeightedSelectionTree};

verus! {

/// One committed move of a rollout: the chosen placement id and the ids that
/// its commitment made inadmissible.
pub struct ChosenMove {
    pub place: usize,
    pub excluded: Vec<usize>,
}

/// A rollout's outcome: the committed moves in order, the ids dropped by the
/// adjacency fixup, and the efficiency of the result.
pub struct ChosenSequence {
    pub seq: Vec<ChosenMove>,
    pub removed: Vec<usize>,
    pub eff: Eff,
}

/// The rollout engine. A rollout commits placements drawn by weight until
/// none is admissible, then repairs leftover adjacencies; every surviving
/// pair of placements is compatible.
pub struct Constructor {
    pub h: usize,
    pub w: usize,
    pub nwords: usize,
}

/// Whether the move sequence mentions placement id `c`.
pub open spec fn seq_lists_place(s: Seq<ChosenMove>, c: int) -> bool {
    exists|k: int| 0 <= k < s.len() && ((#[trigger] s[k]).place as int) == c
}

/// Whether some move of the sequence lists `pid` among its exclusions.
pub open spec fn listed_excluded(s: Seq<ChosenMove>, pid: int) -> bool {
    exists|k: int, e: int|
        0 <= k < s.len() && 0 <= e < s[k].excluded@.len() && ((#[trigger] s[k].excluded@[e]) as int)
            == pid
}

/// Whether two placements cover a common cell.
pub open spec fn share_cell(a: Placement, b: Placement) -> bool {
    exists|y: int, x: int| a.spec_covers(y, x) && #[trigger] b.spec_covers(y, x)
}

/// Whether cell `i` of the sequence member at position `j` is also covered by
/// another member.
pub open spec fn cell_shared(ps: Seq<Placement>, s: Seq<ChosenMove>, j: int, i: int) -> bool {
    exists|k: int|
        0 <= k < s.len() && k != j && ps[(#[trigger] s[k]).place as int].spec_covers(
            ps[s[j].place as int].pos_y(i),
            ps[s[j].place as int].pos_x(i),
        )
}

/// How many of the first `i` cells of member `j` another member also covers.
pub open spec fn member_cross(ps: Seq<Placement>, s: Seq<ChosenMove>, j: int, i: int) -> int
    decreases i,
{
    if i <= 0 {
        0
    } else {
        member_cross(ps, s, j, i - 1) + (if cell_shared(ps, s, j, i - 1) {
            1int
        } else {
            0int
        })
    }
}

/// The raw sequence's score: the summed count of shared cells over the first
/// `k` members. On a board whose placements are pairwise compatible each cell
/// carries at most two members, so this equals the board's summed excess
/// occupancy.
pub open spec fn chosen_eff(ps: Seq<Placement>, s: Seq<ChosenMove>, k: int) -> int
    decreases k,
{
    if k <= 0 {
        0
    } else {
        chosen_eff(ps, s, k - 1) + member_cross(ps, s, k - 1, ps[s[k - 1].place as int].wlen())
    }
}

/// The tree and resolution map together hold exactly the admissible
/// placements, each in one of the two.
pub open spec fn sync_ok(
    g: VariantGrid,
    s: WeightedSelectionTree,
    r: WeightedSelectionTree,
) -> bool {
    &&& forall|pid: int|
        0 <= pid < g.spec_places().len() ==> (#[trigger] g.admissible(pid) <==> (
        s.contents().dom().contains(pid as usize) || r.contents().dom().contains(pid as usize)))
    &&& forall|k: usize|
        #[trigger] s.contents().dom().contains(k) ==> !r.contents().dom().contains(k) && (k as int)
            < g.spec_places().len()
    &&& forall|k: usize|
        #[trigger] r.contents().dom().contains(k) ==> !s.contents().dom().contains(k) && (k as int)
            < g.spec_places().len()
}

/// Every committed placement is compatible with every admissible one, and
/// committed placements are no longer admissible.
pub open spec fn frontier_ok(ps: Seq<Placement>, g: VariantGrid, f: FixedGrid) -> bool {
    &&& forall|c: int, a: int|
        #[trigger] f.committed(c) && #[trigger] g.admissible(a) ==> spec_compatible(ps[c], ps[a])
    &&& forall|c: int| #[trigger] f.committed(c) ==> 0 <= c < ps.len() && !g.admissible(c)
}

/// The committed placements are pairwise compatible.
pub open spec fn committed_compat(ps: Seq<Placement>, f: FixedGrid) -> bool {
    forall|c1: int, c2: int|
        #[trigger] f.committed(c1) && #[trigger] f.committed(c2) && c1 != c2 ==> spec_compatible(
            ps[c1],
            ps[c2],
        )
}

/// The fixed grid mirrors the placement table: each committed id carries the
/// footprint of its placement, stamped in commit order.
pub open spec fn fixed_matches(ps: Seq<Placement>, f: FixedGrid) -> bool {
    forall|c: int| #[trigger] f.committed(c) ==> f.place_of(c) == ps[c].span()
}

impl Constructor {
    pub fn new(h: usize, w: usize, nwords: usize) -> (c: Constructor)
        ensures
            c.h == h,
            c.w == w,
            c.spec_nwords() == nwords,
    {
        Constructor { h, w, nwords }
    }

    pub open spec fn spec_nwords(self) -> int {
        self.nwords as int
    }

    /// One Monte-Carlo rollout under the given policy weights. Returns the
    /// raw chosen sequence, the adjacency-repaired sequence, and the repaired
    /// board; every pair of placements surviving on that board is compatible
    /// and free of adjacency violations.
    #[verifier::rlimit(100)]
    #[verifier::spinoff_prover]
    pub fn rollout<R: AbstractRng>(
        &self,
        places: Vec<Placement>,
        policy: &Vec<u64>,
        rng: &mut R,
    ) -> (r: (ChosenSequence, ChosenSequence, FixedGrid))
        requires
            self.h <= 0xFFFF,
            self.w <= 0xFFFF,
            places@.len() <= 0x3FFFFFFF,
            places_ok(places@, self.h as int, self.w as int),
            forall|i: int|
                0 <= i < places@.len() ==> (#[trigger] places@[i]).word.id < self.spec_nwords(),
            crate::sliced_arena::sizes_sum(crate::variant_grid::place_lens(places@))
                <= usize::MAX,
            policy@.len() == places@.len(),
            seq_sum(policy@) <= u64::MAX,
        ensures
            ({
                let ps = places@;
                let raw = r.0;
                let valid = r.1;
                let f = r.2;
                &&& f.wf()
                // the raw sequence: distinct legal ids, committed in order
                &&& forall|k: int|
                    0 <= k < raw.seq@.len() ==> (#[trigger] raw.seq@[k].place as int) < ps.len()
                &&& forall|k1: int, k2: int|
                    0 <= k1 < k2 < raw.seq@.len() ==> (#[trigger] raw.seq@[k1].place) != (
                    #[trigger] raw.seq@[k2].place)
                // the raw sequence is pairwise compatible
                &&& forall|k1: int, k2: int|
                    0 <= k1 < raw.seq@.len() && 0 <= k2 < raw.seq@.len() && k1 != k2
                        ==> spec_compatible(
                        ps[(#[trigger] raw.seq@[k1]).place as int],
                        ps[(#[trigger] raw.seq@[k2]).place as int],
                    )
                // the repaired board commits exactly the valid sequence
                &&& forall|k: int|
                    0 <= k < valid.seq@.len() ==> f.committed((#[trigger] valid.seq@[k].place)
                        as int)
                &&& forall|c: int| #[trigger] f.committed(c) ==> seq_lists_place(valid.seq@, c)
                &&& forall|k1: int, k2: int|
                    0 <= k1 < k2 < valid.seq@.len() ==> (#[trigger] valid.seq@[k1].place) != (
                    #[trigger] valid.seq@[k2].place)
                // the valid sequence stays pairwise compatible
                &&& forall|k1: int, k2: int|
                    0 <= k1 < valid.seq@.len() && 0 <= k2 < valid.seq@.len() && k1 != k2
                        ==> spec_compatible(
                        ps[(#[trigger] valid.seq@[k1]).place as int],
                        ps[(#[trigger] valid.seq@[k2]).place as int],
                    )
                // and carries no adjacency violation on the repaired board
                &&& forall|c: int| #[trigger] f.committed(c) ==> !f.has_adjacency(c)
                &&& forall|c: int|
                    #[trigger] f.committed(c) ==> 0 <= c < ps.len() && f.place_of(c) == ps[c].span()
                // its efficiency is the repaired board's score
                &&& valid.eff.0 == f.spec_eff()
                // nothing is passed over: every placement is chosen or stands
                // in the exclusion list of a chosen move
                &&& forall|pid: int|
                    0 <= pid < ps.len() ==> seq_lists_place(raw.seq@, pid) || listed_excluded(
                        raw.seq@,
                        pid,
                    )
                // each exclusion is justified: incompatible with its chooser,
                // or a placement of the chooser's word
                &&& forall|k: int, e: int|
                    0 <= k < raw.seq@.len() && 0 <= e < raw.seq@[k].excluded@.len() ==> {
                        let q = (#[trigger] raw.seq@[k].excluded@[e]) as int;
                        let c = raw.seq@[k].place as int;
                        &&& 0 <= q < ps.len()
                        &&& (!spec_compatible(ps[c], ps[q]) || ps[q].word.id == ps[c].word.id)
                    }
                // the raw score counts the shared cells of the chosen moves
                &&& raw.eff.0 == chosen_eff(ps, raw.seq@, raw.seq@.len() as int)
            }),
    {
        let ghost ps = places@;
        let n = places.len();
        let nwords = self.nwords;
        // placements of each word, for the same-word sweep of a commitment
        let mut ppw: Vec<Vec<usize>> = Vec::new();
        let mut wi: usize = 0;
        while wi < nwords
            invariant
                wi <= nwords,
                ppw@.len() == wi,
                forall|a: int| 0 <= a < wi ==> (#[trigger] ppw@[a])@.len() == 0,
            decreases nwords - wi,
        {
            ppw.push(Vec::new());
            wi = wi + 1;
        }
        let mut pid: usize = 0;
        while pid < n
            invariant
                pid <= n,
                n == ps.len(),
                places@ == ps,
                ppw@.len() == self.spec_nwords(),
                places_ok(ps, self.h as int, self.w as int),
                forall|i: int|
                    0 <= i < ps.len() ==> (#[trigger] ps[i]).word.id < self.spec_nwords(),
                forall|a: int, b: int|
                    0 <= a < ppw@.len() && 0 <= b < (#[trigger] ppw@[a])@.len() ==> {
                        let q = (#[trigger] ppw@[a]@[b]) as int;
                        &&& 0 <= q < pid
                        &&& ps[q].word.id == a
                    },
                forall|q: int|
                    0 <= q < pid ==> (#[trigger] ppw@[ps[q].word.id as int])@.contains(q as usize),
            decreases n - pid,
        {
            let wid = places[pid].word.id;
            let ghost ppw0 = ppw@;
            let mut row = crate::variant_grid::copy_row(&ppw[wid]);
            row.push(pid);
            ppw.set(wid, row);
            proof {
                assert forall|q: int|
                    0 <= q < pid + 1 implies (#[trigger] ppw@[ps[q].word.id as int])@.contains(
                    q as usize,
                ) by {
                    let a = ps[q].word.id as int;
                    if q == pid as int {
                        assert(ppw@[a]@[ppw@[a]@.len() - 1] == q as usize);
                    } else {
                        if a == wid as int {
                            let b = choose|b: int|
                                0 <= b < ppw0[a]@.len() && (#[trigger] ppw0[a]@[b]) == q as usize;
                            assert(ppw@[a]@[b] == q as usize);
                        } else {
                            assert(ppw@[a]@ == ppw0[a]@);
                        }
                    }
                }
            }
            pid = pid + 1;
        }
        // policy-weighted selection tree over every placement
        let mut items: Vec<(usize, u64)> = Vec::new();
        let mut k: usize = 0;
        while k < n
            invariant
                k <= n,
                n == policy@.len(),
                items@.len() == k,
                forall|a: int| 0 <= a < k ==> (#[trigger] items@[a]) == (a as usize, policy@[a]),
            decreases n - k,
        {
            items.push((k, policy[k]));
            k = k + 1;
        }
        proof {
            assert(items@.map_values(|p: (usize, u64)| p.1) =~= policy@);
        }
        let mut tree = WeightedSelectionTree::new(&items, n);
        let empty_items: Vec<(usize, u64)> = Vec::new();
        let mut rmap = WeightedSelectionTree::new(&empty_items, n);
        let ghost w0 = seq_sum(policy@);
        let mut grid = VariantGrid::new(places, self.h, self.w);
        let mut fixed = FixedGrid::new(self.h, self.w, n);
        let mut seq: Vec<ChosenMove> = Vec::new();
        // resolver bookkeeping: adjacency ids per placement, and a
        // live-resolver counter per adjacency
        let mut resolver_adjs: Vec<Vec<usize>> = Vec::new();
        let mut c2: usize = 0;
        while c2 < n
            invariant
                c2 <= n,
                resolver_adjs@.len() == c2,
            decreases n - c2,
        {
            resolver_adjs.push(Vec::new());
            c2 = c2 + 1;
        }
        let mut adj_counters: Vec<usize> = Vec::new();
        proof {
            tree.lemma_dom_bounded();
            rmap.lemma_dom_bounded();
            assert(sync_ok(grid, tree, rmap)) by {
                assert forall|pid2: int|
                    0 <= pid2 < grid.spec_places().len() implies (#[trigger] grid.admissible(pid2)
                    <==> (tree.contents().dom().contains(pid2 as usize)
                    || rmap.contents().dom().contains(pid2 as usize))) by {
                    assert(items@[pid2] == (pid2 as usize, policy@[pid2]));
                    assert(tree.contents().contains_pair(items@[pid2].0, items@[pid2].1));
                }
            }
            tree.lemma_total_is_weight_sum();
            rmap.lemma_total_is_weight_sum();
        }
        while tree.len() > 0 || rmap.len() > 0
            invariant
                n == ps.len(),
                grid.spec_places() == ps,
                grid.spec_h() == self.h,
                grid.spec_w() == self.w,
                self.h <= 0xFFFF,
                self.w <= 0xFFFF,
                n <= 0x3FFFFFFF,
                places_ok(ps, self.h as int, self.w as int),
                forall|i: int|
                    0 <= i < ps.len() ==> (#[trigger] ps[i]).word.id < self.spec_nwords(),
                grid.wf(),
                fixed.wf(),
                tree.wf(),
                rmap.wf(),
                tree.spec_key_space() == n,
                rmap.spec_key_space() == n,
                fixed.spec_h() == self.h,
                fixed.spec_w() == self.w,
                fixed.key_space() == n,
                sync_ok(grid, tree, rmap),
                frontier_ok(ps, grid, fixed),
                committed_compat(ps, fixed),
                fixed_matches(ps, fixed),
                tree.total_weight() + rmap.total_weight() <= w0,
                w0 <= u64::MAX,
                fixed.spec_counter() + tree.spec_len() + rmap.spec_len() <= n,
                ppw@.len() == self.spec_nwords(),
                forall|a: int, b: int|
                    0 <= a < ppw@.len() && 0 <= b < (#[trigger] ppw@[a])@.len() ==> {
                        let q = (#[trigger] ppw@[a]@[b]) as int;
                        &&& 0 <= q < n
                        &&& ps[q].word.id == a
                    },
                forall|q: int|
                    0 <= q < n ==> (#[trigger] ppw@[ps[q].word.id as int])@.contains(q as usize),
                resolver_adjs@.len() == n,
                seq@.len() == fixed.spec_counter(),
                forall|k2: int|
                    0 <= k2 < seq@.len() ==> fixed.committed((#[trigger] seq@[k2].place) as int)
                        && fixed.idx_of(seq@[k2].place as int) == k2,
                forall|pid: int|
                    0 <= pid < n ==> grid.admissible(pid) || seq_lists_place(seq@, pid)
                        || listed_excluded(seq@, pid),
                forall|k2: int, e: int|
                    0 <= k2 < seq@.len() && 0 <= e < seq@[k2].excluded@.len() ==> {
                        let q = (#[trigger] seq@[k2].excluded@[e]) as int;
                        let c = seq@[k2].place as int;
                        &&& 0 <= q < n
                        &&& (!spec_compatible(ps[c], ps[q]) || ps[q].word.id == ps[c].word.id)
                    },
            decreases tree.spec_len() + rmap.spec_len(),
        {
            // draw a move by weight, resolvers first
            let ghost head_sum = tree.spec_len() + rmap.spec_len();
            let chosen: usize;
            if rmap.len() > 0 {
                let t = rmap.total();
                let x = if t == 0 {
                    0
                } else {
                    rng.gen_u64(t)
                };
                let sel = rmap.select_remove(x);
                chosen = match sel {
                    Some((kk, _)) => kk,
                    None => 0,
                };
                proof {
                    rmap.lemma_dom_bounded();
                }
            } else {
                let t = tree.total();
                let x = if t == 0 {
                    0
                } else {
                    rng.gen_u64(t)
                };
                let sel = tree.select_remove(x);
                chosen = match sel {
                    Some((kk, _)) => kk,
                    None => 0,
                };
                proof {
                    tree.lemma_dom_bounded();
                }
            }
            proof {
                assert(grid.admissible(chosen as int));
                // the committed board is compatible with the drawn move
                assert forall|c: int| #[trigger] fixed.committed(c) implies spec_compatible(
                    ps[c],
                    ps[chosen as int],
                ) by {}
                assert(!fixed.committed(chosen as int));
            }
            grid.remove(PlacementId(chosen));
            proof {
                assert(sync_ok(grid, tree, rmap)) by {
                    assert forall|pid2: int|
                        0 <= pid2 < grid.spec_places().len() implies (#[trigger] grid.admissible(
                        pid2,
                    ) <==> (tree.contents().dom().contains(pid2 as usize)
                        || rmap.contents().dom().contains(pid2 as usize))) by {}
                }
            }
            let ghost sum_sel = tree.spec_len() + rmap.spec_len();
            proof {
                assert(sum_sel < head_sum);
                assert(sum_sel <= n - 1);
            }
            let ghost g_head = grid;
            let mut excl: Vec<usize> = Vec::new();
            // sweep the other placements of the chosen word
            let wid = grid.place_at(chosen).word.id;
            let wrow = crate::variant_grid::copy_row(&ppw[wid]);
            let m = wrow.len();
            let mut a: usize = 0;
            while a < m
                invariant
                    a <= m,
                    m == wrow@.len(),
                    n == ps.len(),
                    grid.spec_places() == ps,
                    grid.spec_h() == self.h,
                    grid.spec_w() == self.w,
                    grid.wf(),
                    tree.wf(),
                    rmap.wf(),
                    tree.spec_key_space() == n,
                    rmap.spec_key_space() == n,
                    sync_ok(grid, tree, rmap),
                    frontier_ok(ps, grid, fixed),
                    tree.total_weight() + rmap.total_weight() <= w0,
                    w0 <= u64::MAX,
                    tree.spec_len() + rmap.spec_len() <= sum_sel,
                    sum_sel <= n - 1,
                    wid == ps[chosen as int].word.id,
                    forall|b2: int|
                        0 <= b2 < wrow@.len() ==> (#[trigger] wrow@[b2]) < n && ps[wrow@[b2]
                            as int].word.id == wid,
                    forall|b2: int|
                        0 <= b2 < a ==> !grid.admissible((#[trigger] wrow@[b2]) as int),
                    !grid.admissible(chosen as int),
                    forall|q: int|
                        #[trigger] grid.admissible(q) ==> g_head.admissible(q),
                    forall|pid2: int|
                        0 <= pid2 < n ==> grid.admissible(pid2) || seq_lists_place(seq@, pid2)
                            || listed_excluded(seq@, pid2) || pid2 == chosen as int
                            || excl@.contains(pid2 as usize),
                    forall|e: int|
                        0 <= e < excl@.len() ==> {
                            let q = (#[trigger] excl@[e]) as int;
                            &&& 0 <= q < n
                            &&& (!spec_compatible(ps[chosen as int], ps[q]) || ps[q].word.id == ps[
                                chosen as int].word.id)
                        },
                    (chosen as int) < n,
                decreases m - a,
            {
                let q = wrow[a];
                if grid.contains(PlacementId(q)) {
                    let ghost excl0 = excl@;
                    grid.remove(PlacementId(q));
                    if tree.contains_key(q) {
                        tree.remove(q);
                    } else {
                        rmap.remove(q);
                    }
                    excl.push(q);
                    proof {
                        assert(ps[q as int].word.id == ps[chosen as int].word.id) by {
                            assert(ps[wrow@[a as int] as int].word.id == wid);
                            assert(ps[chosen as int].word.id == wid);
                        }
                        assert forall|pid2: int|
                            0 <= pid2 < n implies grid.admissible(pid2) || seq_lists_place(
                            seq@,
                            pid2,
                        ) || listed_excluded(seq@, pid2) || pid2 == chosen as int
                            || excl@.contains(pid2 as usize) by {
                            if pid2 == q as int {
                                assert(excl@[excl@.len() - 1] == q);
                            } else if excl0.contains(pid2 as usize) {
                                let e = choose|e: int|
                                    0 <= e < excl0.len() && (#[trigger] excl0[e]) == pid2 as usize;
                                assert(excl@[e] == pid2 as usize);
                            }
                        }
                    }
                }
                a = a + 1;
            }
            // remove everything newly incompatible
            let ghost g_sweep = grid;
            let inc = grid.remove_incompat(PlacementId(chosen));
            proof {
                grid.lemma_admissible_bounds();
            }
            let mi = inc.len();
            let mut b: usize = 0;
            proof {
                assert forall|k2: int|
                    0 <= k2 < inc@.len() implies tree.contents().dom().contains(
                    (#[trigger] inc@[k2]).0,
                ) || rmap.contents().dom().contains(inc@[k2].0) by {
                    assert(g_sweep.admissible(inc@[k2].0 as int));
                }
                assert forall|pid2: int|
                    0 <= pid2 < n implies grid.admissible(pid2) || seq_lists_place(seq@, pid2)
                    || listed_excluded(seq@, pid2) || pid2 == chosen as int || excl@.contains(
                    pid2 as usize,
                ) || exists|k2: int|
                    0 <= k2 < inc@.len() && ((#[trigger] inc@[k2]).0 as int) == pid2 by {
                    if g_sweep.admissible(pid2) && !grid.admissible(pid2) {
                        assert(grid.rm_complete(g_sweep, inc@));
                        let k2 = choose|k2: int|
                            0 <= k2 < inc@.len() && ((#[trigger] inc@[k2]).0 as int) == pid2;
                    }
                }
                assert forall|q: int|
                    0 <= q < n implies ((#[trigger] grid.admissible(q)) <==> (
                tree.contents().dom().contains(q as usize) || rmap.contents().dom().contains(
                    q as usize,
                )) && !exists|k2: int|
                    0 <= k2 < inc@.len() && (#[trigger] inc@[k2]).0 as int == q) by {
                    if grid.admissible(q) {
                        assert(g_sweep.admissible(q));
                        if exists|k2: int|
                            0 <= k2 < inc@.len() && (#[trigger] inc@[k2]).0 as int == q {
                            let k2 = choose|k2: int|
                                0 <= k2 < inc@.len() && (#[trigger] inc@[k2]).0 as int == q;
                        }
                    } else {
                        if tree.contents().dom().contains(q as usize)
                            || rmap.contents().dom().contains(q as usize) {
                            assert(g_sweep.admissible(q));
                        }
                    }
                }
            }
            while b < mi
                invariant
                    b <= mi,
                    mi == inc@.len(),
                    n == ps.len(),
                    grid.spec_places() == ps,
                    tree.wf(),
                    rmap.wf(),
                    tree.spec_key_space() == n,
                    rmap.spec_key_space() == n,
                    tree.total_weight() + rmap.total_weight() <= w0,
                    w0 <= u64::MAX,
                    tree.spec_len() + rmap.spec_len() <= sum_sel,
                    sum_sel <= n - 1,
                    forall|k2: int|
                        0 <= k2 < inc@.len() ==> ((#[trigger] inc@[k2]).0 as int) < n
                            && !grid.admissible(inc@[k2].0 as int),
                    forall|k1: int, k2: int|
                        0 <= k1 < k2 < inc@.len() ==> (#[trigger] inc@[k1]).0 != (
                        #[trigger] inc@[k2]).0,
                    forall|k2: usize|
                        #[trigger] tree.contents().dom().contains(k2)
                            ==> !rmap.contents().dom().contains(k2) && (k2 as int) < n,
                    forall|k2: usize|
                        #[trigger] rmap.contents().dom().contains(k2)
                            ==> !tree.contents().dom().contains(k2) && (k2 as int) < n,
                    forall|q: int|
                        0 <= q < n ==> ((#[trigger] grid.admissible(q)) <==> (
                        tree.contents().dom().contains(q as usize)
                            || rmap.contents().dom().contains(q as usize)) && !exists|k2: int|
                            b <= k2 < inc@.len() && (#[trigger] inc@[k2]).0 as int == q),
                    forall|k2: int|
                        b <= k2 < inc@.len() ==> tree.contents().dom().contains(
                            (#[trigger] inc@[k2]).0,
                        ) || rmap.contents().dom().contains(inc@[k2].0),
                    (chosen as int) < n,
                    grid.rm_sound(g_sweep, ps[chosen as int], chosen as int, inc@),
                    !g_sweep.admissible(chosen as int),
                    g_sweep.spec_places() == ps,
                    forall|pid2: int|
                        0 <= pid2 < n ==> grid.admissible(pid2) || seq_lists_place(seq@, pid2)
                            || listed_excluded(seq@, pid2) || pid2 == chosen as int
                            || excl@.contains(pid2 as usize) || exists|k2: int|
                            b <= k2 < inc@.len() && ((#[trigger] inc@[k2]).0 as int) == pid2,
                    forall|e: int|
                        0 <= e < excl@.len() ==> {
                            let q = (#[trigger] excl@[e]) as int;
                            &&& 0 <= q < n
                            &&& (!spec_compatible(ps[chosen as int], ps[q]) || ps[q].word.id == ps[
                                chosen as int].word.id)
                        },
                decreases mi - b,
            {
                let q = inc[b].0;
                proof {
                    assert(tree.contents().dom().contains(q) || rmap.contents().dom().contains(
                        q,
                    )) by {
                        assert(0 <= b < inc@.len() && (inc@[b as int]).0 == q);
                    }
                }
                if tree.contains_key(q) {
                    tree.remove(q);
                } else {
                    rmap.remove(q);
                }
                let ghost excl0 = excl@;
                excl.push(q);
                proof {
                    assert(!spec_compatible(ps[chosen as int], ps[q as int])) by {
                        assert(grid.rm_sound(g_sweep, ps[chosen as int], chosen as int, inc@));
                        assert(0 <= (b as int) < inc@.len() && inc@[b as int].0 == q);
                        assert(g_sweep.admissible(q as int));
                        assert(q as int != chosen as int);
                    }
                    assert forall|e: int|
                        0 <= e < excl@.len() implies {
                            let q2 = (#[trigger] excl@[e]) as int;
                            &&& 0 <= q2 < n
                            &&& (!spec_compatible(ps[chosen as int], ps[q2]) || ps[q2].word.id
                                == ps[chosen as int].word.id)
                        } by {
                        if e < excl0.len() {
                            assert(excl@[e] == excl0[e]);
                        } else {
                            assert(excl@[e] == q);
                        }
                    }
                    assert forall|pid2: int|
                        0 <= pid2 < n implies grid.admissible(pid2) || seq_lists_place(seq@, pid2)
                        || listed_excluded(seq@, pid2) || pid2 == chosen as int || excl@.contains(
                        pid2 as usize,
                    ) || exists|k2: int|
                        b + 1 <= k2 < inc@.len() && ((#[trigger] inc@[k2]).0 as int) == pid2 by {
                        if pid2 == q as int {
                            assert(excl@[excl@.len() - 1] == q);
                        } else {
                            if excl0.contains(pid2 as usize) {
                                let e = choose|e: int|
                                    0 <= e < excl0.len() && (#[trigger] excl0[e]) == pid2 as usize;
                                assert(excl@[e] == pid2 as usize);
                            } else {
                                if exists|k2: int|
                                    b <= k2 < inc@.len() && ((#[trigger] inc@[k2]).0 as int)
                                        == pid2 {
                                    let k2 = choose|k2: int|
                                        b <= k2 < inc@.len() && ((#[trigger] inc@[k2]).0 as int)
                                            == pid2;
                                    assert(k2 != b);
                                }
                            }
                        }
                    }
                    assert forall|k2: int|
                        b + 1 <= k2 < inc@.len() implies tree.contents().dom().contains(
                        (#[trigger] inc@[k2]).0,
                    ) || rmap.contents().dom().contains(inc@[k2].0) by {
                        assert(inc@[k2].0 != q);
                    }
                    assert forall|q2: int|
                        0 <= q2 < n implies ((#[trigger] grid.admissible(q2)) <==> (
                    tree.contents().dom().contains(q2 as usize) || rmap.contents().dom().contains(
                        q2 as usize,
                    )) && !exists|k2: int|
                        b + 1 <= k2 < inc@.len() && (#[trigger] inc@[k2]).0 as int == q2) by {
                        if q2 == q as int {
                        } else {
                            if exists|k2: int|
                                b <= k2 < inc@.len() && (#[trigger] inc@[k2]).0 as int == q2 {
                                let k2 = choose|k2: int|
                                    b <= k2 < inc@.len() && (#[trigger] inc@[k2]).0 as int == q2;
                                assert(k2 != b);
                                assert(b + 1 <= k2 < inc@.len() && inc@[k2].0 as int == q2);
                            } else {
                                if exists|k2: int|
                                    b + 1 <= k2 < inc@.len() && (#[trigger] inc@[k2]).0 as int
                                        == q2 {
                                    let k2 = choose|k2: int|
                                        b + 1 <= k2 < inc@.len() && (#[trigger] inc@[k2]).0 as int
                                            == q2;
                                    assert(b <= k2 < inc@.len() && inc@[k2].0 as int == q2);
                                }
                            }
                        }
                    }
                }
                b = b + 1;
            }
            proof {
                // the trees again hold exactly the admissible placements
                assert(sync_ok(grid, tree, rmap)) by {
                    assert forall|pid2: int|
                        0 <= pid2 < grid.spec_places().len() implies (#[trigger] grid.admissible(
                        pid2,
                    ) <==> (tree.contents().dom().contains(pid2 as usize)
                        || rmap.contents().dom().contains(pid2 as usize))) by {
                        if !grid.admissible(pid2) {
                            if tree.contents().dom().contains(pid2 as usize)
                                || rmap.contents().dom().contains(pid2 as usize) {
                                assert(!exists|k2: int|
                                    mi <= k2 < inc@.len() && (#[trigger] inc@[k2]).0 as int
                                        == pid2);
                            }
                        }
                    }
                }
                // everything still admissible is compatible with the chosen move
                assert forall|q: int| #[trigger] grid.admissible(q) implies spec_compatible(
                    ps[chosen as int],
                    ps[q],
                ) by {
                    assert(grid.rm_sound(g_sweep, ps[chosen as int], chosen as int, inc@));
                    assert(spec_compatible(ps[chosen as int], ps[q]) || ps[q].word.id == ps[
                        chosen as int].word.id);
                    if ps[q].word.id == ps[chosen as int].word.id {
                        // the word sweep eliminated every placement of that word
                        assert(ppw@[wid as int]@.contains(q as usize));
                        let b2 = choose|b2: int|
                            0 <= b2 < ppw@[wid as int]@.len() && (#[trigger] ppw@[wid as int]@[b2])
                                == q as usize;
                        assert(wrow@[b2] == q as usize);
                        assert(!g_sweep.admissible(q));
                    }
                }
            }
            // commit the chosen move on the board
            let span = grid.place_at(chosen).to_span();
            proof {
                let cp = ps[chosen as int];
                cp.lemma_span_covers();
                assert(span == cp.span());
                assert forall|y: int, x: int| #[trigger]
                    span.s_covers(y, x) implies fixed.count_at(y, x) <= 1 by {
                    if fixed.count_at(y, x) >= 2 {
                        fixed.lemma_two_at_cell(y, x);
                        let (q1, q2) = choose|q1: int, q2: int|
                            #[trigger] fixed.committed(q1) && #[trigger] fixed.committed(q2) && q1
                                != q2 && fixed.place_of(q1).s_covers(y, x) && fixed.place_of(
                                q2,
                            ).s_covers(y, x);
                        ps[q1].lemma_span_covers();
                        ps[q2].lemma_span_covers();
                        crate::placement::lemma_cell_capacity(ps[q1], ps[q2], cp, y, x);
                    }
                }
            }
            fixed.place(span);
            proof {
                // the new committed set stays pairwise compatible and stays
                // compatible with everything still admissible
                assert(frontier_ok(ps, grid, fixed)) by {
                    assert forall|c: int, a2: int|
                        #[trigger] fixed.committed(c) && #[trigger] grid.admissible(
                            a2,
                        ) implies spec_compatible(ps[c], ps[a2]) by {
                        if c == chosen as int {
                        } else {
                            assert(g_head.admissible(a2) || grid.admissible(a2));
                        }
                    }
                }
                assert(committed_compat(ps, fixed)) by {
                    assert forall|c1: int, c2: int|
                        #[trigger] fixed.committed(c1) && #[trigger] fixed.committed(c2) && c1
                            != c2 implies spec_compatible(ps[c1], ps[c2]) by {
                        if c1 == chosen as int {
                            crate::placement::lemma_compatible_symmetric(
                                ps[c2],
                                ps[chosen as int],
                            );
                        } else if c2 == chosen as int {
                        } else {
                        }
                    }
                }
            }
            // move the resolvers of each fresh adjacency out of the main tree
            let adjs = fixed.adjacencies_of(chosen);
            proof {
                fixed.lemma_adj_seq_coords(chosen as int, fixed.place_of(chosen as int).slen());
            }
            let na = adjs.len();
            let mut ai: usize = 0;
            while ai < na
                invariant
                    ai <= na,
                    na == adjs@.len(),
                    n == ps.len(),
                    grid.spec_places() == ps,
                    grid.wf(),
                    grid.spec_h() == self.h,
                    grid.spec_w() == self.w,
                    self.h <= 0xFFFF,
                    self.w <= 0xFFFF,
                    tree.wf(),
                    rmap.wf(),
                    tree.spec_key_space() == n,
                    rmap.spec_key_space() == n,
                    n <= 0x3FFFFFFF,
                    sync_ok(grid, tree, rmap),
                    tree.total_weight() + rmap.total_weight() <= w0,
                    w0 <= u64::MAX,
                    tree.spec_len() + rmap.spec_len() <= sum_sel,
                    sum_sel <= n - 1,
                    resolver_adjs@.len() == n,
                    forall|k2: int|
                        0 <= k2 < adjs@.len() ==> ((#[trigger] adjs@[k2]).y as int) < self.h && (
                        adjs@[k2].x as int) < self.w,
                decreases na - ai,
            {
                let adj = adjs[ai];
                let aid = adj_counters.len();
                adj_counters.push(0);
                let cell = crate::variant_grid::copy_row(grid.iter_at(adj.y, adj.x));
                proof {
                    grid.lemma_cell_elems(adj.y as int, adj.x as int);
                }
                let nc = cell.len();
                let mut ci: usize = 0;
                while ci < nc
                    invariant
                        ci <= nc,
                        nc == cell@.len(),
                        n == ps.len(),
                        grid.spec_places() == ps,
                        grid.wf(),
                        tree.wf(),
                        rmap.wf(),
                        tree.spec_key_space() == n,
                        rmap.spec_key_space() == n,
                        n <= 0x3FFFFFFF,
                        sync_ok(grid, tree, rmap),
                        tree.total_weight() + rmap.total_weight() <= w0,
                        w0 <= u64::MAX,
                        tree.spec_len() + rmap.spec_len() <= sum_sel,
                    sum_sel <= n - 1,
                        resolver_adjs@.len() == n,
                        aid < adj_counters@.len(),
                        forall|k2: int| 0 <= k2 < cell@.len() ==> (#[trigger] cell@[k2]) < n,
                    decreases nc - ci,
                {
                    let q = cell[ci];
                    let cnt = adj_counters[aid];
                    if cnt < usize::MAX {
                        adj_counters.set(aid, cnt + 1);
                    }
                    let mut row = crate::variant_grid::copy_row(&resolver_adjs[q]);
                    if row.len() < usize::MAX {
                        row.push(aid);
                    }
                    resolver_adjs.set(q, row);
                    if tree.contains_key(q) {
                        let wt = tree.remove(q);
                        proof {
                            assert(rmap.total_weight() + wt <= w0);
                            assert(rmap.spec_len() + 1 <= sum_sel);
                        }
                        rmap.insert(q, wt);
                    }
                    ci = ci + 1;
                }
                // an adjacency left with no resolver stays on the board and
                // falls to the repair pass, which deletes its offenders; the
                // counter records how many resolvers it started with
                ai = ai + 1;
            }
            let ghost seq0 = seq@;
            seq.push(ChosenMove { place: chosen, excluded: excl });
            proof {
                assert forall|k2: int|
                    0 <= k2 < seq@.len() implies fixed.committed((#[trigger] seq@[k2].place) as int)
                    && fixed.idx_of(seq@[k2].place as int) == k2 by {}
                let last = seq@.len() - 1;
                assert forall|pid2: int|
                    0 <= pid2 < n implies grid.admissible(pid2) || seq_lists_place(seq@, pid2)
                    || listed_excluded(seq@, pid2) by {
                    if !grid.admissible(pid2) {
                        if pid2 == chosen as int {
                            assert((seq@[last].place as int) == pid2);
                        } else if seq@[last].excluded@.contains(pid2 as usize) {
                            let e = choose|e: int|
                                0 <= e < seq@[last].excluded@.len()
                                    && (#[trigger] seq@[last].excluded@[e]) == pid2 as usize;
                            assert(0 <= e < seq@[last].excluded@.len() && (seq@[last].excluded@[e]
                                as int) == pid2);
                        } else if seq_lists_place(seq0, pid2) {
                            let k2 = choose|k2: int|
                                0 <= k2 < seq0.len() && ((#[trigger] seq0[k2]).place as int)
                                    == pid2;
                            assert((seq@[k2].place as int) == pid2);
                        } else if listed_excluded(seq0, pid2) {
                            let (k2, e) = choose|k2: int, e: int|
                                0 <= k2 < seq0.len() && 0 <= e < seq0[k2].excluded@.len() && ((
                                #[trigger] seq0[k2].excluded@[e]) as int) == pid2;
                            assert(0 <= k2 < seq@.len() && 0 <= e < seq@[k2].excluded@.len() && (
                            seq@[k2].excluded@[e] as int) == pid2);
                        }
                    }
                }
                assert forall|k2: int, e: int|
                    0 <= k2 < seq@.len() && 0 <= e < seq@[k2].excluded@.len() implies {
                        let q = (#[trigger] seq@[k2].excluded@[e]) as int;
                        let c = seq@[k2].place as int;
                        &&& 0 <= q < n
                        &&& (!spec_compatible(ps[c], ps[q]) || ps[q].word.id == ps[c].word.id)
                    } by {
                    if k2 < last {
                        assert(seq@[k2] == seq0[k2]);
                    }
                }
            }
            proof {
                assert(tree.spec_len() + rmap.spec_len() < head_sum);
            }
        }
        // both pools are drained: everything was chosen or excluded
        proof {
            tree.lemma_empty_no_dom();
            rmap.lemma_empty_no_dom();
            assert forall|pid: int|
                0 <= pid < n implies seq_lists_place(seq@, pid) || listed_excluded(seq@, pid) by {
                assert(!grid.admissible(pid));
            }
            fixed.lemma_committed_bounds();
        }
        let ns0 = seq.len();
        let mut raw_acc: i64 = 0;
        let mut j: usize = 0;
        while j < ns0
            invariant
                j <= ns0,
                ns0 == seq@.len(),
                ns0 <= n,
                n == ps.len(),
                n <= 0x3FFFFFFF,
                grid.spec_places() == ps,
                self.h <= 0xFFFF,
                self.w <= 0xFFFF,
                places_ok(ps, self.h as int, self.w as int),
                forall|k2: int|
                    0 <= k2 < seq@.len() ==> ((#[trigger] seq@[k2].place) as int) < n,
                raw_acc == chosen_eff(ps, seq@, j as int),
                0 <= raw_acc <= j * 0xFFFF,
            decreases ns0 - j,
        {
            let pj = seq[j].place;
            let sp = grid.place_at(pj).to_span();
            proof {
                ps[pj as int].lemma_span_covers();
                assert(sp.slen() <= 0xFFFF) by {
                    assert(ps[pj as int].fits(self.h as int, self.w as int));
                }
            }
            let len = sp.len;
            let mut cnt: usize = 0;
            let mut i: usize = 0;
            while i < len
                invariant
                    i <= len,
                    len == sp.slen(),
                    sp.s_wf(),
                    j < ns0,
                    ns0 == seq@.len(),
                    n == ps.len(),
                    grid.spec_places() == ps,
                    places_ok(ps, self.h as int, self.w as int),
                    (pj as int) < n,
                    pj == seq@[j as int].place,
                    sp == ps[pj as int].span(),
                    forall|k2: int|
                        0 <= k2 < seq@.len() ==> ((#[trigger] seq@[k2].place) as int) < n,
                    cnt == member_cross(ps, seq@, j as int, i as int),
                    cnt <= i,
                decreases len - i,
            {
                let (y, x) = sp.s_pos_at(i);
                proof {
                    ps[pj as int].lemma_span_covers();
                    assert(y as int == ps[pj as int].pos_y(i as int));
                    assert(x as int == ps[pj as int].pos_x(i as int));
                }
                let mut shared = false;
                let mut k: usize = 0;
                while k < ns0
                    invariant
                        k <= ns0,
                        ns0 == seq@.len(),
                        n == ps.len(),
                        grid.spec_places() == ps,
                        places_ok(ps, self.h as int, self.w as int),
                        j < ns0,
                        forall|k2: int|
                            0 <= k2 < seq@.len() ==> ((#[trigger] seq@[k2].place) as int) < n,
                        shared == exists|k2: int|
                            0 <= k2 < k && k2 != j as int && ps[(#[trigger] seq@[k2]).place
                                as int].spec_covers(y as int, x as int),
                    decreases ns0 - k,
                {
                    if k != j {
                        if grid.place_at(seq[k].place).contains(y, x) {
                            shared = true;
                            proof {
                                assert(ps[(seq@[k as int]).place as int].spec_covers(
                                    y as int,
                                    x as int,
                                ));
                            }
                        }
                    }
                    k = k + 1;
                }
                proof {
                    assert(shared == cell_shared(ps, seq@, j as int, i as int)) by {
                        if shared {
                            let k2 = choose|k2: int|
                                0 <= k2 < ns0 && k2 != j as int && ps[(#[trigger] seq@[k2]).place
                                    as int].spec_covers(y as int, x as int);
                            assert(ps[seq@[k2].place as int].spec_covers(
                                ps[seq@[j as int].place as int].pos_y(i as int),
                                ps[seq@[j as int].place as int].pos_x(i as int),
                            ));
                        } else {
                            if cell_shared(ps, seq@, j as int, i as int) {
                                let k2 = choose|k2: int|
                                    0 <= k2 < seq@.len() && k2 != j as int
                                        && ps[(#[trigger] seq@[k2]).place as int].spec_covers(
                                        ps[seq@[j as int].place as int].pos_y(i as int),
                                        ps[seq@[j as int].place as int].pos_x(i as int),
                                    );
                            }
                        }
                    }
                }
                if shared {
                    cnt = cnt + 1;
                }
                i = i + 1;
            }
            raw_acc = raw_acc + (cnt as i64);
            j = j + 1;
        }
        proof {
            assert(chosen_eff(ps, seq@, seq@.len() as int) == raw_acc);
        }
        let raw_eff = Eff(raw_acc);
        let ghost pre_fix = fixed;
        let ghost seq_pre = seq@;
        proof {
            // the raw sequence is pairwise compatible: its entries are the
            // committed placements
            assert forall|k1: int, k2: int|
                0 <= k1 < seq@.len() && 0 <= k2 < seq@.len() && k1 != k2 implies spec_compatible(
                ps[(seq@[k1]).place as int],
                ps[(seq@[k2]).place as int],
            ) by {
                assert(fixed.committed(seq@[k1].place as int));
                assert(fixed.committed(seq@[k2].place as int));
                assert(seq@[k1].place != seq@[k2].place) by {
                    if seq@[k1].place == seq@[k2].place {
                        assert(fixed.idx_of(seq@[k1].place as int) == k1);
                        assert(fixed.idx_of(seq@[k2].place as int) == k2);
                    }
                }
            }
            assert forall|k1: int, k2: int|
                0 <= k1 < k2 < seq@.len() implies (seq@[k1]).place != (seq@[k2]).place by {
                assert(fixed.idx_of(seq@[k1].place as int) == k1);
                assert(fixed.idx_of(seq@[k2].place as int) == k2);
            }
        }
        let (retained, removed, valid_eff) = fixed.fixup_adjacent(rng);
        proof {
            // survivors stay pairwise compatible
            assert forall|c1: int, c2: int|
                #[trigger] fixed.committed(c1) && #[trigger] fixed.committed(c2) && c1
                    != c2 implies spec_compatible(ps[c1], ps[c2]) by {
                assert(pre_fix.committed(c1) && pre_fix.committed(c2));
            }
        }
        // rebuild the surviving moves in commit order
        let mut valid_moves: Vec<ChosenMove> = Vec::new();
        let nr = retained.len();
        let mut vi: usize = 0;
        while vi < nr
            invariant
                vi <= nr,
                nr == retained@.len(),
                n == ps.len(),
                fixed.wf(),
                forall|k2: int|
                    0 <= k2 < retained@.len() ==> fixed.committed(
                        (#[trigger] retained@[k2]) as int,
                    ),
                forall|k1: int, k2: int|
                    0 <= k1 < k2 < retained@.len() ==> fixed.idx_of(retained@[k1] as int)
                        < fixed.idx_of(retained@[k2] as int),
                valid_moves@.len() == vi,
                forall|k2: int|
                    0 <= k2 < vi ==> (#[trigger] valid_moves@[k2].place) == retained@[k2],
            decreases nr - vi,
        {
            let rid = retained[vi];
            // recover the exclusion list recorded when this move was chosen
            let mut ex: Vec<usize> = Vec::new();
            let mut sk: usize = 0;
            let ns = seq.len();
            let mut found = false;
            while sk < ns && !found
                invariant
                    sk <= ns,
                    ns == seq@.len(),
                decreases ns - sk,
            {
                if seq[sk].place == rid {
                    ex = crate::variant_grid::copy_row(&seq[sk].excluded);
                    found = true;
                }
                sk = sk + 1;
            }
            valid_moves.push(ChosenMove { place: rid, excluded: ex });
            vi = vi + 1;
        }
        proof {
            // each survivor appears once in the rebuilt sequence
            assert forall|c: int| #[trigger] fixed.committed(c) implies seq_lists_place(
                valid_moves@,
                c,
            ) by {
                assert(crate::fixed_grid::lists_id(retained@, c));
                let k = choose|k: int|
                    0 <= k < retained@.len() && (#[trigger] retained@[k]) as int == c;
                assert(0 <= k < valid_moves@.len() && (valid_moves@[k].place as int) == c);
            }
            assert forall|k1: int, k2: int|
                0 <= k1 < k2 < valid_moves@.len() implies (#[trigger] valid_moves@[k1].place) != (
            #[trigger] valid_moves@[k2].place) by {
                assert(fixed.idx_of(retained@[k1] as int) < fixed.idx_of(retained@[k2] as int));
            }
            assert forall|k1: int, k2: int|
                0 <= k1 < valid_moves@.len() && 0 <= k2 < valid_moves@.len() && k1
                    != k2 implies spec_compatible(
                ps[(valid_moves@[k1]).place as int],
                ps[(valid_moves@[k2]).place as int],
            ) by {
                assert(fixed.committed(valid_moves@[k1].place as int));
                assert(fixed.committed(valid_moves@[k2].place as int));
                assert(valid_moves@[k1].place != valid_moves@[k2].place) by {
                    if k1 < k2 {
                        assert(fixed.idx_of(retained@[k1] as int) < fixed.idx_of(
                            retained@[k2] as int,
                        ));
                    } else {
                        assert(fixed.idx_of(retained@[k2] as int) < fixed.idx_of(
                            retained@[k1] as int,
                        ));
                    }
                }
            }
        }
        let raw = ChosenSequence { seq, removed: Vec::new(), eff: raw_eff };
        let valid = ChosenSequence { seq: valid_moves, removed, eff: valid_eff };
        (raw, valid, fixed)
    }
}


impl Constructor {
    /// Construct one legal placement sequence: a single rollout under the
    /// uniform policy, adjacency-repaired. The returned ids name pairwise
    /// compatible placements and are exactly the placements committed on the
    /// returned board, which carries no adjacency violation; the raw sequence
    /// witnesses that every placement was either chosen or excluded by a
    /// chosen move. The adaptive search that reweights the policy across many
    /// rollouts drives this through `rollout` directly.
    pub fn construct<R: AbstractRng>(&self, places: Vec<Placement>, rng: &mut R) -> (r: (
        Vec<usize>,
        ChosenSequence,
        FixedGrid,
    ))
        requires
            self.h <= 0xFFFF,
            self.w <= 0xFFFF,
            places@.len() <= 0x3FFFFFFF,
            places_ok(places@, self.h as int, self.w as int),
            forall|i: int|
                0 <= i < places@.len() ==> (#[trigger] places@[i]).word.id < self.spec_nwords(),
            crate::sliced_arena::sizes_sum(crate::variant_grid::place_lens(places@))
                <= usize::MAX,
        ensures
            ({
                let ps = places@;
                let ids = r.0;
                let raw = r.1;
                let board = r.2;
                &&& board.wf()
                &&& forall|k: int| 0 <= k < ids@.len() ==> ((#[trigger] ids@[k]) as int) < ps.len()
                &&& forall|k1: int, k2: int|
                    0 <= k1 < k2 < ids@.len() ==> (#[trigger] ids@[k1]) != (#[trigger] ids@[k2])
                &&& forall|k1: int, k2: int|
                    0 <= k1 < ids@.len() && 0 <= k2 < ids@.len() && k1 != k2 ==> spec_compatible(
                        ps[(#[trigger] ids@[k1]) as int],
                        ps[(#[trigger] ids@[k2]) as int],
                    )
                // compatibility forbids repeating a word
                &&& forall|k1: int, k2: int|
                    0 <= k1 < k2 < ids@.len() ==> ps[(#[trigger] ids@[k1]) as int].word.id != ps[(
                    #[trigger] ids@[k2]) as int].word.id
                // the ids are exactly the board's committed placements, and
                // the repaired board is free of adjacency violations
                &&& forall|k: int|
                    0 <= k < ids@.len() ==> board.committed((#[trigger] ids@[k]) as int)
                &&& forall|c: int|
                    #[trigger] board.committed(c) ==> crate::fixed_grid::lists_id(ids@, c)
                &&& forall|c: int| #[trigger] board.committed(c) ==> !board.has_adjacency(c)
                &&& forall|c: int|
                    #[trigger] board.committed(c) ==> 0 <= c < ps.len() && board.place_of(c)
                        == ps[c].span()
                // maximality: every placement was chosen or excluded by a
                // chosen move, each exclusion justified
                &&& forall|pid: int|
                    0 <= pid < ps.len() ==> seq_lists_place(raw.seq@, pid) || listed_excluded(
                        raw.seq@,
                        pid,
                    )
                &&& forall|k: int, e: int|
                    0 <= k < raw.seq@.len() && 0 <= e < raw.seq@[k].excluded@.len() ==> {
                        let q = (#[trigger] raw.seq@[k].excluded@[e]) as int;
                        let c = raw.seq@[k].place as int;
                        &&& 0 <= q < ps.len()
                        &&& (!spec_compatible(ps[c], ps[q]) || ps[q].word.id == ps[c].word.id)
                    }
            }),
    {
        let ghost ps = places@;
        let n = places.len();
        let mut policy: Vec<u64> = Vec::new();
        let mut i: usize = 0;
        while i < n
            invariant
                i <= n,
                policy@.len() == i,
                forall|k: int| 0 <= k < i ==> (#[trigger] policy@[k]) == 1u64,
            decreases n - i,
        {
            policy.push(1);
            i = i + 1;
        }
        proof {
            lemma_ones_sum(policy@);
        }
        let (raw, valid, board) = self.rollout(places, &policy, rng);
        let mut out: Vec<usize> = Vec::new();
        let m = valid.seq.len();
        let mut k: usize = 0;
        while k < m
            invariant
                k <= m,
                m == valid.seq@.len(),
                out@.len() == k,
                forall|k2: int| 0 <= k2 < k ==> (#[trigger] out@[k2]) == valid.seq@[k2].place,
                forall|k2: int|
                    0 <= k2 < valid.seq@.len() ==> ((#[trigger] valid.seq@[k2].place) as int)
                        < ps.len(),
                forall|k1: int, k2: int|
                    0 <= k1 < k2 < valid.seq@.len() ==> (#[trigger] valid.seq@[k1].place) != (
                    #[trigger] valid.seq@[k2].place),
                forall|k1: int, k2: int|
                    0 <= k1 < valid.seq@.len() && 0 <= k2 < valid.seq@.len() && k1 != k2
                        ==> spec_compatible(
                        ps[(#[trigger] valid.seq@[k1]).place as int],
                        ps[(#[trigger] valid.seq@[k2]).place as int],
                    ),
                forall|k2: int|
                    0 <= k2 < valid.seq@.len() ==> board.committed(
                        (#[trigger] valid.seq@[k2].place) as int,
                    ),
            decreases m - k,
        {
            out.push(valid.seq[k].place);
            k = k + 1;
        }
        proof {
            assert forall|k1: int, k2: int|
                0 <= k1 < k2 < out@.len() implies ps[(#[trigger] out@[k1]) as int].word.id != ps[(
            #[trigger] out@[k2]) as int].word.id by {
                let a = out@[k1] as int;
                let b = out@[k2] as int;
                if ps[a].word.id == ps[b].word.id {
                    assert(spec_compatible(ps[a], ps[b]));
                    assert(ps[a].id == PlacementId(a as usize) && ps[b].id == PlacementId(
                        b as usize,
                    ));
                }
            }
            assert forall|c: int| #[trigger] board.committed(c) implies crate::fixed_grid::lists_id(
                out@,
                c,
            ) by {
                assert(seq_lists_place(valid.seq@, c));
                let k2 = choose|k2: int|
                    0 <= k2 < valid.seq@.len() && ((#[trigger] valid.seq@[k2]).place as int) == c;
                assert(0 <= k2 < out@.len() && (out@[k2] as int) == c);
            }
        }
        (out, raw, board)
    }
}

/// A sequence of unit weights sums to its length./// A sequence of unit weights sums to its length.
proof fn lemma_ones_sum(ws: Seq<u64>)
    requires
        forall|k: int| 0 <= k < ws.len() ==> (#[trigger] ws[k]) == 1u64,
    ensures
        seq_sum(ws) == ws.len(),
    decreases ws.len(),
{
    if ws.len() > 0 {
        lemma_ones_sum(ws.drop_last());
    }
}

/// What the outer search does after observing one rollout.
#[derive(Clone, Copy, PartialEq, Eq, Structural, Debug)]
pub enum NrpaStep {
    /// Too long without progress: restore the policy toward the parent's and
    /// forget the best sequence.
    Backtrack,
    /// The rollout matched or beat the best: adopt it, then adapt toward it.
    Adopt,
    /// Keep the current best and adapt toward it.
    Adapt,
}

/// The per-level bookkeeping of the nested search: the best raw and repaired
/// scores seen, and the last iteration that improved.
pub struct NrpaTracker {
    pub best_valid_eff: i64,
    pub best_saved_valid_eff: i64,
    pub last_progress: u32,
}

impl NrpaTracker {
    pub fn new() -> (t: NrpaTracker)
        ensures
            t.best_valid_eff == 0,
            t.best_saved_valid_eff == 0,
            t.last_progress == 0,
    {
        NrpaTracker { best_valid_eff: 0, best_saved_valid_eff: 0, last_progress: 0 }
    }

    /// Observe a rollout at iteration `iter`: backtrack when the score did
    /// not improve for `max_stalled + level` iterations; otherwise adopt the
    /// rollout when its repaired score matches or beats the best, and adapt.
    /// Returns the action, and whether the adopted sequence also beats the
    /// best saved one.
    pub fn observe(
        &mut self,
        iter: u32,
        level: u8,
        max_stalled: u32,
        new_valid_eff: i64,
    ) -> (r: (NrpaStep, bool))
        requires
            old(self).last_progress <= iter,
            max_stalled + level <= u32::MAX,
        ensures
            r.0 == NrpaStep::Backtrack <==> (new_valid_eff <= old(self).best_valid_eff && iter
                - old(self).last_progress >= max_stalled + level),
            r.0 == NrpaStep::Backtrack ==> final(self).best_valid_eff == 0 && final(self).last_progress == iter && final(self).best_saved_valid_eff == old(self).best_saved_valid_eff,
            r.0 != NrpaStep::Backtrack ==> (r.0 == NrpaStep::Adopt <==> new_valid_eff >= old(self).best_valid_eff),
            r.0 == NrpaStep::Adopt ==> final(self).best_valid_eff == new_valid_eff && final(self).last_progress == (if new_valid_eff > old(self).best_valid_eff {
                iter
            } else {
                old(self).last_progress
            }),
            r.0 == NrpaStep::Adopt ==> (r.1 <==> new_valid_eff >= old(self).best_saved_valid_eff),
            r.0 == NrpaStep::Adopt && r.1 ==> final(self).best_saved_valid_eff == new_valid_eff,
            r.0 == NrpaStep::Adopt && !r.1 ==> final(self).best_saved_valid_eff == old(self).best_saved_valid_eff,
            r.0 == NrpaStep::Adapt ==> *final(self) == *old(self) && !r.1,
    {
        let max_stall = max_stalled + (level as u32);
        if new_valid_eff <= self.best_valid_eff && iter - self.last_progress >= max_stall {
            self.best_valid_eff = 0;
            self.last_progress = iter;
            (NrpaStep::Backtrack, false)
        } else if new_valid_eff >= self.best_valid_eff {
            if new_valid_eff > self.best_valid_eff {
                self.last_progress = iter;
            }
            self.best_valid_eff = new_valid_eff;
            if new_valid_eff >= self.best_saved_valid_eff {
                self.best_saved_valid_eff = new_valid_eff;
                (NrpaStep::Adopt, true)
            } else {
                (NrpaStep::Adopt, false)
            }
        } else {
            (NrpaStep::Adapt, false)
        }
    }
}

} // verus!
