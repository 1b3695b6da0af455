use xword::board::{gen_placements, BoolGrid, Problem};
use xword::common::{Orientation, PlacementId};
use xword::constructor::Constructor;
use xword::fixed_grid::FixedGrid;
use xword::placement::Placement;
use xword::rng::xor_rng;
use xword::variant_grid::VariantGrid;

fn open_board(h: usize, w: usize) -> BoolGrid {
    let mut b = BoolGrid::new(h, w);
    for y in 0..h {
        for x in 0..w {
            b.set_open(y, x, true);
        }
    }
    b
}

fn words(ws: &[&[u8]]) -> Vec<Vec<u8>> {
    ws.iter().map(|w| w.to_vec()).collect()
}

#[test]
fn placement_ids_are_nat() {
    let grid = BoolGrid::new(4, 3);
    let ws = words(&[b"ab", b"bc", b"cde", b"cdef", b"fedc", b"fedcb"]);
    let problem = Problem::new(ws, grid);
    let places = gen_placements(&problem);

    for (i, place) in places.into_iter().enumerate() {
        assert_eq!(i, place.id.0);
    }
}

#[test]
fn enumeration_count_on_open_line() {
    // a 1-by-5 open board with the words ab and abc: runs of length 5 hold
    // 4 placements of the 2-letter word and 3 of the 3-letter word, all
    // horizontal
    let grid = open_board(1, 5);
    let ws = words(&[b"ab", b"abc"]);
    let problem = Problem::new(ws, grid);
    let places = gen_placements(&problem);

    assert_eq!(places.len(), 7);
    for (i, place) in places.iter().enumerate() {
        assert_eq!(place.id.0, i);
        assert_eq!(place.orientation, Orientation::HOR);
    }
}

#[test]
fn enumeration_ids_dense_on_square() {
    let grid = open_board(3, 3);
    let ws = words(&[b"ab", b"abc"]);
    let problem = Problem::new(ws, grid);
    let places = gen_placements(&problem);

    // each of the 3 columns and 3 rows holds a run of length 3:
    // 2 + 1 placements per run, both orientations
    assert_eq!(places.len(), 18);
    for (i, place) in places.iter().enumerate() {
        assert_eq!(place.id.0, i);
    }
}

fn small_places() -> (Vec<Placement>, usize, usize, usize) {
    // a 3x3 open board with words ab (id 0) and abc (id 1)
    let grid = open_board(3, 3);
    let ws = words(&[b"ab", b"abc"]);
    let problem = Problem::new(ws, grid);
    let places = gen_placements(&problem);
    let nwords = problem.dic.len();
    (places, 3, 3, nwords)
}

#[test]
fn variant_grid_removal_keeps_side_table() {
    let (places, h, w, _) = small_places();
    let n = places.len();
    let mut grid = VariantGrid::new(places, h, w);

    for pid in 0..n {
        assert!(grid.contains(PlacementId(pid)));
    }
    grid.remove(PlacementId(0));
    assert!(!grid.contains(PlacementId(0)));
    for pid in 1..n {
        assert!(grid.contains(PlacementId(pid)));
    }
    // a second placement, removed after the swaps of the first removal
    grid.remove(PlacementId(n - 1));
    assert!(!grid.contains(PlacementId(n - 1)));
    for pid in 1..n - 1 {
        assert!(grid.contains(PlacementId(pid)));
    }
}

#[test]
fn remove_incompat_leaves_only_compatible() {
    let (places, h, w, _) = small_places();
    let n = places.len();
    let kept: Vec<Placement> = places.iter().map(|p| Placement::new(p.id.0, p.orientation, p.y, p.x, xword::common::Word::new(p.word.id, p.word.letters.clone()))).collect();
    let mut grid = VariantGrid::new(places, h, w);

    let chosen = 0usize;
    grid.remove(PlacementId(chosen));
    let removed = grid.remove_incompat(PlacementId(chosen));

    // whatever survived is compatible with the committed placement or of the
    // same word
    for q in 0..n {
        if grid.contains(PlacementId(q)) {
            assert!(
                kept[chosen].compatible(&kept[q]) || kept[q].word.id == kept[chosen].word.id
            );
        }
    }
    // whatever was taken out is incompatible with it
    for r in &removed {
        assert!(!kept[chosen].compatible(&kept[r.0]) || r.0 == chosen);
    }
}

#[test]
fn fixed_grid_efficiency_counts_crossed_moves() {
    // two crossing words: both are crossed, so the score is 2
    let mut fixed = FixedGrid::new(3, 3, 4);
    let w1 = xword::common::Word::new(0, b"abc".to_vec());
    let w2 = xword::common::Word::new(1, b"ab".to_vec());
    let p1 = Placement::new(0, Orientation::HOR, 0, 0, w1);
    let p2 = Placement::new(1, Orientation::VER, 0, 0, w2);
    fixed.place(p1.to_span());
    fixed.place(p2.to_span());
    assert_eq!(fixed.efficiency().0, 2);
    assert_eq!(fixed.adjacencies_of(0).len(), 0);
    assert_eq!(fixed.adjacencies_of(1).len(), 0);
}

#[test]
fn efficiency_sums_cell_excess() {
    // one horizontal word crossed twice: its two crossing cells count once
    // each, and each crossing word contributes its own crossing cell - 4
    let mut fixed = FixedGrid::new(2, 3, 4);
    let wa = xword::common::Word::new(0, b"abc".to_vec());
    let wb = xword::common::Word::new(1, b"ab".to_vec());
    let wc = xword::common::Word::new(2, b"cb".to_vec());
    let pa = Placement::new(0, Orientation::HOR, 0, 0, wa);
    let pb = Placement::new(1, Orientation::VER, 0, 0, wb);
    let pc = Placement::new(2, Orientation::VER, 0, 2, wc);
    fixed.place(pa.to_span());
    fixed.place(pb.to_span());
    fixed.place(pc.to_span());
    assert_eq!(fixed.efficiency().0, 4);
}

#[test]
fn fixup_resolves_adjacent_words() {
    // two parallel words side by side violate adjacency; the fixup must
    // delete at least one of them and report a clean partition
    let mut fixed = FixedGrid::new(2, 3, 4);
    let w1 = xword::common::Word::new(0, b"abc".to_vec());
    let w2 = xword::common::Word::new(1, b"abc".to_vec());
    let p1 = Placement::new(0, Orientation::HOR, 0, 0, w1);
    let p2 = Placement::new(1, Orientation::HOR, 1, 0, w2);
    fixed.place(p1.to_span());
    fixed.place(p2.to_span());
    assert!(fixed.adjacencies_of(0).len() > 0);

    let mut rng = xor_rng();
    let (retained, removed, _eff) = fixed.fixup_adjacent(&mut rng);
    assert_eq!(retained.len() + removed.len(), 2);
    assert!(retained.len() <= 1);
    for pid in &retained {
        assert_eq!(fixed.adjacencies_of(*pid).len(), 0);
    }
}

fn run_once() -> (Vec<usize>, i64, i64) {
    let (places, h, w, nwords) = small_places();
    let n = places.len();
    let policy: Vec<u64> = vec![256; n];
    let cons = Constructor::new(h, w, nwords);
    let mut rng = xor_rng();
    let (raw, valid, _grid) = cons.rollout(places, &policy, &mut rng);
    let ids: Vec<usize> = valid.seq.iter().map(|m| m.place).collect();
    (ids, raw.eff.0, valid.eff.0)
}

#[test]
fn rollout_replays_under_a_fixed_seed() {
    let a = run_once();
    let b = run_once();
    assert_eq!(a.0, b.0);
    assert_eq!(a.1, b.1);
    assert_eq!(a.2, b.2);
}

#[test]
fn rollout_output_is_pairwise_compatible() {
    let (places, h, w, nwords) = small_places();
    let kept: Vec<Placement> = places
        .iter()
        .map(|p| {
            Placement::new(
                p.id.0,
                p.orientation,
                p.y,
                p.x,
                xword::common::Word::new(p.word.id, p.word.letters.clone()),
            )
        })
        .collect();
    let n = places.len();
    let policy: Vec<u64> = vec![256; n];
    let cons = Constructor::new(h, w, nwords);
    let mut rng = xor_rng();
    let (raw, valid, grid) = cons.rollout(places, &policy, &mut rng);

    assert!(valid.seq.len() >= 1);
    for m1 in &valid.seq {
        for m2 in &valid.seq {
            if m1.place != m2.place {
                assert!(kept[m1.place].compatible(&kept[m2.place]));
            }
        }
    }
    for m1 in &raw.seq {
        for m2 in &raw.seq {
            if m1.place != m2.place {
                assert!(kept[m1.place].compatible(&kept[m2.place]));
            }
        }
    }
    for m in &valid.seq {
        assert_eq!(grid.adjacencies_of(m.place).len(), 0);
    }
    assert_eq!(valid.eff.0, grid.efficiency().0);
    // the raw score counts shared cells over the chosen moves, so it cannot
    // grow through the repair pass
    assert!(raw.eff.0 >= valid.eff.0);
    // every placement was chosen or excluded by a chosen move
    for pid in 0..n {
        let chosen = raw.seq.iter().any(|m| m.place == pid);
        let excluded = raw.seq.iter().any(|m| m.excluded.contains(&pid));
        assert!(chosen || excluded);
    }
}

#[test]
fn construct_returns_a_legal_sequence() {
    let (places, h, w, nwords) = small_places();
    let kept: Vec<Placement> = places
        .iter()
        .map(|p| {
            Placement::new(
                p.id.0,
                p.orientation,
                p.y,
                p.x,
                xword::common::Word::new(p.word.id, p.word.letters.clone()),
            )
        })
        .collect();
    let n = places.len();
    let cons = Constructor::new(h, w, nwords);
    let mut rng = xor_rng();
    let (ids, raw, board) = cons.construct(places, &mut rng);
    assert!(ids.len() >= 1);
    // the ids are the board's committed placements, free of violations
    for id in &ids {
        assert_eq!(board.adjacencies_of(*id).len(), 0);
    }
    // every placement was chosen or excluded by a chosen move
    for pid in 0..n {
        let chosen = raw.seq.iter().any(|m| m.place == pid);
        let excluded = raw.seq.iter().any(|m| m.excluded.contains(&pid));
        assert!(chosen || excluded);
    }
    for (i, a) in ids.iter().enumerate() {
        for (j, b) in ids.iter().enumerate() {
            if i != j {
                assert_ne!(a, b);
                assert!(kept[*a].compatible(&kept[*b]));
            }
        }
    }
}

#[test]
fn xor_rng_is_deterministic_and_bounded() {
    let mut r1 = xor_rng();
    let mut r2 = xor_rng();
    for bound in [1u64, 2, 7, 100, 1 << 40] {
        let a = xword::rng::AbstractRng::gen_u64(&mut r1, bound);
        let b = xword::rng::AbstractRng::gen_u64(&mut r2, bound);
        assert_eq!(a, b);
        assert!(a < bound);
    }
}
