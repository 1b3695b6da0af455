use xword::common::{filter_indices, Cond, Key, Orientation, PlacementId};
use xword::compat_map::CompatMap;
use xword::constructor::{NrpaStep, NrpaTracker};
use xword::placement::Placement;
use xword::shrink_vec::ShrinkVec;
use xword::sliced_arena::SlicedArena;

#[test]
fn filter_indices_partitions_in_order() {
    let items = vec![10, 11, 12, 13, 14];
    let indices = vec![3usize, 1];
    let (kept, excl) = filter_indices(items, &indices);
    assert_eq!(kept, vec![11, 13]);
    assert_eq!(excl, vec![10, 12, 14]);
}

#[test]
fn sliced_arena_reads_and_writes() {
    let sizes = vec![2usize, 0, 3];
    let mut arena: SlicedArena<usize> = SlicedArena::new(&sizes, 7);
    assert_eq!(arena.slice_count(), 3);
    assert_eq!(arena.slice_len(0), 2);
    assert_eq!(arena.slice_len(1), 0);
    assert_eq!(arena.slice_len(2), 3);
    assert_eq!(arena.at(2, 1), 7);
    arena.set_at(2, 1, 42);
    assert_eq!(arena.at(2, 1), 42);
    assert_eq!(arena.at(0, 0), 7);
    assert_eq!(arena.slice(2), &[7, 42, 7]);
}

#[test]
fn shrink_vec_swap_removes() {
    let mut v = ShrinkVec::new(vec![1, 2, 3, 4]);
    assert_eq!(v.len(), 4);
    let got = v.swap_remove(1);
    assert_eq!(got, 2);
    assert_eq!(v.len(), 3);
    assert_eq!(*v.get(1), 4);
}

#[test]
fn compat_map_matches_pairwise_checks() {
    let w0 = xword::common::Word::new(0, b"abc".to_vec());
    let w1 = xword::common::Word::new(1, b"ab".to_vec());
    let places = vec![
        Placement::new(0, Orientation::HOR, 0, 0, w0),
        Placement::new(1, Orientation::VER, 0, 0, w1),
    ];
    let cm = CompatMap::new(&places);
    assert_eq!(cm.compat(PlacementId(0), PlacementId(1)), true);
    assert_eq!(cm.compat(PlacementId(0), PlacementId(0)), true);
}

#[test]
fn nrpa_tracker_backtracks_when_stalled() {
    let mut t = NrpaTracker::new();
    // first rollout improves
    let (s, saved) = t.observe(0, 1, 1, 5);
    assert_eq!(s, NrpaStep::Adopt);
    assert!(saved);
    // worse rollouts within the stall window only adapt
    let (s, _) = t.observe(1, 1, 1, 3);
    assert_eq!(s, NrpaStep::Adapt);
    // still worse once the window passed: backtrack and reset
    let (s, _) = t.observe(2, 1, 1, 3);
    assert_eq!(s, NrpaStep::Backtrack);
    assert_eq!(t.best_valid_eff, 0);
    assert_eq!(t.best_saved_valid_eff, 5);
}

#[test]
fn key_and_cond_helpers() {
    assert_eq!(PlacementId(9).usize(), 9);
    assert_eq!(7usize.cond(1), 7);
    assert_eq!(7usize.cond(0), 0);
}
