use xword::weighted_selection_tree::WeightedSelectionTree;

fn sm_items(keys: Vec<usize>) -> WeightedSelectionTree {
    let items: Vec<(usize, u64)> = keys.iter().map(|&k| (k, k as u64)).collect();
    WeightedSelectionTree::new(&items, items.len())
}

fn new_n_testcase(nkeys: usize) -> WeightedSelectionTree {
    let keys: Vec<usize> = (0..nkeys).collect();
    sm_items(keys)
}

fn expected_total(nkeys: usize, removed: &[usize]) -> u64 {
    (0..nkeys)
        .filter(|k| !removed.contains(k))
        .map(|k| k as u64)
        .sum()
}

#[test]
fn test_levels() {
    // the backing array is laid out as a heap; its length follows the number
    // of items no matter how many levels they span
    for n in 0..9usize {
        let sm = new_n_testcase(n);
        assert_eq!(sm.len(), n);
    }
}

#[test]
fn test_new() {
    let sm = new_n_testcase(6);
    assert_eq!(sm.total(), 0 + 1 + 2 + 3 + 4 + 5);
    for k in 0..6 {
        assert!(sm.contains_key(k));
    }
}

fn remove_bulk_testcase(nkeys: usize, remove: Vec<usize>) {
    let mut sm = new_n_testcase(nkeys);

    sm.remove_bulk(&remove);

    for k in 0..nkeys {
        assert_eq!(sm.contains_key(k), !remove.contains(&k));
    }
    assert_eq!(sm.total(), expected_total(nkeys, &remove));
}

#[test]
fn test_remove_bulk() {
    remove_bulk_testcase(1, vec![0]);
    remove_bulk_testcase(2, vec![0]);
    remove_bulk_testcase(3, vec![0]);
    remove_bulk_testcase(4, vec![0]);
    remove_bulk_testcase(5, vec![0]);
    remove_bulk_testcase(6, vec![0]);
    remove_bulk_testcase(7, vec![0]);
    remove_bulk_testcase(8, vec![0]);
    remove_bulk_testcase(9, vec![0]);
    remove_bulk_testcase(10, vec![0]);
    remove_bulk_testcase(11, vec![0]);

    remove_bulk_testcase(9, vec![1, 3, 2, 8]);
    remove_bulk_testcase(16, vec![15, 14, 13, 12, 11, 10, 9, 8, 7]);
    remove_bulk_testcase(16, vec![7, 8, 9, 10, 11, 12, 13, 14]);
    remove_bulk_testcase(
        16,
        vec![7, 8, 9, 10, 11, 12, 13, 14].into_iter().rev().collect::<Vec<_>>(),
    );
    remove_bulk_testcase(16, vec![7, 8, 9, 10, 11, 12, 13, 14, 15]);
    remove_bulk_testcase(16, vec![15, 12, 11, 10, 9, 8, 7, 14, 13]);
    remove_bulk_testcase(16, vec![0]);
    remove_bulk_testcase(16, vec![0, 1]);
    remove_bulk_testcase(16, vec![0, 1, 2]);
    remove_bulk_testcase(16, vec![0, 1, 2, 3]);
    remove_bulk_testcase(16, vec![0, 1, 2, 3, 4]);
    remove_bulk_testcase(16, vec![4, 3, 2, 1, 0]);
    remove_bulk_testcase(16, vec![15, 7, 3, 1, 0]);
    remove_bulk_testcase(16, vec![15, 7]);
    remove_bulk_testcase(16, vec![15, 8]);
    remove_bulk_testcase(16, vec![7, 15]);
    remove_bulk_testcase(16, vec![8, 15]);
    remove_bulk_testcase(16, vec![14, 6]);
    remove_bulk_testcase(16, vec![14, 5]);
    remove_bulk_testcase(16, vec![13, 6]);
    remove_bulk_testcase(16, vec![13, 5]);
    remove_bulk_testcase(16, vec![13, 4]);
    remove_bulk_testcase(16, vec![6, 14]);
    remove_bulk_testcase(16, vec![5, 14]);
    remove_bulk_testcase(16, vec![6, 13]);
    remove_bulk_testcase(16, vec![5, 13]);
    remove_bulk_testcase(16, vec![4, 13]);
    remove_bulk_testcase(9, vec![1, 3, 2, 8]);
}

#[test]
fn select_remove_draws_by_weight() {
    // keys 0..9 with weight equal to the key; the draw descends the heap:
    // from the root it skips weight 0, enters the left subtree (total 32),
    // skips weight 1, passes the subtree of key 3 (total 18) and lands on
    // key 4, whose own weight covers what remains
    let mut sm = new_n_testcase(10);
    assert_eq!(sm.total(), 45);
    let got = sm.select_remove(21);
    assert_eq!(got, Some((4, 4)));
    assert_eq!(sm.total(), 41);
    assert!(!sm.contains_key(4));
}

#[test]
fn total_tracks_every_mutation() {
    let items: Vec<(usize, u64)> = (0..8).map(|k| (k, k as u64)).collect();
    let mut sm = WeightedSelectionTree::new(&items, 16);
    assert_eq!(sm.total(), 28);
    sm.insert(3, 10);
    assert_eq!(sm.total(), 28 - 3 + 10);
    let w = sm.remove(5);
    assert_eq!(w, 5);
    assert_eq!(sm.total(), 30);
    sm.insert_bulk(&vec![(9, 7), (10, 2)]);
    assert_eq!(sm.total(), 39);
    let drawn = sm.select_remove(0).unwrap();
    assert_eq!(sm.total(), 39 - drawn.1);
}

#[test]
fn get_reads_the_stored_weight() {
    let mut sm = new_n_testcase(4);
    assert_eq!(sm.get(2), Some(2));
    sm.insert(2, 99);
    assert_eq!(sm.get(2), Some(99));
    sm.remove(2);
    assert_eq!(sm.get(2), None);
}
