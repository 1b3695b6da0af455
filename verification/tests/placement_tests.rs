use xword::common::{Orientation, Word};
use xword::placement::Placement;

fn word(wid: usize, letters: &[u8]) -> Word {
    Word::new(wid, letters.to_vec())
}

fn place(pid: usize, or: Orientation, y: usize, x: usize, w: Word) -> Placement {
    Placement::new(pid, or, y, x, w)
}

#[test]
fn incompat_overlap() {
    let word1 = Word::new(0, b"abc".to_vec());
    let word2 = Word::new(1, b"ab".to_vec());
    let p1 = Placement::new(0, Orientation::HOR, 0, 0, word1);
    let p2 = Placement::new(1, Orientation::HOR, 0, 0, word2);

    assert_eq!(p1.compatible(&p2), false);
    assert_eq!(p2.compatible(&p1), false);
}

#[test]
fn incompat_adjacent() {
    let word1 = Word::new(0, b"abc".to_vec());
    let word2 = Word::new(1, b"ab".to_vec());
    let p1 = Placement::new(0, Orientation::HOR, 0, 0, word1);
    let p2 = Placement::new(1, Orientation::VER, 1, 2, word2);

    assert_eq!(p1.compatible(&p2), false);
    assert_eq!(p2.compatible(&p1), false);
}

#[test]
fn incompat_intersection() {
    let word1 = Word::new(0, b"abc".to_vec());
    let word2 = Word::new(1, b"bb".to_vec());
    let p1 = Placement::new(0, Orientation::HOR, 0, 0, word1);
    let p2 = Placement::new(1, Orientation::VER, 0, 0, word2);

    assert_eq!(p1.compatible(&p2), false);
    assert_eq!(p2.compatible(&p1), false);
}

#[test]
fn compat_intersection() {
    {
        let word1 = word(0, b"abc");
        let word2 = word(1, b"ab");
        let p1 = place(0, Orientation::HOR, 0, 0, word1);
        let p2 = place(1, Orientation::VER, 0, 0, word2);

        assert_eq!(p1.compatible(&p2), true);
        assert_eq!(p2.compatible(&p1), true);
    }

    {
        let word1 = word(0, b"bc");
        let word2 = word(1, b"ab");
        let p1 = place(0, Orientation::HOR, 1, 0, word1);
        let p2 = place(1, Orientation::VER, 0, 0, word2);

        assert_eq!(p1.compatible(&p2), true);
        assert_eq!(p2.compatible(&p1), true);
    }

    {
        let word1 = word(0, b"bc");
        let word2 = word(1, b"ab");
        let p1 = place(0, Orientation::HOR, 1, 0, word1);
        let p2 = place(1, Orientation::VER, 0, 0, word2);

        assert_eq!(p1.compatible(&p2), true);
        assert_eq!(p2.compatible(&p1), true);
    }
}

#[test]
fn compat_corners() {
    {
        // upper left corner, vertical against horizontal
        let word1 = word(0, b"bc");
        let word2 = word(1, b"de");
        let p1 = place(0, Orientation::HOR, 2, 2, word1);
        let p2 = place(1, Orientation::VER, 0, 1, word2);

        assert_eq!(p1.compatible(&p2), true);
        assert_eq!(p2.compatible(&p1), true);
    }

    {
        // upper left corner, horizontal against horizontal
        let word1 = word(0, b"bc");
        let word2 = word(1, b"de");
        let p1 = place(0, Orientation::HOR, 2, 2, word1);
        let p2 = place(1, Orientation::HOR, 1, 0, word2);

        assert_eq!(p1.compatible(&p2), true);
        assert_eq!(p2.compatible(&p1), true);
    }

    {
        // lower left corner, vertical against horizontal
        let word1 = word(0, b"bc");
        let word2 = word(1, b"de");
        let p1 = place(0, Orientation::HOR, 2, 2, word1);
        let p2 = place(1, Orientation::VER, 3, 1, word2);

        assert_eq!(p1.compatible(&p2), true);
        assert_eq!(p2.compatible(&p1), true);
    }

    {
        // lower left corner, horizontal against horizontal
        let word1 = word(0, b"bc");
        let word2 = word(1, b"de");
        let p1 = place(0, Orientation::HOR, 2, 2, word1);
        let p2 = place(1, Orientation::HOR, 3, 0, word2);

        assert_eq!(p1.compatible(&p2), true);
        assert_eq!(p2.compatible(&p1), true);
    }

    {
        // upper right corner, vertical against horizontal
        let word1 = word(0, b"bc");
        let word2 = word(1, b"de");
        let p1 = place(0, Orientation::HOR, 2, 2, word1);
        let p2 = place(1, Orientation::VER, 0, 4, word2);

        assert_eq!(p1.compatible(&p2), true);
        assert_eq!(p2.compatible(&p1), true);
    }

    {
        // upper right corner, horizontal against horizontal
        let word1 = word(0, b"bc");
        let word2 = word(1, b"de");
        let p1 = place(0, Orientation::HOR, 2, 2, word1);
        let p2 = place(1, Orientation::HOR, 1, 4, word2);

        assert_eq!(p1.compatible(&p2), true);
        assert_eq!(p2.compatible(&p1), true);
    }

    {
        // lower right corner, vertical against horizontal
        let word1 = word(0, b"bc");
        let word2 = word(1, b"de");
        let p1 = place(0, Orientation::HOR, 2, 2, word1);
        let p2 = place(1, Orientation::VER, 3, 4, word2);

        assert_eq!(p1.compatible(&p2), true);
        assert_eq!(p2.compatible(&p1), true);
    }

    {
        // lower right corner, horizontal against horizontal
        let word1 = word(0, b"bc");
        let word2 = word(1, b"de");
        let p1 = place(0, Orientation::HOR, 2, 2, word1);
        let p2 = place(1, Orientation::HOR, 3, 4, word2);

        assert_eq!(p1.compatible(&p2), true);
        assert_eq!(p2.compatible(&p1), true);
    }

    {
        // lower right corner, vertical against vertical
        let word1 = word(0, b"bc");
        let word2 = word(1, b"de");
        let p1 = place(0, Orientation::VER, 2, 2, word1);
        let p2 = place(1, Orientation::VER, 4, 3, word2);

        assert_eq!(p1.compatible(&p2), true);
        assert_eq!(p2.compatible(&p1), true);
    }
}

#[test]
fn alignment_tests() {
    assert_eq!(Orientation::HOR.align(1, 0), (1, 0));
    assert_eq!(Orientation::HOR.align(0, 1), (0, 1));
    assert_eq!(Orientation::VER.align(1, 0), (0, 1));
    assert_eq!(Orientation::VER.align(0, 1), (1, 0));
}

#[test]
fn compatibility_is_symmetric_on_samples() {
    // a batch of placements around one corner; compatibility must agree in
    // both directions for every pair
    let mut ps: Vec<Placement> = Vec::new();
    let mut pid = 0;
    for or in [Orientation::HOR, Orientation::VER] {
        for y in 0..4usize {
            for x in 0..4usize {
                ps.push(place(pid, or, y, x, word(pid, b"ab")));
                pid += 1;
            }
        }
    }
    for a in &ps {
        for b in &ps {
            assert_eq!(a.compatible(b), b.compatible(a));
        }
    }
}

#[test]
fn perp_orientation_flips() {
    assert_eq!(Orientation::HOR.perp_orientation(), Orientation::VER);
    assert_eq!(Orientation::VER.perp_orientation(), Orientation::HOR);
}
