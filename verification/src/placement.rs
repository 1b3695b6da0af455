use vstd::prelude::*;
use crate::common::{Orientation, PlacementId, Word};

verus! {

/// A candidate placement: a word anchored at cell (y, x) in an orientation.
/// It covers `word.letters.len()` cells starting at (y, x), extending along
/// x when horizontal and along y when vertical.
#[derive(Clone, Debug)]
pub struct Placement {
    pub id: PlacementId,
    pub y: usize,
    pub x: usize,
    pub word: Word,
    pub orientation: Orientation,
}

impl Placement {
    pub fn new(id: usize, orientation: Orientation, y: usize, x: usize, word: Word) -> (p:
        Placement)
        ensures
            p == (Placement { id: PlacementId(id), orientation, y, x, word }),
    {
        Placement { id: PlacementId(id), orientation, y, x, word }
    }

    /// Length of the covered run: the word length.
    pub open spec fn wlen(self) -> int {
        self.word.letters@.len() as int
    }

    /// Step of the y coordinate from one covered cell to the next.
    pub open spec fn dy(self) -> int {
        match self.orientation {
            Orientation::VER => 1,
            Orientation::HOR => 0,
        }
    }

    /// Step of the x coordinate from one covered cell to the next.
    pub open spec fn dx(self) -> int {
        match self.orientation {
            Orientation::VER => 0,
            Orientation::HOR => 1,
        }
    }

    /// y coordinate of the i-th covered cell.
    pub open spec fn pos_y(self, i: int) -> int {
        self.y + i * self.dy()
    }

    /// x coordinate of the i-th covered cell.
    pub open spec fn pos_x(self, i: int) -> int {
        self.x + i * self.dx()
    }

    /// Whether the placement covers cell (y, x).
    pub open spec fn spec_covers(self, y: int, x: int) -> bool {
        match self.orientation {
            Orientation::HOR => y == self.y && self.x <= x < self.x + self.wlen(),
            Orientation::VER => x == self.x && self.y <= y < self.y + self.wlen(),
        }
    }

    /// The letter index of covered cell (y, x).
    pub open spec fn cover_index(self, y: int, x: int) -> int {
        match self.orientation {
            Orientation::HOR => x - self.x,
            Orientation::VER => y - self.y,
        }
    }

    /// The letter that the placement writes into covered cell (y, x).
    pub open spec fn letter_at(self, y: int, x: int) -> u8 {
        self.word.letters@[self.cover_index(y, x)]
    }

    /// The word is non-empty and the covered run stays within machine bounds.
    pub open spec fn wf(self) -> bool {
        &&& 1 <= self.wlen()
        &&& self.y + self.wlen() <= usize::MAX
        &&& self.x + self.wlen() <= usize::MAX
    }

    /// The placement lies entirely inside an h-by-w board.
    pub open spec fn fits(self, h: int, w: int) -> bool {
        match self.orientation {
            Orientation::HOR => self.y < h && self.x + self.wlen() <= w,
            Orientation::VER => self.y + self.wlen() <= h && self.x < w,
        }
    }

    pub proof fn lemma_pos_covers(self, i: int)
        requires
            0 <= i < self.wlen(),
        ensures
            self.spec_covers(self.pos_y(i), self.pos_x(i)),
            self.cover_index(self.pos_y(i), self.pos_x(i)) == i,
    {
    }

    pub proof fn lemma_covers_pos(self, y: int, x: int)
        requires
            self.spec_covers(y, x),
        ensures
            0 <= self.cover_index(y, x) < self.wlen(),
            self.pos_y(self.cover_index(y, x)) == y,
            self.pos_x(self.cover_index(y, x)) == x,
    {
    }

    /// Covered cells are distinct.
    pub proof fn lemma_pos_injective(self, i: int, j: int)
        requires
            0 <= i < self.wlen(),
            0 <= j < self.wlen(),
            i != j,
        ensures
            self.pos_y(i) != self.pos_y(j) || self.pos_x(i) != self.pos_x(j),
    {
    }

    /// The (v, u) frame coordinates of the anchor: v across lines of the given
    /// orientation, u along them.
    pub fn align(&self, or: Orientation) -> (r: (usize, usize))
        ensures
            (r.0 as int, r.1 as int) == or.spec_align(self.y as int, self.x as int),
    {
        or.align(self.y, self.x)
    }

    /// The i-th covered cell.
    pub fn pos_at(&self, i: usize) -> (r: (usize, usize))
        requires
            i < self.wlen(),
            self.wf(),
        ensures
            r.0 == self.pos_y(i as int),
            r.1 == self.pos_x(i as int),
    {
        match self.orientation {
            Orientation::HOR => (self.y, self.x + i),
            Orientation::VER => (self.y + i, self.x),
        }
    }

    /// Whether the placement covers cell (y, x).
    pub fn contains(&self, y: usize, x: usize) -> (r: bool)
        requires
            self.wf(),
        ensures
            r == self.spec_covers(y as int, x as int),
    {
        let len = self.word.len();
        match self.orientation {
            Orientation::HOR => y == self.y && self.x <= x && x < self.x + len,
            Orientation::VER => x == self.x && self.y <= y && y < self.y + len,
        }
    }
}

/// Crossword compatibility of two placements. Placements of the same word are
/// compatible only with themselves. Placements of distinct words are
/// compatible when they are apart (no shared cell, no edge touch), or when
/// they cross perpendicularly in exactly one cell with agreeing letters.
/// Same-orientation placements on adjacent lines whose along-line ranges
/// overlap are incompatible; diagonal corner touches are allowed.
pub open spec fn spec_compatible(a: Placement, b: Placement) -> bool {
    if a.word.id == b.word.id {
        a.id == b.id
    } else {
        let f0 = a.orientation.spec_align(a.y as int, a.x as int);
        let f1 = a.orientation.spec_align(b.y as int, b.x as int);
        let v0 = f0.0;
        let u0 = f0.1;
        let v1 = f1.0;
        let u1 = f1.1;
        let len0 = a.wlen();
        let len1 = b.wlen();
        if b.orientation == a.orientation {
            ||| u0 + len0 < u1
            ||| u1 + len1 < u0
            ||| (v0 != v1 && (vstd::math::abs(v0 - v1) > 1 || vstd::math::max(u0, u1)
                >= vstd::math::min(u0 + len0, u1 + len1)))
        } else {
            ||| !({
                ||| (v1 <= v0 + 1 && v0 <= v1 + len1 && u0 <= u1 && u1 + 1 <= u0 + len0)
                ||| (v1 <= v0 && v0 + 1 <= v1 + len1 && (u1 + 1 == u0 || u0 + len0 == u1))
            })
            ||| (u0 <= u1 && u1 + 1 <= u0 + len0 && v1 <= v0 && v0 + 1 <= v1 + len1
                && a.word.letters@[u1 - u0] == b.word.letters@[v0 - v1])
        }
    }
}

/// Compatibility does not depend on which of the two placements is asked.
pub proof fn lemma_compatible_symmetric(a: Placement, b: Placement)
    requires
        a.wf(),
        b.wf(),
    ensures
        spec_compatible(a, b) == spec_compatible(b, a),
{
}

impl Placement {
    /// Whether the two placements can stand on one board: see `spec_compatible`.
    pub fn compatible(&self, other: &Placement) -> (r: bool)
        requires
            self.wf(),
            other.wf(),
        ensures
            r == spec_compatible(*self, *other),
    {
        if self.word.id == other.word.id {
            return self.id == other.id;
        }
        let (v0, u0) = self.align(self.orientation);
        let (v1, u1) = other.align(self.orientation);
        let len0 = self.word.len();
        let len1 = other.word.len();

        if other.orientation == self.orientation {
            if u0 + len0 < u1 || u1 + len1 < u0 {
                return true;
            }
            if v0 == v1 {
                return false;
            }
            let far = if v0 >= v1 {
                v0 - v1 > 1
            } else {
                v1 - v0 > 1
            };
            if far {
                return true;
            }
            let overlap_from = if u0 >= u1 {
                u0
            } else {
                u1
            };
            let end0 = u0 + len0;
            let end1 = u1 + len1;
            let overlap_to = if end0 <= end1 {
                end0
            } else {
                end1
            };
            overlap_from >= overlap_to
        } else {
            let touches = (v1 <= v0 + 1 && v0 <= v1 + len1 && u0 <= u1 && u1 + 1 <= u0 + len0) || (
            v1 <= v0 && v0 + 1 <= v1 + len1 && (u1 + 1 == u0 || u0 + len0 == u1));
            if !touches {
                return true;
            }
            if u0 <= u1 && u1 + 1 <= u0 + len0 && v1 <= v0 && v0 + 1 <= v1 + len1 {
                self.word.letters[u1 - u0] == other.word.letters[v0 - v1]
            } else {
                false
            }
        }
    }
}


/// The cell just before the start of `p`, along its orientation.
pub open spec fn cap_before_y(p: Placement) -> int {
    p.y - p.dy()
}

pub open spec fn cap_before_x(p: Placement) -> int {
    p.x - p.dx()
}

/// The cell just after the end of `p`, along its orientation.
pub open spec fn cap_after_y(p: Placement) -> int {
    p.y + p.wlen() * p.dy()
}

pub open spec fn cap_after_x(p: Placement) -> int {
    p.x + p.wlen() * p.dx()
}

/// The perpendicular neighbor of cell `i` of `p`, on the lower-coordinate side.
pub open spec fn flank_above_y(p: Placement, i: int) -> int {
    p.pos_y(i) - p.dx()
}

pub open spec fn flank_above_x(p: Placement, i: int) -> int {
    p.pos_x(i) - p.dy()
}

/// The perpendicular neighbor of cell `i` of `p`, on the higher-coordinate side.
pub open spec fn flank_below_y(p: Placement, i: int) -> int {
    p.pos_y(i) + p.dx()
}

pub open spec fn flank_below_x(p: Placement, i: int) -> int {
    p.pos_x(i) + p.dy()
}

/// Filter applied at the cells of `p` itself: a placement in such a cell is
/// incompatible when it runs parallel to `p` or crosses with a different
/// letter.
pub open spec fn own_pred(p: Placement, q: Placement, y: int, x: int) -> bool {
    q.orientation == p.orientation || q.letter_at(y, x) != p.letter_at(y, x)
}

/// Filter applied one line before `p`: parallel placements, and perpendicular
/// placements that end right there (touching `p` without crossing it).
pub open spec fn above_pred(p: Placement, q: Placement) -> bool {
    q.orientation == p.orientation || (match p.orientation {
        Orientation::HOR => q.y + q.wlen() == p.y,
        Orientation::VER => q.x + q.wlen() == p.x,
    })
}

/// Filter applied one line after `p`: parallel placements, and perpendicular
/// placements that start right there.
pub open spec fn below_pred(p: Placement, q: Placement) -> bool {
    q.orientation == p.orientation || (match p.orientation {
        Orientation::HOR => q.y == p.y + 1,
        Orientation::VER => q.x == p.x + 1,
    })
}

/// No placement caught by the own-cell filter at cell `i` of `p`.
pub open spec fn own_clear(p: Placement, q: Placement, i: int) -> bool {
    !(q.spec_covers(p.pos_y(i), p.pos_x(i)) && own_pred(p, q, p.pos_y(i), p.pos_x(i)))
}

pub open spec fn above_clear(p: Placement, q: Placement, i: int) -> bool {
    !(q.spec_covers(flank_above_y(p, i), flank_above_x(p, i)) && above_pred(p, q))
}

pub open spec fn below_clear(p: Placement, q: Placement, i: int) -> bool {
    !(q.spec_covers(flank_below_y(p, i), flank_below_x(p, i)) && below_pred(p, q))
}

/// Completeness of the local filters: a placement of a different word that
/// escapes the filter at every cell of `p`, at both flanking strips and at
/// both run-end caps is compatible with `p`.
pub proof fn lemma_unscanned_compatible(p: Placement, q: Placement)
    requires
        p.wf(),
        q.wf(),
        p.word.id != q.word.id,
        forall|i: int| 0 <= i < p.wlen() ==> #[trigger] own_clear(p, q, i),
        forall|i: int| 0 <= i < p.wlen() ==> #[trigger] above_clear(p, q, i),
        forall|i: int| 0 <= i < p.wlen() ==> #[trigger] below_clear(p, q, i),
        !q.spec_covers(cap_before_y(p), cap_before_x(p)),
        !q.spec_covers(cap_after_y(p), cap_after_x(p)),
    ensures
        spec_compatible(p, q),
{
    if !spec_compatible(p, q) {
        let len0 = p.wlen();
        let len1 = q.wlen();
        match p.orientation {
            Orientation::HOR => {
                let v0 = p.y as int;
                let u0 = p.x as int;
                if q.orientation == Orientation::HOR {
                    let v1 = q.y as int;
                    let u1 = q.x as int;
                    if v0 == v1 {
                        if u1 >= u0 {
                            if u1 < u0 + len0 {
                                assert(q.spec_covers(p.pos_y(u1 - u0), p.pos_x(u1 - u0)));
                                assert(!own_clear(p, q, u1 - u0));
                            } else {
                                assert(u1 == u0 + len0);
                                assert(q.spec_covers(cap_after_y(p), cap_after_x(p)));
                            }
                        } else {
                            if u1 + len1 > u0 {
                                assert(q.spec_covers(p.pos_y(0), p.pos_x(0)));
                                assert(!own_clear(p, q, 0));
                            } else {
                                assert(u1 + len1 == u0);
                                assert(q.spec_covers(cap_before_y(p), cap_before_x(p)));
                            }
                        }
                    } else {
                        let m = vstd::math::max(u0, u1);
                        assert(m < vstd::math::min(u0 + len0, u1 + len1));
                        if v1 == v0 - 1 {
                            assert(q.spec_covers(flank_above_y(p, m - u0), flank_above_x(
                                p,
                                m - u0,
                            )));
                            assert(!above_clear(p, q, m - u0));
                        } else {
                            assert(v1 == v0 + 1);
                            assert(q.spec_covers(flank_below_y(p, m - u0), flank_below_x(
                                p,
                                m - u0,
                            )));
                            assert(!below_clear(p, q, m - u0));
                        }
                    }
                } else {
                    let v1 = q.y as int;
                    let u1 = q.x as int;
                    // group 2: a side touch on p's own line
                    if v1 <= v0 && v0 + 1 <= v1 + len1 && (u1 + 1 == u0 || u0 + len0 == u1) {
                        if u1 + 1 == u0 {
                            assert(q.spec_covers(cap_before_y(p), cap_before_x(p)));
                        } else {
                            assert(q.spec_covers(cap_after_y(p), cap_after_x(p)));
                        }
                    } else {
                        // group 1: q's column crosses or touches p's line
                        assert(v1 <= v0 + 1 && v0 <= v1 + len1 && u0 <= u1 && u1 + 1 <= u0 + len0);
                        let i = u1 - u0;
                        if v1 <= v0 && v0 + 1 <= v1 + len1 {
                            // a true crossing: the letters must disagree
                            assert(q.spec_covers(p.pos_y(i), p.pos_x(i)));
                            assert(p.letter_at(p.pos_y(i), p.pos_x(i)) == p.word.letters@[i]);
                            assert(q.letter_at(p.pos_y(i), p.pos_x(i)) == q.word.letters@[v0 - v1]);
                            assert(!own_clear(p, q, i));
                        } else if v1 + len1 == v0 {
                            assert(q.spec_covers(flank_above_y(p, i), flank_above_x(p, i)));
                            assert(!above_clear(p, q, i));
                        } else {
                            assert(v1 == v0 + 1);
                            assert(q.spec_covers(flank_below_y(p, i), flank_below_x(p, i)));
                            assert(!below_clear(p, q, i));
                        }
                    }
                }
            },
            Orientation::VER => {
                let v0 = p.x as int;
                let u0 = p.y as int;
                if q.orientation == Orientation::VER {
                    let v1 = q.x as int;
                    let u1 = q.y as int;
                    if v0 == v1 {
                        if u1 >= u0 {
                            if u1 < u0 + len0 {
                                assert(q.spec_covers(p.pos_y(u1 - u0), p.pos_x(u1 - u0)));
                                assert(!own_clear(p, q, u1 - u0));
                            } else {
                                assert(u1 == u0 + len0);
                                assert(q.spec_covers(cap_after_y(p), cap_after_x(p)));
                            }
                        } else {
                            if u1 + len1 > u0 {
                                assert(q.spec_covers(p.pos_y(0), p.pos_x(0)));
                                assert(!own_clear(p, q, 0));
                            } else {
                                assert(u1 + len1 == u0);
                                assert(q.spec_covers(cap_before_y(p), cap_before_x(p)));
                            }
                        }
                    } else {
                        let m = vstd::math::max(u0, u1);
                        assert(m < vstd::math::min(u0 + len0, u1 + len1));
                        if v1 == v0 - 1 {
                            assert(q.spec_covers(flank_above_y(p, m - u0), flank_above_x(
                                p,
                                m - u0,
                            )));
                            assert(!above_clear(p, q, m - u0));
                        } else {
                            assert(v1 == v0 + 1);
                            assert(q.spec_covers(flank_below_y(p, m - u0), flank_below_x(
                                p,
                                m - u0,
                            )));
                            assert(!below_clear(p, q, m - u0));
                        }
                    }
                } else {
                    let v1 = q.x as int;
                    let u1 = q.y as int;
                    if v1 <= v0 && v0 + 1 <= v1 + len1 && (u1 + 1 == u0 || u0 + len0 == u1) {
                        if u1 + 1 == u0 {
                            assert(q.spec_covers(cap_before_y(p), cap_before_x(p)));
                        } else {
                            assert(q.spec_covers(cap_after_y(p), cap_after_x(p)));
                        }
                    } else {
                        assert(v1 <= v0 + 1 && v0 <= v1 + len1 && u0 <= u1 && u1 + 1 <= u0 + len0);
                        let i = u1 - u0;
                        if v1 <= v0 && v0 + 1 <= v1 + len1 {
                            assert(q.spec_covers(p.pos_y(i), p.pos_x(i)));
                            assert(p.letter_at(p.pos_y(i), p.pos_x(i)) == p.word.letters@[i]);
                            assert(q.letter_at(p.pos_y(i), p.pos_x(i)) == q.word.letters@[v0 - v1]);
                            assert(!own_clear(p, q, i));
                        } else if v1 + len1 == v0 {
                            assert(q.spec_covers(flank_above_y(p, i), flank_above_x(p, i)));
                            assert(!above_clear(p, q, i));
                        } else {
                            assert(v1 == v0 + 1);
                            assert(q.spec_covers(flank_below_y(p, i), flank_below_x(p, i)));
                            assert(!below_clear(p, q, i));
                        }
                    }
                }
            },
        }
    }
}

/// Soundness of the local filters: what they catch is incompatible with `p`
/// (or `p` itself).
pub proof fn lemma_own_pred_sound(p: Placement, q: Placement, i: int)
    requires
        p.wf(),
        q.wf(),
        0 <= i < p.wlen(),
        q.spec_covers(p.pos_y(i), p.pos_x(i)),
        own_pred(p, q, p.pos_y(i), p.pos_x(i)),
        q.id != p.id,
    ensures
        !spec_compatible(p, q),
{
    q.lemma_covers_pos(p.pos_y(i), p.pos_x(i));
}

pub proof fn lemma_above_pred_sound(p: Placement, q: Placement, i: int)
    requires
        p.wf(),
        q.wf(),
        0 <= i < p.wlen(),
        q.spec_covers(flank_above_y(p, i), flank_above_x(p, i)),
        above_pred(p, q),
        q.id != p.id,
    ensures
        !spec_compatible(p, q),
{
    q.lemma_covers_pos(flank_above_y(p, i), flank_above_x(p, i));
}

pub proof fn lemma_below_pred_sound(p: Placement, q: Placement, i: int)
    requires
        p.wf(),
        q.wf(),
        0 <= i < p.wlen(),
        q.spec_covers(flank_below_y(p, i), flank_below_x(p, i)),
        below_pred(p, q),
        q.id != p.id,
    ensures
        !spec_compatible(p, q),
{
    q.lemma_covers_pos(flank_below_y(p, i), flank_below_x(p, i));
}

pub proof fn lemma_cap_sound(p: Placement, q: Placement)
    requires
        p.wf(),
        q.wf(),
        q.spec_covers(cap_before_y(p), cap_before_x(p)) || q.spec_covers(
            cap_after_y(p),
            cap_after_x(p),
        ),
        q.id != p.id,
    ensures
        !spec_compatible(p, q),
{
    if q.spec_covers(cap_before_y(p), cap_before_x(p)) {
        q.lemma_covers_pos(cap_before_y(p), cap_before_x(p));
    } else {
        q.lemma_covers_pos(cap_after_y(p), cap_after_x(p));
    }
}


/// The footprint of a placement: its id and the cells it covers, as plain
/// copyable scalars. Two placements with one footprint cover the same cells.
#[derive(Clone, Copy, Debug, PartialEq, Eq, Structural)]
pub struct PlacedSpan {
    pub pid: usize,
    pub y: usize,
    pub x: usize,
    pub orientation: Orientation,
    pub len: usize,
}

impl PlacedSpan {
    pub open spec fn slen(self) -> int {
        self.len as int
    }

    pub open spec fn s_dy(self) -> int {
        match self.orientation {
            Orientation::VER => 1,
            Orientation::HOR => 0,
        }
    }

    pub open spec fn s_dx(self) -> int {
        match self.orientation {
            Orientation::VER => 0,
            Orientation::HOR => 1,
        }
    }

    pub open spec fn s_pos_y(self, i: int) -> int {
        self.y + i * self.s_dy()
    }

    pub open spec fn s_pos_x(self, i: int) -> int {
        self.x + i * self.s_dx()
    }

    pub open spec fn s_covers(self, y: int, x: int) -> bool {
        match self.orientation {
            Orientation::HOR => y == self.y && self.x <= x < self.x + self.slen(),
            Orientation::VER => x == self.x && self.y <= y < self.y + self.slen(),
        }
    }

    pub open spec fn s_cover_index(self, y: int, x: int) -> int {
        match self.orientation {
            Orientation::HOR => x - self.x,
            Orientation::VER => y - self.y,
        }
    }

    pub open spec fn s_wf(self) -> bool {
        &&& 1 <= self.slen()
        &&& self.y + self.slen() <= usize::MAX
        &&& self.x + self.slen() <= usize::MAX
    }

    pub open spec fn s_fits(self, h: int, w: int) -> bool {
        match self.orientation {
            Orientation::HOR => self.y < h && self.x + self.slen() <= w,
            Orientation::VER => self.y + self.slen() <= h && self.x < w,
        }
    }

    pub proof fn lemma_s_pos_covers(self, i: int)
        requires
            0 <= i < self.slen(),
        ensures
            self.s_covers(self.s_pos_y(i), self.s_pos_x(i)),
            self.s_cover_index(self.s_pos_y(i), self.s_pos_x(i)) == i,
    {
    }

    pub proof fn lemma_s_covers_pos(self, y: int, x: int)
        requires
            self.s_covers(y, x),
        ensures
            0 <= self.s_cover_index(y, x) < self.slen(),
            self.s_pos_y(self.s_cover_index(y, x)) == y,
            self.s_pos_x(self.s_cover_index(y, x)) == x,
    {
    }

    /// The i-th covered cell.
    pub fn s_pos_at(&self, i: usize) -> (r: (usize, usize))
        requires
            i < self.slen(),
            self.s_wf(),
        ensures
            r.0 == self.s_pos_y(i as int),
            r.1 == self.s_pos_x(i as int),
    {
        match self.orientation {
            Orientation::HOR => (self.y, self.x + i),
            Orientation::VER => (self.y + i, self.x),
        }
    }
}

impl Placement {
    /// The placement's footprint.
    pub open spec fn span(self) -> PlacedSpan {
        PlacedSpan {
            pid: self.id.0,
            y: self.y,
            x: self.x,
            orientation: self.orientation,
            len: self.word.letters@.len() as usize,
        }
    }

    pub fn to_span(&self) -> (s: PlacedSpan)
        requires
            self.wf(),
        ensures
            s == self.span(),
    {
        PlacedSpan {
            pid: self.id.0,
            y: self.y,
            x: self.x,
            orientation: self.orientation,
            len: self.word.len(),
        }
    }

    /// A placement's footprint covers exactly the placement's cells.
    pub proof fn lemma_span_covers(self)
        requires
            self.wf(),
        ensures
            self.span().s_wf(),
            self.span().slen() == self.wlen(),
            forall|y: int, x: int|
                #[trigger] self.span().s_covers(y, x) == self.spec_covers(y, x),
            forall|h: int, w: int| #[trigger] self.span().s_fits(h, w) == self.fits(h, w),
            forall|i: int| #[trigger] self.span().s_pos_y(i) == self.pos_y(i),
            forall|i: int| #[trigger] self.span().s_pos_x(i) == self.pos_x(i),
    {
    }
}


/// Two distinct placements of one orientation sharing a cell are
/// incompatible.
pub proof fn lemma_shared_cell_same_orientation(a: Placement, b: Placement, y: int, x: int)
    requires
        a.wf(),
        b.wf(),
        a.id != b.id,
        a.orientation == b.orientation,
        a.spec_covers(y, x),
        b.spec_covers(y, x),
    ensures
        !spec_compatible(a, b),
{
}

/// Three pairwise-compatible, pairwise-distinct placements cannot share one
/// cell: a crossword cell holds at most two crossing words.
pub proof fn lemma_cell_capacity(a: Placement, b: Placement, c: Placement, y: int, x: int)
    requires
        a.wf(),
        b.wf(),
        c.wf(),
        a.id != b.id,
        a.id != c.id,
        b.id != c.id,
        spec_compatible(a, b),
        spec_compatible(a, c),
        spec_compatible(b, c),
        a.spec_covers(y, x),
        b.spec_covers(y, x),
    ensures
        !c.spec_covers(y, x),
{
    if c.spec_covers(y, x) {
        if a.orientation == b.orientation {
            lemma_shared_cell_same_orientation(a, b, y, x);
        } else if a.orientation == c.orientation {
            lemma_shared_cell_same_orientation(a, c, y, x);
        } else {
            assert(b.orientation == c.orientation);
            lemma_shared_cell_same_orientation(b, c, y, x);
        }
    }
}

} // verus!
