use vstd::prelude::*;
use crate::common::{Orientation, Word};
use crate::placement::Placement;

verus! {

/// The board mask: which cells are open for letters.
pub struct BoolGrid {
    h: usize,
    w: usize,
    // row-major
    cells: Vec<bool>,
}

impl BoolGrid {
    pub closed spec fn spec_h(self) -> int {
        self.h as int
    }

    pub closed spec fn spec_w(self) -> int {
        self.w as int
    }

    pub closed spec fn open_at(self, y: int, x: int) -> bool {
        &&& 0 <= y < self.h
        &&& 0 <= x < self.w
        &&& self.cells@[y * self.w + x]
    }

    pub closed spec fn wf(self) -> bool {
        &&& self.h <= 0xFFFF
        &&& self.w <= 0xFFFF
        &&& self.cells@.len() == self.h * self.w
    }

    /// An all-blocked board.
    pub fn new(h: usize, w: usize) -> (g: Self)
        requires
            h <= 0xFFFF,
            w <= 0xFFFF,
        ensures
            g.wf(),
            g.spec_h() == h,
            g.spec_w() == w,
            forall|y: int, x: int| !g.open_at(y, x),
    {
        proof {
            assert(h * w <= 0xFFFE0001) by (nonlinear_arith)
                requires
                    h <= 0xFFFF,
                    w <= 0xFFFF,
            ;
        }
        let hw = h * w;
        let mut cells: Vec<bool> = Vec::new();
        let mut c: usize = 0;
        while c < hw
            invariant
                c <= hw,
                cells@.len() == c,
                forall|k: int| 0 <= k < c ==> !(#[trigger] cells@[k]),
            decreases hw - c,
        {
            cells.push(false);
            c = c + 1;
        }
        let g = BoolGrid { h, w, cells };
        proof {
            assert forall|y: int, x: int| !g.open_at(y, x) by {
                if 0 <= y < h && 0 <= x < w {
                    crate::variant_grid::lemma_cell_index(y, x, h as int, w as int);
                }
            }
        }
        g
    }

    pub fn height(&self) -> (r: usize)
        ensures
            r == self.spec_h(),
    {
        self.h
    }

    pub fn width(&self) -> (r: usize)
        ensures
            r == self.spec_w(),
    {
        self.w
    }

    /// Open or block a cell.
    pub fn set_open(&mut self, y: usize, x: usize, open: bool)
        requires
            old(self).wf(),
            y < old(self).spec_h(),
            x < old(self).spec_w(),
        ensures
            final(self).wf(),
            final(self).spec_h() == old(self).spec_h(),
            final(self).spec_w() == old(self).spec_w(),
            forall|y2: int, x2: int|
                #[trigger] final(self).open_at(y2, x2) == (if y2 == y && x2 == x {
                    open
                } else {
                    old(self).open_at(y2, x2)
                }),
    {
        proof {
            crate::variant_grid::lemma_cell_index(y as int, x as int, self.h as int, self.w as int);
        }
        self.cells.set(y * self.w + x, open);
        proof {
            assert forall|y2: int, x2: int| #[trigger]
                final(self).open_at(y2, x2) == (if y2 == y && x2 == x {
                open
            } else {
                old(self).open_at(y2, x2)
            }) by {
                if 0 <= y2 < self.h && 0 <= x2 < self.w {
                    crate::variant_grid::lemma_cell_index(y2, x2, self.h as int, self.w as int);
                    if !(y2 == y && x2 == x) && y2 * self.w + x2 == y * self.w + x {
                        crate::variant_grid::lemma_cell_index_inj(
                            y2,
                            x2,
                            y as int,
                            x as int,
                            self.h as int,
                            self.w as int,
                        );
                    }
                }
            }
        }
    }

    pub fn is_open(&self, y: usize, x: usize) -> (r: bool)
        requires
            self.wf(),
        ensures
            r == self.open_at(y as int, x as int),
    {
        if y < self.h && x < self.w {
            proof {
                crate::variant_grid::lemma_cell_index(y as int, x as int, self.h as int, self.w as int);
            }
            self.cells[y * self.w + x]
        } else {
            false
        }
    }
}

/// An identical copy of a word.
pub fn clone_word(word: &Word) -> (r: Word)
    ensures
        r.id == word.id,
        r.letters@ == word.letters@,
{
    let mut letters: Vec<u8> = Vec::new();
    let n = word.letters.len();
    let mut i: usize = 0;
    while i < n
        invariant
            i <= n,
            n == word.letters@.len(),
            letters@ == word.letters@.take(i as int),
        decreases n - i,
    {
        letters.push(word.letters[i]);
        proof {
            assert(letters@ =~= word.letters@.take(i + 1));
        }
        i = i + 1;
    }
    proof {
        assert(word.letters@.take(n as int) =~= word.letters@);
    }
    Word { id: word.id, letters }
}

/// A crossword problem: the dictionary and the board mask. All word bytes are
/// owned by the dictionary entries; placements carry copies of them.
pub struct Problem {
    pub dic: Vec<Word>,
    pub board: BoolGrid,
}

impl Problem {
    /// The dictionary entries carry dense ids and non-empty, bounded words.
    pub open spec fn wf(self) -> bool {
        &&& self.board.wf()
        &&& forall|i: int|
            0 <= i < self.dic@.len() ==> (#[trigger] self.dic@[i]).id == i && 1
                <= self.dic@[i].letters@.len() <= 0xFFFF
    }

    /// Build a problem from raw words and a board; word ids follow the input
    /// order.
    pub fn new(dic: Vec<Vec<u8>>, board: BoolGrid) -> (p: Problem)
        requires
            board.wf(),
            forall|i: int| 0 <= i < dic@.len() ==> 1 <= (#[trigger] dic@[i])@.len() <= 0xFFFF,
        ensures
            p.wf(),
            p.board == board,
            p.dic@.len() == dic@.len(),
            forall|i: int|
                0 <= i < dic@.len() ==> (#[trigger] p.dic@[i]).letters@ == dic@[i]@,
    {
        let n = dic.len();
        let mut dic = dic;
        let mut words: Vec<Word> = Vec::new();
        let ghost dic_view = dic@;
        let mut i: usize = 0;
        while i < n
            invariant
                i <= n,
                n == dic_view.len(),
                dic@ =~= dic_view.skip(i as int),
                words@.len() == i,
                forall|k: int|
                    0 <= k < i ==> (#[trigger] words@[k]).id == k && words@[k].letters@
                        == dic_view[k]@,
            decreases n - i,
        {
            let letters = dic.remove(0);
            proof {
                assert(letters == dic_view[i as int]);
                assert(dic@ =~= dic_view.skip(i + 1));
            }
            words.push(Word { id: i, letters });
            i = i + 1;
        }
        Problem { dic: words, board }
    }
}

/// Whether some entry of `s` carries word id `wid`.
pub open spec fn lists_word(s: Seq<Word>, wid: int) -> bool {
    exists|k: int| 0 <= k < s.len() && ((#[trigger] s[k]).id as int) == wid
}

/// A dictionary ordered by word length, shortest first, equal lengths in id
/// order; every dictionary word appears exactly once and matches its entry.
fn sort_by_len(dic: &Vec<Word>) -> (r: Vec<Word>)
    requires
        forall|i: int| 0 <= i < dic@.len() ==> (#[trigger] dic@[i]).id == i,
    ensures
        r@.len() == dic@.len(),
        forall|k: int|
            0 <= k < r@.len() ==> {
                let id = (#[trigger] r@[k]).id;
                &&& id < dic@.len()
                &&& r@[k].letters@ == dic@[id as int].letters@
            },
        forall|k1: int, k2: int|
            0 <= k1 < k2 < r@.len() ==> (#[trigger] r@[k1]).letters@.len() <= (
            #[trigger] r@[k2]).letters@.len(),
        forall|k1: int, k2: int|
            0 <= k1 < k2 < r@.len() ==> (#[trigger] r@[k1]).id != (#[trigger] r@[k2]).id,
        forall|wid: int| 0 <= wid < dic@.len() ==> lists_word(r@, wid),
{
    let mut out: Vec<Word> = Vec::new();
    let n = dic.len();
    let mut i: usize = 0;
    while i < n
        invariant
            i <= n,
            n == dic@.len(),
            forall|i2: int| 0 <= i2 < dic@.len() ==> (#[trigger] dic@[i2]).id == i2,
            out@.len() == i,
            forall|k: int|
                0 <= k < out@.len() ==> {
                    let id = (#[trigger] out@[k]).id;
                    &&& id < dic@.len()
                    &&& out@[k].letters@ == dic@[id as int].letters@
                },
            forall|k1: int, k2: int|
                0 <= k1 < k2 < out@.len() ==> (#[trigger] out@[k1]).letters@.len() <= (
                #[trigger] out@[k2]).letters@.len(),
            forall|k: int| 0 <= k < out@.len() ==> ((#[trigger] out@[k]).id as int) < i,
            forall|k1: int, k2: int|
                0 <= k1 < k2 < out@.len() ==> (#[trigger] out@[k1]).id != (#[trigger] out@[k2]).id,
            forall|wid: int| 0 <= wid < i ==> lists_word(out@, wid),
        decreases n - i,
    {
        let word = clone_word(&dic[i]);
        proof {
            assert(word.id == i);
        }
        // insert before the first strictly longer entry, keeping input order
        // among equal lengths
        let mut pos: usize = 0;
        let wl = word.letters.len();
        while pos < out.len() && out[pos].letters.len() <= wl
            invariant
                pos <= out@.len(),
                wl == word.letters@.len(),
                forall|k: int|
                    0 <= k < pos ==> (#[trigger] out@[k]).letters@.len() <= word.letters@.len(),
            decreases out@.len() - pos,
        {
            pos = pos + 1;
        }
        let ghost out0 = out@;
        out.insert(pos, word);
        proof {
            assert forall|wid: int| 0 <= wid < i + 1 implies lists_word(out@, wid) by {
                if wid == i as int {
                    assert(((out@[pos as int]).id as int) == wid);
                } else {
                    assert(lists_word(out0, wid));
                    let k = choose|k: int|
                        0 <= k < out0.len() && ((#[trigger] out0[k]).id as int) == wid;
                    if k < pos {
                        assert(((out@[k]).id as int) == wid);
                    } else {
                        assert(((out@[k + 1]).id as int) == wid);
                    }
                }
            }
            assert forall|k1: int, k2: int|
                0 <= k1 < k2 < out@.len() implies (#[trigger] out@[k1]).id != (
            #[trigger] out@[k2]).id by {
                if k1 != pos && k2 != pos {
                    let a1: int = if k1 < pos {
                        k1
                    } else {
                        k1 - 1
                    };
                    let a2: int = if k2 < pos {
                        k2
                    } else {
                        k2 - 1
                    };
                    assert(out@[k1] == out0[a1] && out@[k2] == out0[a2]);
                } else if k1 == pos {
                    assert(out@[k2] == out0[k2 - 1]);
                    assert(((out0[k2 - 1]).id as int) < i);
                } else {
                    assert(out@[k1] == out0[k1]);
                    assert(((out0[k1]).id as int) < i);
                }
            }
            assert forall|k: int|
                0 <= k < out@.len() implies {
                    let id = (#[trigger] out@[k]).id;
                    &&& id < dic@.len()
                    &&& out@[k].letters@ == dic@[id as int].letters@
                } by {
                if k < pos {
                    assert(out@[k] == out0[k]);
                } else if k > pos {
                    assert(out@[k] == out0[k - 1]);
                } else {
                    assert(out@[k] == word);
                }
            }
            assert forall|k1: int, k2: int|
                0 <= k1 < k2 < out@.len() implies (#[trigger] out@[k1]).letters@.len() <= (
            #[trigger] out@[k2]).letters@.len() by {
                if k1 < pos && k2 == pos {
                } else if k1 == pos && k2 > pos {
                    assert(out@[k2] == out0[k2 - 1]);
                    assert(out0[pos as int].letters@.len() > word.letters@.len() || pos
                        == out0.len());
                } else if k1 < pos && k2 > pos {
                    assert(out@[k1] == out0[k1] && out@[k2] == out0[k2 - 1]);
                } else if k2 < pos {
                    assert(out@[k1] == out0[k1] && out@[k2] == out0[k2]);
                } else if k1 > pos {
                    assert(out@[k1] == out0[k1 - 1] && out@[k2] == out0[k2 - 1]);
                }
            }
        }
        i = i + 1;
    }
    out
}


/// Placement `p` is legal on the problem: well formed, inside the board, on
/// open cells only, and its word matches a dictionary entry.
pub open spec fn legal_placement(p: Placement, prob: Problem) -> bool {
    &&& p.wf()
    &&& p.fits(prob.board.spec_h(), prob.board.spec_w())
    &&& (forall|i: int|
        0 <= i < p.wlen() ==> #[trigger] prob.board.open_at(p.pos_y(i), p.pos_x(i)))
    &&& p.word.id < prob.dic@.len()
    &&& p.word.letters@ == prob.dic@[p.word.id as int].letters@
}

/// Scan order of the two orientations: vertical lines first.
pub open spec fn rank_of(or: Orientation) -> int {
    match or {
        Orientation::VER => 0,
        Orientation::HOR => 1,
    }
}

/// The line that the anchor (y, x) lies on, for runs of this orientation.
pub open spec fn line_coord(or: Orientation, y: int, x: int) -> int {
    match or {
        Orientation::VER => x,
        Orientation::HOR => y,
    }
}

/// The anchor's offset along its line.
pub open spec fn along_coord(or: Orientation, y: int, x: int) -> int {
    match or {
        Orientation::VER => y,
        Orientation::HOR => x,
    }
}

/// Whether dictionary word `wid` fits at anchor (y, x) in this orientation:
/// inside the board, over open cells only.
pub open spec fn legal_anchor(prob: Problem, wid: int, or: Orientation, y: int, x: int) -> bool {
    &&& 0 <= wid < prob.dic@.len()
    &&& {
        let l = prob.dic@[wid].letters@.len() as int;
        match or {
            Orientation::HOR => 0 <= y < prob.board.spec_h() && 0 <= x && x + l
                <= prob.board.spec_w() && forall|u: int|
                x <= u < x + l ==> prob.board.open_at(y, u),
            Orientation::VER => 0 <= x < prob.board.spec_w() && 0 <= y && y + l
                <= prob.board.spec_h() && forall|u: int|
                y <= u < y + l ==> prob.board.open_at(u, x),
        }
    }
}

/// Whether the result lists a placement of word `wid` at this anchor.
pub open spec fn has_anchor(
    s: Seq<Placement>,
    wid: int,
    or: Orientation,
    y: int,
    x: int,
) -> bool {
    exists|k: int|
        0 <= k < s.len() && ((#[trigger] s[k]).word.id as int) == wid && s[k].orientation == or
            && s[k].y as int == y && s[k].x as int == x
}

/// A legal anchor is listed.
pub open spec fn anchor_covered(
    prob: Problem,
    s: Seq<Placement>,
    wid: int,
    or: Orientation,
    y: int,
    x: int,
) -> bool {
    legal_anchor(prob, wid, or, y, x) ==> has_anchor(s, wid, or, y, x)
}

/// Whether two placements name one anchored candidate: the same word at the
/// same cell in the same orientation.
pub open spec fn same_anchor(p1: Placement, p2: Placement) -> bool {
    &&& p1.word.id == p2.word.id
    &&& p1.orientation == p2.orientation
    &&& p1.y == p2.y
    &&& p1.x == p2.x
}

/// The placement's own scan stamp: orientation rank, line, and the offset of
/// its last cell along the line.
pub open spec fn p_end(p: Placement) -> int {
    along_coord(p.orientation, p.y as int, p.x as int) + p.wlen() - 1
}

/// The placement was emitted strictly before the scan reached cell `j` of
/// line `i` of the orientation with rank `oi`.
pub open spec fn before_cell(p: Placement, oi: int, i: int, j: int) -> bool {
    ||| rank_of(p.orientation) < oi
    ||| (rank_of(p.orientation) == oi && line_coord(p.orientation, p.y as int, p.x as int) < i)
    ||| (rank_of(p.orientation) == oi && line_coord(p.orientation, p.y as int, p.x as int) == i
        && p_end(p) < j)
}

/// Listing an anchor is preserved when the sequence grows at the end.
proof fn lemma_has_anchor_grow(
    s0: Seq<Placement>,
    s1: Seq<Placement>,
    wid: int,
    or: Orientation,
    y: int,
    x: int,
)
    requires
        s1.len() >= s0.len(),
        forall|k: int| 0 <= k < s0.len() ==> s1[k] == s0[k],
        has_anchor(s0, wid, or, y, x),
    ensures
        has_anchor(s1, wid, or, y, x),
{
    let k = choose|k: int|
        0 <= k < s0.len() && ((#[trigger] s0[k]).word.id as int) == wid && s0[k].orientation == or
            && s0[k].y as int == y && s0[k].x as int == x;
    assert(((s1[k]).word.id as int) == wid && s1[k].orientation == or && s1[k].y as int == y
        && s1[k].x as int == x);
}

/// The two orientations are told apart by their scan rank.
proof fn lemma_rank_injective(a: Orientation, b: Orientation)
    requires
        rank_of(a) == rank_of(b),
    ensures
        a == b,
{
}

/// Enumerate every placement of a dictionary word over open cells, scanning
/// vertical lines first, then horizontal ones; ids are handed out densely in
/// emission order, every legal anchor appears, and no anchor appears twice.
pub fn gen_placements(problem: &Problem) -> (r: Vec<Placement>)
    requires
        problem.wf(),
    ensures
        forall|k: int| 0 <= k < r@.len() ==> (#[trigger] r@[k]).id.0 == k,
        forall|k: int| 0 <= k < r@.len() ==> legal_placement(#[trigger] r@[k], *problem),
        forall|wid: int, or: Orientation, y: int, x: int|
            #[trigger] anchor_covered(*problem, r@, wid, or, y, x),
        forall|k1: int, k2: int|
            0 <= k1 < k2 < r@.len() ==> !same_anchor(#[trigger] r@[k1], #[trigger] r@[k2]),
{
    let sorted = sort_by_len(&problem.dic);
    let h = problem.board.height();
    let w = problem.board.width();
    let nw = sorted.len();
    let mut out: Vec<Placement> = Vec::new();
    let orientations = Orientation::values();
    let mut oi: usize = 0;
    while oi < 2
        invariant
            oi <= 2,
            orientations@.len() == 2,
            orientations@[0] == Orientation::VER,
            orientations@[1] == Orientation::HOR,
            problem.wf(),
            h == problem.board.spec_h(),
            w == problem.board.spec_w(),
            nw == sorted@.len(),
            sorted@.len() == problem.dic@.len(),
            forall|k: int|
                0 <= k < sorted@.len() ==> {
                    let id = (#[trigger] sorted@[k]).id;
                    &&& id < problem.dic@.len()
                    &&& sorted@[k].letters@ == problem.dic@[id as int].letters@
                },
            forall|k1: int, k2: int|
                0 <= k1 < k2 < sorted@.len() ==> (#[trigger] sorted@[k1]).id != (
                #[trigger] sorted@[k2]).id,
            forall|wid: int| 0 <= wid < problem.dic@.len() ==> lists_word(sorted@, wid),
            forall|k: int| 0 <= k < out@.len() ==> (#[trigger] out@[k]).id.0 == k,
            forall|k: int| 0 <= k < out@.len() ==> legal_placement(#[trigger] out@[k], *problem),
            forall|wid: int, or: Orientation, y: int, x: int|
                rank_of(or) < oi ==> #[trigger] anchor_covered(*problem, out@, wid, or, y, x),
            forall|k: int|
                0 <= k < out@.len() ==> rank_of((#[trigger] out@[k]).orientation) < oi,
            forall|k1: int, k2: int|
                0 <= k1 < k2 < out@.len() ==> !same_anchor(#[trigger] out@[k1], #[trigger] out@[k2]),
        decreases 2 - oi,
    {
        let orientation = orientations[oi];
        // lines run across the board: columns for vertical, rows for horizontal
        let nlines = match orientation {
            Orientation::VER => w,
            Orientation::HOR => h,
        };
        let llen = match orientation {
            Orientation::VER => h,
            Orientation::HOR => w,
        };
        let mut i: usize = 0;
        while i < nlines
            invariant
                i <= nlines,
                oi < 2,
                orientation == if oi == 0 {
                    Orientation::VER
                } else {
                    Orientation::HOR
                },
                rank_of(orientation) == oi,
                problem.wf(),
                h == problem.board.spec_h(),
                w == problem.board.spec_w(),
                nw == sorted@.len(),
                sorted@.len() == problem.dic@.len(),
                nlines == match orientation {
                    Orientation::VER => w as int,
                    Orientation::HOR => h as int,
                },
                llen == match orientation {
                    Orientation::VER => h as int,
                    Orientation::HOR => w as int,
                },
                forall|k: int|
                    0 <= k < sorted@.len() ==> {
                        let id = (#[trigger] sorted@[k]).id;
                        &&& id < problem.dic@.len()
                        &&& sorted@[k].letters@ == problem.dic@[id as int].letters@
                    },
                forall|k1: int, k2: int|
                    0 <= k1 < k2 < sorted@.len() ==> (#[trigger] sorted@[k1]).id != (
                    #[trigger] sorted@[k2]).id,
                forall|wid: int| 0 <= wid < problem.dic@.len() ==> lists_word(sorted@, wid),
                forall|k: int| 0 <= k < out@.len() ==> (#[trigger] out@[k]).id.0 == k,
                forall|k: int|
                    0 <= k < out@.len() ==> legal_placement(#[trigger] out@[k], *problem),
                forall|wid: int, or: Orientation, y: int, x: int|
                    rank_of(or) < oi || (rank_of(or) == oi && line_coord(or, y, x) < i)
                        ==> #[trigger] anchor_covered(*problem, out@, wid, or, y, x),
                forall|k: int|
                    0 <= k < out@.len() ==> before_cell(#[trigger] out@[k], oi as int, i as int, 0),
                forall|k1: int, k2: int|
                    0 <= k1 < k2 < out@.len() ==> !same_anchor(
                        #[trigger] out@[k1],
                        #[trigger] out@[k2],
                    ),
            decreases nlines - i,
        {
            let mut run_len: usize = 0;
            let mut j: usize = 0;
            while j < llen
                invariant
                    j <= llen,
                    run_len <= j,
                    oi < 2,
                    rank_of(orientation) == oi,
                    i < nlines,
                    problem.wf(),
                    h == problem.board.spec_h(),
                    w == problem.board.spec_w(),
                    nw == sorted@.len(),
                    sorted@.len() == problem.dic@.len(),
                    nlines == match orientation {
                        Orientation::VER => w as int,
                        Orientation::HOR => h as int,
                    },
                    llen == match orientation {
                        Orientation::VER => h as int,
                        Orientation::HOR => w as int,
                    },
                    // the run ending before j: its cells are open, and it is
                    // maximal to the left
                    forall|j2: int|
                        j - run_len <= j2 < j ==> match orientation {
                            Orientation::VER => problem.board.open_at(j2, i as int),
                            Orientation::HOR => problem.board.open_at(i as int, j2),
                        },
                    run_len == j || !(match orientation {
                        Orientation::VER => problem.board.open_at(j - run_len - 1, i as int),
                        Orientation::HOR => problem.board.open_at(i as int, j - run_len - 1),
                    }),
                    forall|k: int|
                        0 <= k < sorted@.len() ==> {
                            let id = (#[trigger] sorted@[k]).id;
                            &&& id < problem.dic@.len()
                            &&& sorted@[k].letters@ == problem.dic@[id as int].letters@
                        },
                    forall|k1: int, k2: int|
                        0 <= k1 < k2 < sorted@.len() ==> (#[trigger] sorted@[k1]).id != (
                        #[trigger] sorted@[k2]).id,
                    forall|wid: int| 0 <= wid < problem.dic@.len() ==> lists_word(sorted@, wid),
                    forall|k: int| 0 <= k < out@.len() ==> (#[trigger] out@[k]).id.0 == k,
                    forall|k: int|
                        0 <= k < out@.len() ==> legal_placement(#[trigger] out@[k], *problem),
                    forall|wid: int, or: Orientation, y: int, x: int|
                        rank_of(or) < oi || (rank_of(or) == oi && line_coord(or, y, x) < i) || (
                        rank_of(or) == oi && line_coord(or, y, x) == i && along_coord(or, y, x)
                            + problem.dic@[wid].letters@.len() - 1 < j && 0 <= wid
                            < problem.dic@.len()) ==> #[trigger] anchor_covered(
                            *problem,
                            out@,
                            wid,
                            or,
                            y,
                            x,
                        ),
                    forall|k: int|
                        0 <= k < out@.len() ==> before_cell(
                            #[trigger] out@[k],
                            oi as int,
                            i as int,
                            j as int,
                        ),
                    forall|k1: int, k2: int|
                        0 <= k1 < k2 < out@.len() ==> !same_anchor(
                            #[trigger] out@[k1],
                            #[trigger] out@[k2],
                        ),
                decreases llen - j,
            {
                let open = match orientation {
                    Orientation::VER => problem.board.is_open(j, i),
                    Orientation::HOR => problem.board.is_open(i, j),
                };
                if open {
                    run_len = run_len + 1;
                    let mut wi: usize = 0;
                    while wi < nw
                        invariant
                            wi <= nw,
                            oi < 2,
                            rank_of(orientation) == oi,
                            i < nlines,
                            j < llen,
                            1 <= run_len <= j + 1,
                            problem.wf(),
                            h == problem.board.spec_h(),
                            w == problem.board.spec_w(),
                            nw == sorted@.len(),
                            sorted@.len() == problem.dic@.len(),
                            nlines == match orientation {
                                Orientation::VER => w as int,
                                Orientation::HOR => h as int,
                            },
                            llen == match orientation {
                                Orientation::VER => h as int,
                                Orientation::HOR => w as int,
                            },
                            forall|j2: int|
                                j + 1 - run_len <= j2 <= j ==> match orientation {
                                    Orientation::VER => problem.board.open_at(j2, i as int),
                                    Orientation::HOR => problem.board.open_at(i as int, j2),
                                },
                            run_len == j + 1 || !(match orientation {
                                Orientation::VER => problem.board.open_at(j - run_len, i as int),
                                Orientation::HOR => problem.board.open_at(i as int, j - run_len),
                            }),
                            forall|k: int|
                                0 <= k < sorted@.len() ==> {
                                    let id = (#[trigger] sorted@[k]).id;
                                    &&& id < problem.dic@.len()
                                    &&& sorted@[k].letters@ == problem.dic@[id as int].letters@
                                },
                            forall|k1: int, k2: int|
                                0 <= k1 < k2 < sorted@.len() ==> (#[trigger] sorted@[k1]).id != (
                                #[trigger] sorted@[k2]).id,
                            forall|wid: int|
                                0 <= wid < problem.dic@.len() ==> lists_word(sorted@, wid),
                            forall|k: int| 0 <= k < out@.len() ==> (#[trigger] out@[k]).id.0 == k,
                            forall|k: int|
                                0 <= k < out@.len() ==> legal_placement(
                                    #[trigger] out@[k],
                                    *problem,
                                ),
                            forall|wid: int, or: Orientation, y: int, x: int|
                                rank_of(or) < oi || (rank_of(or) == oi && line_coord(or, y, x) < i)
                                    || (rank_of(or) == oi && line_coord(or, y, x) == i
                                    && along_coord(or, y, x) + problem.dic@[wid].letters@.len() - 1
                                    < j && 0 <= wid < problem.dic@.len()) || (rank_of(or) == oi
                                    && line_coord(or, y, x) == i && along_coord(or, y, x)
                                    + problem.dic@[wid].letters@.len() - 1 == j && exists|k2: int|
                                    0 <= k2 < wi && ((#[trigger] sorted@[k2]).id as int) == wid)
                                    ==> #[trigger] anchor_covered(*problem, out@, wid, or, y, x),
                            forall|k: int|
                                0 <= k < out@.len() ==> before_cell(
                                    #[trigger] out@[k],
                                    oi as int,
                                    i as int,
                                    j as int,
                                ) || (rank_of(out@[k].orientation) == oi && line_coord(
                                    out@[k].orientation,
                                    out@[k].y as int,
                                    out@[k].x as int,
                                ) == i && p_end(out@[k]) == j && exists|k2: int|
                                    0 <= k2 < wi && ((#[trigger] sorted@[k2]).id as int) == out@[k].word.id),
                            forall|k1: int, k2: int|
                                0 <= k1 < k2 < out@.len() ==> !same_anchor(
                                    #[trigger] out@[k1],
                                    #[trigger] out@[k2],
                                ),
                        decreases nw - wi,
                    {
                        let wlen = sorted[wi].letters.len();
                        if wlen <= run_len {
                            let word = clone_word(&sorted[wi]);
                            let (y, x) = orientation.align(i, j + 1 - wlen);
                            let pid = out.len();
                            let place = Placement::new(pid, orientation, y, x, word);
                            let ghost out0 = out@;
                            proof {
                                assert(1 <= place.wlen() <= 0xFFFF) by {
                                    let id = sorted@[wi as int].id;
                                    assert(problem.dic@[id as int].letters@.len() >= 1);
                                }
                                assert(legal_placement(place, *problem)) by {
                                    assert forall|i2: int|
                                        0 <= i2 < place.wlen() implies #[trigger] problem.board.open_at(
                                        place.pos_y(i2),
                                        place.pos_x(i2),
                                    ) by {
                                        match orientation {
                                            Orientation::VER => {
                                                assert(place.pos_y(i2) == j + 1 - wlen + i2);
                                                assert(place.pos_x(i2) == i as int);
                                            },
                                            Orientation::HOR => {
                                                assert(place.pos_y(i2) == i as int);
                                                assert(place.pos_x(i2) == j + 1 - wlen + i2);
                                            },
                                        }
                                    }
                                }
                            }
                            out.push(place);
                            proof {
                                let wid0 = sorted@[wi as int].id as int;
                                let l0 = problem.dic@[wid0].letters@.len() as int;
                                assert(l0 == wlen as int);
                                assert(has_anchor(out@, wid0, orientation, y as int, x as int)) by {
                                    assert(((out@[out@.len() - 1]).word.id as int) == wid0);
                                }
                                // coverage grows by this word at this cell
                                assert forall|wid: int, or: Orientation, y2: int, x2: int|
                                    rank_of(or) < oi || (rank_of(or) == oi && line_coord(or, y2, x2)
                                        < i) || (rank_of(or) == oi && line_coord(or, y2, x2) == i
                                        && along_coord(or, y2, x2) + problem.dic@[wid].letters@.len() - 1 < j && 0 <= wid < problem.dic@.len()) || (
                                    rank_of(or) == oi && line_coord(or, y2, x2) == i && along_coord(
                                        or,
                                        y2,
                                        x2,
                                    ) + problem.dic@[wid].letters@.len() - 1 == j && exists|k2: int|
                                        0 <= k2 < wi + 1 && ((#[trigger] sorted@[k2]).id as int)
                                            == wid) implies #[trigger] anchor_covered(
                                    *problem,
                                    out@,
                                    wid,
                                    or,
                                    y2,
                                    x2,
                                ) by {
                                    if legal_anchor(*problem, wid, or, y2, x2) {
                                        let isnew = rank_of(or) == oi as int && line_coord(
                                            or,
                                            y2,
                                            x2,
                                        ) == i as int && along_coord(or, y2, x2) + problem.dic@[wid].letters@.len() - 1 == j as int && wid == wid0;
                                        if isnew {
                                            lemma_rank_injective(or, orientation);
                                            assert(y2 == y as int && x2 == x as int) by {
                                                match orientation {
                                                    Orientation::VER => {},
                                                    Orientation::HOR => {},
                                                }
                                            }
                                            assert(has_anchor(out@, wid, or, y2, x2));
                                        } else {
                                            assert(anchor_covered(
                                                *problem,
                                                out0,
                                                wid,
                                                or,
                                                y2,
                                                x2,
                                            )) by {
                                                if rank_of(or) == oi as int && line_coord(
                                                    or,
                                                    y2,
                                                    x2,
                                                ) == i as int && along_coord(or, y2, x2)
                                                    + problem.dic@[wid].letters@.len() - 1
                                                    == j as int {
                                                    let k2 = choose|k2: int|
                                                        0 <= k2 < wi + 1 && ((#[trigger] sorted@[k2]).id as int) == wid;
                                                    assert(k2 < wi) by {
                                                        if k2 == wi as int {
                                                            assert(wid == wid0);
                                                        }
                                                    }
                                                    assert(exists|k3: int|
                                                        0 <= k3 < wi && ((#[trigger] sorted@[k3]).id as int) == wid) by {
                                                        assert(((sorted@[k2]).id as int) == wid);
                                                    }
                                                }
                                            }
                                            lemma_has_anchor_grow(out0, out@, wid, or, y2, x2);
                                        }
                                    }
                                }
                                // the new entry carries this cell's stamp
                                assert forall|k: int|
                                    0 <= k < out@.len() implies before_cell(
                                    #[trigger] out@[k],
                                    oi as int,
                                    i as int,
                                    j as int,
                                ) || (rank_of(out@[k].orientation) == oi && line_coord(
                                    out@[k].orientation,
                                    out@[k].y as int,
                                    out@[k].x as int,
                                ) == i && p_end(out@[k]) == j && exists|k2: int|
                                    0 <= k2 < wi + 1 && ((#[trigger] sorted@[k2]).id as int)
                                        == out@[k].word.id) by {
                                    if k == out@.len() - 1 {
                                        assert(((sorted@[wi as int]).id as int) == out@[k].word.id as int);
                                    } else {
                                        assert(out@[k] == out0[k]);
                                        if !before_cell(out@[k], oi as int, i as int, j as int) {
                                            let k2 = choose|k2: int|
                                                0 <= k2 < wi && ((#[trigger] sorted@[k2]).id
                                                    as int) == out0[k].word.id;
                                            assert(((sorted@[k2]).id as int) == out@[k].word.id as int);
                                        }
                                    }
                                }
                                // and differs from every earlier entry
                                assert forall|k1: int, k2: int|
                                    0 <= k1 < k2 < out@.len() implies !same_anchor(
                                    #[trigger] out@[k1],
                                    #[trigger] out@[k2],
                                ) by {
                                    if k2 == out@.len() - 1 {
                                        if same_anchor(out@[k1], out@[k2]) {
                                            assert(out@[k1] == out0[k1]);
                                            assert(legal_placement(out0[k1], *problem));
                                            assert(out@[k1].word.letters@.len() == out@[k2].word.letters@.len());
                                            assert(p_end(out@[k1]) == p_end(out@[k2]));
                                            assert(p_end(out@[k2]) == j);
                                            assert(!before_cell(
                                                out@[k1],
                                                oi as int,
                                                i as int,
                                                j as int,
                                            ));
                                            let k3 = choose|k3: int|
                                                0 <= k3 < wi && ((#[trigger] sorted@[k3]).id
                                                    as int) == out0[k1].word.id;
                                            assert((sorted@[k3]).id != (sorted@[wi as int]).id);
                                        }
                                    } else {
                                        assert(out@[k1] == out0[k1] && out@[k2] == out0[k2]);
                                    }
                                }
                            }
                        } else {
                            proof {
                                let wid0 = sorted@[wi as int].id as int;
                                let l0 = problem.dic@[wid0].letters@.len() as int;
                                assert(l0 == wlen as int);
                                // too long for the run: no legal anchor of this
                                // word ends here, so coverage extends for free
                                assert forall|wid: int, or: Orientation, y2: int, x2: int|
                                    rank_of(or) < oi || (rank_of(or) == oi && line_coord(or, y2, x2)
                                        < i) || (rank_of(or) == oi && line_coord(or, y2, x2) == i
                                        && along_coord(or, y2, x2) + problem.dic@[wid].letters@.len() - 1 < j && 0 <= wid < problem.dic@.len()) || (
                                    rank_of(or) == oi && line_coord(or, y2, x2) == i && along_coord(
                                        or,
                                        y2,
                                        x2,
                                    ) + problem.dic@[wid].letters@.len() - 1 == j && exists|k2: int|
                                        0 <= k2 < wi + 1 && ((#[trigger] sorted@[k2]).id as int)
                                            == wid) implies #[trigger] anchor_covered(
                                    *problem,
                                    out@,
                                    wid,
                                    or,
                                    y2,
                                    x2,
                                ) by {
                                    if legal_anchor(*problem, wid, or, y2, x2) {
                                        if rank_of(or) == oi as int && line_coord(or, y2, x2)
                                            == i as int && along_coord(or, y2, x2) + problem.dic@[wid].letters@.len() - 1 == j as int && wid == wid0 {
                                            // its first cell would sit before
                                            // the run's blocked left boundary
                                            lemma_rank_injective(or, orientation);
                                            let u = along_coord(or, y2, x2);
                                            assert(u >= 0);
                                            assert(u <= j - run_len);
                                            assert(run_len < j + 1);
                                            match orientation {
                                                Orientation::VER => {
                                                    assert(problem.board.open_at(
                                                        j - run_len,
                                                        i as int,
                                                    )) by {
                                                        assert(problem.board.open_at(
                                                            j - run_len,
                                                            x2,
                                                        ));
                                                    }
                                                },
                                                Orientation::HOR => {
                                                    assert(problem.board.open_at(
                                                        i as int,
                                                        j - run_len,
                                                    )) by {
                                                        assert(problem.board.open_at(
                                                            y2,
                                                            j - run_len,
                                                        ));
                                                    }
                                                },
                                            }
                                        } else if rank_of(or) == oi as int && line_coord(
                                            or,
                                            y2,
                                            x2,
                                        ) == i as int && along_coord(or, y2, x2) + problem.dic@[wid].letters@.len() - 1 == j as int {
                                            let k2 = choose|k2: int|
                                                0 <= k2 < wi + 1 && ((#[trigger] sorted@[k2]).id
                                                    as int) == wid;
                                            assert(k2 < wi) by {
                                                if k2 == wi as int {
                                                    assert(wid == wid0);
                                                }
                                            }
                                            assert(exists|k3: int|
                                                0 <= k3 < wi && ((#[trigger] sorted@[k3]).id
                                                    as int) == wid) by {
                                                assert(((sorted@[k2]).id as int) == wid);
                                            }
                                            assert(anchor_covered(
                                                *problem,
                                                out@,
                                                wid,
                                                or,
                                                y2,
                                                x2,
                                            ));
                                        }
                                    }
                                }
                            }
                        }
                        wi = wi + 1;
                    }
                    proof {
                        // every dictionary word stands somewhere in the sorted
                        // table, so the whole cell is covered
                        assert forall|wid: int, or: Orientation, y2: int, x2: int|
                            rank_of(or) < oi || (rank_of(or) == oi && line_coord(or, y2, x2) < i)
                                || (rank_of(or) == oi && line_coord(or, y2, x2) == i
                                && along_coord(or, y2, x2) + problem.dic@[wid].letters@.len() - 1
                                < j + 1 && 0 <= wid
                                < problem.dic@.len()) implies #[trigger] anchor_covered(
                            *problem,
                            out@,
                            wid,
                            or,
                            y2,
                            x2,
                        ) by {
                            if legal_anchor(*problem, wid, or, y2, x2) && rank_of(or) == oi as int
                                && line_coord(or, y2, x2) == i as int && along_coord(or, y2, x2)
                                + problem.dic@[wid].letters@.len() - 1 == j as int {
                                assert(lists_word(sorted@, wid));
                                let k2 = choose|k2: int|
                                    0 <= k2 < sorted@.len() && ((#[trigger] sorted@[k2]).id as int)
                                        == wid;
                                assert(exists|k3: int|
                                    0 <= k3 < nw && ((#[trigger] sorted@[k3]).id as int) == wid)
                                    by {
                                    assert(((sorted@[k2]).id as int) == wid);
                                }
                            }
                        }
                        assert forall|k: int| 0 <= k < out@.len() implies before_cell(
                            #[trigger] out@[k],
                            oi as int,
                            i as int,
                            j + 1,
                        ) by {}
                    }
                } else {
                    run_len = 0;
                    proof {
                        // a blocked cell ends no legal anchor
                        assert forall|wid: int, or: Orientation, y: int, x: int|
                            rank_of(or) == oi && line_coord(or, y, x) == i && along_coord(or, y, x)
                                + problem.dic@[wid].letters@.len() - 1 == j && 0 <= wid
                                < problem.dic@.len() implies #[trigger] anchor_covered(
                            *problem,
                            out@,
                            wid,
                            or,
                            y,
                            x,
                        ) by {
                            if legal_anchor(*problem, wid, or, y, x) {
                                let l = problem.dic@[wid].letters@.len() as int;
                                match or {
                                    Orientation::VER => {
                                        assert(problem.board.open_at(y + l - 1, x));
                                    },
                                    Orientation::HOR => {
                                        assert(problem.board.open_at(y, x + l - 1));
                                    },
                                }
                            }
                        }
                    }
                }
                j = j + 1;
            }
            proof {
                // anchors on this line end before its length
                assert forall|wid: int, or: Orientation, y: int, x: int|
                    rank_of(or) == oi && line_coord(or, y, x) == i + 1 - 1 implies
                    #[trigger] anchor_covered(*problem, out@, wid, or, y, x) by {
                    if legal_anchor(*problem, wid, or, y, x) {
                        let l = problem.dic@[wid].letters@.len() as int;
                        assert(along_coord(or, y, x) + l - 1 < llen);
                    }
                }
                assert forall|k: int| 0 <= k < out@.len() implies before_cell(
                    #[trigger] out@[k],
                    oi as int,
                    i + 1,
                    0,
                ) by {}
            }
            i = i + 1;
        }
        proof {
            // anchors of this orientation lie on a line before nlines
            assert forall|wid: int, or: Orientation, y: int, x: int|
                rank_of(or) < oi + 1 implies #[trigger] anchor_covered(
                *problem,
                out@,
                wid,
                or,
                y,
                x,
            ) by {
                if rank_of(or) == oi as int && legal_anchor(*problem, wid, or, y, x) {
                    assert(line_coord(or, y, x) < nlines);
                }
            }
        }
        oi = oi + 1;
    }
    proof {
        assert forall|wid: int, or: Orientation, y: int, x: int| #[trigger] anchor_covered(
            *problem,
            out@,
            wid,
            or,
            y,
            x,
        ) by {
            assert(rank_of(or) < 2);
        }
    }
    out
}

} // verus!