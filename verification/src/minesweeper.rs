//! The board engine: grid state, mine placement, reveal and flag rules.

use vstd::prelude::*;

verus! {

/// A cell coordinate `(x, y)`, with `0 <= x < width` and `0 <= y < height`.
pub type Position = (usize, usize);

/// The observable outcome of a first reveal of a covered cell.
#[derive(Clone, Copy, Debug, PartialEq, Eq, Structural)]
pub enum OpenResult {
    /// The revealed cell was a mine; the game is lost.
    Mine,
    /// The revealed cell was safe. The payload is always `0`, whatever the
    /// true neighboring-mine count: callers re-query `neighboring_mines`
    /// for display.
    NoMine(u8),
}

/// The mathematical view of a board: the grid dimensions, three sets of
/// in-bounds positions, and the lost flag.
#[verifier::ext_equal]
pub ghost struct BoardModel {
    pub width: int,
    pub height: int,
    pub mines: Set<(int, int)>,
    pub open: Set<(int, int)>,
    pub flagged: Set<(int, int)>,
    pub lost: bool,
}

/// The set of positions whose bit is set in a row-major bitmap of a
/// `w` by `h` grid. Only in-bounds positions are ever members.
pub open spec fn bit_set(v: Seq<bool>, w: int, h: int) -> Set<(int, int)> {
    Set::new(|p: (int, int)| 0 <= p.0 < w && 0 <= p.1 < h && v[p.1 * w + p.0])
}

/// A Minesweeper board: dimensions fixed at construction, per-cell mine,
/// open and flag bitmaps, and the terminal lost flag.
#[derive(Debug)]
pub struct Minesweeper {
    width: usize,
    height: usize,
    mines: Vec<bool>,
    open_fields: Vec<bool>,
    flagged_fields: Vec<bool>,
    lost: bool,
}

impl View for Minesweeper {
    type V = BoardModel;

    closed spec fn view(&self) -> BoardModel {
        BoardModel {
            width: self.width as int,
            height: self.height as int,
            mines: bit_set(self.mines@, self.width as int, self.height as int),
            open: bit_set(self.open_fields@, self.width as int, self.height as int),
            flagged: bit_set(self.flagged_fields@, self.width as int, self.height as int),
            lost: self.lost,
        }
    }
}

/// `p` lies on the grid of `m`.
pub open spec fn in_bounds(m: BoardModel, p: (int, int)) -> bool {
    0 <= p.0 < m.width && 0 <= p.1 < m.height
}

/// The coordinates of `p` as a pair of mathematical integers.
pub open spec fn ipos(p: Position) -> (int, int) {
    (p.0 as int, p.1 as int)
}

/// `q` lies in the 8-connected neighborhood of `p` and differs from `p`.
pub open spec fn is_neighbor(p: (int, int), q: (int, int)) -> bool {
    &&& q != p
    &&& -1 <= q.0 - p.0 <= 1
    &&& -1 <= q.1 - p.1 <= 1
}

pub open spec fn b2i(b: bool) -> int {
    if b {
        1
    } else {
        0
    }
}

/// How many members of `s` lie in the 8-neighborhood of `p`. Out-of-bounds
/// candidates contribute nothing, since the board's sets hold only
/// in-bounds positions.
pub open spec fn count8(s: Set<(int, int)>, p: (int, int)) -> int {
    b2i(s.contains((p.0 - 1, p.1 - 1))) + b2i(s.contains((p.0, p.1 - 1))) + b2i(
        s.contains((p.0 + 1, p.1 - 1)),
    ) + b2i(s.contains((p.0 - 1, p.1))) + b2i(s.contains((p.0 + 1, p.1))) + b2i(
        s.contains((p.0 - 1, p.1 + 1)),
    ) + b2i(s.contains((p.0, p.1 + 1))) + b2i(s.contains((p.0 + 1, p.1 + 1)))
}

/// The number of mines neighboring `p`.
pub open spec fn mine_count_of(m: BoardModel, p: (int, int)) -> int {
    count8(m.mines, p)
}

/// The number of flagged cells neighboring `p`.
pub open spec fn flag_count_of(m: BoardModel, p: (int, int)) -> int {
    count8(m.flagged, p)
}

/// How many in-bounds neighbors `p` has: 8 in the interior, 5 on an edge,
/// 3 in a corner, and correspondingly fewer on degenerate one-row or
/// one-column grids.
pub open spec fn neighbor_count(m: BoardModel, p: (int, int)) -> int {
    (1 + b2i(p.0 > 0) + b2i(p.0 < m.width - 1)) * (1 + b2i(p.1 > 0) + b2i(p.1 < m.height - 1)) - 1
}

/// Some element of `s` has the coordinates of `q`.
pub open spec fn pos_in_seq(s: Seq<Position>, q: (int, int)) -> bool {
    exists|i: int|
        #![trigger s[i]]
        0 <= i < s.len() && s[i].0 as int == q.0 && s[i].1 as int == q.1
}

impl Minesweeper {
    /// Well-formedness: positive dimensions that fit the bitmaps, and no
    /// cell both open and flagged.
    pub closed spec fn wf(&self) -> bool {
        &&& self.width > 0
        &&& self.height > 0
        &&& (self.width as int) * (self.height as int) <= usize::MAX as int
        &&& self.mines@.len() == (self.width as int) * (self.height as int)
        &&& self.open_fields@.len() == (self.width as int) * (self.height as int)
        &&& self.flagged_fields@.len() == (self.width as int) * (self.height as int)
        &&& forall|i: int|
            0 <= i < self.open_fields@.len() ==> !(self.open_fields@[i] && self.flagged_fields@[i])
    }

    /// The grid width.
    pub fn width(&self) -> (r: usize)
        ensures
            r as int == self@.width,
    {
        self.width
    }

    /// The grid height.
    pub fn height(&self) -> (r: usize)
        ensures
            r as int == self@.height,
    {
        self.height
    }

    /// Whether the game has been lost by opening a mine.
    pub fn is_lost(&self) -> (r: bool)
        ensures
            r == self@.lost,
    {
        self.lost
    }

    /// Whether the cell at `pos` holds a mine.
    pub fn is_mine(&self, pos: Position) -> (r: bool)
        requires
            self.wf(),
            in_bounds(self@, (pos.0 as int, pos.1 as int)),
        ensures
            r == self@.mines.contains((pos.0 as int, pos.1 as int)),
    {
        proof {
            lemma_index_bound(self@.width, self@.height, pos.0 as int, pos.1 as int);
        }
        self.mines[pos.1 * self.width + pos.0]
    }

    /// Whether the cell at `pos` has been revealed.
    pub fn is_open(&self, pos: Position) -> (r: bool)
        requires
            self.wf(),
            in_bounds(self@, (pos.0 as int, pos.1 as int)),
        ensures
            r == self@.open.contains((pos.0 as int, pos.1 as int)),
    {
        proof {
            lemma_index_bound(self@.width, self@.height, pos.0 as int, pos.1 as int);
        }
        self.open_fields[pos.1 * self.width + pos.0]
    }

    /// Whether the cell at `pos` carries a flag.
    pub fn is_flagged(&self, pos: Position) -> (r: bool)
        requires
            self.wf(),
            in_bounds(self@, (pos.0 as int, pos.1 as int)),
        ensures
            r == self@.flagged.contains((pos.0 as int, pos.1 as int)),
    {
        proof {
            lemma_index_bound(self@.width, self@.height, pos.0 as int, pos.1 as int);
        }
        self.flagged_fields[pos.1 * self.width + pos.0]
    }
}

/// Appending an element to a sequence of positions adds exactly its
/// coordinates to the coordinates found in the sequence.
proof fn lemma_pos_in_seq_push(s: Seq<Position>, v: Position, q: (int, int))
    ensures
        pos_in_seq(s.push(v), q) <==> (pos_in_seq(s, q) || (v.0 as int == q.0 && v.1 as int
            == q.1)),
{
    let t = s.push(v);
    assert(t[s.len() as int] == v);
    if pos_in_seq(s, q) {
        let i = choose|i: int|
            #![trigger s[i]]
            0 <= i < s.len() && s[i].0 as int == q.0 && s[i].1 as int == q.1;
        assert(t[i] == s[i]);
    }
    if pos_in_seq(t, q) {
        let i = choose|i: int|
            #![trigger t[i]]
            0 <= i < t.len() && t[i].0 as int == q.0 && t[i].1 as int == q.1;
        if i < s.len() {
            assert(s[i] == t[i]);
        }
    }
}

impl Minesweeper {
    /// Every in-bounds position of the 8-connected neighborhood of `pos`,
    /// excluding `pos` itself, in column-major order, without duplicates.
    #[verifier::loop_isolation(false)]
    #[verifier::rlimit(60)]
    pub fn neighbors(&self, pos: Position) -> (r: Vec<Position>)
        requires
            self.wf(),
            in_bounds(self@, ipos(pos)),
        ensures
            forall|i: int|
                #![trigger r@[i]]
                0 <= i < r@.len() ==> in_bounds(self@, (r@[i].0 as int, r@[i].1 as int))
                    && is_neighbor(ipos(pos), (r@[i].0 as int, r@[i].1 as int)),
            forall|q: (int, int)|
                in_bounds(self@, q) && is_neighbor(ipos(pos), q) ==> pos_in_seq(r@, q),
            forall|i: int, j: int| 0 <= i < j < r@.len() ==> r@[i] != r@[j],
            r@.len() == neighbor_count(self@, ipos(pos)),
    {
        let (x, y) = pos;
        let w = self.width;
        let h = self.height;
        let x0 = if x > 0 {
            x - 1
        } else {
            0
        };
        let x1 = if x + 1 < w {
            x + 1
        } else {
            w - 1
        };
        let y0 = if y > 0 {
            y - 1
        } else {
            0
        };
        let y1 = if y + 1 < h {
            y + 1
        } else {
            h - 1
        };
        let ghost kk: int = y1 as int - y0 as int + 1;
        let mut r: Vec<Position> = Vec::new();
        let mut xi = x0;
        proof {
            assert((x0 as int - x0 as int) * kk == 0) by (nonlinear_arith);
        }
        while xi <= x1
            invariant
                x0 <= xi,
                xi as int <= x1 as int + 1,
                forall|i: int|
                    #![trigger r@[i]]
                    0 <= i < r@.len() ==> in_bounds(self@, (r@[i].0 as int, r@[i].1 as int))
                        && is_neighbor(ipos(pos), (r@[i].0 as int, r@[i].1 as int)) && (
                    r@[i].0 as int) < xi as int,
                forall|q: (int, int)|
                    (x0 as int <= q.0 < xi as int && y0 as int <= q.1 <= y1 as int && q != ipos(
                        pos,
                    )) ==> pos_in_seq(r@, q),
                forall|i: int, j: int| 0 <= i < j < r@.len() ==> r@[i] != r@[j],
                r@.len() == (xi as int - x0 as int) * kk - b2i((x as int) < xi as int),
            decreases x1 as int + 1 - xi as int,
        {
            let mut yi = y0;
            while yi <= y1
                invariant
                    xi <= x1,
                    y0 <= yi,
                    yi as int <= y1 as int + 1,
                    forall|i: int|
                        #![trigger r@[i]]
                        0 <= i < r@.len() ==> in_bounds(self@, (r@[i].0 as int, r@[i].1 as int))
                            && is_neighbor(ipos(pos), (r@[i].0 as int, r@[i].1 as int)) && ((
                        r@[i].0 as int) < xi as int || (r@[i].0 == xi && (r@[i].1 as int)
                            < yi as int)),
                    forall|q: (int, int)|
                        ((x0 as int <= q.0 < xi as int && y0 as int <= q.1 <= y1 as int && q
                            != ipos(pos)) || (q.0 == xi as int && y0 as int <= q.1 < yi as int && q
                            != ipos(pos))) ==> pos_in_seq(r@, q),
                    forall|i: int, j: int| 0 <= i < j < r@.len() ==> r@[i] != r@[j],
                    r@.len() == (xi as int - x0 as int) * kk - b2i((x as int) < xi as int) + (
                    yi as int - y0 as int) - b2i(x == xi && (y as int) < yi as int),
                decreases y1 as int + 1 - yi as int,
            {
                if !(xi == x && yi == y) {
                    let ghost s0 = r@;
                    r.push((xi, yi));
                    proof {
                        assert(r@[s0.len() as int] == (xi, yi));
                        assert forall|q: (int, int)|
                            ((x0 as int <= q.0 < xi as int && y0 as int <= q.1 <= y1 as int && q
                                != ipos(pos)) || (q.0 == xi as int && y0 as int <= q.1
                                < yi as int + 1 && q != ipos(pos))) implies pos_in_seq(r@, q) by {
                            if q.0 == xi as int && q.1 == yi as int {
                                assert(pos_in_seq(r@, q));
                            } else {
                                assert(pos_in_seq(s0, q));
                                lemma_pos_in_seq_push(s0, (xi, yi), q);
                            }
                        }
                    }
                } else {
                    proof {
                        assert forall|q: (int, int)|
                            (q.0 == xi as int && y0 as int <= q.1 < yi as int + 1 && q != ipos(
                                pos,
                            )) implies pos_in_seq(r@, q) by {
                            assert(q.1 != yi as int);
                            assert(pos_in_seq(r@, q));
                        }
                    }
                }
                yi = yi + 1;
            }
            proof {
                assert((xi as int + 1 - x0 as int) * kk == (xi as int - x0 as int) * kk + kk)
                    by (nonlinear_arith);
            }
            xi = xi + 1;
        }
        proof {
            assert((x1 as int - x0 as int + 1) == 1 + b2i(x as int > 0) + b2i(
                (x as int) < w as int - 1,
            ));
            assert(kk == 1 + b2i(y as int > 0) + b2i((y as int) < h as int - 1));
        }
        r
    }

    /// The number of mines in the 8-neighborhood of `pos`. Range 0 to 8.
    #[verifier::rlimit(60)]
    pub fn neighboring_mines(&self, pos: Position) -> (r: u8)
        requires
            self.wf(),
            in_bounds(self@, ipos(pos)),
        ensures
            r as int == mine_count_of(self@, ipos(pos)),
    {
        let (x, y) = pos;
        let mut c: u8 = 0;
        if x > 0 && y > 0 && self.is_mine((x - 1, y - 1)) {
            c = c + 1;
        }
        if y > 0 && self.is_mine((x, y - 1)) {
            c = c + 1;
        }
        if x + 1 < self.width && y > 0 && self.is_mine((x + 1, y - 1)) {
            c = c + 1;
        }
        if x > 0 && self.is_mine((x - 1, y)) {
            c = c + 1;
        }
        if x + 1 < self.width && self.is_mine((x + 1, y)) {
            c = c + 1;
        }
        if x > 0 && y + 1 < self.height && self.is_mine((x - 1, y + 1)) {
            c = c + 1;
        }
        if y + 1 < self.height && self.is_mine((x, y + 1)) {
            c = c + 1;
        }
        if x + 1 < self.width && y + 1 < self.height && self.is_mine((x + 1, y + 1)) {
            c = c + 1;
        }
        c
    }

    /// A fresh board with `mine_count` mines scattered by the random index
    /// source: every cell covered, nothing flagged, the game live, and
    /// exactly `mine_count` distinct in-bounds cells mined. Each draw picks
    /// uniformly among the cells still free, so duplicates never arise and
    /// placement ends after exactly `mine_count` draws.
    #[verifier::loop_isolation(false)]
    pub fn new(width: usize, height: usize, mine_count: usize) -> (r: Minesweeper)
        requires
            width > 0,
            height > 0,
            (width as int) * (height as int) <= usize::MAX as int,
            (mine_count as int) < (width as int) * (height as int),
        ensures
            r.wf(),
            r@.width == width as int,
            r@.height == height as int,
            forall|q: (int, int)| !r@.open.contains(q),
            forall|q: (int, int)| !r@.flagged.contains(q),
            !r@.lost,
            forall|q: (int, int)| r@.mines.contains(q) ==> in_bounds(r@, q),
            set_size(r@.mines, r@.width, r@.height) == mine_count as int,
    {
        let ghost w = width as int;
        let ghost h = height as int;
        let total = width * height;
        let mut mines = falses(total);
        proof {
            assert forall|q: (int, int)| !bit_set(mines@, w, h).contains(q) by {
                if 0 <= q.0 < w && 0 <= q.1 < h {
                    lemma_index_bound(w, h, q.0, q.1);
                }
            }
            lemma_grid_count_empty(bit_set(mines@, w, h), w, h);
            lemma_count_false_all(mines@, 0);
        }
        let mut placed: usize = 0;
        while placed < mine_count
            invariant
                mines@.len() == total as int,
                placed <= mine_count,
                count_false_from(mines@, 0) == total as int - placed as int,
                set_size(bit_set(mines@, w, h), w, h) == placed as int,
            decreases mine_count - placed,
        {
            let slot = crate::random::random_range(0, total - placed);
            let idx = find_free(&mines, slot);
            let ghost v1 = mines@;
            mines[idx] = true;
            proof {
                let p = ((idx as int) % w, (idx as int) / w);
                lemma_pos_of_index(w, h, idx as int);
                assert(v1[p.1 * w + p.0] == v1[idx as int]);
                assert forall|q: (int, int)|
                    bit_set(mines@, w, h).contains(q) <==> (bit_set(v1, w, h).contains(q) || q
                        == p) by {
                    if 0 <= q.0 < w && 0 <= q.1 < h {
                        lemma_index_bound(w, h, q.0, q.1);
                        if q != p {
                            lemma_index_injective(w, q.0, q.1, p.0, p.1);
                        }
                    }
                }
                assert(!bit_set(v1, w, h).contains(p));
                lemma_grid_count_grow(bit_set(v1, w, h), bit_set(mines@, w, h), p, w, h);
                lemma_count_false_set_true(v1, mines@, idx as int, 0);
            }
            placed = placed + 1;
        }
        let r = Minesweeper {
            width,
            height,
            mines,
            open_fields: falses(total),
            flagged_fields: falses(total),
            lost: false,
        };
        proof {
            assert forall|q: (int, int)| !r@.open.contains(q) && !r@.flagged.contains(q) by {
                if 0 <= q.0 < w && 0 <= q.1 < h {
                    lemma_index_bound(w, h, q.0, q.1);
                }
            }
        }
        r
    }

    /// A fresh board whose mines stand exactly at the given positions:
    /// deterministic, for callers that inject their own placement.
    #[verifier::loop_isolation(false)]
    pub fn with_mines(width: usize, height: usize, mine_positions: &Vec<Position>) -> (r:
        Minesweeper)
        requires
            width > 0,
            height > 0,
            (width as int) * (height as int) <= usize::MAX as int,
            forall|i: int|
                0 <= i < mine_positions@.len() ==> (#[trigger] mine_positions@[i]).0 < width
                    && mine_positions@[i].1 < height,
        ensures
            r.wf(),
            r@.width == width as int,
            r@.height == height as int,
            forall|q: (int, int)| !r@.open.contains(q),
            forall|q: (int, int)| !r@.flagged.contains(q),
            !r@.lost,
            forall|q: (int, int)| r@.mines.contains(q) <==> pos_in_seq(mine_positions@, q),
    {
        let ghost w = width as int;
        let ghost h = height as int;
        let ghost s = mine_positions@;
        let total = width * height;
        let mut mines = falses(total);
        proof {
            assert forall|q: (int, int)| !bit_set(mines@, w, h).contains(q) by {
                if 0 <= q.0 < w && 0 <= q.1 < h {
                    lemma_index_bound(w, h, q.0, q.1);
                }
            }
        }
        let mut k: usize = 0;
        while k < mine_positions.len()
            invariant
                k <= mine_positions@.len(),
                mines@.len() == total as int,
                forall|q: (int, int)|
                    bit_set(mines@, w, h).contains(q) <==> pos_in_prefix(s, k as int, q),
            decreases mine_positions@.len() - k,
        {
            let p = mine_positions[k];
            proof {
                lemma_index_bound(w, h, p.0 as int, p.1 as int);
            }
            let idx = p.1 * width + p.0;
            let ghost v1 = mines@;
            mines[idx] = true;
            proof {
                assert forall|q: (int, int)|
                    bit_set(mines@, w, h).contains(q) <==> (bit_set(v1, w, h).contains(q) || q
                        == ipos(p)) by {
                    if 0 <= q.0 < w && 0 <= q.1 < h {
                        lemma_index_bound(w, h, q.0, q.1);
                        if q != ipos(p) {
                            lemma_index_injective(w, q.0, q.1, p.0 as int, p.1 as int);
                        }
                    }
                }
                assert forall|q: (int, int)|
                    bit_set(mines@, w, h).contains(q) <==> pos_in_prefix(s, k as int + 1, q) by {
                    lemma_prefix_step(s, k as int, q);
                }
            }
            k = k + 1;
        }
        let r = Minesweeper {
            width,
            height,
            mines,
            open_fields: falses(total),
            flagged_fields: falses(total),
            lost: false,
        };
        proof {
            assert forall|q: (int, int)| !r@.open.contains(q) && !r@.flagged.contains(q) by {
                if 0 <= q.0 < w && 0 <= q.1 < h {
                    lemma_index_bound(w, h, q.0, q.1);
                }
            }
            assert forall|q: (int, int)|
                r@.mines.contains(q) <==> pos_in_seq(mine_positions@, q) by {
                lemma_prefix_full(s, q);
            }
        }
        r
    }

    /// The number of mined cells on the board.
    #[verifier::loop_isolation(false)]
    pub fn mine_count(&self) -> (r: usize)
        requires
            self.wf(),
        ensures
            r as int == set_size(self@.mines, self@.width, self@.height),
    {
        let ghost w = self@.width;
        let ghost h = self@.height;
        let mut total: usize = 0;
        let mut y: usize = 0;
        while y < self.height
            invariant
                y <= self.height,
                total as int == grid_count(self@.mines, w, y as int),
                total as int <= (y as int) * w,
            decreases self.height - y,
        {
            let mut row: usize = 0;
            let mut x: usize = 0;
            while x < self.width
                invariant
                    x <= self.width,
                    y < self.height,
                    row as int == row_count(self@.mines, y as int, x as int),
                    row <= x,
                decreases self.width - x,
            {
                if self.is_mine((x, y)) {
                    row = row + 1;
                }
                x = x + 1;
            }
            proof {
                assert((y as int) * w + w == (y as int + 1) * w) by (nonlinear_arith);
                assert((y as int + 1) * w <= h * w) by (nonlinear_arith)
                    requires
                        y as int + 1 <= h,
                        w >= 0,
                ;
                assert(h * w == w * h) by (nonlinear_arith);
            }
            total = total + row;
            y = y + 1;
        }
        total
    }

    /// How the cell at `pos` is displayed to the player.
    pub fn cell_state(&self, pos: Position) -> (r: CellState)
        requires
            self.wf(),
            in_bounds(self@, ipos(pos)),
        ensures
            r == cell_state_of(self@, ipos(pos)),
    {
        if !self.is_open(pos) {
            if self.is_lost() && self.is_mine(pos) {
                CellState::Mine
            } else if self.is_flagged(pos) {
                CellState::Flag
            } else {
                CellState::Covered
            }
        } else if self.is_mine(pos) {
            CellState::Mine
        } else {
            let mc = self.neighboring_mines(pos);
            if mc > 0 {
                CellState::Count(mc)
            } else {
                CellState::Blank
            }
        }
    }

    /// Marks `pos` as open. Private: callers enforce the reveal rules.
    fn set_open(&mut self, pos: Position)
        requires
            old(self).wf(),
            in_bounds(old(self)@, ipos(pos)),
            !old(self)@.flagged.contains(ipos(pos)),
        ensures
            final(self).wf(),
            final(self)@.width == old(self)@.width,
            final(self)@.height == old(self)@.height,
            final(self)@.mines == old(self)@.mines,
            final(self)@.flagged == old(self)@.flagged,
            final(self)@.lost == old(self)@.lost,
            forall|q: (int, int)|
                final(self)@.open.contains(q) <==> (old(self)@.open.contains(q) || q == ipos(pos)),
    {
        proof {
            lemma_index_bound(self@.width, self@.height, pos.0 as int, pos.1 as int);
        }
        let idx = pos.1 * self.width + pos.0;
        self.open_fields[idx] = true;
        proof {
            let a = old(self)@;
            let b = self@;
            assert forall|q: (int, int)|
                b.open.contains(q) <==> (a.open.contains(q) || q == ipos(pos)) by {
                if 0 <= q.0 < a.width && 0 <= q.1 < a.height {
                    lemma_index_bound(a.width, a.height, q.0, q.1);
                    if q != ipos(pos) {
                        lemma_index_injective(a.width, q.0, q.1, pos.0 as int, pos.1 as int);
                    }
                }
            }
        }
    }

    /// Toggles the flag on `pos`: a no-op if the game is lost or the cell is
    /// open, otherwise the cell's membership in the flagged set flips.
    pub fn toggle_flag(&mut self, pos: Position)
        requires
            old(self).wf(),
            in_bounds(old(self)@, ipos(pos)),
        ensures
            final(self).wf(),
            final(self)@ == toggle_model(old(self)@, ipos(pos)),
    {
        if self.lost || self.is_open(pos) {
            return ;
        }
        proof {
            lemma_index_bound(self@.width, self@.height, pos.0 as int, pos.1 as int);
        }
        let idx = pos.1 * self.width + pos.0;
        let was_flagged = self.flagged_fields[idx];
        self.flagged_fields[idx] = !was_flagged;
        proof {
            let a = old(self)@;
            let b = self@;
            let p = ipos(pos);
            assert forall|q: (int, int)|
                b.flagged.contains(q) <==> (if q == p {
                    !a.flagged.contains(q)
                } else {
                    a.flagged.contains(q)
                }) by {
                if 0 <= q.0 < a.width && 0 <= q.1 < a.height {
                    lemma_index_bound(a.width, a.height, q.0, q.1);
                    if q != p {
                        lemma_index_injective(a.width, q.0, q.1, pos.0 as int, pos.1 as int);
                    }
                }
            }
            if was_flagged {
                assert(b =~= BoardModel { flagged: a.flagged.remove(p), ..a });
            } else {
                assert(b =~= BoardModel { flagged: a.flagged.insert(p), ..a });
            }
        }
    }

    /// Reveals the cell at `position`, or chords it if it is already open.
    ///
    /// A covered, unflagged cell on a live board is marked open: a mine ends
    /// the game with the `Mine` outcome; a safe cell yields `NoMine(0)`, and
    /// when it has no neighboring mines the reveal cascades through every
    /// unflagged neighbor. An already-open cell is chorded: when its flagged
    /// neighbors number exactly its neighboring mines, every remaining
    /// unflagged covered neighbor is opened in turn. A lost board and a
    /// flagged cell are left untouched. Positions outside the grid are the
    /// caller's contract violation and are excluded here rather than
    /// checked at run time.
    #[verifier::loop_isolation(false)]
    #[verifier::rlimit(100)]
    pub fn open(&mut self, position: Position) -> (r: Option<OpenResult>)
        requires
            old(self).wf(),
            in_bounds(old(self)@, ipos(position)),
        ensures
            final(self).wf(),
            final(self)@.width == old(self)@.width,
            final(self)@.height == old(self)@.height,
            final(self)@.mines == old(self)@.mines,
            final(self)@.flagged == old(self)@.flagged,
            forall|q: (int, int)| old(self)@.open.contains(q) ==> final(self)@.open.contains(q),
            forall|q: (int, int)|
                final(self)@.open.contains(q) && !old(self)@.open.contains(q) ==> !old(self)@.flagged.contains(q),
            closed_count(final(self)@) <= closed_count(old(self)@),
            old(self)@.lost ==> final(self)@.lost,
            !final(self)@.lost ==> forall|q: (int, int)|
                final(self)@.open.contains(q) && !old(self)@.open.contains(q) ==> !old(self)@.mines.contains(q),
            final(self)@.lost && !old(self)@.lost ==> exists|q: (int, int)|
                old(self)@.mines.contains(q) && final(self)@.open.contains(q) && !old(self)@.open.contains(q),
            old(self)@.lost ==> unchanged(old(self)@, final(self)@) && r == None::<OpenResult>,
            !old(self)@.open.contains(ipos(position)) && old(self)@.flagged.contains(
                ipos(position),
            ) ==> unchanged(old(self)@, final(self)@) && r == None::<OpenResult>,
            (!old(self)@.lost && !old(self)@.open.contains(ipos(position)) && !old(self)@.flagged.contains(ipos(position))) ==> {
                &&& final(self)@.open.contains(ipos(position))
                &&& (old(self)@.mines.contains(ipos(position)) ==> final(self)@.open == old(self)@.open.insert(ipos(position)) && final(self)@.lost && r == Some(OpenResult::Mine))
                &&& (!old(self)@.mines.contains(ipos(position)) ==> r == Some(
                    OpenResult::NoMine(0),
                ))
                &&& (!old(self)@.mines.contains(ipos(position)) && mine_count_of(
                    old(self)@,
                    ipos(position),
                ) != 0 ==> final(self)@.open == old(self)@.open.insert(ipos(position)) && final(self)@.lost == old(self)@.lost)
            },
            old(self)@.open.contains(ipos(position)) ==> r == None::<OpenResult>,
            old(self)@.open.contains(ipos(position)) && mine_count_of(old(self)@, ipos(position))
                != flag_count_of(old(self)@, ipos(position)) ==> unchanged(
                old(self)@,
                final(self)@,
            ),
            old(self)@.open.contains(ipos(position)) && (forall|q: (int, int)|
                is_neighbor(ipos(position), q) && in_bounds(old(self)@, q) ==> old(self)@.flagged.contains(q) || old(self)@.open.contains(q)) ==> unchanged(
                old(self)@,
                final(self)@,
            ),
            old(self)@.open.contains(ipos(position)) && mine_count_of(old(self)@, ipos(position))
                == flag_count_of(old(self)@, ipos(position)) && !final(self)@.lost ==> forall|
                q: (int, int),
            |
                is_neighbor(ipos(position), q) && in_bounds(old(self)@, q) && !old(self)@.flagged.contains(q) ==> final(self)@.open.contains(q),
            !final(self)@.lost ==> forall|q: (int, int)|
                #![trigger mine_count_of(old(self)@, q)]
                final(self)@.open.contains(q) && !old(self)@.open.contains(q) && mine_count_of(
                    old(self)@,
                    q,
                ) == 0 ==> forall|n: (int, int)|
                    is_neighbor(q, n) && in_bounds(old(self)@, n) && !old(self)@.flagged.contains(
                        n,
                    ) ==> final(self)@.open.contains(n),
            flags_correct(old(self)@) && !old(self)@.lost && (old(self)@.mines.contains(
                ipos(position),
            ) ==> old(self)@.open.contains(ipos(position)) || old(self)@.flagged.contains(
                ipos(position),
            )) ==> !final(self)@.lost,
        decreases closed_count(old(self)@), b2i(old(self)@.open.contains(ipos(position))),
    {
        let ghost a = self@;
        let ghost pp = ipos(position);
        proof {
            lemma_closed_count_nonneg(a);
        }
        if self.is_open(position) {
            let mc = self.neighboring_mines(position);
            let fc = self.neighboring_flags(position);
            if mc == fc {
                proof {
                    if flags_correct(a) {
                        lemma_chord_safe(a, pp);
                    }
                }
                let ns = self.neighbors(position);
                let mut k: usize = 0;
                while k < ns.len()
                    invariant
                        k <= ns.len(),
                        self.wf(),
                        self@.width == a.width,
                        self@.height == a.height,
                        self@.mines == a.mines,
                        self@.flagged == a.flagged,
                        forall|q: (int, int)| a.open.contains(q) ==> self@.open.contains(q),
                        forall|q: (int, int)|
                            self@.open.contains(q) && !a.open.contains(q) ==> !a.flagged.contains(
                                q,
                            ),
                        closed_count(self@) <= closed_count(a),
                        a.lost ==> self@.lost,
                        !self@.lost ==> forall|q: (int, int)|
                            self@.open.contains(q) && !a.open.contains(q) ==> !a.mines.contains(q),
                        self@.lost && !a.lost ==> exists|q: (int, int)|
                            a.mines.contains(q) && self@.open.contains(q) && !a.open.contains(q),
                        a.lost ==> unchanged(a, self@),
                        (forall|q: (int, int)|
                            is_neighbor(pp, q) && in_bounds(a, q) ==> a.flagged.contains(q)
                                || a.open.contains(q)) ==> unchanged(a, self@),
                        !self@.lost ==> forall|j: int|
                            #![trigger ns@[j]]
                            0 <= j < k ==> (!a.flagged.contains(
                                (ns@[j].0 as int, ns@[j].1 as int),
                            ) ==> self@.open.contains((ns@[j].0 as int, ns@[j].1 as int))),
                        !self@.lost ==> forall|q: (int, int)|
                            #![trigger mine_count_of(a, q)]
                            self@.open.contains(q) && !a.open.contains(q) && mine_count_of(a, q)
                                == 0 ==> forall|n: (int, int)|
                                is_neighbor(q, n) && in_bounds(a, n) && !a.flagged.contains(n)
                                    ==> self@.open.contains(n),
                        flags_correct(a) && !a.lost ==> !self@.lost,
                    decreases ns.len() - k,
                {
                    let n = ns[k];
                    if !self.is_flagged(n) && !self.is_open(n) {
                        let ghost c = self@;
                        proof {
                            lemma_closed_count_nonneg(c);
                        }
                        self.open(n);
                        proof {
                            let d = self@;
                            if d.lost && !a.lost {
                                if c.lost {
                                    let w = choose|w: (int, int)|
                                        a.mines.contains(w) && c.open.contains(w)
                                            && !a.open.contains(w);
                                    assert(d.open.contains(w));
                                } else {
                                    let w = choose|w: (int, int)|
                                        c.mines.contains(w) && d.open.contains(w)
                                            && !c.open.contains(w);
                                    assert(a.mines.contains(w) && d.open.contains(w)
                                        && !a.open.contains(w));
                                }
                            }
                            if !d.lost {
                                assert(!c.lost);
                                assert forall|q: (int, int)|
                                    d.open.contains(q) && !a.open.contains(q) && mine_count_of(
                                        a,
                                        q,
                                    ) == 0 implies forall|m: (int, int)|
                                    is_neighbor(q, m) && in_bounds(a, m) && !a.flagged.contains(m)
                                        ==> d.open.contains(m) by {
                                    assert(mine_count_of(c, q) == mine_count_of(a, q));
                                    assert forall|m: (int, int)|
                                        is_neighbor(q, m) && in_bounds(a, m)
                                            && !a.flagged.contains(m) implies d.open.contains(
                                        m,
                                    ) by {
                                        if c.open.contains(q) {
                                            assert(c.open.contains(m));
                                        } else {
                                            assert(d.open.contains(m));
                                        }
                                    }
                                }
                            }
                        }
                    }
                    k = k + 1;
                }
                proof {
                    if !self@.lost {
                        assert forall|q: (int, int)|
                            is_neighbor(pp, q) && in_bounds(a, q) && !a.flagged.contains(
                                q,
                            ) implies self@.open.contains(q) by {
                            assert(pos_in_seq(ns@, q));
                            let j = choose|j: int|
                                #![trigger ns@[j]]
                                0 <= j < ns@.len() && ns@[j].0 as int == q.0 && ns@[j].1 as int
                                    == q.1;
                            assert(q == (q.0, q.1));
                        }
                    }
                }
            }
            return None;
        }
        if self.lost || self.is_flagged(position) {
            return None;
        }
        self.set_open(position);
        proof {
            lemma_closed_count_open_insert(a, self@, pp);
            assert(self@.open =~= a.open.insert(pp));
        }
        if self.is_mine(position) {
            self.lost = true;
            proof {
                assert(self@.open.contains(pp) && !a.open.contains(pp) && a.mines.contains(pp));
            }
            return Some(OpenResult::Mine);
        }
        let ghost s1 = self@;
        let mc = self.neighboring_mines(position);
        if mc == 0 {
            proof {
                lemma_count8_zero(a.mines, pp);
            }
            let ns = self.neighbors(position);
            let mut k: usize = 0;
            while k < ns.len()
                invariant
                    k <= ns.len(),
                    self.wf(),
                    self@.width == a.width,
                    self@.height == a.height,
                    self@.mines == a.mines,
                    self@.flagged == a.flagged,
                    self@.open.contains(pp),
                    forall|q: (int, int)| a.open.contains(q) ==> self@.open.contains(q),
                    forall|q: (int, int)|
                        self@.open.contains(q) && !a.open.contains(q) ==> !a.flagged.contains(q),
                    closed_count(self@) <= closed_count(a) - 1,
                    !self@.lost ==> forall|q: (int, int)|
                        self@.open.contains(q) && !a.open.contains(q) ==> !a.mines.contains(q),
                    self@.lost ==> exists|q: (int, int)|
                        a.mines.contains(q) && self@.open.contains(q) && !a.open.contains(q),
                    !self@.lost ==> forall|j: int|
                        #![trigger ns@[j]]
                        0 <= j < k ==> (!a.flagged.contains((ns@[j].0 as int, ns@[j].1 as int))
                            ==> self@.open.contains((ns@[j].0 as int, ns@[j].1 as int))),
                    !self@.lost ==> forall|q: (int, int)|
                        #![trigger mine_count_of(a, q)]
                        self@.open.contains(q) && !a.open.contains(q) && q != pp && mine_count_of(
                            a,
                            q,
                        ) == 0 ==> forall|n: (int, int)|
                            is_neighbor(q, n) && in_bounds(a, n) && !a.flagged.contains(n)
                                ==> self@.open.contains(n),
                    flags_correct(a) ==> !self@.lost,
                decreases ns.len() - k,
            {
                let n = ns[k];
                if !self.is_flagged(n) {
                    let ghost c = self@;
                    proof {
                        lemma_closed_count_nonneg(c);
                    }
                    self.open(n);
                    proof {
                        let d = self@;
                        if d.lost && !c.lost {
                            let w = choose|w: (int, int)|
                                c.mines.contains(w) && d.open.contains(w) && !c.open.contains(w);
                            assert(a.mines.contains(w) && d.open.contains(w) && !a.open.contains(
                                w,
                            ));
                        } else if d.lost && c.lost {
                            let w = choose|w: (int, int)|
                                a.mines.contains(w) && c.open.contains(w) && !a.open.contains(w);
                            assert(d.open.contains(w));
                        }
                        if !d.lost {
                            assert(!c.lost);
                            assert forall|q: (int, int)|
                                d.open.contains(q) && !a.open.contains(q) && q != pp
                                    && mine_count_of(a, q) == 0 implies forall|m: (int, int)|
                                is_neighbor(q, m) && in_bounds(a, m) && !a.flagged.contains(m)
                                    ==> d.open.contains(m) by {
                                assert(mine_count_of(c, q) == mine_count_of(a, q));
                                assert forall|m: (int, int)|
                                    is_neighbor(q, m) && in_bounds(a, m) && !a.flagged.contains(
                                        m,
                                    ) implies d.open.contains(m) by {
                                    if c.open.contains(q) {
                                        assert(c.open.contains(m));
                                    } else {
                                        assert(d.open.contains(m));
                                    }
                                }
                            }
                        }
                    }
                }
                k = k + 1;
            }
            proof {
                if !self@.lost {
                    assert forall|q: (int, int)|
                        is_neighbor(pp, q) && in_bounds(a, q) && !a.flagged.contains(
                            q,
                        ) implies self@.open.contains(q) by {
                        assert(pos_in_seq(ns@, q));
                        let j = choose|j: int|
                            #![trigger ns@[j]]
                            0 <= j < ns@.len() && ns@[j].0 as int == q.0 && ns@[j].1 as int == q.1;
                        assert(q == (q.0, q.1));
                    }
                }
            }
        }
        Some(OpenResult::NoMine(0))
    }

    /// The number of flagged cells in the 8-neighborhood of `pos`.
    #[verifier::rlimit(60)]
    pub fn neighboring_flags(&self, pos: Position) -> (r: u8)
        requires
            self.wf(),
            in_bounds(self@, ipos(pos)),
        ensures
            r as int == flag_count_of(self@, ipos(pos)),
    {
        let (x, y) = pos;
        let mut c: u8 = 0;
        if x > 0 && y > 0 && self.is_flagged((x - 1, y - 1)) {
            c = c + 1;
        }
        if y > 0 && self.is_flagged((x, y - 1)) {
            c = c + 1;
        }
        if x + 1 < self.width && y > 0 && self.is_flagged((x + 1, y - 1)) {
            c = c + 1;
        }
        if x > 0 && self.is_flagged((x - 1, y)) {
            c = c + 1;
        }
        if x + 1 < self.width && self.is_flagged((x + 1, y)) {
            c = c + 1;
        }
        if x > 0 && y + 1 < self.height && self.is_flagged((x - 1, y + 1)) {
            c = c + 1;
        }
        if y + 1 < self.height && self.is_flagged((x, y + 1)) {
            c = c + 1;
        }
        if x + 1 < self.width && y + 1 < self.height && self.is_flagged((x + 1, y + 1)) {
            c = c + 1;
        }
        c
    }
}

/// How many x in `[0, k)` have `(x, y)` in `s`.
pub open spec fn row_count(s: Set<(int, int)>, y: int, k: int) -> int
    decreases k,
{
    if k <= 0 {
        0
    } else {
        row_count(s, y, k - 1) + b2i(s.contains((k - 1, y)))
    }
}

/// How many positions `(x, y)` with x in `[0, w)` and y in `[0, j)` lie in `s`.
pub open spec fn grid_count(s: Set<(int, int)>, w: int, j: int) -> int
    decreases j,
{
    if j <= 0 {
        0
    } else {
        grid_count(s, w, j - 1) + row_count(s, j - 1, w)
    }
}

/// The number of positions of the `w` by `h` grid that lie in `s`.
pub open spec fn set_size(s: Set<(int, int)>, w: int, h: int) -> int {
    grid_count(s, w, h)
}

/// The number of cells of `m`'s grid that are not open.
pub open spec fn closed_count(m: BoardModel) -> int {
    m.width * m.height - set_size(m.open, m.width, m.height)
}

proof fn lemma_row_count_bounds(s: Set<(int, int)>, y: int, k: int)
    requires
        k >= 0,
    ensures
        0 <= row_count(s, y, k) <= k,
    decreases k,
{
    if k > 0 {
        lemma_row_count_bounds(s, y, k - 1);
    }
}

proof fn lemma_grid_count_bounds(s: Set<(int, int)>, w: int, j: int)
    requires
        w >= 0,
        j >= 0,
    ensures
        0 <= grid_count(s, w, j) <= j * w,
    decreases j,
{
    if j > 0 {
        lemma_grid_count_bounds(s, w, j - 1);
        lemma_row_count_bounds(s, j - 1, w);
        assert((j - 1) * w + w == j * w) by (nonlinear_arith);
    }
}

/// A board's closed-cell count is never negative.
pub proof fn lemma_closed_count_nonneg(m: BoardModel)
    requires
        m.width >= 0,
        m.height >= 0,
    ensures
        closed_count(m) >= 0,
{
    lemma_grid_count_bounds(m.open, m.width, m.height);
    assert(m.height * m.width == m.width * m.height) by (nonlinear_arith);
}

proof fn lemma_row_count_grow(s1: Set<(int, int)>, s2: Set<(int, int)>, p: (int, int), y: int, k: int)
    requires
        forall|q: (int, int)| s2.contains(q) <==> s1.contains(q) || q == p,
        !s1.contains(p),
    ensures
        row_count(s2, y, k) == row_count(s1, y, k) + (
        if y == p.1 && 0 <= p.0 < k {
            1int
        } else {
            0int
        }),
    decreases k,
{
    if k > 0 {
        lemma_row_count_grow(s1, s2, p, y, k - 1);
    }
}

proof fn lemma_grid_count_grow(
    s1: Set<(int, int)>,
    s2: Set<(int, int)>,
    p: (int, int),
    w: int,
    j: int,
)
    requires
        forall|q: (int, int)| s2.contains(q) <==> s1.contains(q) || q == p,
        !s1.contains(p),
    ensures
        grid_count(s2, w, j) == grid_count(s1, w, j) + (
        if 0 <= p.0 < w && 0 <= p.1 < j {
            1int
        } else {
            0int
        }),
    decreases j,
{
    if j > 0 {
        lemma_grid_count_grow(s1, s2, p, w, j - 1);
        lemma_row_count_grow(s1, s2, p, j - 1, w);
    }
}

/// Opening one closed in-bounds cell lowers the closed-cell count by one.
pub proof fn lemma_closed_count_open_insert(a: BoardModel, b: BoardModel, p: (int, int))
    requires
        b.width == a.width,
        b.height == a.height,
        in_bounds(a, p),
        !a.open.contains(p),
        forall|q: (int, int)| b.open.contains(q) <==> a.open.contains(q) || q == p,
    ensures
        closed_count(b) == closed_count(a) - 1,
{
    lemma_grid_count_grow(a.open, b.open, p, a.width, a.height);
}

/// How many entries of `v` from index `i` on are `false`.
pub open spec fn count_false_from(v: Seq<bool>, i: int) -> int
    decreases v.len() - i,
{
    if i < 0 || i >= v.len() {
        0
    } else {
        b2i(!v[i]) + count_false_from(v, i + 1)
    }
}

proof fn lemma_count_false_set_true(v1: Seq<bool>, v2: Seq<bool>, idx: int, i: int)
    requires
        v2 == v1.update(idx, true),
        0 <= idx < v1.len(),
        !v1[idx],
        0 <= i,
    ensures
        count_false_from(v2, i) == count_false_from(v1, i) - (
        if i <= idx {
            1int
        } else {
            0int
        }),
    decreases v1.len() - i,
{
    if i < v1.len() {
        lemma_count_false_set_true(v1, v2, idx, i + 1);
    }
}

/// A flat index on a `w` by `h` grid names the in-bounds position given by
/// its remainder and quotient by `w`.
proof fn lemma_pos_of_index(w: int, h: int, idx: int)
    requires
        w > 0,
        h > 0,
        0 <= idx < w * h,
    ensures
        0 <= idx % w < w,
        0 <= idx / w < h,
        (idx / w) * w + idx % w == idx,
{
    vstd::arithmetic::div_mod::lemma_fundamental_div_mod(idx, w);
    vstd::arithmetic::div_mod::lemma_mod_bound(idx, w);
    assert((idx / w) * w == w * (idx / w)) by (nonlinear_arith);
    assert(0 <= idx / w && idx / w < h) by (nonlinear_arith)
        requires
            w > 0,
            h > 0,
            0 <= idx < w * h,
            idx == w * (idx / w) + idx % w,
            0 <= idx % w < w,
    ;
}

/// Some element of the first `k` of `s` has the coordinates of `q`.
pub open spec fn pos_in_prefix(s: Seq<Position>, k: int, q: (int, int)) -> bool {
    exists|i: int|
        #![trigger s[i]]
        0 <= i < k && i < s.len() && s[i].0 as int == q.0 && s[i].1 as int == q.1
}

proof fn lemma_prefix_full(s: Seq<Position>, q: (int, int))
    ensures
        pos_in_prefix(s, s.len() as int, q) <==> pos_in_seq(s, q),
{
    if pos_in_prefix(s, s.len() as int, q) {
        let i = choose|i: int|
            #![trigger s[i]]
            0 <= i < s.len() && i < s.len() && s[i].0 as int == q.0 && s[i].1 as int == q.1;
    }
    if pos_in_seq(s, q) {
        let i = choose|i: int|
            #![trigger s[i]]
            0 <= i < s.len() && s[i].0 as int == q.0 && s[i].1 as int == q.1;
    }
}

proof fn lemma_prefix_step(s: Seq<Position>, k: int, q: (int, int))
    requires
        0 <= k < s.len(),
    ensures
        pos_in_prefix(s, k + 1, q) <==> (pos_in_prefix(s, k, q) || (s[k].0 as int == q.0
            && s[k].1 as int == q.1)),
{
    if pos_in_prefix(s, k + 1, q) {
        let i = choose|i: int|
            #![trigger s[i]]
            0 <= i < k + 1 && i < s.len() && s[i].0 as int == q.0 && s[i].1 as int == q.1;
    }
    if pos_in_prefix(s, k, q) {
        let i = choose|i: int|
            #![trigger s[i]]
            0 <= i < k && i < s.len() && s[i].0 as int == q.0 && s[i].1 as int == q.1;
    }
}

proof fn lemma_row_count_empty(s: Set<(int, int)>, y: int, k: int)
    requires
        forall|q: (int, int)| !s.contains(q),
    ensures
        row_count(s, y, k) == 0,
    decreases k,
{
    if k > 0 {
        lemma_row_count_empty(s, y, k - 1);
    }
}

proof fn lemma_grid_count_empty(s: Set<(int, int)>, w: int, j: int)
    requires
        forall|q: (int, int)| !s.contains(q),
    ensures
        grid_count(s, w, j) == 0,
    decreases j,
{
    if j > 0 {
        lemma_grid_count_empty(s, w, j - 1);
        lemma_row_count_empty(s, j - 1, w);
    }
}

proof fn lemma_count_false_all(v: Seq<bool>, i: int)
    requires
        0 <= i <= v.len(),
        forall|j: int| 0 <= j < v.len() ==> !v[j],
    ensures
        count_false_from(v, i) == v.len() - i,
    decreases v.len() - i,
{
    if i < v.len() {
        lemma_count_false_all(v, i + 1);
    }
}

/// A vector of `n` entries, all `false`.
fn falses(n: usize) -> (v: Vec<bool>)
    ensures
        v@.len() == n,
        forall|i: int| 0 <= i < n ==> !v@[i],
{
    let mut v: Vec<bool> = Vec::new();
    let mut i: usize = 0;
    while i < n
        invariant
            i <= n,
            v@.len() == i,
            forall|j: int| 0 <= j < i ==> !v@[j],
        decreases n - i,
    {
        v.push(false);
        i = i + 1;
    }
    v
}

/// The index of some `false` entry of `v`: the one reached after skipping
/// the first `k` free entries.
fn find_free(v: &Vec<bool>, k: usize) -> (idx: usize)
    requires
        (k as int) < count_false_from(v@, 0),
    ensures
        idx < v@.len(),
        !v@[idx as int],
{
    let mut i: usize = 0;
    let mut skip = k;
    while i < v.len()
        invariant
            i <= v@.len(),
            (skip as int) < count_false_from(v@, i as int),
        decreases v@.len() - i,
    {
        if !v[i] {
            if skip == 0 {
                return i;
            }
            skip = skip - 1;
        }
        i = i + 1;
    }
    proof {
        assert(false);
    }
    0
}

/// The per-cell classification a renderer reads: which glyph a cell shows.
#[derive(Clone, Copy, Debug, PartialEq, Eq, Structural)]
pub enum CellState {
    /// A mine shown to the player: an open mine, or any mine once the game
    /// is lost.
    Mine,
    /// A covered cell carrying a flag.
    Flag,
    /// A covered, unflagged cell.
    Covered,
    /// An open safe cell with this many neighboring mines (1 to 8).
    Count(u8),
    /// An open safe cell with no neighboring mines.
    Blank,
}

/// The display classification of the cell at `p`.
pub open spec fn cell_state_of(m: BoardModel, p: (int, int)) -> CellState {
    if !m.open.contains(p) {
        if m.lost && m.mines.contains(p) {
            CellState::Mine
        } else if m.flagged.contains(p) {
            CellState::Flag
        } else {
            CellState::Covered
        }
    } else if m.mines.contains(p) {
        CellState::Mine
    } else if mine_count_of(m, p) > 0 {
        CellState::Count(mine_count_of(m, p) as u8)
    } else {
        CellState::Blank
    }
}

/// On a board at least 2 by 2, a corner cell has 3 in-bounds neighbors, a
/// non-corner edge cell 5, and an interior cell 8. (On a one-row or
/// one-column grid the counts are smaller; `neighbor_count` gives the
/// general formula.)
pub proof fn lemma_neighbor_count_cases(m: BoardModel, p: (int, int))
    requires
        m.width >= 2,
        m.height >= 2,
        in_bounds(m, p),
    ensures
        ((p.0 == 0 || p.0 == m.width - 1) && (p.1 == 0 || p.1 == m.height - 1))
            ==> neighbor_count(m, p) == 3,
        ((p.0 == 0 || p.0 == m.width - 1) != (p.1 == 0 || p.1 == m.height - 1))
            ==> neighbor_count(m, p) == 5,
        (0 < p.0 < m.width - 1 && 0 < p.1 < m.height - 1) ==> neighbor_count(m, p) == 8,
{
    let a = b2i(p.0 > 0);
    let b = b2i(p.0 < m.width - 1);
    let c = b2i(p.1 > 0);
    let d = b2i(p.1 < m.height - 1);
    assert((1 + a + b) * (1 + c + d) == 1 + a + b + c + d + a * c + a * d + b * c + b * d)
        by (nonlinear_arith);
}

/// Field-for-field equality of two board models.
pub open spec fn unchanged(a: BoardModel, b: BoardModel) -> bool {
    &&& b.width == a.width
    &&& b.height == a.height
    &&& b.mines == a.mines
    &&& b.open == a.open
    &&& b.flagged == a.flagged
    &&& b.lost == a.lost
}

/// Every flag stands on a mine.
pub open spec fn flags_correct(m: BoardModel) -> bool {
    forall|q: (int, int)| m.flagged.contains(q) ==> m.mines.contains(q)
}

/// A cell with no neighboring members of `s` has no neighbor in `s`.
pub proof fn lemma_count8_zero(s: Set<(int, int)>, p: (int, int))
    requires
        count8(s, p) == 0,
    ensures
        forall|q: (int, int)| is_neighbor(p, q) ==> !s.contains(q),
{
    assert forall|q: (int, int)| is_neighbor(p, q) implies !s.contains(q) by {
        assert(q.0 == p.0 - 1 || q.0 == p.0 || q.0 == p.0 + 1);
        assert(q.1 == p.1 - 1 || q.1 == p.1 || q.1 == p.1 + 1);
        assert(q == (q.0, q.1));
    }
}

/// When every flag stands on a mine and the flag count around `p` matches
/// its mine count, every neighboring mine is flagged — so every unflagged
/// neighbor is safe to open.
pub proof fn lemma_chord_safe(m: BoardModel, p: (int, int))
    requires
        flags_correct(m),
        flag_count_of(m, p) == mine_count_of(m, p),
    ensures
        forall|q: (int, int)|
            is_neighbor(p, q) && m.mines.contains(q) ==> m.flagged.contains(q),
{
    assert forall|q: (int, int)|
        is_neighbor(p, q) && m.mines.contains(q) implies m.flagged.contains(q) by {
        assert(q.0 == p.0 - 1 || q.0 == p.0 || q.0 == p.0 + 1);
        assert(q.1 == p.1 - 1 || q.1 == p.1 || q.1 == p.1 + 1);
        assert(q == (q.0, q.1));
        assert(b2i(m.flagged.contains((p.0 - 1, p.1 - 1))) <= b2i(
            m.mines.contains((p.0 - 1, p.1 - 1)),
        ));
        assert(b2i(m.flagged.contains((p.0, p.1 - 1))) <= b2i(m.mines.contains((p.0, p.1 - 1))));
        assert(b2i(m.flagged.contains((p.0 + 1, p.1 - 1))) <= b2i(
            m.mines.contains((p.0 + 1, p.1 - 1)),
        ));
        assert(b2i(m.flagged.contains((p.0 - 1, p.1))) <= b2i(m.mines.contains((p.0 - 1, p.1))));
        assert(b2i(m.flagged.contains((p.0 + 1, p.1))) <= b2i(m.mines.contains((p.0 + 1, p.1))));
        assert(b2i(m.flagged.contains((p.0 - 1, p.1 + 1))) <= b2i(
            m.mines.contains((p.0 - 1, p.1 + 1)),
        ));
        assert(b2i(m.flagged.contains((p.0, p.1 + 1))) <= b2i(m.mines.contains((p.0, p.1 + 1))));
        assert(b2i(m.flagged.contains((p.0 + 1, p.1 + 1))) <= b2i(
            m.mines.contains((p.0 + 1, p.1 + 1)),
        ));
    }
}

/// What `toggle_flag` does to a board: a no-op on a lost board or an open
/// cell, otherwise it flips membership of `p` in the flagged set.
pub open spec fn toggle_model(m: BoardModel, p: (int, int)) -> BoardModel {
    if m.lost || m.open.contains(p) {
        m
    } else if m.flagged.contains(p) {
        BoardModel { flagged: m.flagged.remove(p), ..m }
    } else {
        BoardModel { flagged: m.flagged.insert(p), ..m }
    }
}

/// Once a board is lost, toggling a flag anywhere is a no-op, as is
/// toggling on an open cell.
pub proof fn lemma_toggle_flag_frozen(m: BoardModel, p: (int, int))
    requires
        m.lost || m.open.contains(p),
    ensures
        toggle_model(m, p) == m,
{
}

/// Toggling a flag twice on the same unopened cell of a live board restores
/// the board to the state it had before the first toggle.
pub proof fn lemma_toggle_flag_roundtrip(m: BoardModel, p: (int, int))
    requires
        !m.lost,
        !m.open.contains(p),
    ensures
        toggle_model(toggle_model(m, p), p) == m,
{
    if m.flagged.contains(p) {
        assert(toggle_model(toggle_model(m, p), p) =~= m);
    } else {
        assert(toggle_model(toggle_model(m, p), p) =~= m);
    }
}

/// Distinct in-bounds positions have distinct row-major indices.
pub proof fn lemma_index_injective(w: int, x1: int, y1: int, x2: int, y2: int)
    requires
        0 <= x1 < w,
        0 <= x2 < w,
        0 <= y1,
        0 <= y2,
        x1 != x2 || y1 != y2,
    ensures
        y1 * w + x1 != y2 * w + x2,
{
    assert(y1 * w + x1 != y2 * w + x2) by (nonlinear_arith)
        requires
            0 <= x1 < w,
            0 <= x2 < w,
            0 <= y1,
            0 <= y2,
            x1 != x2 || y1 != y2,
    ;
}

/// A position on a `w` by `h` grid has a row-major index below `w * h`.
pub proof fn lemma_index_bound(w: int, h: int, x: int, y: int)
    requires
        0 <= x < w,
        0 <= y < h,
    ensures
        0 <= y * w + x < w * h,
{
    assert(y * w + x < w * h) by (nonlinear_arith)
        requires
            0 <= x < w,
            0 <= y < h,
    ;
    assert(0 <= y * w) by (nonlinear_arith)
        requires
            0 <= y,
            0 < w,
    ;
}

} // verus!
