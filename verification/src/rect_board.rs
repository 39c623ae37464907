//! A rectangular board: the gems in row-major order together with the derived
//! topology the matcher consumes — all row and column lines, and the
//! orthogonal neighbour list of every cell.

use vstd::prelude::*;

use crate::line::{
    line_wf, lines_wf, neighbours_wf, returned_group_ok, uniform_matchable_line,
    LineMatcherSettings,
};
use crate::{BoardGem, BoardMatch, MatchColor};

verus! {

/// A cell position in a grid, as a flat row-major index.
#[derive(Debug, Copy, Clone, PartialEq, Eq, Hash, Structural)]
pub struct CellIndex(pub usize);

/// The cell indices of row `y`, left to right.
pub open spec fn row_line(width: int, y: int) -> Seq<usize> {
    Seq::new(width as nat, |x: int| (y * width + x) as usize)
}

/// The cell indices of column `x`, top to bottom.
pub open spec fn col_line(width: int, height: int, x: int) -> Seq<usize> {
    Seq::new(height as nat, |y: int| (y * width + x) as usize)
}

/// The orthogonal neighbours of cell `i`: left, right, up, down, each only
/// when it exists.
pub open spec fn cell_neighbours(width: int, height: int, i: int) -> Seq<usize> {
    let x = i % width;
    let y = i / width;
    (if x > 0 {
        seq![(i - 1) as usize]
    } else {
        Seq::empty()
    }) + (if x < width - 1 {
        seq![(i + 1) as usize]
    } else {
        Seq::empty()
    }) + (if y > 0 {
        seq![(i - width) as usize]
    } else {
        Seq::empty()
    }) + (if y < height - 1 {
        seq![(i + width) as usize]
    } else {
        Seq::empty()
    })
}

/// A rectangular match-3 board with its cached topology.
#[derive(Debug, Clone)]
pub struct RectBoard<T: BoardGem> {
    /// Number of columns.
    pub width: usize,
    /// Number of rows.
    pub height: usize,
    /// The gems, row-major: cell `(x, y)` is `board[y * width + x]`.
    pub board: Vec<T>,
    /// All lines: one per row (top to bottom), then one per column (left to
    /// right).
    pub lines: Vec<Vec<usize>>,
    /// For every cell, its up-to-four orthogonal neighbours.
    pub neighbours: Vec<Vec<usize>>,
}

impl<T: BoardGem> RectBoard<T> {
    /// The board's topology is the one `new` derives from its dimensions.
    pub open spec fn wf(self) -> bool {
        &&& self.board@.len() == self.width as int * self.height as int
        &&& self.lines@.len() == self.height as int + self.width as int
        &&& forall|y: int|
            0 <= y < self.height ==> (#[trigger] self.lines@[y])@ == row_line(
                self.width as int,
                y,
            )
        &&& forall|x: int|
            0 <= x < self.width ==> (#[trigger] self.lines@[self.height + x])@ == col_line(
                self.width as int,
                self.height as int,
                x,
            )
        &&& self.neighbours@.len() == self.board@.len()
        &&& forall|i: int|
            0 <= i < self.board@.len() ==> (#[trigger] self.neighbours@[i])@ == cell_neighbours(
                self.width as int,
                self.height as int,
                i,
            )
    }

    /// Builds a board from its gems, deriving the lines and neighbour lists.
    pub fn new(width: usize, height: usize, board: Vec<T>) -> (r: Self)
        requires
            board@.len() == width as int * height as int,
        ensures
            r.wf(),
            r.width == width,
            r.height == height,
            r.board == board,
    {
        let ghost w = width as int;
        let ghost h = height as int;
        let n = board.len();
        proof {
            assert(w > 0 || n as int == 0) by (nonlinear_arith)
                requires
                    n as int == w * h,
                    w >= 0,
                    h >= 0,
            ;
            assert(h > 0 || n as int == 0) by (nonlinear_arith)
                requires
                    n as int == w * h,
                    w >= 0,
                    h >= 0,
            ;
        }
        let mut lines: Vec<Vec<usize>> = Vec::new();
        let mut y: usize = 0;
        while y < height
            invariant
                y <= height,
                lines@.len() == y,
                forall|t: int| 0 <= t < y ==> (#[trigger] lines@[t])@ == row_line(w, t),
            decreases height - y,
        {
            let mut row: Vec<usize> = Vec::new();
            let mut x: usize = 0;
            proof {
                assert(y * w + w <= h * w) by (nonlinear_arith)
                    requires
                        0 <= y < h,
                        w >= 0,
                ;
            }
            while x < width
                invariant
                    x <= width,
                    y < height,
                    y * w + w <= h * w,
                    row@ == row_line(w, y as int).subrange(0, x as int),
                decreases width - x,
            {
                row.push(y * width + x);
                proof {
                    assert(row@ =~= row_line(w, y as int).subrange(0, x + 1));
                }
                x = x + 1;
            }
            proof {
                assert(row@ =~= row_line(w, y as int));
            }
            lines.push(row);
            y = y + 1;
        }
        let mut x: usize = 0;
        while x < width
            invariant
                x <= width,
                lines@.len() == height + x,
                forall|t: int| 0 <= t < height ==> (#[trigger] lines@[t])@ == row_line(w, t),
                forall|t: int|
                    0 <= t < x ==> (#[trigger] lines@[height + t])@ == col_line(w, h, t),
            decreases width - x,
        {
            let mut col: Vec<usize> = Vec::new();
            let mut cy: usize = 0;
            while cy < height
                invariant
                    cy <= height,
                    x < width,
                    col@ == col_line(w, h, x as int).subrange(0, cy as int),
                decreases height - cy,
            {
                proof {
                    assert(cy * w + x < h * w) by (nonlinear_arith)
                        requires
                            0 <= cy < h,
                            0 <= x < w,
                    ;
                    assert(h * w == w * h) by (nonlinear_arith);
                }
                col.push(cy * width + x);
                proof {
                    assert(col@ =~= col_line(w, h, x as int).subrange(0, cy + 1));
                }
                cy = cy + 1;
            }
            proof {
                assert(col@ =~= col_line(w, h, x as int));
            }
            lines.push(col);
            x = x + 1;
        }

        let mut neighbours: Vec<Vec<usize>> = Vec::new();
        let mut i: usize = 0;
        while i < n
            invariant
                i <= n,
                n == board@.len(),
                n == w * h,
                width > 0 || n == 0,
                neighbours@.len() == i,
                forall|t: int|
                    0 <= t < i ==> (#[trigger] neighbours@[t])@ == cell_neighbours(w, h, t),
            decreases n - i,
        {
            let x = i % width;
            let y = i / width;
            proof {
                vstd::arithmetic::div_mod::lemma_fundamental_div_mod(i as int, w);
                vstd::arithmetic::div_mod::lemma_mod_bound(i as int, w);
                assert((i as int) / w >= 0 && (i as int) / w < h) by (nonlinear_arith)
                    requires
                        w > 0,
                        h >= 0,
                        (i as int) < w * h,
                        w * ((i as int) / w) + (i as int) % w == i as int,
                        0 <= (i as int) % w < w,
                ;
            }
            let mut cn: Vec<usize> = Vec::new();
            if x > 0 {
                cn.push(i - 1);
            }
            if x < width - 1 {
                proof {
                    assert((i as int) + 1 < w * h) by (nonlinear_arith)
                        requires
                            w > 0,
                            (i as int) / w < h,
                            w * ((i as int) / w) + (i as int) % w == i as int,
                            (i as int) % w < w - 1,
                    ;
                }
                cn.push(i + 1);
            }
            if y > 0 {
                proof {
                    assert((i as int) >= w) by (nonlinear_arith)
                        requires
                            w > 0,
                            (i as int) / w > 0,
                            w * ((i as int) / w) + (i as int) % w == i as int,
                            0 <= (i as int) % w,
                    ;
                }
                cn.push(i - width);
            }
            if y < height - 1 {
                proof {
                    assert((i as int) + w < w * h) by (nonlinear_arith)
                        requires
                            w > 0,
                            (i as int) / w < h - 1,
                            w * ((i as int) / w) + (i as int) % w == i as int,
                            0 <= (i as int) % w < w,
                    ;
                }
                cn.push(i + width);
            }
            proof {
                assert(cn@ =~= cell_neighbours(w, h, i as int));
            }
            neighbours.push(cn);
            i = i + 1;
        }
        RectBoard { width, height, board, lines, neighbours }
    }
}


/// The derived topology is valid input for the matcher: every line is
/// duplicate-free and in range, and every neighbour index is on the board.
pub proof fn lemma_topology_valid<T: BoardGem>(b: RectBoard<T>)
    requires
        b.wf(),
    ensures
        lines_wf(b.lines@, b.board@.len() as int),
        neighbours_wf(b.neighbours@, b.board@.len() as int),
{
    let w = b.width as int;
    let h = b.height as int;
    let n = b.board@.len() as int;
    assert(vstd::std_specs::vec::spec_vec_len(&b.board) == b.board@.len());
    assert(n <= usize::MAX);
    assert forall|i: int| 0 <= i < b.lines@.len() implies line_wf(#[trigger] b.lines@[i]@, n) by {
        if i < h {
            let line = b.lines@[i]@;
            assert(line == row_line(w, i));
            assert(h >= 1);
            assert(w <= w * h && i * w + w <= w * h) by (nonlinear_arith)
                requires
                    w >= 0,
                    h >= 1,
                    0 <= i < h,
            ;
            assert forall|j: int| 0 <= j < line.len() implies line[j] < n by {
                assert(line[j] == (i * w + j) as usize);
            }
            assert forall|a: int, c: int| 0 <= a < c < line.len() implies line[a] != line[c] by {
                assert(line[a] == (i * w + a) as usize);
                assert(line[c] == (i * w + c) as usize);
                assert(i * w + a < n && i * w + c < n);
            }
        } else {
            let x = i - h;
            let line = b.lines@[i]@;
            assert(b.lines@[b.height + x]@ == col_line(w, h, x));
            assert(line == col_line(w, h, x));
            assert(w >= 1);
            assert(h <= w * h) by (nonlinear_arith)
                requires
                    h >= 0,
                    w >= 1,
            ;
            assert forall|j: int| 0 <= j < line.len() implies line[j] < n by {
                assert(line[j] == (j * w + x) as usize);
                assert(j * w + x < w * h) by (nonlinear_arith)
                    requires
                        0 <= j < h,
                        0 <= x < w,
                ;
            }
            assert forall|a: int, c: int| 0 <= a < c < line.len() implies line[a] != line[c] by {
                assert(line[a] == (a * w + x) as usize);
                assert(line[c] == (c * w + x) as usize);
                assert(a * w + x < c * w + x && c * w + x < w * h) by (nonlinear_arith)
                    requires
                        0 <= a < c < h,
                        0 <= x < w,
                        w >= 1,
                ;
            }
        }
    }
    assert forall|i: int, j: int|
        0 <= i < b.neighbours@.len() && 0 <= j < b.neighbours@[i]@.len() implies #[trigger] b.neighbours@[i]@[j]
        < n by {
        let nb = b.neighbours@[i]@;
        assert(nb == cell_neighbours(w, h, i));
        assert(w >= 1 && h >= 1) by (nonlinear_arith)
            requires
                n == w * h,
                w >= 0,
                h >= 0,
                n > 0,
        ;
        vstd::arithmetic::div_mod::lemma_fundamental_div_mod(i, w);
        vstd::arithmetic::div_mod::lemma_mod_bound(i, w);
        let x = i % w;
        let y = i / w;
        assert(0 <= y < h && (x < w - 1 ==> i + 1 < n) && (y < h - 1 ==> i + w < n) && (y > 0
            ==> w <= i) && (x > 0 ==> 1 <= i)) by (nonlinear_arith)
            requires
                w >= 1,
                h >= 0,
                0 <= i < n,
                n == w * h,
                x == i % w,
                y == i / w,
                w * (i / w) + i % w == i,
                0 <= i % w < w,
        ;
        let a1 = if x > 0 {
            seq![(i - 1) as usize]
        } else {
            Seq::<usize>::empty()
        };
        let a2 = if x < w - 1 {
            seq![(i + 1) as usize]
        } else {
            Seq::<usize>::empty()
        };
        let a3 = if y > 0 {
            seq![(i - w) as usize]
        } else {
            Seq::<usize>::empty()
        };
        let a4 = if y < h - 1 {
            seq![(i + w) as usize]
        } else {
            Seq::<usize>::empty()
        };
        assert(nb == a1 + a2 + a3 + a4);
        if j < a1.len() {
            assert(nb[j] == a1[j]);
        } else if j < a1.len() + a2.len() {
            assert(nb[j] == a2[j - a1.len()]);
        } else if j < a1.len() + a2.len() + a3.len() {
            assert(nb[j] == a3[j - a1.len() - a2.len()]);
        } else {
            assert(nb[j] == a4[j - a1.len() - a2.len() - a3.len()]);
        }
    }
}

/// A well-formed board's neighbour list is symmetric: when one cell lists
/// another as a neighbour, the other lists it back.
pub proof fn lemma_rect_neighbours_sym<T: BoardGem>(b: RectBoard<T>)
    requires
        b.wf(),
    ensures
        crate::line::neighbours_sym(b.neighbours@),
{
    let w = b.width as int;
    let h = b.height as int;
    let n = b.board@.len() as int;
    assert(vstd::std_specs::vec::spec_vec_len(&b.board) == b.board@.len());
    assert(n <= usize::MAX);
    assert forall|a: int, u: int|
        0 <= a < b.neighbours@.len() && 0 <= u < b.neighbours@[a]@.len() && b.neighbours@[a]@[u]
            < b.neighbours@.len() implies b.neighbours@[#[trigger] b.neighbours@[a]@[u] as int]@.contains(
        a as usize,
    ) by {
        assert(w >= 1 && h >= 1) by (nonlinear_arith)
            requires
                n == w * h,
                w >= 0,
                h >= 0,
                n > 0,
        ;
        let dd = b.neighbours@[a]@[u];
        assert(b.neighbours@[a]@ == cell_neighbours(w, h, a));
        assert(cell_neighbours(w, h, a)[u] == dd);
        assert(cell_neighbours(w, h, a).contains(dd));
        lemma_neighbours_symmetric(w, h, a, dd as int);
        assert(b.neighbours@[dd as int]@ == cell_neighbours(w, h, dd as int));
        assert(cell_neighbours(w, h, dd as int).contains(a as usize));
    }
}

impl<T: BoardGem + Copy> RectBoard<T> {
    /// Builds a board every cell of which holds the same gem.
    pub fn from_element(width: usize, height: usize, filler: T) -> (r: Self)
        requires
            width as int * height as int <= usize::MAX,
        ensures
            r.wf(),
            r.width == width,
            r.height == height,
            r.board@ == Seq::new((width as int * height as int) as nat, |i: int| filler),
    {
        let ghost w = width as int;
        let ghost h = height as int;
        let mut board: Vec<T> = Vec::new();
        let mut i: usize = 0;
        proof {
            assert(w * h >= 0) by (nonlinear_arith)
                requires
                    w >= 0,
                    h >= 0,
            ;
        }
        let n = width * height;
        while i < n
            invariant
                i <= n,
                n == w * h,
                board@ == Seq::new(i as nat, |t: int| filler),
            decreases n - i,
        {
            board.push(filler);
            proof {
                assert(board@ =~= Seq::new((i + 1) as nat, |t: int| filler));
            }
            i = i + 1;
        }
        Self::new(width, height, board)
    }
}

impl<T: BoardGem> RectBoard<T> {
    /// Builds a board whose cell `i` holds what the filler returns for `i`.
    pub fn from_fn<F: Fn(usize) -> T>(width: usize, height: usize, filler: F) -> (r: Self)
        requires
            width as int * height as int <= usize::MAX,
            forall|i: usize|
                i < width as int * height as int ==> call_requires(filler, (i,)),
        ensures
            r.wf(),
            r.width == width,
            r.height == height,
            r.board@.len() == width as int * height as int,
            forall|i: int|
                0 <= i < r.board@.len() ==> call_ensures(
                    filler,
                    (i as usize,),
                    #[trigger] r.board@[i],
                ),
    {
        let ghost w = width as int;
        let ghost h = height as int;
        proof {
            assert(w * h >= 0) by (nonlinear_arith)
                requires
                    w >= 0,
                    h >= 0,
            ;
        }
        let n = width * height;
        let mut board: Vec<T> = Vec::new();
        let mut i: usize = 0;
        while i < n
            invariant
                i <= n,
                n == w * h,
                board@.len() == i,
                forall|t: int|
                    0 <= t < i ==> call_ensures(filler, (t as usize,), #[trigger] board@[t]),
            decreases n - i,
        {
            let gem = filler(i);
            board.push(gem);
            i = i + 1;
        }
        Self::new(width, height, board)
    }

    /// Finds all match groups of this board under the given settings.
    pub fn find_matches_linear(&self, settings: &LineMatcherSettings) -> (r: Vec<
        BoardMatch<T::Color>,
    >)
        requires
            self.wf(),
            self.board@.len() < usize::MAX / 2,
        ensures
            forall|g: int|
                0 <= g < r@.len() ==> returned_group_ok(
                    #[trigger] r@[g],
                    self.board@.len() as int,
                    *settings,
                ),
            (exists|li: int|
                0 <= li < self.lines@.len() && uniform_matchable_line(
                    self.board@,
                    #[trigger] self.lines@[li]@,
                    *settings,
                )) ==> r@.len() >= 1,
            crate::line::colors_well_behaved(crate::line::colors_of_gems(self.board@))
                ==> forall|
                g1: int,
                g2: int,
                ci: int,
            |
                #![trigger r@[g1].spec_cells()[ci], r@[g2]]
                0 <= g1 < r@.len() && 0 <= g2 < r@.len() && g1 != g2 && 0 <= ci
                    < r@[g1].spec_cells().len() ==> !r@[g2].spec_cells().contains(
                    r@[g1].spec_cells()[ci],
                ),
            forall|g: int|
                0 <= g < r@.len() ==> crate::line::color_on_board(
                    (#[trigger] r@[g]).spec_color(),
                    crate::line::colors_of_gems(self.board@),
                ),
            crate::line::colors_well_behaved(crate::line::colors_of_gems(self.board@))
                ==> forall|g: int|
                0 <= g < r@.len() ==> #[trigger] crate::line::group_cells_match(
                    r@[g],
                    crate::line::colors_of_gems(self.board@),
                ),
            forall|g: int|
                0 <= g < r@.len() ==> #[trigger] crate::line::group_has_seed(
                    r@[g],
                    self.lines@,
                    settings.line_size as int,
                ),
            (crate::line::colors_well_behaved(crate::line::colors_of_gems(self.board@))
                && settings.spec_min_group() <= settings.line_size as int) ==> forall|
                li2: int,
                j: int,
            |
                0 <= li2 < self.lines@.len() && #[trigger] crate::line::live_run(
                    crate::line::colors_of_gems(self.board@),
                    self.lines@[li2]@,
                    j,
                    settings.line_size as int,
                ) ==> (exists|g: int, t: int|
                    0 <= g < r@.len() && 0 <= t < settings.line_size as int && (
                    #[trigger] r@[g].spec_cells().contains(self.lines@[li2]@[j + t]))),
            // Wildcard backfill included: one returned group covers each live
            // segment whole, also when the segment opens on cells that cannot
            // start a run themselves.
            (crate::line::colors_well_behaved(crate::line::colors_of_gems(self.board@))
                && settings.spec_min_group() <= settings.line_size as int) ==> forall|
                li2: int,
                j: int,
            |
                0 <= li2 < self.lines@.len() && #[trigger] crate::line::live_segment(
                    crate::line::colors_of_gems(self.board@),
                    self.lines@[li2]@,
                    j,
                    settings.line_size as int,
                ) ==> (exists|g: int|
                    0 <= g < r@.len() && #[trigger] crate::line::covers_segment(
                        r@[g],
                        self.lines@[li2]@,
                        j,
                        settings.line_size as int,
                    )),
            // With neighbour merging on and well-behaved colors, no two
            // returned groups of matching colors sit orthogonally adjacent:
            // the matcher has unified them.
            (settings.merge_neighbours && crate::line::colors_well_behaved(
                crate::line::colors_of_gems(self.board@),
            )) ==> forall|g1: int, g2: int|
                #![trigger r@[g1], r@[g2]]
                0 <= g1 < r@.len() && 0 <= g2 < r@.len() && g1 != g2 && (
                r@[g1]).spec_color().spec_matches((r@[g2]).spec_color())
                    ==> !crate::line::groups_adjacent(r@[g1], r@[g2], self.neighbours@),
    {
        proof {
            lemma_topology_valid(*self);
            lemma_rect_neighbours_sym(*self);
        }
        settings.find_matches(&self.board, &self.lines, &self.neighbours)
    }

    /// Number of columns.
    pub fn width(&self) -> (r: usize)
        ensures
            r == self.width,
    {
        self.width
    }

    /// Number of rows.
    pub fn height(&self) -> (r: usize)
        ensures
            r == self.height,
    {
        self.height
    }

    /// The board's gravity lanes: its columns, each top to bottom.
    pub fn vertical_lines(&self) -> (r: Vec<Vec<usize>>)
        requires
            self.wf(),
        ensures
            r@.len() == self.width,
            forall|x: int|
                0 <= x < self.width ==> (#[trigger] r@[x])@ == col_line(
                    self.width as int,
                    self.height as int,
                    x,
                ),
            forall|x: int|
                0 <= x < self.width ==> (#[trigger] r@[x])@ == self.lines@[self.height + x]@,
    {
        let ghost w = self.width as int;
        let ghost h = self.height as int;
        let total = self.board.len();
        proof {
            assert(total as int == w * h);
        }
        let mut r: Vec<Vec<usize>> = Vec::new();
        let mut x: usize = 0;
        while x < self.width
            invariant
                x <= self.width,
                r@.len() == x,
                forall|t: int| 0 <= t < x ==> (#[trigger] r@[t])@ == col_line(w, h, t),
            decreases self.width - x,
        {
            let mut col: Vec<usize> = Vec::new();
            let mut cy: usize = 0;
            while cy < self.height
                invariant
                    cy <= self.height,
                    x < self.width,
                    col@ == col_line(w, h, x as int).subrange(0, cy as int),
                decreases self.height - cy,
            {
                proof {
                    assert(cy * w + x < h * w && h * w == w * h) by (nonlinear_arith)
                        requires
                            0 <= cy < h,
                            0 <= x < w,
                    ;
                }
                col.push(cy * self.width + x);
                proof {
                    assert(col@ =~= col_line(w, h, x as int).subrange(0, cy + 1));
                }
                cy = cy + 1;
            }
            proof {
                assert(col@ =~= col_line(w, h, x as int));
            }
            r.push(col);
            x = x + 1;
        }
        r
    }
}


/// How a gem walks across the grid when moved between two cells.
#[derive(Debug, Copy, Clone, PartialEq, Eq, Structural)]
pub enum GridMoveStrategy {
    /// Close the vertical distance first.
    VerticalFirst,
    /// Close the horizontal distance first.
    HorizontalFirst,
    /// Move along the diagonal while both distances remain.
    Diagonals,
}

/// The distance between two grid coordinates.
pub open spec fn coord_dist(a: int, b: int) -> int {
    if a < b {
        b - a
    } else {
        a - b
    }
}

/// One grid step between two cells of a board `w` columns wide: the cells
/// differ, and by at most one column and one row.
pub open spec fn grid_step(w: int, a: int, b: int) -> bool {
    &&& coord_dist(a % w, b % w) <= 1
    &&& coord_dist(a / w, b / w) <= 1
    &&& a != b
}

/// How many steps remain from `(x, y)` to `(tx, ty)` under a strategy: one
/// per coordinate step, except that a diagonal step closes both at once.
pub open spec fn steps_left(s: GridMoveStrategy, x: int, y: int, tx: int, ty: int) -> int {
    if s is Diagonals {
        if coord_dist(x, tx) >= coord_dist(y, ty) {
            coord_dist(x, tx)
        } else {
            coord_dist(y, ty)
        }
    } else {
        coord_dist(x, tx) + coord_dist(y, ty)
    }
}

impl<T: BoardGem> RectBoard<T> {
    /// The shortest path to move a gem from one cell to another: every cell
    /// the gem passes through, one grid step at a time, ending on the target
    /// cell; empty when the gem already sits there.
    #[verifier::rlimit(60)]
    pub fn move_gem(&self, from: usize, to: usize, strategy: GridMoveStrategy) -> (r: Vec<usize>)
        requires
            self.wf(),
            from < self.board@.len(),
            to < self.board@.len(),
        ensures
            forall|k: int| 0 <= k < r@.len() ==> r@[k] < self.board@.len(),
            r@.len() > 0 ==> r@[r@.len() - 1] == to,
            (r@.len() == 0) <==> from == to,
            r@.len() == steps_left(
                strategy,
                from as int % self.width as int,
                from as int / self.width as int,
                to as int % self.width as int,
                to as int / self.width as int,
            ),
            // The walk is a real path: the first cell is one grid step away
            // from the start, and every further cell one step from the last.
            r@.len() > 0 ==> grid_step(self.width as int, from as int, r@[0] as int),
            forall|k: int|
                0 <= k < r@.len() - 1 ==> grid_step(
                    self.width as int,
                    #[trigger] r@[k] as int,
                    r@[k + 1] as int,
                ),
    {
        let ghost w = self.width as int;
        let ghost h = self.height as int;
        let ghost n = self.board@.len() as int;
        let nboard = self.board.len();
        proof {
            assert(nboard as int == n);
            assert(w >= 1 && h >= 1) by (nonlinear_arith)
                requires
                    n == w * h,
                    w >= 0,
                    h >= 0,
                    n > 0,
            ;
        }
        let mut x = from % self.width;
        let mut y = from / self.width;
        let tx = to % self.width;
        let ty = to / self.width;
        proof {
            vstd::arithmetic::div_mod::lemma_fundamental_div_mod(from as int, w);
            vstd::arithmetic::div_mod::lemma_mod_bound(from as int, w);
            vstd::arithmetic::div_mod::lemma_fundamental_div_mod(to as int, w);
            vstd::arithmetic::div_mod::lemma_mod_bound(to as int, w);
            assert((from as int) / w < h && (to as int) / w < h) by (nonlinear_arith)
                requires
                    w >= 1,
                    h >= 0,
                    0 <= (from as int) < w * h,
                    0 <= (to as int) < w * h,
                    w * ((from as int) / w) + (from as int) % w == from as int,
                    w * ((to as int) / w) + (to as int) % w == to as int,
                    0 <= (from as int) % w < w,
                    0 <= (to as int) % w < w,
            ;
            assert((x == tx && y == ty) ==> from == to);
        }
        let mut path: Vec<usize> = Vec::new();
        while x != tx || y != ty
            invariant
                x < self.width,
                y < self.height,
                tx < self.width,
                ty < self.height,
                to as int == ty * w + tx,
                forall|k: int| 0 <= k < path@.len() ==> path@[k] < self.board@.len(),
                path@.len() > 0 ==> path@[path@.len() - 1] == y * w + x,
                path@.len() == 0 ==> x == from as int % w && y == from as int / w,
                path@.len() > 0 ==> grid_step(w, from as int, path@[0] as int),
                forall|k: int|
                    0 <= k < path@.len() - 1 ==> grid_step(
                        w,
                        #[trigger] path@[k] as int,
                        path@[k + 1] as int,
                    ),
                path@.len() + steps_left(strategy, x as int, y as int, tx as int, ty as int)
                    == steps_left(
                    strategy,
                    from as int % w,
                    from as int / w,
                    to as int % w,
                    to as int / w,
                ),
            decreases steps_left(strategy, x as int, y as int, tx as int, ty as int),
        {
            let ghost px = x as int;
            let ghost py = y as int;
            let ghost path_pre = path@;
            let move_x = match strategy {
                GridMoveStrategy::VerticalFirst => y == ty,
                GridMoveStrategy::HorizontalFirst => x != tx,
                GridMoveStrategy::Diagonals => x != tx,
            };
            let move_y = match strategy {
                GridMoveStrategy::VerticalFirst => y != ty,
                GridMoveStrategy::HorizontalFirst => x == tx,
                GridMoveStrategy::Diagonals => y != ty,
            };
            if move_x {
                if x < tx {
                    x = x + 1;
                } else {
                    x = x - 1;
                }
            }
            if move_y {
                if y < ty {
                    y = y + 1;
                } else {
                    y = y - 1;
                }
            }
            proof {
                assert(y * w + x < h * w && h * w == w * h) by (nonlinear_arith)
                    requires
                        0 <= (y as int) < h,
                        0 <= (x as int) < w,
                ;
            }
            path.push(y * self.width + x);
            proof {
                let new_cell: int = y as int * w + x as int;
                let prev_cell: int = py * w + px;
                vstd::arithmetic::div_mod::lemma_fundamental_div_mod_converse(
                    new_cell,
                    w,
                    y as int,
                    x as int,
                );
                vstd::arithmetic::div_mod::lemma_fundamental_div_mod_converse(prev_cell, w, py, px);
                assert(coord_dist(px, x as int) <= 1 && coord_dist(py, y as int) <= 1);
                assert(px != x as int || py != y as int);
                assert(new_cell != prev_cell);
                assert(grid_step(w, prev_cell, new_cell));
                assert(path@ == path_pre.push((y * self.width + x) as usize));
                assert(path@[path@.len() - 1] as int == new_cell);
                if path_pre.len() == 0 {
                    assert(prev_cell == from as int);
                    assert(path@[0] as int == new_cell);
                    assert(grid_step(w, from as int, path@[0] as int));
                } else {
                    assert(path_pre[path_pre.len() - 1] as int == prev_cell);
                    assert(path@[0] == path_pre[0]);
                    assert(grid_step(w, from as int, path@[0] as int));
                }
                assert forall|k: int|
                    0 <= k < path@.len() - 1 implies grid_step(
                    w,
                    #[trigger] path@[k] as int,
                    path@[k + 1] as int,
                ) by {
                    if k < path_pre.len() - 1 {
                        assert(path@[k] == path_pre[k] && path@[k + 1] == path_pre[k + 1]);
                    } else {
                        assert(k == path_pre.len() - 1);
                        assert(path@[k] == path_pre[k]);
                        assert(path@[k] as int == prev_cell);
                        assert(path@[k + 1] as int == new_cell);
                    }
                }
            }
        }
        proof {
            if path@.len() > 0 {
                assert(path@[path@.len() - 1] == to);
            }
        }
        path
    }
}


/// Exactly which cells a neighbour list holds: the four orthogonally
/// adjacent indices, each present exactly when it exists on the grid.
proof fn lemma_neighbour_member(w: int, h: int, i: int, x: usize)
    requires
        w >= 1,
        h >= 1,
        w * h <= usize::MAX,
        0 <= i < w * h,
    ensures
        cell_neighbours(w, h, i).contains(x) <==> ({
            ||| (i % w > 0 && x as int == i - 1)
            ||| (i % w < w - 1 && x as int == i + 1)
            ||| (i / w > 0 && x as int == i - w)
            ||| (i / w < h - 1 && x as int == i + w)
        }),
{
    vstd::arithmetic::div_mod::lemma_fundamental_div_mod(i, w);
    vstd::arithmetic::div_mod::lemma_mod_bound(i, w);
    let cx = i % w;
    let cy = i / w;
    assert(0 <= cy < h && (cx < w - 1 ==> i + 1 < w * h) && (cy < h - 1 ==> i + w < w * h) && (
    cy > 0 ==> w <= i) && (cx > 0 ==> 1 <= i)) by (nonlinear_arith)
        requires
            w >= 1,
            h >= 1,
            0 <= i < w * h,
            cx == i % w,
            cy == i / w,
            w * (i / w) + i % w == i,
            0 <= i % w < w,
    ;
    let a1 = if cx > 0 {
        seq![(i - 1) as usize]
    } else {
        Seq::<usize>::empty()
    };
    let a2 = if cx < w - 1 {
        seq![(i + 1) as usize]
    } else {
        Seq::<usize>::empty()
    };
    let a3 = if cy > 0 {
        seq![(i - w) as usize]
    } else {
        Seq::<usize>::empty()
    };
    let a4 = if cy < h - 1 {
        seq![(i + w) as usize]
    } else {
        Seq::<usize>::empty()
    };
    let nb = cell_neighbours(w, h, i);
    assert(nb == a1 + a2 + a3 + a4);
    if nb.contains(x) {
        let t = choose|t: int| 0 <= t < nb.len() && nb[t] == x;
        if t < a1.len() {
            assert(nb[t] == a1[t]);
        } else if t < a1.len() + a2.len() {
            assert(nb[t] == a2[t - a1.len()]);
        } else if t < a1.len() + a2.len() + a3.len() {
            assert(nb[t] == a3[t - a1.len() - a2.len()]);
        } else {
            assert(nb[t] == a4[t - a1.len() - a2.len() - a3.len()]);
        }
    }
    if cx > 0 && x as int == i - 1 {
        assert(nb[0] == x);
    }
    if cx < w - 1 && x as int == i + 1 {
        assert(nb[a1.len() as int] == x);
    }
    if cy > 0 && x as int == i - w {
        assert(nb[a1.len() as int + a2.len() as int] == x);
    }
    if cy < h - 1 && x as int == i + w {
        assert(nb[a1.len() as int + a2.len() as int + a3.len() as int] == x);
    }
}

/// The neighbour relation is symmetric: one cell borders another exactly
/// when that cell borders it.
pub proof fn lemma_neighbours_symmetric(w: int, h: int, i: int, j: int)
    requires
        w >= 1,
        h >= 1,
        w * h <= usize::MAX,
        0 <= i < w * h,
        0 <= j < w * h,
    ensures
        cell_neighbours(w, h, i).contains(j as usize) <==> cell_neighbours(w, h, j).contains(
            i as usize,
        ),
{
    vstd::arithmetic::div_mod::lemma_fundamental_div_mod(i, w);
    vstd::arithmetic::div_mod::lemma_mod_bound(i, w);
    vstd::arithmetic::div_mod::lemma_fundamental_div_mod(j, w);
    vstd::arithmetic::div_mod::lemma_mod_bound(j, w);
    lemma_neighbour_member(w, h, i, j as usize);
    lemma_neighbour_member(w, h, j, i as usize);
    assert(0 <= i / w < h && 0 <= j / w < h) by (nonlinear_arith)
        requires
            w >= 1,
            h >= 1,
            0 <= i < w * h,
            0 <= j < w * h,
            w * (i / w) + i % w == i,
            0 <= i % w < w,
            w * (j / w) + j % w == j,
            0 <= j % w < w,
    ;
    if cell_neighbours(w, h, i).contains(j as usize) {
        if i % w > 0 && j == i - 1 {
            assert(j == (i / w) * w + (i % w - 1)) by (nonlinear_arith)
                requires
                    j == i - 1,
                    w * (i / w) + i % w == i,
            ;
            vstd::arithmetic::div_mod::lemma_fundamental_div_mod_converse(j, w, i / w, i % w - 1);
            assert(j % w < w - 1 && i == j + 1);
        } else if i % w < w - 1 && j == i + 1 {
            assert(j == (i / w) * w + (i % w + 1)) by (nonlinear_arith)
                requires
                    j == i + 1,
                    w * (i / w) + i % w == i,
            ;
            vstd::arithmetic::div_mod::lemma_fundamental_div_mod_converse(j, w, i / w, i % w + 1);
            assert(j % w > 0 && i == j - 1);
        } else if i / w > 0 && j == i - w {
            assert(j == (i / w - 1) * w + i % w) by (nonlinear_arith)
                requires
                    j == i - w,
                    w * (i / w) + i % w == i,
            ;
            vstd::arithmetic::div_mod::lemma_fundamental_div_mod_converse(j, w, i / w - 1, i % w);
            assert(j / w < h - 1 && i == j + w);
        } else {
            assert(i / w < h - 1 && j == i + w);
            assert(j == (i / w + 1) * w + i % w) by (nonlinear_arith)
                requires
                    j == i + w,
                    w * (i / w) + i % w == i,
            ;
            vstd::arithmetic::div_mod::lemma_fundamental_div_mod_converse(j, w, i / w + 1, i % w);
            assert(j / w > 0 && i == j - w);
        }
        assert(cell_neighbours(w, h, j).contains(i as usize));
    }
    if cell_neighbours(w, h, j).contains(i as usize) {
        if j % w > 0 && i == j - 1 {
            assert(i == (j / w) * w + (j % w - 1)) by (nonlinear_arith)
                requires
                    i == j - 1,
                    w * (j / w) + j % w == j,
            ;
            vstd::arithmetic::div_mod::lemma_fundamental_div_mod_converse(i, w, j / w, j % w - 1);
            assert(i % w < w - 1 && j == i + 1);
        } else if j % w < w - 1 && i == j + 1 {
            assert(i == (j / w) * w + (j % w + 1)) by (nonlinear_arith)
                requires
                    i == j + 1,
                    w * (j / w) + j % w == j,
            ;
            vstd::arithmetic::div_mod::lemma_fundamental_div_mod_converse(i, w, j / w, j % w + 1);
            assert(i % w > 0 && j == i - 1);
        } else if j / w > 0 && i == j - w {
            assert(i == (j / w - 1) * w + j % w) by (nonlinear_arith)
                requires
                    i == j - w,
                    w * (j / w) + j % w == j,
            ;
            vstd::arithmetic::div_mod::lemma_fundamental_div_mod_converse(i, w, j / w - 1, j % w);
            assert(i / w < h - 1 && j == i + w);
        } else {
            assert(j / w < h - 1 && i == j + w);
            assert(i == (j / w + 1) * w + j % w) by (nonlinear_arith)
                requires
                    i == j + w,
                    w * (j / w) + j % w == j,
            ;
            vstd::arithmetic::div_mod::lemma_fundamental_div_mod_converse(i, w, j / w + 1, j % w);
            assert(i / w > 0 && j == i - w);
        }
        assert(cell_neighbours(w, h, i).contains(j as usize));
    }
}

/// Every cell stands in exactly one row line: the one of its own row.
pub proof fn lemma_cell_row_membership(w: int, h: int, i: int, y: int)
    requires
        w >= 1,
        h >= 1,
        w * h <= usize::MAX,
        0 <= i < w * h,
        0 <= y < h,
    ensures
        row_line(w, y).contains(i as usize) <==> y == i / w,
{
    vstd::arithmetic::div_mod::lemma_fundamental_div_mod(i, w);
    vstd::arithmetic::div_mod::lemma_mod_bound(i, w);
    if y == i / w {
        assert(row_line(w, y)[i % w] == (y * w + i % w) as usize);
        assert(y * w + i % w == i) by (nonlinear_arith)
            requires
                y == i / w,
                w * (i / w) + i % w == i,
        ;
    }
    if row_line(w, y).contains(i as usize) {
        let x = choose|x: int| 0 <= x < w && row_line(w, y)[x] == i as usize;
        assert(row_line(w, y)[x] == (y * w + x) as usize);
        assert(0 <= y * w + x && y * w + x < w * h) by (nonlinear_arith)
            requires
                0 <= y < h,
                0 <= x < w,
        ;
        assert(y * w + x == i);
        vstd::arithmetic::div_mod::lemma_fundamental_div_mod_converse(i, w, y, x);
    }
}

/// Every cell stands in exactly one column line: the one of its own column.
pub proof fn lemma_cell_col_membership(w: int, h: int, i: int, x: int)
    requires
        w >= 1,
        h >= 1,
        w * h <= usize::MAX,
        0 <= i < w * h,
        0 <= x < w,
    ensures
        col_line(w, h, x).contains(i as usize) <==> x == i % w,
{
    vstd::arithmetic::div_mod::lemma_fundamental_div_mod(i, w);
    vstd::arithmetic::div_mod::lemma_mod_bound(i, w);
    if x == i % w {
        assert(0 <= i / w < h) by (nonlinear_arith)
            requires
                w >= 1,
                h >= 1,
                0 <= i < w * h,
                w * (i / w) + i % w == i,
                0 <= i % w < w,
        ;
        assert(col_line(w, h, x)[i / w] == (i / w * w + x) as usize);
        assert((i / w) * w + x == i) by (nonlinear_arith)
            requires
                x == i % w,
                w * (i / w) + i % w == i,
        ;
    }
    if col_line(w, h, x).contains(i as usize) {
        let y = choose|y: int| 0 <= y < h && col_line(w, h, x)[y] == i as usize;
        assert(col_line(w, h, x)[y] == (y * w + x) as usize);
        assert(0 <= y * w + x && y * w + x < w * h) by (nonlinear_arith)
            requires
                0 <= y < h,
                0 <= x < w,
        ;
        assert(y * w + x == i);
        vstd::arithmetic::div_mod::lemma_fundamental_div_mod_converse(i, w, y, x);
    }
}

} // verus!
