//! The board: a rectangle of cells stored row by row, and which cells touch.

use crate::stone::Stone;
use crate::stone::StoneView;
use vstd::arithmetic::div_mod::lemma_fundamental_div_mod;
use vstd::arithmetic::div_mod::lemma_fundamental_div_mod_converse;
use vstd::arithmetic::div_mod::lemma_multiply_divide_lt;
use vstd::prelude::*;

verus! {

/// The board as a mathematical value: the flags of its cells, row by row,
/// and its dimensions. The cell in row `r` and column `c` has the index
/// `r * width + c`.
pub struct Grid {
    pub cells: Seq<StoneView>,
    pub width: nat,
    pub height: nat,
}

impl Grid {
    /// There are as many cells as the dimensions say.
    pub open spec fn wf(self) -> bool {
        self.cells.len() == self.width * self.height
    }

    /// `i` is the index of a cell of the board.
    pub open spec fn has_cell(self, i: int) -> bool {
        0 <= i < self.cells.len()
    }

    /// The row of the cell `i`.
    pub open spec fn row(self, i: int) -> int {
        i / (self.width as int)
    }

    /// The column of the cell `i`.
    pub open spec fn col(self, i: int) -> int {
        i % (self.width as int)
    }

    /// The cells `a` and `b` are both on the board and share an edge: they
    /// are one step apart in the same row or in the same column.
    pub open spec fn adjacent(self, a: int, b: int) -> bool {
        &&& self.has_cell(a)
        &&& self.has_cell(b)
        &&& {
            ||| self.row(a) == self.row(b) && self.col(a) - self.col(b) == 1
            ||| self.row(a) == self.row(b) && self.col(b) - self.col(a) == 1
            ||| self.col(a) == self.col(b) && self.row(a) - self.row(b) == 1
            ||| self.col(a) == self.col(b) && self.row(b) - self.row(a) == 1
        }
    }

    /// The cells next to `i` in the order up, right, down, left, without
    /// those that would lie off the board.
    pub open spec fn neighbors(self, i: int) -> Seq<int> {
        let none = Seq::<int>::empty();
        let up = if self.row(i) != 0 {
            none.push(i - self.width)
        } else {
            none
        };
        let right = if self.col(i) != self.width - 1 {
            up.push(i + 1)
        } else {
            up
        };
        let down = if self.row(i) != self.height - 1 {
            right.push(i + self.width)
        } else {
            right
        };
        if self.col(i) != 0 {
            down.push(i - 1)
        } else {
            down
        }
    }
}

/// The indices of a vector of cell indices, as integers.
pub open spec fn indices(v: Seq<usize>) -> Seq<int> {
    v.map_values(|i: usize| i as int)
}

/// A cell of a well-formed board has a row and a column on the board, and
/// its index is made of them.
pub proof fn lemma_row_col(g: Grid, i: int)
    requires
        g.wf(),
        g.has_cell(i),
    ensures
        g.width > 0,
        g.height > 0,
        0 <= g.row(i) < g.height,
        0 <= g.col(i) < g.width,
        i == g.width * g.row(i) + g.col(i),
{
    let w = g.width as int;
    let h = g.height as int;
    assert(w > 0 && h > 0) by (nonlinear_arith)
        requires
            0 <= i < w * h,
            w >= 0,
            h >= 0,
    ;
    lemma_fundamental_div_mod(i, w);
    assert(i < h * w) by (nonlinear_arith)
        requires
            i < w * h,
    ;
    lemma_multiply_divide_lt(i, w, h);
    assert(0 <= i / w) by (nonlinear_arith)
        requires
            0 <= i,
            w > 0,
    ;
}

/// The cell in row `r` and column `c` of a well-formed board.
pub proof fn lemma_cell_at(g: Grid, r: int, c: int)
    requires
        g.wf(),
        0 <= r < g.height,
        0 <= c < g.width,
    ensures
        g.has_cell(g.width * r + c),
        g.row(g.width * r + c) == r,
        g.col(g.width * r + c) == c,
{
    let w = g.width as int;
    let h = g.height as int;
    let i = w * r + c;
    assert(0 <= i < w * h) by (nonlinear_arith)
        requires
            i == w * r + c,
            0 <= r < h,
            0 <= c < w,
    ;
    assert(i == r * w + c) by (nonlinear_arith)
        requires
            i == w * r + c,
    ;
    lemma_fundamental_div_mod_converse(i, w, r, c);
}

/// The neighbours of a cell are exactly the cells that share an edge with
/// it.
pub proof fn lemma_neighbors_adjacent(g: Grid, a: int, b: int)
    requires
        g.wf(),
        g.has_cell(a),
    ensures
        g.neighbors(a).contains(b) <==> g.adjacent(a, b),
{
    let w = g.width as int;
    let h = g.height as int;
    let r = g.row(a);
    let c = g.col(a);
    lemma_row_col(g, a);
    let none = Seq::<int>::empty();
    let up = if r != 0 {
        none.push(a - w)
    } else {
        none
    };
    let right = if c != w - 1 {
        up.push(a + 1)
    } else {
        up
    };
    let down = if r != h - 1 {
        right.push(a + w)
    } else {
        right
    };
    let left = if c != 0 {
        down.push(a - 1)
    } else {
        down
    };
    assert(left == g.neighbors(a));
    assert(!none.contains(b));
    assert(up.contains(b) <==> (r != 0 && b == a - w)) by {
        if r != 0 {
            lemma_push_contains(none, a - w, b);
        }
    }
    assert(right.contains(b) <==> (up.contains(b) || (c != w - 1 && b == a + 1))) by {
        if c != w - 1 {
            lemma_push_contains(up, a + 1, b);
        }
    }
    assert(down.contains(b) <==> (right.contains(b) || (r != h - 1 && b == a + w))) by {
        if r != h - 1 {
            lemma_push_contains(right, a + w, b);
        }
    }
    assert(left.contains(b) <==> (down.contains(b) || (c != 0 && b == a - 1))) by {
        if c != 0 {
            lemma_push_contains(down, a - 1, b);
        }
    }
    if r != 0 {
        lemma_cell_at(g, r - 1, c);
        assert(w * (r - 1) + c == a - w) by (nonlinear_arith)
            requires
                a == w * r + c,
        ;
    }
    if c != w - 1 {
        lemma_cell_at(g, r, c + 1);
    }
    if r != h - 1 {
        lemma_cell_at(g, r + 1, c);
        assert(w * (r + 1) + c == a + w) by (nonlinear_arith)
            requires
                a == w * r + c,
        ;
    }
    if c != 0 {
        lemma_cell_at(g, r, c - 1);
    }
    if g.adjacent(a, b) {
        lemma_row_col(g, b);
        let rb = g.row(b);
        let cb = g.col(b);
        assert(rb == r - 1 ==> w * rb == w * r - w) by (nonlinear_arith);
        assert(rb == r + 1 ==> w * rb == w * r + w) by (nonlinear_arith);
    }
}

/// What a sequence contains after one more element is pushed.
proof fn lemma_push_contains(s: Seq<int>, x: int, y: int)
    ensures
        s.push(x).contains(y) <==> (s.contains(y) || x == y),
{
    if s.contains(y) {
        let k = choose|k: int| 0 <= k < s.len() && s[k] == y;
        assert(s.push(x)[k] == y);
    }
    if x == y {
        assert(s.push(x)[s.len() as int] == y);
    }
}

/// Being a neighbour goes both ways.
pub proof fn lemma_neighbors_symmetric(g: Grid, a: int, b: int)
    requires
        g.wf(),
        g.has_cell(a),
        g.has_cell(b),
    ensures
        g.neighbors(a).contains(b) == g.neighbors(b).contains(a),
{
    lemma_neighbors_adjacent(g, a, b);
    lemma_neighbors_adjacent(g, b, a);
}

/// A cell has at most four neighbours, all of them cells of the board, and
/// it is not its own neighbour.
pub proof fn lemma_neighbors_on_board(g: Grid, a: int)
    requires
        g.wf(),
        g.has_cell(a),
    ensures
        g.neighbors(a).len() <= 4,
        !g.neighbors(a).contains(a),
        forall|k: int| 0 <= k < g.neighbors(a).len() ==> g.has_cell(#[trigger] g.neighbors(a)[k]),
{
    lemma_neighbors_adjacent(g, a, a);
    assert forall|k: int| 0 <= k < g.neighbors(a).len() implies g.has_cell(
        #[trigger] g.neighbors(a)[k],
    ) by {
        let b = g.neighbors(a)[k];
        assert(g.neighbors(a).contains(b));
        lemma_neighbors_adjacent(g, a, b);
    }
}

/// A Go board: its cells row by row, and its dimensions.
#[derive(Debug)]
pub struct Board {
    stones: Vec<Stone>,
    width: usize,
    height: usize,
}

impl View for Board {
    type V = Grid;

    closed spec fn view(&self) -> Grid {
        Grid {
            cells: self.stones@.map_values(|s: Stone| s@),
            width: self.width as nat,
            height: self.height as nat,
        }
    }
}

/// The flags of each of the given cells.
pub open spec fn views(stones: Seq<Stone>) -> Seq<StoneView> {
    stones.map_values(|s: Stone| s@)
}

impl Board {
    #[verifier::type_invariant]
    spec fn consistent(self) -> bool {
        self.stones@.len() == self.width * self.height
    }

    /// Makes a board of the given cells, which are taken row by row. There
    /// is a board exactly when the number of cells is `width * height`.
    pub fn new(stones: Vec<Stone>, width: usize, height: usize) -> (board: Option<Board>)
        ensures
            board.is_some() <==> stones@.len() == width * height,
            board matches Some(b) ==> b@ == (Grid {
                cells: views(stones@),
                width: width as nat,
                height: height as nat,
            }),
    {
        let count = stones.len();
        match width.checked_mul(height) {
            Some(area) => {
                if area == count {
                    Some(Board { stones, width, height })
                } else {
                    None
                }
            },
            None => None,
        }
    }

    /// The number of columns.
    pub fn width(&self) -> (width: usize)
        ensures
            width == self@.width,
            self@.wf(),
    {
        proof {
            use_type_invariant(self);
        }
        self.width
    }

    /// The number of rows.
    pub fn height(&self) -> (height: usize)
        ensures
            height == self@.height,
            self@.wf(),
    {
        proof {
            use_type_invariant(self);
        }
        self.height
    }

    /// The cells of the board, row by row.
    pub fn stones(&self) -> (stones: &Vec<Stone>)
        ensures
            views(stones@) == self@.cells,
            self@.wf(),
    {
        proof {
            use_type_invariant(self);
        }
        &self.stones
    }

    /// Gives the cells back, row by row.
    pub fn into_stones(self) -> (stones: Vec<Stone>)
        ensures
            views(stones@) == self@.cells,
            self@.wf(),
    {
        proof {
            use_type_invariant(&self);
        }
        self.stones
    }

    /// The number of cells.
    pub fn len(&self) -> (len: usize)
        ensures
            len == self@.cells.len(),
            self@.wf(),
    {
        proof {
            use_type_invariant(self);
        }
        self.stones.len()
    }

    /// The cell `i`.
    pub fn stone(&self, i: usize) -> (stone: Stone)
        requires
            self@.has_cell(i as int),
        ensures
            stone@ == self@.cells[i as int],
    {
        self.stones[i]
    }

    /// Replaces the cell `i`.
    pub fn set_stone(&mut self, i: usize, stone: Stone)
        requires
            old(self)@.has_cell(i as int),
        ensures
            final(self)@ == (Grid {
                cells: old(self)@.cells.update(i as int, stone@),
                width: old(self)@.width,
                height: old(self)@.height,
            }),
    {
        proof {
            use_type_invariant(&*self);
        }
        self.stones[i] = stone;
        assert(self@.cells =~= old(self)@.cells.update(i as int, stone@));
    }

    /// The cells next to the cell `i`, in the order up, right, down, left.
    /// A cell on an edge of the board has no neighbour beyond that edge.
    pub fn neighbors(&self, i: usize) -> (neighborhood: Vec<usize>)
        requires
            self@.has_cell(i as int),
        ensures
            indices(neighborhood@) == self@.neighbors(i as int),
            self@.wf(),
    {
        proof {
            use_type_invariant(self);
            lemma_row_col(self@, i as int);
            lemma_neighbors_in_range(self@, i as int);
        }
        let ghost g = self@;
        let count = self.stones.len();
        assert(g.cells.len() == count);
        let mut neighborhood: Vec<usize> = Vec::with_capacity(4);
        if i / self.width != 0 {
            neighborhood.push(i - self.width);
        }
        assert(indices(neighborhood@) == if g.row(i as int) != 0 {
            Seq::<int>::empty().push(i - g.width)
        } else {
            Seq::<int>::empty()
        });
        let ghost up = indices(neighborhood@);
        if i % self.width != self.width - 1 {
            neighborhood.push(i + 1);
        }
        assert(indices(neighborhood@) == if g.col(i as int) != g.width - 1 {
            up.push(i + 1)
        } else {
            up
        });
        let ghost right = indices(neighborhood@);
        if i / self.width != self.height - 1 {
            neighborhood.push(i + self.width);
        }
        assert(indices(neighborhood@) == if g.row(i as int) != g.height - 1 {
            right.push(i + g.width)
        } else {
            right
        });
        let ghost down = indices(neighborhood@);
        if i % self.width != 0 {
            neighborhood.push(i - 1);
        }
        assert(indices(neighborhood@) == if g.col(i as int) != 0 {
            down.push(i - 1)
        } else {
            down
        });
        neighborhood
    }
}

/// The steps up, right, down and left from a cell stay on the board where
/// the cell is not on the edge in that direction.
proof fn lemma_neighbors_in_range(g: Grid, i: int)
    requires
        g.wf(),
        g.has_cell(i),
    ensures
        g.row(i) != 0 ==> g.has_cell(i - g.width),
        g.col(i) != g.width - 1 ==> g.has_cell(i + 1),
        g.row(i) != g.height - 1 ==> g.has_cell(i + g.width),
        g.col(i) != 0 ==> g.has_cell(i - 1),
{
    lemma_row_col(g, i);
    lemma_neighbors_adjacent(g, i, i - g.width);
    lemma_neighbors_adjacent(g, i, i + 1);
    lemma_neighbors_adjacent(g, i, i + g.width);
    lemma_neighbors_adjacent(g, i, i - 1);
    let none = Seq::<int>::empty();
    lemma_push_contains(none, i - g.width, i - g.width);
    let up = if g.row(i) != 0 {
        none.push(i - g.width)
    } else {
        none
    };
    lemma_push_contains(up, i + 1, i + 1);
    let right = if g.col(i) != g.width - 1 {
        up.push(i + 1)
    } else {
        up
    };
    lemma_push_contains(right, i + g.width, i + g.width);
    lemma_push_contains(right, i + g.width, i + 1);
    lemma_push_contains(right, i + g.width, i - g.width);
    let down = if g.row(i) != g.height - 1 {
        right.push(i + g.width)
    } else {
        right
    };
    lemma_push_contains(down, i - 1, i - 1);
    lemma_push_contains(down, i - 1, i + g.width);
    lemma_push_contains(down, i - 1, i + 1);
    lemma_push_contains(down, i - 1, i - g.width);
    lemma_push_contains(up, i + 1, i - g.width);
}

} // verus!
