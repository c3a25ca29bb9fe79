//! Whom a cell counts for.
//!
//! A living stone counts for its own colour. Every other cell, empty or
//! holding a dead stone, is open; open cells that share edges form a region,
//! and a region counts for a player exactly when living stones of that
//! player, and of that player only, lie next to it.

use crate::board::Grid;
use crate::stone::Color;
use crate::stone::StoneView;
use vstd::prelude::*;

verus! {

impl Grid {
    /// The cell `i` is on the board and holds no living stone: it is empty,
    /// or its stone is dead.
    pub open spec fn open_cell(self, i: int) -> bool {
        self.has_cell(i) && !self.cells[i].is_live()
    }

    /// The cell `i` is on the board and holds a living stone of the colour
    /// `c`.
    pub open spec fn live_stone(self, i: int, c: Color) -> bool {
        self.has_cell(i) && self.cells[i].is_live() && self.cells[i].color() == Some(c)
    }

    /// The cells `p[k]` and `p[k + 1]` share an edge.
    pub open spec fn linked(self, p: Seq<int>, k: int) -> bool {
        self.adjacent(p[k], p[k + 1])
    }

    /// `p` is a walk over open cells, each sharing an edge with the next.
    pub open spec fn is_path(self, p: Seq<int>) -> bool {
        &&& p.len() > 0
        &&& forall|k: int| 0 <= k < p.len() ==> self.open_cell(#[trigger] p[k])
        &&& forall|k: int| 0 <= k < p.len() - 1 ==> #[trigger] self.linked(p, k)
    }

    /// `p` is a walk over open cells from `a` to `b`.
    pub open spec fn joins(self, p: Seq<int>, a: int, b: int) -> bool {
        self.is_path(p) && p.first() == a && p.last() == b
    }

    /// The open cells `a` and `b` lie in the same region: a walk over open
    /// cells leads from one to the other.
    pub open spec fn connected(self, a: int, b: int) -> bool {
        exists|p: Seq<int>| self.joins(p, a, b)
    }

    /// The open cell `r` has the living stone `n` of colour `c` next to it.
    pub open spec fn borders(self, r: int, n: int, c: Color) -> bool {
        self.open_cell(r) && self.adjacent(r, n) && self.live_stone(n, c)
    }

    /// The region of the open cell `a` has a living stone of colour `c`
    /// next to one of its cells.
    pub open spec fn touches(self, a: int, c: Color) -> bool {
        exists|r: int, n: int| self.connected(a, r) && #[trigger] self.borders(r, n, c)
    }

    /// The player that the cell `i` counts for. A living stone counts for
    /// its own colour. An open cell counts for the one colour that its
    /// region touches; it counts for nobody if the region touches both
    /// colours or none.
    pub open spec fn owner(self, i: int) -> Option<Color> {
        if self.cells[i].is_live() {
            self.cells[i].color()
        } else if self.touches(i, Color::Black) && !self.touches(i, Color::White) {
            Some(Color::Black)
        } else if self.touches(i, Color::White) && !self.touches(i, Color::Black) {
            Some(Color::White)
        } else {
            None
        }
    }

    /// The cell `i` once the board is scored: its score is its owner, its
    /// processed flag is clear, and everything else is as it was.
    pub open spec fn scored_cell(self, i: int) -> StoneView {
        StoneView { processed: false, ..self.cells[i].with_score(self.owner(i)) }
    }

    /// The board once it is scored.
    pub open spec fn scored(self) -> Grid {
        Grid {
            cells: Seq::new(self.cells.len(), |i: int| self.scored_cell(i)),
            width: self.width,
            height: self.height,
        }
    }

    /// The two boards have the same dimensions and the same stones on them,
    /// dead or alive. Scores and processed flags may differ.
    pub open spec fn same_stones(self, other: Grid) -> bool {
        &&& self.width == other.width
        &&& self.height == other.height
        &&& self.cells.len() == other.cells.len()
        &&& forall|i: int|
            0 <= i < self.cells.len() ==> {
                &&& (#[trigger] self.cells[i]).present == other.cells[i].present
                &&& self.cells[i].white == other.cells[i].white
                &&& self.cells[i].dead == other.cells[i].dead
                &&& self.cells[i].spare == other.cells[i].spare
            }
    }
}

/// An open cell lies in its own region.
pub proof fn lemma_connected_reflexive(g: Grid, a: int)
    requires
        g.open_cell(a),
    ensures
        g.connected(a, a),
{
    let p = seq![a];
    assert(g.joins(p, a, a));
}

/// A region reaches one step further over an edge to an open cell.
pub proof fn lemma_connected_step(g: Grid, a: int, b: int, c: int)
    requires
        g.connected(a, b),
        g.adjacent(b, c),
        g.open_cell(c),
    ensures
        g.connected(a, c),
{
    let p = choose|p: Seq<int>| g.joins(p, a, b);
    let q = p.push(c);
    assert forall|k: int| 0 <= k < q.len() implies g.open_cell(#[trigger] q[k]) by {
        if k < p.len() {
            assert(q[k] == p[k]);
        }
    }
    assert forall|k: int| 0 <= k < q.len() - 1 implies #[trigger] g.linked(q, k) by {
        if k < p.len() - 1 {
            assert(g.linked(p, k));
        }
    }
    assert(g.joins(q, a, c));
}

/// The cells that a walk joins are open cells of the board.
pub proof fn lemma_connected_open(g: Grid, a: int, b: int)
    requires
        g.connected(a, b),
    ensures
        g.open_cell(a),
        g.open_cell(b),
{
    let p = choose|p: Seq<int>| g.joins(p, a, b);
    assert(g.open_cell(p[0]));
    assert(g.open_cell(p[p.len() - 1]));
}

/// Lying in the same region goes both ways.
pub proof fn lemma_connected_symmetric(g: Grid, a: int, b: int)
    requires
        g.connected(a, b),
    ensures
        g.connected(b, a),
{
    let p = choose|p: Seq<int>| g.joins(p, a, b);
    let n = p.len() as int;
    let q = Seq::new(p.len(), |k: int| p[n - 1 - k]);
    assert forall|k: int| 0 <= k < q.len() implies g.open_cell(#[trigger] q[k]) by {
        assert(g.open_cell(p[n - 1 - k]));
    }
    assert forall|k: int| 0 <= k < q.len() - 1 implies #[trigger] g.linked(q, k) by {
        assert(g.linked(p, n - 2 - k));
    }
    assert(g.joins(q, b, a));
}

/// Two regions that share a cell are one region.
pub proof fn lemma_connected_transitive(g: Grid, a: int, b: int, c: int)
    requires
        g.connected(a, b),
        g.connected(b, c),
    ensures
        g.connected(a, c),
{
    let p = choose|p: Seq<int>| g.joins(p, a, b);
    let r = choose|r: Seq<int>| g.joins(r, b, c);
    let n = p.len() as int;
    let q = p + r.subrange(1, r.len() as int);
    assert forall|k: int| 0 <= k < q.len() implies g.open_cell(#[trigger] q[k]) by {
        if k < n {
            assert(q[k] == p[k]);
        } else {
            assert(q[k] == r[k - n + 1]);
        }
    }
    assert forall|k: int| 0 <= k < q.len() - 1 implies #[trigger] g.linked(q, k) by {
        if k < n - 1 {
            assert(g.linked(p, k));
        } else {
            assert(q[k] == r[k - n + 1]);
            assert(q[k + 1] == r[k - n + 2]);
            assert(g.linked(r, k - n + 1));
        }
    }
    assert(q.last() == c) by {
        if r.len() > 1 {
            assert(q[q.len() - 1] == r[r.len() - 1]);
        }
    }
    assert(g.joins(q, a, c));
}

/// The cells of one region touch the same colours.
pub proof fn lemma_region_touches(g: Grid, a: int, b: int, c: Color)
    requires
        g.connected(a, b),
    ensures
        g.touches(a, c) == g.touches(b, c),
{
    lemma_connected_symmetric(g, a, b);
    if g.touches(a, c) {
        let (r, n) = choose|r: int, n: int| g.connected(a, r) && #[trigger] g.borders(r, n, c);
        lemma_connected_transitive(g, b, a, r);
        assert(g.connected(b, r) && g.borders(r, n, c));
    }
    if g.touches(b, c) {
        let (r, n) = choose|r: int, n: int| g.connected(b, r) && #[trigger] g.borders(r, n, c);
        lemma_connected_transitive(g, a, b, r);
        assert(g.connected(a, r) && g.borders(r, n, c));
    }
}

/// The cells of one region count for the same player.
pub proof fn lemma_region_owner(g: Grid, a: int, b: int)
    requires
        g.connected(a, b),
    ensures
        g.owner(a) == g.owner(b),
{
    lemma_connected_open(g, a, b);
    lemma_region_touches(g, a, b, Color::Black);
    lemma_region_touches(g, a, b, Color::White);
}

/// A set of cells that holds the first cell of a walk, and with each of its
/// cells the open cells next to it, holds the last cell of the walk.
pub proof fn lemma_walk_stays_inside(g: Grid, members: Set<int>, p: Seq<int>)
    requires
        g.is_path(p),
        members.contains(p.first()),
        forall|a: int, b: int|
            members.contains(a) && #[trigger] g.adjacent(a, b) && g.open_cell(b)
                ==> members.contains(b),
    ensures
        members.contains(p.last()),
    decreases p.len(),
{
    if p.len() > 1 {
        let q = p.drop_last();
        assert forall|k: int| 0 <= k < q.len() implies g.open_cell(#[trigger] q[k]) by {
            assert(q[k] == p[k]);
        }
        assert forall|k: int| 0 <= k < q.len() - 1 implies #[trigger] g.linked(q, k) by {
            assert(g.linked(p, k));
        }
        lemma_walk_stays_inside(g, members, q);
        let n = p.len() as int;
        assert(q.last() == p[n - 2]);
        assert(g.linked(p, n - 2));
        assert(g.open_cell(p[n - 1]));
    }
}

/// Which cells lie in one region depends on the stones alone, not on
/// scores or processed flags.
pub proof fn lemma_same_stones_connected(g: Grid, h: Grid, a: int, b: int)
    requires
        g.same_stones(h),
        g.connected(a, b),
    ensures
        h.connected(a, b),
{
    let p = choose|p: Seq<int>| g.joins(p, a, b);
    assert forall|k: int| 0 <= k < p.len() implies h.open_cell(#[trigger] p[k]) by {
        assert(g.open_cell(p[k]));
    }
    assert forall|k: int| 0 <= k < p.len() - 1 implies #[trigger] h.linked(p, k) by {
        assert(g.linked(p, k));
    }
    assert(h.joins(p, a, b));
}

/// Which colours a region touches depends on the stones alone.
pub proof fn lemma_same_stones_touches(g: Grid, h: Grid, a: int, c: Color)
    requires
        g.same_stones(h),
        g.touches(a, c),
    ensures
        h.touches(a, c),
{
    let (r, n) = choose|r: int, n: int| g.connected(a, r) && #[trigger] g.borders(r, n, c);
    lemma_same_stones_connected(g, h, a, r);
    assert(h.connected(a, r) && h.borders(r, n, c));
}

/// Whom a cell counts for depends on the stones alone.
pub proof fn lemma_same_stones_owner(g: Grid, h: Grid, i: int)
    requires
        g.same_stones(h),
        g.has_cell(i),
    ensures
        g.owner(i) == h.owner(i),
{
    assert(h.same_stones(g));
    if g.touches(i, Color::Black) {
        lemma_same_stones_touches(g, h, i, Color::Black);
    }
    if g.touches(i, Color::White) {
        lemma_same_stones_touches(g, h, i, Color::White);
    }
    if h.touches(i, Color::Black) {
        lemma_same_stones_touches(h, g, i, Color::Black);
    }
    if h.touches(i, Color::White) {
        lemma_same_stones_touches(h, g, i, Color::White);
    }
}

/// Scoring leaves every stone where it is, dead or alive, and leaves no
/// processed flag set.
pub proof fn lemma_scored_keeps_stones(g: Grid)
    ensures
        g.same_stones(g.scored()),
        g.scored().wf() == g.wf(),
        forall|i: int|
            g.has_cell(i) ==> {
                &&& !(#[trigger] g.scored().cells[i]).processed
                &&& g.scored().cells[i].score() == g.owner(i)
                &&& g.scored().cells[i].color() == g.cells[i].color()
                &&& g.scored().cells[i].is_dead() == g.cells[i].is_dead()
            },
{
}

/// A living stone counts for its own colour.
pub proof fn lemma_living_stone_scores(g: Grid, i: int)
    requires
        g.has_cell(i),
        g.cells[i].is_live(),
    ensures
        g.scored().cells[i].score() == g.cells[i].color(),
        g.scored().cells[i].score().is_some(),
{
}

/// A region that touches living stones of one colour only counts for that
/// colour, every cell of it.
pub proof fn lemma_single_color_territory(g: Grid, a: int, b: int, c: Color)
    requires
        g.touches(a, c),
        !g.touches(a, c.opponent()),
        g.connected(a, b),
    ensures
        g.scored().cells[b].score() == Some(c),
{
    lemma_connected_open(g, a, b);
    lemma_region_owner(g, a, b);
}

/// A region that touches living stones of both colours counts for nobody,
/// every cell of it.
pub proof fn lemma_contested_territory(g: Grid, a: int, b: int)
    requires
        g.touches(a, Color::Black),
        g.touches(a, Color::White),
        g.connected(a, b),
    ensures
        g.scored().cells[b].score().is_none(),
{
    lemma_connected_open(g, a, b);
    lemma_region_owner(g, a, b);
}

/// A dead stone is part of the region around it. Where that region touches
/// living stones of one colour only, the cell of the dead stone and every
/// other cell of the region count for that colour, whatever the colour of
/// the dead stone.
pub proof fn lemma_dead_stone_is_territory(g: Grid, d: int, b: int, c: Color)
    requires
        g.has_cell(d),
        g.cells[d].is_dead(),
        g.touches(d, c),
        !g.touches(d, c.opponent()),
        g.connected(d, b),
    ensures
        g.connected(d, d),
        g.scored().cells[d].score() == Some(c),
        g.scored().cells[b].score() == Some(c),
{
    lemma_connected_reflexive(g, d);
    lemma_single_color_territory(g, d, d, c);
    lemma_single_color_territory(g, d, b, c);
}

/// On a board without a living stone no cell counts for anybody.
pub proof fn lemma_no_living_stone(g: Grid, i: int)
    requires
        forall|j: int| g.has_cell(j) ==> !(#[trigger] g.cells[j]).is_live(),
        g.has_cell(i),
    ensures
        g.scored().cells[i].score().is_none(),
{
    assert forall|c: Color| !g.touches(i, c) by {
        if g.touches(i, c) {
            let (r, n) = choose|r: int, n: int| g.connected(i, r) && #[trigger] g.borders(r, n, c);
            assert(g.cells[n].is_live());
        }
    }
}

/// A region that no living stone lies next to counts for nobody.
pub proof fn lemma_unbounded_region(g: Grid, a: int, b: int)
    requires
        !g.touches(a, Color::Black),
        !g.touches(a, Color::White),
        g.connected(a, b),
    ensures
        g.scored().cells[b].score().is_none(),
{
    lemma_connected_open(g, a, b);
    lemma_region_owner(g, a, b);
}

/// Scoring a scored board changes nothing.
pub proof fn lemma_scored_idempotent(g: Grid)
    ensures
        g.scored().scored() == g.scored(),
{
    let h = g.scored();
    lemma_scored_keeps_stones(g);
    assert forall|i: int| 0 <= i < h.cells.len() implies h.scored().cells[i] == h.cells[i] by {
        lemma_same_stones_owner(g, h, i);
    }
    assert(h.scored().cells =~= h.cells);
}

} // verus!
