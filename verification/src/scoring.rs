//! The scoring pass, the dead-stone guess and the summation.

use crate::board::indices;
use crate::board::lemma_neighbors_adjacent;
use crate::board::Board;
use crate::board::Grid;
use crate::stone::Color;
use crate::stone::StoneView;
use crate::territory::lemma_connected_open;
use crate::territory::lemma_connected_reflexive;
use crate::territory::lemma_connected_step;
use crate::territory::lemma_region_owner;
use crate::territory::lemma_same_stones_connected;
use crate::territory::lemma_same_stones_owner;
use crate::territory::lemma_walk_stays_inside;
use std::collections::HashSet;
use vstd::prelude::*;
use vstd::set_lib::lemma_int_range;
use vstd::set_lib::lemma_len_subset;
use vstd::set_lib::set_int_range;

verus! {

broadcast use vstd::std_specs::hash::group_hash_axioms;

/// The cell `b` is one of the cells in `queue`.
spec fn listed(queue: Seq<usize>, b: int) -> bool {
    exists|k: int| 0 <= k < queue.len() && #[trigger] queue[k] == b
}

/// What a fill has found so far: the colour noted first, and whether a
/// second colour was met after it.
spec fn noted(boundary: Option<Color>, both: bool, c: Color) -> bool {
    both || boundary == Some(c)
}

/// The fill has dealt with the cell `b`: if it is open it is in the queue,
/// and if it holds a living stone the colour of that stone is noted.
spec fn handled(g: Grid, b: int, queue: Seq<usize>, boundary: Option<Color>, both: bool) -> bool {
    &&& g.open_cell(b) ==> listed(queue, b)
    &&& forall|c: Color| g.live_stone(b, c) ==> noted(boundary, both, c)
}

/// Every colour that the fill has noted is one that the region of `start`
/// touches.
spec fn sound(g: Grid, start: int, boundary: Option<Color>, both: bool) -> bool {
    &&& forall|c: Color| boundary == Some(c) ==> g.touches(start, c)
    &&& both ==> g.touches(start, Color::Black) && g.touches(start, Color::White)
}

/// The owner that a finished fill stands for: the one colour it noted, and
/// nobody if it noted two colours or none.
spec fn verdict(boundary: Option<Color>, both: bool) -> Option<Color> {
    if both {
        None
    } else {
        boundary
    }
}

/// The cell `j` while the regions are being settled: a processed cell
/// holds its final score, and a cell not yet processed is open and holds no
/// score. Nothing else of the cell has changed.
spec fn in_progress(before: Grid, now: Grid, j: int) -> bool {
    if now.cells[j].processed {
        now.cells[j] == (StoneView {
            processed: true,
            ..before.cells[j].with_score(before.owner(j))
        })
    } else {
        &&& now.cells[j] == (StoneView { processed: false, ..before.cells[j].with_score(None) })
        &&& !before.cells[j].is_live()
    }
}

/// The board while its regions are being settled.
spec fn settling(before: Grid, now: Grid) -> bool {
    &&& now.width == before.width
    &&& now.height == before.height
    &&& now.cells.len() == before.cells.len()
    &&& forall|j: int| 0 <= j < now.cells.len() ==> #[trigger] in_progress(before, now, j)
}

/// Distinct cells of a board are no more than the board has cells.
proof fn lemma_distinct_cells_bounded(queue: Seq<usize>, n: nat)
    requires
        queue.no_duplicates(),
        forall|k: int| 0 <= k < queue.len() ==> #[trigger] queue[k] < n,
    ensures
        queue.len() <= n,
{
    let cells = indices(queue);
    assert(cells.no_duplicates());
    cells.unique_seq_to_set();
    lemma_int_range(0, n as int);
    assert(cells.to_set().subset_of(set_int_range(0, n as int))) by {
        assert forall|j: int| cells.to_set().contains(j) implies set_int_range(
            0,
            n as int,
        ).contains(j) by {
            let k = choose|k: int| 0 <= k < cells.len() && cells[k] == j;
            assert(queue[k] < n);
        }
    }
    lemma_len_subset(cells.to_set(), set_int_range(0, n as int));
}

/// A cell that the fill has dealt with stays dealt with when the queue
/// grows or another colour is noted.
proof fn lemma_handled_grows(
    g: Grid,
    b: int,
    queue: Seq<usize>,
    boundary: Option<Color>,
    both: bool,
    longer: Seq<usize>,
    boundary2: Option<Color>,
    both2: bool,
)
    requires
        handled(g, b, queue, boundary, both),
        queue.len() <= longer.len(),
        forall|k: int| 0 <= k < queue.len() ==> #[trigger] longer[k] == queue[k],
        forall|c: Color| noted(boundary, both, c) ==> noted(boundary2, both2, c),
    ensures
        handled(g, b, longer, boundary2, both2),
{
    if g.open_cell(b) {
        let k = choose|k: int| 0 <= k < queue.len() && #[trigger] queue[k] == b;
        assert(longer[k] == b);
    }
}

/// When a fill has run out of cells to expand, what it has noted is what
/// the region touches, and its queue holds the whole region.
proof fn lemma_fill_complete(
    g: Grid,
    start: int,
    queue: Seq<usize>,
    boundary: Option<Color>,
    both: bool,
)
    requires
        g.open_cell(start),
        queue.len() > 0,
        queue[0] == start,
        forall|k: int| 0 <= k < queue.len() ==> g.connected(start, #[trigger] queue[k] as int),
        forall|k: int, b: int|
            0 <= k < queue.len() && #[trigger] g.adjacent(queue[k] as int, b) ==> handled(
                g,
                b,
                queue,
                boundary,
                both,
            ),
        sound(g, start, boundary, both),
    ensures
        verdict(boundary, both) == g.owner(start),
        forall|j: int| g.connected(start, j) ==> listed(queue, j),
{
    let members = Set::new(|j: int| listed(queue, j));
    assert(members.contains(start)) by {
        assert(queue[0] == start);
    }
    assert forall|a: int, b: int|
        members.contains(a) && #[trigger] g.adjacent(a, b) && g.open_cell(b) implies members.contains(
        b,
    ) by {
        let k = choose|k: int| 0 <= k < queue.len() && #[trigger] queue[k] == a;
        assert(g.adjacent(queue[k] as int, b));
        assert(handled(g, b, queue, boundary, both));
    }
    assert forall|j: int| g.connected(start, j) implies listed(queue, j) by {
        let p = choose|p: Seq<int>| g.joins(p, start, j);
        lemma_walk_stays_inside(g, members, p);
    }
    assert forall|c: Color| g.touches(start, c) implies noted(boundary, both, c) by {
        let (r, n) = choose|r: int, n: int| g.connected(start, r) && #[trigger] g.borders(r, n, c);
        assert(listed(queue, r));
        let k = choose|k: int| 0 <= k < queue.len() && #[trigger] queue[k] == r;
        assert(g.adjacent(queue[k] as int, n));
        assert(handled(g, n, queue, boundary, both));
        assert(g.live_stone(n, c));
    }
    if both {
    } else {
        match boundary {
            Some(c) => {
                assert(g.touches(start, c));
                assert(!noted(boundary, both, c.opponent()));
            },
            None => {
                assert(!noted(boundary, both, Color::Black));
                assert(!noted(boundary, both, Color::White));
            },
        }
    }
}

/// Explores the region of the open cell `start`. Afterwards `queue` holds
/// the cells of the region, `start` first, and the result tells which
/// colours lie next to it: the first colour met, and whether the other one
/// was met too.
fn fill_region(
    board: &Board,
    start: usize,
    queue: &mut Vec<usize>,
    seen: &mut HashSet<usize>,
) -> (found: (Option<Color>, bool))
    requires
        board@.open_cell(start as int),
    ensures
        final(queue)@.len() > 0,
        final(queue)@[0] == start,
        forall|k: int|
            0 <= k < final(queue)@.len() ==> board@.connected(
                start as int,
                #[trigger] final(queue)@[k] as int,
            ),
        forall|j: int| board@.connected(start as int, j) ==> listed(final(queue)@, j),
        verdict(found.0, found.1) == board@.owner(start as int),
{
    let ghost g = board@;
    let n = board.len();
    queue.clear();
    seen.clear();
    queue.push(start);
    seen.insert(start);
    let mut boundary_color: Option<Color> = None;
    let mut both = false;
    let mut head: usize = 0;
    proof {
        lemma_connected_reflexive(g, start as int);
        assert(queue@ =~= seq![start]);
        assert forall|x: usize| seen@.contains(x) <==> queue@.contains(x) by {
            if x == start {
                assert(queue@[0] == x);
            }
        }
        lemma_distinct_cells_bounded(queue@, n as nat);
    }
    while head < queue.len()
        invariant
            g == board@,
            g.wf(),
            n == g.cells.len(),
            g.open_cell(start as int),
            head <= queue@.len() <= n,
            queue@.len() > 0,
            queue@[0] == start,
            queue@.no_duplicates(),
            forall|k: int| 0 <= k < queue@.len() ==> #[trigger] queue@[k] < n,
            forall|k: int|
                0 <= k < queue@.len() ==> g.connected(start as int, #[trigger] queue@[k] as int),
            forall|x: usize| seen@.contains(x) <==> queue@.contains(x),
            forall|k: int, b: int|
                0 <= k < head && #[trigger] g.adjacent(queue@[k] as int, b) ==> handled(
                    g,
                    b,
                    queue@,
                    boundary_color,
                    both,
                ),
            sound(g, start as int, boundary_color, both),
        decreases n - head,
    {
        let cell = queue[head];
        let neighborhood = board.neighbors(cell);
        let mut t: usize = 0;
        while t < neighborhood.len()
            invariant
                g == board@,
                g.wf(),
                n == g.cells.len(),
                g.open_cell(start as int),
                head < queue@.len() <= n,
                cell == queue@[head as int],
                queue@[0] == start,
                queue@.no_duplicates(),
                forall|k: int| 0 <= k < queue@.len() ==> #[trigger] queue@[k] < n,
                forall|k: int|
                    0 <= k < queue@.len() ==> g.connected(
                        start as int,
                        #[trigger] queue@[k] as int,
                    ),
                forall|x: usize| seen@.contains(x) <==> queue@.contains(x),
                forall|k: int, b: int|
                    0 <= k < head && #[trigger] g.adjacent(queue@[k] as int, b) ==> handled(
                        g,
                        b,
                        queue@,
                        boundary_color,
                        both,
                    ),
                sound(g, start as int, boundary_color, both),
                indices(neighborhood@) == g.neighbors(cell as int),
                t <= neighborhood@.len(),
                forall|m: int|
                    0 <= m < t ==> handled(
                        g,
                        #[trigger] neighborhood@[m] as int,
                        queue@,
                        boundary_color,
                        both,
                    ),
            decreases neighborhood@.len() - t,
        {
            let neighbor = neighborhood[t];
            let ghost queue0 = queue@;
            let ghost boundary0 = boundary_color;
            let ghost both0 = both;
            proof {
                assert(indices(neighborhood@)[t as int] == neighbor as int);
                assert(g.neighbors(cell as int).contains(neighbor as int));
                lemma_neighbors_adjacent(g, cell as int, neighbor as int);
            }
            if !seen.contains(&neighbor) {
                let stone = board.stone(neighbor);
                let color = stone.color();
                if stone.is_dead() || color.is_none() {
                    seen.insert(neighbor);
                    queue.push(neighbor);
                    proof {
                        lemma_connected_step(g, start as int, cell as int, neighbor as int);
                        assert(queue@[queue0.len() as int] == neighbor);
                        assert forall|x: usize| seen@.contains(x) <==> queue@.contains(x) by {
                            if queue0.contains(x) {
                                let k = choose|k: int| 0 <= k < queue0.len() && queue0[k] == x;
                                assert(queue@[k] == x);
                            }
                        }
                        lemma_distinct_cells_bounded(queue@, n as nat);
                    }
                } else if !both {
                    match (boundary_color, color) {
                        (Some(first), Some(second)) => {
                            if first != second {
                                both = true;
                            }
                        },
                        (None, _) => {
                            boundary_color = color;
                        },
                        _ => {},
                    }
                    proof {
                        assert(g.borders(cell as int, neighbor as int, color.unwrap()));
                        assert(g.touches(start as int, color.unwrap()));
                    }
                }
            }
            proof {
                assert forall|c: Color| noted(boundary0, both0, c) implies noted(
                    boundary_color,
                    both,
                    c,
                ) by {}
                assert forall|k: int, b: int|
                    0 <= k < head && #[trigger] g.adjacent(queue@[k] as int, b) implies handled(
                    g,
                    b,
                    queue@,
                    boundary_color,
                    both,
                ) by {
                    assert(queue0[k] == queue@[k]);
                    assert(g.adjacent(queue0[k] as int, b));
                    lemma_handled_grows(
                        g,
                        b,
                        queue0,
                        boundary0,
                        both0,
                        queue@,
                        boundary_color,
                        both,
                    );
                }
                assert forall|m: int| 0 <= m < t implies handled(
                    g,
                    #[trigger] neighborhood@[m] as int,
                    queue@,
                    boundary_color,
                    both,
                ) by {
                    lemma_handled_grows(
                        g,
                        neighborhood@[m] as int,
                        queue0,
                        boundary0,
                        both0,
                        queue@,
                        boundary_color,
                        both,
                    );
                }
                assert(handled(g, neighbor as int, queue@, boundary_color, both)) by {
                    if g.open_cell(neighbor as int) {
                        if queue0.contains(neighbor) {
                            let k = choose|k: int| 0 <= k < queue0.len() && queue0[k] == neighbor;
                            assert(queue@[k] == neighbor);
                        } else {
                            assert(queue@[queue0.len() as int] == neighbor);
                        }
                    }
                }
            }
            t += 1;
        }
        proof {
            assert forall|b: int| #[trigger] g.adjacent(cell as int, b) implies handled(
                g,
                b,
                queue@,
                boundary_color,
                both,
            ) by {
                lemma_neighbors_adjacent(g, cell as int, b);
                let m = choose|m: int|
                    0 <= m < indices(neighborhood@).len() && indices(neighborhood@)[m] == b;
                assert(neighborhood@[m] as int == b);
            }
        }
        head += 1;
    }
    proof {
        lemma_fill_complete(g, start as int, queue@, boundary_color, both);
    }
    (boundary_color, both)
}

/// Assigns scores to each stone, taking into account which stones are dead.
/// A cell is worth a point for a player if that player's living stone is on
/// it, or if it lies in a region of empty cells and dead stones next to
/// which that player has living stones and the opponent has none.
///
/// Every other flag of every cell is left as it was, and no processed flag
/// is left set.
pub fn score_stones(board: &mut Board)
    ensures
        final(board)@ == old(board)@.scored(),
{
    let ghost before = board@;
    let n = board.len();

    // Reset all the scores.
    let mut i: usize = 0;
    while i < n
        invariant
            i <= n,
            n == before.cells.len(),
            board@.width == before.width,
            board@.height == before.height,
            board@.cells.len() == n,
            forall|j: int|
                0 <= j < i ==> #[trigger] board@.cells[j] == (StoneView {
                    processed: false,
                    ..before.cells[j].with_score(None)
                }),
            forall|j: int| i <= j < n ==> #[trigger] board@.cells[j] == before.cells[j],
        decreases n - i,
    {
        let mut stone = board.stone(i);
        stone.set_score(None);
        stone.set_processed_bit(false);
        board.set_stone(i, stone);
        i += 1;
    }

    // A living stone is worth a point for its own colour.
    i = 0;
    while i < n
        invariant
            i <= n,
            n == before.cells.len(),
            board@.width == before.width,
            board@.height == before.height,
            board@.cells.len() == n,
            forall|j: int| 0 <= j < i ==> #[trigger] in_progress(before, board@, j),
            forall|j: int|
                i <= j < n ==> #[trigger] board@.cells[j] == (StoneView {
                    processed: false,
                    ..before.cells[j].with_score(None)
                }),
        decreases n - i,
    {
        let ghost prior = board@;
        let mut stone = board.stone(i);
        if stone.is_present() && !stone.is_dead() {
            let color = stone.color();
            stone.set_score(color);
            stone.set_processed_bit(true);
            board.set_stone(i, stone);
        }
        proof {
            assert forall|j: int| 0 <= j < i + 1 implies #[trigger] in_progress(
                before,
                board@,
                j,
            ) by {
                if j < i {
                    assert(in_progress(before, prior, j));
                } else {
                    assert(prior.cells[j] == (StoneView {
                        processed: false,
                        ..before.cells[j].with_score(None)
                    }));
                }
            }
        }
        i += 1;
    }

    // Settle the regions of open cells, one fill for each.
    let mut queue: Vec<usize> = Vec::new();
    let mut seen: HashSet<usize> = HashSet::new();
    i = 0;
    while i < n
        invariant
            i <= n,
            n == before.cells.len(),
            settling(before, board@),
            forall|j: int| 0 <= j < i ==> (#[trigger] board@.cells[j]).processed,
        decreases n - i,
    {
        if !board.stone(i).processed_bit() {
            let ghost now = board@;
            proof {
                assert(in_progress(before, now, i as int));
                lemma_same_stones(before, now);
            }
            let (boundary_color, both) = fill_region(board, i, &mut queue, &mut seen);
            proof {
                lemma_same_stones_owner(now, before, i as int);
                assert forall|m: int| 0 <= m < queue@.len() implies {
                    &&& before.has_cell(#[trigger] queue@[m] as int)
                    &&& before.owner(queue@[m] as int) == verdict(boundary_color, both)
                } by {
                    lemma_same_stones_connected(now, before, i as int, queue@[m] as int);
                    lemma_connected_open(before, i as int, queue@[m] as int);
                    lemma_region_owner(before, i as int, queue@[m] as int);
                }
            }
            let mut k: usize = 0;
            while k < queue.len()
                invariant
                    i < n,
                    n == before.cells.len(),
                    k <= queue@.len(),
                    queue@.len() > 0,
                    queue@[0] == i,
                    settling(before, board@),
                    forall|j: int| 0 <= j < i ==> (#[trigger] board@.cells[j]).processed,
                    forall|m: int|
                        0 <= m < queue@.len() ==> {
                            &&& before.has_cell(#[trigger] queue@[m] as int)
                            &&& before.owner(queue@[m] as int) == verdict(boundary_color, both)
                        },
                    forall|m: int|
                        0 <= m < k ==> board@.cells[#[trigger] queue@[m] as int].processed,
                decreases queue@.len() - k,
            {
                let idx = queue[k];
                let ghost prior = board@;
                proof {
                    assert(before.has_cell(queue@[k as int] as int));
                    assert(in_progress(before, prior, idx as int));
                }
                let mut stone = board.stone(idx);
                if !both {
                    stone.set_score(boundary_color);
                }
                stone.set_processed_bit(true);
                board.set_stone(idx, stone);
                proof {
                    assert forall|j: int| 0 <= j < board@.cells.len() implies #[trigger] in_progress(
                        before,
                        board@,
                        j,
                    ) by {
                        assert(in_progress(before, prior, j));
                    }
                    assert forall|j: int| 0 <= j < i implies (#[trigger] board@.cells[j]).processed by {
                        assert(prior.cells[j].processed);
                    }
                    assert forall|m: int| 0 <= m < k + 1 implies board@.cells[#[trigger] queue@[m] as int].processed by {
                        if m < k {
                            assert(prior.cells[queue@[m] as int].processed);
                        }
                    }
                }
                k += 1;
            }
            proof {
                assert(board@.cells[queue@[0] as int].processed);
            }
        }
        i += 1;
    }

    // Leave no processed flag behind.
    proof {
        assert forall|j: int| 0 <= j < n implies #[trigger] board@.cells[j] == (StoneView {
            processed: true,
            ..before.cells[j].with_score(before.owner(j))
        }) by {
            assert(in_progress(before, board@, j));
        }
    }
    i = 0;
    while i < n
        invariant
            i <= n,
            n == before.cells.len(),
            board@.width == before.width,
            board@.height == before.height,
            board@.cells.len() == n,
            forall|j: int| 0 <= j < i ==> #[trigger] board@.cells[j] == before.scored_cell(j),
            forall|j: int|
                i <= j < n ==> #[trigger] board@.cells[j] == (StoneView {
                    processed: true,
                    ..before.cells[j].with_score(before.owner(j))
                }),
        decreases n - i,
    {
        let mut stone = board.stone(i);
        stone.set_processed_bit(false);
        board.set_stone(i, stone);
        i += 1;
    }
    proof {
        assert(board@.cells =~= before.scored().cells);
    }
}

/// While the regions are being settled the stones are where they were.
proof fn lemma_same_stones(before: Grid, now: Grid)
    requires
        settling(before, now),
    ensures
        now.same_stones(before),
        before.same_stones(now),
        now.wf() == before.wf(),
{
    assert forall|j: int| 0 <= j < now.cells.len() implies {
        &&& (#[trigger] now.cells[j]).present == before.cells[j].present
        &&& now.cells[j].white == before.cells[j].white
        &&& now.cells[j].dead == before.cells[j].dead
        &&& now.cells[j].spare == before.cells[j].spare
    } by {
        assert(in_progress(before, now, j));
    }
    assert forall|j: int| 0 <= j < before.cells.len() implies {
        &&& (#[trigger] before.cells[j]).present == now.cells[j].present
        &&& before.cells[j].white == now.cells[j].white
        &&& before.cells[j].dead == now.cells[j].dead
        &&& before.cells[j].spare == now.cells[j].spare
    } by {
        assert(in_progress(before, now, j));
    }
}

impl Grid {
    /// The board with every stone on it marked dead. Cells without a stone
    /// are as they were.
    pub open spec fn all_dead(self) -> Grid {
        Grid {
            cells: Seq::new(
                self.cells.len(),
                |i: int|
                    if self.cells[i].present {
                        StoneView { dead: true, ..self.cells[i] }
                    } else {
                        self.cells[i]
                    },
            ),
            width: self.width,
            height: self.height,
        }
    }
}

/// Flags the stones that it believes are dead: every stone on the board.
/// Which cells hold a stone, and of which colour, is left as it was.
pub fn guess_dead_stones(board: &mut Board)
    ensures
        final(board)@ == old(board)@.all_dead(),
{
    let ghost before = board@;
    let n = board.len();
    let mut i: usize = 0;
    while i < n
        invariant
            i <= n,
            n == before.cells.len(),
            board@.width == before.width,
            board@.height == before.height,
            board@.cells.len() == n,
            forall|j: int| 0 <= j < i ==> #[trigger] board@.cells[j] == before.all_dead().cells[j],
            forall|j: int| i <= j < n ==> #[trigger] board@.cells[j] == before.cells[j],
        decreases n - i,
    {
        let mut stone = board.stone(i);
        if stone.is_present() {
            stone.set_dead(true);
            board.set_stone(i, stone);
        }
        i += 1;
    }
    proof {
        assert(board@.cells =~= before.all_dead().cells);
    }
}

/// The cells that are worth a point for the player `c`.
pub open spec fn scores_for(c: Color) -> spec_fn(StoneView) -> bool {
    |v: StoneView| v.score() == Some(c)
}

/// The number of cells that are worth a point for the player `c`.
pub open spec fn points(cells: Seq<StoneView>, c: Color) -> nat {
    cells.filter(scores_for(c)).len()
}

/// Black wins with more points than White. White wins with more points
/// than Black, and also when the points are equal.
pub open spec fn winner(black: int, white: int) -> Color {
    if black > white {
        Color::Black
    } else {
        Color::White
    }
}

/// One more cell adds one point if it is worth a point for `c`, and the
/// points of the first cells are no more than the points of all.
proof fn lemma_points_step(cells: Seq<StoneView>, i: int, c: Color)
    requires
        0 <= i < cells.len(),
    ensures
        points(cells.take(i + 1), c) == points(cells.take(i), c) + (if cells[i].score() == Some(c) {
            1nat
        } else {
            0nat
        }),
        points(cells.take(i + 1), c) <= points(cells, c),
        points(cells.take(0), c) == 0,
        points(cells.take(cells.len() as int), c) == points(cells, c),
{
    reveal(Seq::filter);
    let pred = scores_for(c);
    assert(cells.take(i + 1).drop_last() =~= cells.take(i));
    assert(cells.take(i + 1).last() == cells[i]);
    Seq::filter_distributes_over_add(cells.take(i + 1), cells.skip(i + 1), pred);
    assert(cells.take(i + 1) + cells.skip(i + 1) =~= cells);
    assert(cells.take(cells.len() as int) =~= cells);
    assert(cells.take(0).len() == 0);
}

/// Computes the sum of all the scores on the board, accounting for komi,
/// the points that White is given in advance. Returns `None` if a sum does
/// not fit in 32 bits; otherwise the points of Black, the points of White
/// with komi, and the winner.
pub fn checked_score_sums(board: &Board, komi: u32) -> (sums: Option<(u32, u32, Color)>)
    ensures
        sums.is_some() <==> points(board@.cells, Color::Black) <= u32::MAX && komi + points(
            board@.cells,
            Color::White,
        ) <= u32::MAX,
        sums matches Some(s) ==> {
            &&& s.0 == points(board@.cells, Color::Black)
            &&& s.1 == komi + points(board@.cells, Color::White)
            &&& s.2 == winner(s.0 as int, s.1 as int)
        },
{
    let ghost cells = board@.cells;
    let n = board.len();
    let mut black: u32 = 0;
    let mut white: u32 = komi;
    let mut i: usize = 0;
    proof {
        if n > 0 {
            lemma_points_step(cells, 0, Color::Black);
            lemma_points_step(cells, 0, Color::White);
        } else {
            assert(cells.take(0) =~= cells);
            reveal(Seq::filter);
        }
    }
    while i < n
        invariant
            i <= n,
            cells == board@.cells,
            n == cells.len(),
            black == points(cells.take(i as int), Color::Black),
            white == komi + points(cells.take(i as int), Color::White),
            n == 0 ==> points(cells, Color::Black) == 0 && points(cells, Color::White) == 0,
        decreases n - i,
    {
        proof {
            lemma_points_step(cells, i as int, Color::Black);
            lemma_points_step(cells, i as int, Color::White);
        }
        match board.stone(i).score() {
            None => (),
            Some(Color::Black) => {
                if black == u32::MAX {
                    return None;
                }
                black += 1;
            },
            Some(Color::White) => {
                if white == u32::MAX {
                    return None;
                }
                white += 1;
            },
        }
        i += 1;
    }
    proof {
        if n > 0 {
            lemma_points_step(cells, n - 1, Color::Black);
            lemma_points_step(cells, n - 1, Color::White);
        }
    }
    let winner = if black > white {
        Color::Black
    } else {
        Color::White
    };
    Some((black, white, winner))
}

/// Computes the sum of all the scores on the board, accounting for komi.
/// Komi is the handicap and tie-breaker in Go: it is added to the points of
/// White, in whole points.
///
/// Values are returned as `(black, white, winner)`. When `black == white`,
/// White wins.
pub fn score_sums(board: &Board, komi: u32) -> (sums: (u32, u32, Color))
    requires
        points(board@.cells, Color::Black) <= u32::MAX,
        komi + points(board@.cells, Color::White) <= u32::MAX,
    ensures
        sums.0 == points(board@.cells, Color::Black),
        sums.1 == komi + points(board@.cells, Color::White),
        sums.2 == winner(sums.0 as int, sums.1 as int),
        sums.2 == Color::Black <==> sums.0 > sums.1,
{
    let ghost cells = board@.cells;
    let n = board.len();
    let mut black: u32 = 0;
    let mut white: u32 = komi;
    let mut i: usize = 0;
    proof {
        if n > 0 {
            lemma_points_step(cells, 0, Color::Black);
            lemma_points_step(cells, 0, Color::White);
        } else {
            assert(cells.take(0) =~= cells);
            reveal(Seq::filter);
        }
    }
    while i < n
        invariant
            i <= n,
            cells == board@.cells,
            n == cells.len(),
            points(cells, Color::Black) <= u32::MAX,
            komi + points(cells, Color::White) <= u32::MAX,
            black == points(cells.take(i as int), Color::Black),
            white == komi + points(cells.take(i as int), Color::White),
            n == 0 ==> points(cells, Color::Black) == 0 && points(cells, Color::White) == 0,
        decreases n - i,
    {
        proof {
            lemma_points_step(cells, i as int, Color::Black);
            lemma_points_step(cells, i as int, Color::White);
        }
        match board.stone(i).score() {
            None => (),
            Some(Color::Black) => black += 1,
            Some(Color::White) => white += 1,
        }
        i += 1;
    }
    proof {
        if n > 0 {
            lemma_points_step(cells, n - 1, Color::Black);
            lemma_points_step(cells, n - 1, Color::White);
        }
    }
    let winner = if black > white {
        Color::Black
    } else {
        Color::White
    };
    (black, white, winner)
}

} // verus!
