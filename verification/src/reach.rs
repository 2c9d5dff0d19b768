//! Which cells can be walked to from which, and why a search that runs out of
//! open cells has been everywhere the start can be left for.

use vstd::prelude::*;
use crate::grid::lemma_cell_coordinates;
use crate::grid::lemma_index_at;
use crate::grid::lemma_neighbors;
use crate::grid::lemma_offset;
use crate::grid::lemma_window_position;
use crate::grid::offset_x;
use crate::grid::offset_y;
use crate::grid::window_position;
use crate::grid::GridView;
use crate::node::Node;
use crate::open_list::holds;
use crate::open_list::lemma_first_position;
use crate::open_list::lemma_push;
use crate::open_list::lemma_sort_entries;
use crate::open_list::sort_by_f;
use crate::search::relaxed;
use crate::search::without_head;

verus! {

impl GridView {
    /// Whether the step from the cell `from` to the window position `pos`
    /// arrives at the cell `to`.
    pub open spec fn lands(self, from: int, to: int, pos: int) -> bool {
        let arrived = self.candidate(self.cell(from).x as int, self.cell(from).y as int, pos);
        arrived is Some && arrived.unwrap().index == to
    }

    /// Whether one step leads from the cell `from` to the cell `to`: `to`
    /// lies next to `from` and is no wall.
    pub open spec fn linked(self, from: int, to: int) -> bool {
        exists|pos: int| 0 <= pos < 8 && #[trigger] self.lands(from, to, pos)
    }

    /// Whether `walk` lists cells of the grid each of which is one step from
    /// the one before it.
    pub open spec fn is_walk(self, walk: Seq<int>) -> bool {
        &&& walk.len() >= 1
        &&& self.contains(walk[0])
        &&& forall|i: int| 1 <= i < walk.len() ==> self.linked(walk[i - 1], #[trigger] walk[i])
    }

    /// Whether the cell `goal` can be walked to from the cell `start`. Only
    /// the cells after the first have to be no walls.
    pub open spec fn reachable(self, start: int, goal: int) -> bool {
        exists|walk: Seq<int>| #[trigger]
            self.is_walk(walk) && walk[0] == start && walk.last() == goal
    }

    /// Whether the goal is another cell than the start, the start is no wall,
    /// and every cell around the goal is off the grid or a wall.
    pub open spec fn shut_in(self, start: int, goal: int) -> bool {
        &&& start != goal
        &&& self.passable[start]
        &&& self.neighbors(self.cell(goal).x as int, self.cell(goal).y as int).len() == 0
    }

    /// Whether every cell that is one step from the cell `from` is open or
    /// closed.
    pub open spec fn covered(self, open: Seq<Node>, closed: Seq<Node>, from: int) -> bool {
        forall|pos: int|
            0 <= pos < 8 && (#[trigger] self.candidate(
                self.cell(from).x as int,
                self.cell(from).y as int,
                pos,
            )) is Some ==> seen(
                open,
                closed,
                self.candidate(
                    self.cell(from).x as int,
                    self.cell(from).y as int,
                    pos,
                ).unwrap().index,
            )
    }

    /// Whether the first `upto` closed cells are covered.
    pub open spec fn explored(self, open: Seq<Node>, closed: Seq<Node>, upto: int) -> bool {
        forall|k: int|
            0 <= k < upto && k < closed.len() ==> self.covered(
                open,
                closed,
                (#[trigger] closed[k]).index as int,
            )
    }
}

/// Whether a cell index stands in the open or in the closed list.
pub open spec fn seen(open: Seq<Node>, closed: Seq<Node>, index: i32) -> bool {
    holds(closed, index) || holds(open, index)
}

/// Whether `after` holds every cell index that `before` holds.
pub open spec fn grows(before: Seq<Node>, after: Seq<Node>) -> bool {
    forall|index: i32| #[trigger] holds(before, index) ==> holds(after, index)
}

/// A cell that is open or closed stays so when the first entry of the
/// ordered open list is closed.
pub proof fn lemma_seen_select(open: Seq<Node>, closed: Seq<Node>, index: i32)
    requires
        open.len() > 0,
        seen(open, closed, index),
    ensures
        seen(without_head(sort_by_f(open)), closed.push(sort_by_f(open)[0]), index),
{
    let sorted = sort_by_f(open);
    let current = sorted[0];
    let rest = without_head(sorted);
    lemma_sort_entries(open);
    lemma_push(closed, current, index);
    if !holds(closed, index) {
        let k = choose|k: int| 0 <= k < open.len() && #[trigger] open[k].index == index;
        assert(sorted.contains(open[k]));
        let j = choose|j: int| 0 <= j < sorted.len() && sorted[j] == open[k];
        if j == 0 {
        } else if j == sorted.len() - 1 {
            assert(rest[0].index == index);
        } else {
            assert(rest[j].index == index);
        }
    }
}

/// The closed cells that were covered stay covered when the first entry of
/// the ordered open list is closed.
pub proof fn lemma_explored_select(view: GridView, open: Seq<Node>, closed: Seq<Node>)
    requires
        open.len() > 0,
        view.explored(open, closed, closed.len() as int),
    ensures
        view.explored(
            without_head(sort_by_f(open)),
            closed.push(sort_by_f(open)[0]),
            closed.len() as int,
        ),
{
    let rest = without_head(sort_by_f(open));
    let done = closed.push(sort_by_f(open)[0]);
    assert forall|k: int| 0 <= k < closed.len() implies view.covered(
        rest,
        done,
        (#[trigger] done[k]).index as int,
    ) by {
        assert(done[k] == closed[k]);
        let from = closed[k].index as int;
        assert(view.covered(open, closed, from));
        assert forall|pos: int|
            0 <= pos < 8 && (#[trigger] view.candidate(
                view.cell(from).x as int,
                view.cell(from).y as int,
                pos,
            )) is Some implies seen(
            rest,
            done,
            view.candidate(view.cell(from).x as int, view.cell(from).y as int, pos).unwrap().index,
        ) by {
            lemma_seen_select(
                open,
                closed,
                view.candidate(
                    view.cell(from).x as int,
                    view.cell(from).y as int,
                    pos,
                ).unwrap().index,
            );
        }
    }
}

/// Recording a step keeps every cell index in the open list, and leaves the
/// neighbor stepped to open or closed.
pub proof fn lemma_relaxed_grows(
    open: Seq<Node>,
    closed: Seq<Node>,
    current: Node,
    probe: Node,
    goal: Node,
)
    ensures
        grows(open, relaxed(open, closed, current, probe, goal)),
        seen(relaxed(open, closed, current, probe, goal), closed, probe.index),
{
    let after = relaxed(open, closed, current, probe, goal);
    if holds(closed, probe.index) {
    } else if holds(open, probe.index) {
        lemma_first_position(open, probe.index);
        assert forall|index: i32| #[trigger] holds(open, index) implies holds(after, index) by {
            let k = choose|k: int| 0 <= k < open.len() && #[trigger] open[k].index == index;
            assert(after[k].index == index);
        }
    } else {
        assert forall|index: i32| #[trigger] holds(open, index) implies holds(after, index) by {
            lemma_push(open, after.last(), index);
        }
        assert(after[open.len() as int].index == probe.index);
    }
}

/// Once a step to each neighbor of a cell has been recorded, the cell is
/// covered.
pub proof fn lemma_covered(
    view: GridView,
    open: Seq<Node>,
    closed: Seq<Node>,
    from: int,
)
    requires
        view.valid(),
        view.contains(from),
        forall|j: int|
            0 <= j < view.neighbors(view.cell(from).x as int, view.cell(from).y as int).len()
                ==> seen(
                open,
                closed,
                (#[trigger] view.neighbors(
                    view.cell(from).x as int,
                    view.cell(from).y as int,
                )[j]).index,
            ),
    ensures
        view.covered(open, closed, from),
{
    let x = view.cell(from).x as int;
    let y = view.cell(from).y as int;
    let around = view.neighbors(x, y);
    lemma_neighbors(view, x, y, 8);
    assert forall|pos: int|
        0 <= pos < 8 && (#[trigger] view.candidate(x, y, pos)) is Some implies seen(
        open,
        closed,
        view.candidate(x, y, pos).unwrap().index,
    ) by {
        let cell = view.candidate(x, y, pos).unwrap();
        assert(around.contains(cell));
        let j = choose|j: int| 0 <= j < around.len() && around[j] == cell;
        assert(seen(open, closed, around[j].index));
    }
}

/// Closed cells that are covered stay covered while the open list grows.
pub proof fn lemma_explored_grows(
    view: GridView,
    before: Seq<Node>,
    after: Seq<Node>,
    closed: Seq<Node>,
    upto: int,
)
    requires
        view.explored(before, closed, upto),
        grows(before, after),
    ensures
        view.explored(after, closed, upto),
{
    assert forall|k: int| 0 <= k < upto && k < closed.len() implies view.covered(
        after,
        closed,
        (#[trigger] closed[k]).index as int,
    ) by {
        assert(view.covered(before, closed, closed[k].index as int));
    }
}

/// Whether the cell with the given index stands in the closed list.
pub open spec fn closed_at(closed: Seq<Node>, index: int) -> bool {
    exists|k: int| 0 <= k < closed.len() && #[trigger] closed[k].index == index
}

/// Where every closed cell is covered and nothing is open, a walk that begins
/// at a closed cell stays among the closed cells.
pub proof fn lemma_walk_stays(view: GridView, closed: Seq<Node>, walk: Seq<int>, upto: int)
    requires
        view.valid(),
        view.explored(Seq::empty(), closed, closed.len() as int),
        view.is_walk(walk),
        closed_at(closed, walk[0]),
        0 <= upto < walk.len(),
    ensures
        closed_at(closed, walk[upto]),
        view.contains(walk[upto]),
    decreases upto,
{
    if upto > 0 {
        lemma_walk_stays(view, closed, walk, upto - 1);
        let from = walk[upto - 1];
        let to = walk[upto];
        assert(view.linked(from, to));
        let pos = choose|pos: int| 0 <= pos < 8 && #[trigger] view.lands(from, to, pos);
        let k = choose|k: int| 0 <= k < closed.len() && #[trigger] closed[k].index == from;
        assert(view.covered(Seq::empty(), closed, closed[k].index as int));
        let x = view.cell(from).x as int;
        let y = view.cell(from).y as int;
        let arrived = view.candidate(x, y, pos);
        assert(arrived is Some);
        lemma_index_at(view, x + offset_x(pos), y + offset_y(pos));
        assert(seen(Seq::empty(), closed, arrived.unwrap().index));
        assert(!holds(Seq::<Node>::empty(), arrived.unwrap().index));
        let at = choose|at: int|
            0 <= at < closed.len() && #[trigger] closed[at].index == arrived.unwrap().index;
        assert(closed[at].index == to);
    }
}

/// The cells of a route from start to goal are a walk from start to goal.
pub proof fn lemma_route_walk(view: GridView, start: int, goal: int, path: Seq<Node>)
    requires
        view.valid(),
        view.contains(start),
        view.contains(goal),
        view.is_route(start, goal, path),
    ensures
        view.reachable(start, goal),
{
    let walk = Seq::new(path.len(), |i: int| path[i].index as int);
    assert(view.entry_ok(goal, path[0], view.cells()));
    assert forall|i: int| 1 <= i < walk.len() implies view.linked(
        walk[i - 1],
        #[trigger] walk[i],
    ) by {
        let from = path[i - 1];
        let to = path[i];
        assert(view.steps_to(path[i - 1], path[i]));
        assert(view.entry_ok(goal, path[i - 1], view.cells()));
        lemma_cell_coordinates(view, from.index as int);
        lemma_cell_coordinates(view, to.index as int);
        let pos = window_position(to.x - from.x, to.y - from.y);
        lemma_window_position(to.x - from.x, to.y - from.y);
        assert(view.lands(from.index as int, to.index as int, pos));
    }
    assert(view.is_walk(walk));
    assert(walk[0] == start);
    assert(walk.last() == goal);
}

/// Every cell of a walk is a cell of the grid, and every cell after the first
/// is no wall.
pub proof fn lemma_walk_cells(view: GridView, walk: Seq<int>, at: int)
    requires
        view.valid(),
        view.is_walk(walk),
        0 <= at < walk.len(),
    ensures
        view.contains(walk[at]),
        at > 0 ==> view.passable[walk[at]],
{
    if at > 0 {
        let from = walk[at - 1];
        assert(view.linked(from, walk[at]));
        let pos = choose|pos: int| 0 <= pos < 8 && #[trigger] view.lands(from, walk[at], pos);
        let x = view.cell(from).x as int;
        let y = view.cell(from).y as int;
        lemma_index_at(view, x + offset_x(pos), y + offset_y(pos));
    }
}

/// Where the goal is shut in, it cannot be walked to.
pub proof fn lemma_shut_in(view: GridView, start: int, goal: int)
    requires
        view.valid(),
        view.contains(goal),
        view.shut_in(start, goal),
    ensures
        !view.reachable(start, goal),
{
    if view.reachable(start, goal) {
        let walk = choose|walk: Seq<int>| #[trigger]
            view.is_walk(walk) && walk[0] == start && walk.last() == goal;
        let last = walk.len() - 1;
        let from = walk[last - 1];
        lemma_walk_cells(view, walk, last - 1);
        assert(view.linked(from, walk[last]));
        let pos = choose|pos: int| 0 <= pos < 8 && #[trigger] view.lands(from, goal, pos);
        let fx = view.cell(from).x as int;
        let fy = view.cell(from).y as int;
        let gx = fx + offset_x(pos);
        let gy = fy + offset_y(pos);
        lemma_cell_coordinates(view, from);
        lemma_cell_coordinates(view, goal);
        lemma_index_at(view, gx, gy);
        lemma_offset(pos);
        lemma_window_position(offset_x(pos), offset_y(pos));
        let back = 7 - pos;
        assert(view.candidate(gx, gy, back) is Some);
        lemma_neighbors(view, gx, gy, 8);
        assert(view.neighbors_upto(gx, gy, 8).contains(view.candidate(gx, gy, back).unwrap()));
        assert(false);
    }
}

} // verus!
