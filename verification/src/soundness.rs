//! What holds of the open and closed lists in every round of a search, and
//! what follows for the route that is read off them.

use vstd::prelude::*;
use crate::grid::lemma_cell_coordinates;
use crate::grid::tagged_diagonal;
use crate::grid::window_position;
use crate::grid::GridView;
use crate::node::step_cost;
use crate::node::Node;
use crate::node::MOVE_DIAGONAL_COST;
use crate::node::NO_PARENT;
use crate::open_list::distinct;
use crate::open_list::first_position;
use crate::open_list::holds;
use crate::open_list::is_first;
use crate::open_list::lemma_first_is_unique;
use crate::open_list::lemma_first_position;
use crate::open_list::lemma_push;
use crate::open_list::lemma_sort_by_f;
use crate::open_list::sort_by_f;
use crate::search::affordable;
use crate::search::arrival;
use crate::search::lowered;
use crate::search::move_cost;
use crate::search::relaxed;
use crate::search::route_to;
use crate::search::trace;
use crate::search::without_head;

verus! {

impl GridView {
    /// Whether `entry` is a cell of this grid with its own coordinates, with
    /// the estimate to the cell `goal` as `h`, with `f` the sum of `g` and
    /// `h`, and with a `g` that at most `limit` steps can cost.
    pub open spec fn entry_ok(self, goal: int, entry: Node, limit: int) -> bool {
        &&& self.contains(entry.index as int)
        &&& entry.x == self.cell(entry.index as int).x
        &&& entry.y == self.cell(entry.index as int).y
        &&& entry.traversable == self.passable[entry.index as int]
        &&& entry.h == self.cell(entry.index as int).with_h(self.cell(goal)).h
        &&& entry.costs_agree()
        &&& 0 <= entry.g <= MOVE_DIAGONAL_COST * limit
    }

    /// Whether `to` was reached by one step from `from`: `from` is its
    /// predecessor, it lies next to `from` and is no wall, and its `g` is
    /// that of `from` plus the cost of the step.
    pub open spec fn steps_to(self, from: Node, to: Node) -> bool {
        &&& to.parent_index == from.index
        &&& self.next_to(from.x as int, from.y as int, to)
        &&& to.g == from.g + move_cost(from, to)
    }

    /// Whether `entry` was reached by one step from a cell that stands in
    /// `closed` before the place `before`.
    pub open spec fn came_from(self, closed: Seq<Node>, entry: Node, before: int) -> bool {
        &&& holds(closed, entry.parent_index)
        &&& first_position(closed, entry.parent_index) < before
        &&& self.steps_to(closed[first_position(closed, entry.parent_index)], entry)
    }

    /// Whether `probe` is a neighbor of `current` as neighbor generation hands
    /// it out.
    pub open spec fn probed(self, current: Node, probe: Node) -> bool {
        &&& self.next_to(current.x as int, current.y as int, probe)
        &&& probe == Node { p_diagonal: probe.p_diagonal, ..self.cell(probe.index as int) }
        &&& probe.p_diagonal == tagged_diagonal(
            window_position(probe.x - current.x, probe.y - current.y),
        )
    }

    /// What holds of the closed list of a search from `start` to `goal`: no
    /// cell index stands in it twice, the start cell is its first entry, and
    /// every other entry was reached by one step from an entry before it.
    pub open spec fn closed_sound(self, start: int, goal: int, closed: Seq<Node>) -> bool {
        &&& distinct(closed)
        &&& closed.len() <= self.cells()
        &&& closed.len() > 0 ==> closed[0] == self.seed(start, goal)
        &&& forall|k: int|
            0 <= k < closed.len() ==> {
                &&& self.entry_ok(goal, #[trigger] closed[k], k)
                &&& k > 0 ==> self.came_from(closed, closed[k], k)
            }
    }

    /// What holds of an entry of the open list: it is not closed, and it was
    /// reached by one step from a closed entry.
    pub open spec fn open_entry_sound(
        self,
        start: int,
        goal: int,
        closed: Seq<Node>,
        entry: Node,
    ) -> bool {
        &&& self.entry_ok(goal, entry, closed.len() as int)
        &&& !holds(closed, entry.index)
        &&& closed.len() > 0 ==> self.came_from(closed, entry, closed.len() as int)
    }

    /// What holds of the open list of a search from `start` to `goal`: no
    /// cell index stands in it twice, before the first round it holds the
    /// start cell alone, and each of its entries is sound.
    pub open spec fn open_sound(
        self,
        start: int,
        goal: int,
        open: Seq<Node>,
        closed: Seq<Node>,
    ) -> bool {
        &&& distinct(open)
        &&& closed.len() == 0 ==> open == seq![self.seed(start, goal)]
        &&& forall|k: int|
            0 <= k < open.len() ==> self.open_entry_sound(start, goal, closed, #[trigger] open[k])
    }

    /// What holds of the open and closed lists of a search from `start` to
    /// `goal` between any two steps.
    pub open spec fn sound(
        self,
        start: int,
        goal: int,
        open: Seq<Node>,
        closed: Seq<Node>,
    ) -> bool {
        self.closed_sound(start, goal, closed) && self.open_sound(start, goal, open, closed)
    }

    /// Whether `path` leads from the start cell to the goal step by step: it
    /// begins with the start cell at cost zero, ends in the goal, and each
    /// cell after the first was reached by one step from the cell before it.
    /// Every cell has the estimate to the goal as `h` and the sum of `g` and
    /// `h` as `f`, so the `f` of the last cell is its `g`.
    pub open spec fn is_route(self, start: int, goal: int, path: Seq<Node>) -> bool {
        &&& path.len() >= 1
        &&& path[0] == self.seed(start, goal)
        &&& path.last().index == goal
        &&& path.last().f == path.last().g
        &&& forall|i: int|
            0 <= i < path.len() ==> self.entry_ok(goal, #[trigger] path[i], self.cells())
        &&& forall|i: int| 1 <= i < path.len() ==> self.steps_to(path[i - 1], #[trigger] path[i])
    }
}

/// The estimate between two cells of a grid is not negative, is zero from a
/// cell to itself, and is at most the cost of one diagonal step for each cell
/// of the grid but one.
pub proof fn lemma_estimate(view: GridView, from: int, goal: int)
    requires
        view.valid(),
        view.contains(from),
        view.contains(goal),
    ensures
        0 <= view.cell(from).estimate(view.cell(goal)) <= MOVE_DIAGONAL_COST * (view.cells() - 1),
        0 <= view.cell(from).with_h(view.cell(goal)).h <= MOVE_DIAGONAL_COST * (view.cells() - 1),
        from == goal ==> view.cell(from).with_h(view.cell(goal)).h == 0,
{
    lemma_cell_coordinates(view, from);
    lemma_cell_coordinates(view, goal);
    let w = view.width;
    let h = view.height;
    assert(w <= w * h && h <= w * h) by (nonlinear_arith)
        requires
            w > 0,
            h > 0,
    ;
}

/// The start cell alone in the open list, with nothing closed, is where a
/// search begins.
pub proof fn lemma_seed(view: GridView, start: int, goal: int)
    requires
        view.valid(),
        view.contains(start),
        view.contains(goal),
    ensures
        view.sound(start, goal, seq![view.seed(start, goal)], Seq::empty()),
        view.entry_ok(goal, view.seed(start, goal), 0),
        view.seed(start, goal).index == start,
        view.seed(start, goal).parent_index == NO_PARENT,
        view.seed(start, goal).g == 0,
        start == goal ==> view.seed(start, goal).f == 0,
{
    lemma_estimate(view, start, goal);
    lemma_cell_coordinates(view, start);
    let open = seq![view.seed(start, goal)];
    assert(open[0] == view.seed(start, goal));
    assert(!holds(Seq::<Node>::empty(), view.seed(start, goal).index));
    assert(view.open_entry_sound(start, goal, Seq::empty(), view.seed(start, goal)));
}

/// An open entry stays sound when another cell is closed.
pub proof fn lemma_entry_outlives(
    view: GridView,
    start: int,
    goal: int,
    closed: Seq<Node>,
    current: Node,
    entry: Node,
)
    requires
        view.open_entry_sound(start, goal, closed, entry),
        closed.len() > 0,
        entry.index != current.index,
    ensures
        view.open_entry_sound(start, goal, closed.push(current), entry),
{
    let done = closed.push(current);
    lemma_push(closed, current, entry.index);
    lemma_push(closed, current, entry.parent_index);
    let at = first_position(closed, entry.parent_index);
    lemma_first_position(closed, entry.parent_index);
    assert(done[at] == closed[at]);
}

/// Closing a sound open entry keeps the closed list sound.
pub proof fn lemma_close(view: GridView, start: int, goal: int, closed: Seq<Node>, current: Node)
    requires
        view.closed_sound(start, goal, closed),
        view.open_entry_sound(start, goal, closed, current),
        closed.len() < view.cells(),
        closed.len() == 0 ==> current == view.seed(start, goal),
    ensures
        view.closed_sound(start, goal, closed.push(current)),
{
    let done = closed.push(current);
    assert(distinct(done)) by {
        assert forall|i: int, j: int| 0 <= i < j < done.len() implies done[i].index
            != done[j].index by {
            if j < closed.len() {
                assert(done[i] == closed[i] && done[j] == closed[j]);
            } else {
                assert(done[i] == closed[i]);
            }
        }
    }
    assert forall|k: int| 0 <= k < done.len() implies {
        &&& view.entry_ok(goal, #[trigger] done[k], k)
        &&& k > 0 ==> view.came_from(done, done[k], k)
    } by {
        let entry = done[k];
        if k < closed.len() {
            assert(entry == closed[k]);
        }
        if k > 0 {
            assert(view.came_from(closed, entry, k));
            lemma_push(closed, current, entry.parent_index);
            let at = first_position(closed, entry.parent_index);
            lemma_first_position(closed, entry.parent_index);
            assert(done[at] == closed[at]);
        }
    }
    if closed.len() > 0 {
        assert(done[0] == closed[0]);
    }
}

/// Taking the first entry of the ordered open list out and closing it keeps
/// the lists sound. The entry taken was not closed before.
pub proof fn lemma_select(view: GridView, start: int, goal: int, open: Seq<Node>, closed: Seq<Node>)
    requires
        view.sound(start, goal, open, closed),
        open.len() > 0,
        closed.len() < view.cells(),
    ensures
        sort_by_f(open).len() == open.len(),
        view.sound(start, goal, without_head(sort_by_f(open)), closed.push(sort_by_f(open)[0])),
        view.open_entry_sound(start, goal, closed, sort_by_f(open)[0]),
        closed.len() == 0 ==> sort_by_f(open)[0] == view.seed(start, goal),
{
    let sorted = sort_by_f(open);
    let current = sorted[0];
    let rest = without_head(sorted);
    let done = closed.push(current);
    lemma_sort_by_f(open);
    assert forall|k: int| 0 <= k < sorted.len() implies view.open_entry_sound(
        start,
        goal,
        closed,
        #[trigger] sorted[k],
    ) by {
        assert(open.contains(sorted[k]));
        let i = choose|i: int| 0 <= i < open.len() && open[i] == sorted[k];
        assert(view.open_entry_sound(start, goal, closed, open[i]));
    }
    if closed.len() == 0 {
        assert(open.contains(sorted[0]));
        let i = choose|i: int| 0 <= i < open.len() && open[i] == sorted[0];
        assert(open[i] == view.seed(start, goal));
        assert(rest.len() == 0);
    }
    lemma_close(view, start, goal, closed, current);
    assert(distinct(rest)) by {
        assert forall|i: int, j: int| 0 <= i < j < rest.len() implies rest[i].index
            != rest[j].index by {
            let a = if i == 0 {
                sorted.len() - 1
            } else {
                i
            };
            assert(rest[i] == sorted[a]);
            assert(rest[j] == sorted[j]);
        }
    }
    assert forall|k: int| 0 <= k < rest.len() implies view.open_entry_sound(
        start,
        goal,
        done,
        #[trigger] rest[k],
    ) by {
        let from = if k == 0 {
            sorted.len() - 1
        } else {
            k
        };
        assert(rest[k] == sorted[from]);
        assert(view.open_entry_sound(start, goal, closed, sorted[from]));
        lemma_entry_outlives(view, start, goal, closed, current, sorted[from]);
    }
}

/// An entry for a neighbor of the cell closed last, rewritten as reached from
/// that cell, is a sound open entry.
pub proof fn lemma_lowered(
    view: GridView,
    start: int,
    goal: int,
    closed: Seq<Node>,
    current: Node,
    probe: Node,
    entry: Node,
)
    requires
        view.valid(),
        view.contains(goal),
        view.closed_sound(start, goal, closed),
        closed.len() > 0,
        current == closed.last(),
        view.probed(current, probe),
        !holds(closed, probe.index),
        entry.index == probe.index,
        entry.x == probe.x,
        entry.y == probe.y,
        entry.traversable == probe.traversable,
        entry.h == probe.with_h(view.cell(goal)).h,
    ensures
        view.open_entry_sound(start, goal, closed, lowered(entry, current, probe.p_diagonal)),
        probe.traversable ==> probe.estimate(view.cell(goal)) <= i32::MAX,
        affordable(current, entry.h as int),
{
    let last = closed.len() - 1;
    let after = lowered(entry, current, probe.p_diagonal);
    assert(view.entry_ok(goal, closed[last], last));
    lemma_estimate(view, probe.index as int, goal);
    assert(is_first(closed, current.index, last));
    lemma_first_is_unique(closed, current.index, last);
    assert(after.g == current.g + step_cost(probe.p_diagonal));
    assert(after.f == after.g + after.h);
    assert(view.steps_to(current, after));
}

/// Recording a step from the cell closed last to one of its neighbors keeps
/// the lists sound, and its costs fit an `i32`.
pub proof fn lemma_relaxed(
    view: GridView,
    start: int,
    goal: int,
    open: Seq<Node>,
    closed: Seq<Node>,
    current: Node,
    probe: Node,
)
    requires
        view.valid(),
        view.contains(goal),
        view.sound(start, goal, open, closed),
        closed.len() > 0,
        current == closed.last(),
        view.probed(current, probe),
    ensures
        view.sound(start, goal, relaxed(open, closed, current, probe, view.cell(goal)), closed),
        probe.traversable ==> probe.estimate(view.cell(goal)) <= i32::MAX,
        affordable(current, probe.with_h(view.cell(goal)).h as int),
        forall|k: int| 0 <= k < open.len() ==> affordable(current, (#[trigger] open[k]).h as int),
{
    let target = view.cell(goal);
    let last = closed.len() - 1;
    let after = relaxed(open, closed, current, probe, target);
    assert(view.entry_ok(goal, closed[last], last));
    lemma_estimate(view, probe.index as int, goal);
    assert forall|k: int| 0 <= k < open.len() implies affordable(
        current,
        (#[trigger] open[k]).h as int,
    ) by {
        assert(view.open_entry_sound(start, goal, closed, open[k]));
        lemma_estimate(view, open[k].index as int, goal);
    }
    if holds(closed, probe.index) {
    } else if holds(open, probe.index) {
        let at = first_position(open, probe.index);
        lemma_first_position(open, probe.index);
        assert(view.open_entry_sound(start, goal, closed, open[at]));
        if arrival(probe, current, target).g < open[at].g {
            let entry = lowered(open[at], current, probe.p_diagonal);
            lemma_lowered(view, start, goal, closed, current, probe, open[at]);
            assert(after == open.update(at, entry));
            assert(distinct(after)) by {
                assert forall|i: int, j: int| 0 <= i < j < after.len() implies after[i].index
                    != after[j].index by {
                    assert(after[i].index == open[i].index);
                    assert(after[j].index == open[j].index);
                }
            }
            assert forall|k: int| 0 <= k < after.len() implies view.open_entry_sound(
                start,
                goal,
                closed,
                #[trigger] after[k],
            ) by {
                if k != at {
                    assert(after[k] == open[k]);
                }
            }
        }
    } else {
        let entry = arrival(probe, current, target);
        lemma_lowered(view, start, goal, closed, current, probe, probe.with_h(target));
        assert(entry == lowered(probe.with_h(target), current, probe.p_diagonal));
        assert(after == open.push(entry));
        assert(distinct(after)) by {
            assert forall|i: int, j: int| 0 <= i < j < after.len() implies after[i].index
                != after[j].index by {
                assert(after[i] == open[i]);
                if j < open.len() {
                    assert(after[j] == open[j]);
                }
            }
        }
        assert forall|k: int| 0 <= k < after.len() implies view.open_entry_sound(
            start,
            goal,
            closed,
            #[trigger] after[k],
        ) by {
            if k < open.len() {
                assert(after[k] == open[k]);
            }
        }
    }
}

/// The walk back from a closed entry arrives at the start cell, and every
/// cell of it but the first was reached by one step from the cell before it.
pub proof fn lemma_trace(
    view: GridView,
    start: int,
    goal: int,
    closed: Seq<Node>,
    k: int,
    steps: nat,
)
    requires
        view.valid(),
        view.contains(start),
        view.contains(goal),
        view.closed_sound(start, goal, closed),
        0 <= k < closed.len(),
        k <= steps,
    ensures
        trace(closed, closed[k], steps).len() >= 1,
        trace(closed, closed[k], steps)[0] == view.seed(start, goal),
        trace(closed, closed[k], steps).last() == closed[k],
        forall|i: int|
            0 <= i < trace(closed, closed[k], steps).len() ==> view.entry_ok(
                goal,
                #[trigger] trace(closed, closed[k], steps)[i],
                view.cells(),
            ),
        forall|i: int|
            1 <= i < trace(closed, closed[k], steps).len() ==> view.steps_to(
                trace(closed, closed[k], steps)[i - 1],
                #[trigger] trace(closed, closed[k], steps)[i],
            ),
    decreases k,
{
    let node = closed[k];
    let path = trace(closed, node, steps);
    assert(view.entry_ok(goal, closed[k], k));
    lemma_seed(view, start, goal);
    if k == 0 {
        assert(path == seq![node]);
    } else {
        assert(view.came_from(closed, closed[k], k));
        let at = first_position(closed, node.parent_index);
        lemma_first_position(closed, node.parent_index);
        assert(view.entry_ok(goal, closed[at], at));
        let shorter = trace(closed, closed[at], (steps - 1) as nat);
        lemma_trace(view, start, goal, closed, at, (steps - 1) as nat);
        assert(path == shorter.push(node));
        assert forall|i: int| 0 <= i < path.len() implies view.entry_ok(
            goal,
            #[trigger] path[i],
            view.cells(),
        ) by {
            if i < shorter.len() {
                assert(path[i] == shorter[i]);
            }
        }
        assert forall|i: int| 1 <= i < path.len() implies view.steps_to(
            path[i - 1],
            #[trigger] path[i],
        ) by {
            if i < shorter.len() {
                assert(path[i] == shorter[i]);
                assert(path[i - 1] == shorter[i - 1]);
            } else {
                assert(path[i - 1] == shorter.last());
            }
        }
    }
}

/// The route read off a sound closed list whose last entry is the goal leads
/// from the start cell to the goal step by step.
pub proof fn lemma_route(view: GridView, start: int, goal: int, closed: Seq<Node>)
    requires
        view.valid(),
        view.contains(start),
        view.contains(goal),
        view.closed_sound(start, goal, closed),
        closed.len() > 0,
        closed.last().index == goal,
    ensures
        view.is_route(start, goal, route_to(closed, closed.last())),
        closed.len() == 1 ==> route_to(closed, closed.last()) == seq![view.seed(start, goal)],
{
    let last = closed.len() - 1;
    lemma_trace(view, start, goal, closed, last, closed.len());
    assert(view.entry_ok(goal, closed[last], last));
    lemma_estimate(view, goal, goal);
    lemma_seed(view, start, goal);
}

/// The sum of the costs of the steps along `path`.
pub open spec fn route_cost(path: Seq<Node>) -> int
    decreases path.len(),
{
    if path.len() <= 1 {
        0
    } else {
        route_cost(path.drop_last()) + move_cost(path[path.len() - 2], path.last())
    }
}

/// Whether each cell of `path` after the first was reached by one step from
/// the cell before it.
pub open spec fn is_chain(view: GridView, path: Seq<Node>) -> bool {
    forall|i: int| 1 <= i < path.len() ==> view.steps_to(path[i - 1], #[trigger] path[i])
}

/// Along a chain of steps, the `g` of a cell is the `g` of the first cell
/// plus the costs of the steps up to it. Every step costs ten or fourteen,
/// and takes a cell no more than one step farther from the first.
pub proof fn lemma_chain(view: GridView, path: Seq<Node>, upto: int)
    requires
        is_chain(view, path),
        0 <= upto < path.len(),
    ensures
        path[upto].g == path[0].g + route_cost(path.subrange(0, upto + 1)),
        10 * upto <= route_cost(path.subrange(0, upto + 1)) <= 14 * upto,
        path[0].distance(path[upto]) <= upto,
        forall|i: int| 0 <= i < upto ==> (#[trigger] path[i]).g < path[upto].g,
    decreases upto,
{
    let now = path.subrange(0, upto + 1);
    if upto > 0 {
        let before = path.subrange(0, upto);
        lemma_chain(view, path, upto - 1);
        assert(view.steps_to(path[upto - 1], path[upto]));
        assert(now.drop_last() == before);
        assert(now[now.len() - 2] == path[upto - 1]);
        assert(now.last() == path[upto]);
        assert forall|i: int| 0 <= i < upto implies (#[trigger] path[i]).g < path[upto].g by {
            if i < upto - 1 {
                assert(path[i].g < path[upto - 1].g);
            }
        }
    }
}

/// Of a route from start to goal: the `g` of its cells rises from cell to
/// cell; the `f` of its last cell is the sum of the costs of its steps; that
/// sum lies between ten and fourteen times the number of steps; the route has
/// at least as many steps as the goal is away from the start; and no cell
/// after the first is a wall.
pub proof fn lemma_route_cost(view: GridView, start: int, goal: int, path: Seq<Node>)
    requires
        view.valid(),
        view.contains(start),
        view.contains(goal),
        view.is_route(start, goal, path),
    ensures
        path[0].index == start,
        path[0].g == 0,
        path.last().f == route_cost(path),
        10 * (path.len() - 1) <= route_cost(path) <= 14 * (path.len() - 1),
        view.cell(start).distance(view.cell(goal)) <= path.len() - 1,
        forall|i: int, j: int| 0 <= i < j < path.len() ==> path[i].g < path[j].g,
        forall|i: int| 1 <= i < path.len() ==> view.passable[(#[trigger] path[i]).index as int],
{
    let last = path.len() - 1;
    lemma_seed(view, start, goal);
    assert(is_chain(view, path));
    lemma_chain(view, path, last);
    assert(path.subrange(0, last + 1) == path);
    assert(view.entry_ok(goal, path[0], view.cells()));
    assert(view.entry_ok(goal, path[last], view.cells()));
    assert forall|i: int, j: int| 0 <= i < j < path.len() implies path[i].g < path[j].g by {
        lemma_chain(view, path, j);
    }
    assert forall|i: int| 1 <= i < path.len() implies view.passable[(#[trigger] path[i]).index
        as int] by {
        assert(view.steps_to(path[i - 1], path[i]));
    }
}

/// A search is decided by the grid and by the indices of start and goal: two
/// searches that agree in these give the same route, cell for cell with all
/// their costs, however the cells that named start and goal differ otherwise.
pub proof fn lemma_search_repeats(
    view: GridView,
    start: Node,
    goal: Node,
    first: Seq<Node>,
    again_start: Node,
    again_goal: Node,
    second: Seq<Node>,
)
    requires
        start.index == again_start.index,
        goal.index == again_goal.index,
        first == view.search(start.index as int, goal.index as int),
        second == view.search(again_start.index as int, again_goal.index as int),
    ensures
        first == second,
        first.len() > 0 ==> first.last().f == second.last().f,
{
}

} // verus!
