//! The search: which cell is taken up next, what a step to a neighbor does to
//! the open list, and how the route is read off the closed list.
//!
//! The open list holds the cells that have been reached and not yet taken up,
//! the closed list those that have been taken up, in that order. In each round
//! the open list is put in the order of `f`, its first entry is taken out (the
//! last entry takes its place) and closed, and the steps from it to its
//! neighbors are recorded. A cell that is already closed is never reopened. A
//! cell that is already open and is now reached at a lower cost has its `g`,
//! its predecessor and its `f` rewritten in place.

use vstd::prelude::*;
use vstd::set_lib::lemma_int_range;
use vstd::set_lib::set_int_range;
use crate::grid::lemma_cell_coordinates;
use crate::grid::tagged_diagonal;
use crate::grid::window_position;
use crate::grid::Grid;
use crate::grid::GridView;
use crate::node::step_cost;
use crate::node::Node;
use crate::node::MOVE_DIAGONAL_COST;
use crate::node::MOVE_NORMAL_COST;
use crate::node::NO_PARENT;
use crate::open_list::find_index;
use crate::open_list::first_position;
use crate::open_list::holds;
use crate::open_list::lemma_push;
use crate::open_list::lemma_sort_by_f;
use crate::open_list::order_by_f;
use crate::open_list::sort_by_f;
use crate::reach::grows;
use crate::reach::lemma_covered;
use crate::reach::lemma_explored_grows;
use crate::reach::lemma_explored_select;
use crate::reach::lemma_relaxed_grows;
use crate::reach::lemma_route_walk;
use crate::reach::lemma_shut_in;
use crate::reach::lemma_walk_stays;
use crate::reach::seen;
use crate::soundness::lemma_estimate;
use crate::soundness::lemma_relaxed;
use crate::soundness::lemma_route;
use crate::soundness::lemma_seed;
use crate::soundness::lemma_select;

verus! {

/// The cost of the step from one cell to a cell next to it: the tag goes by
/// the window position of the offset between the two.
pub open spec fn move_cost(from: Node, to: Node) -> int {
    step_cost(tagged_diagonal(window_position(to.x - from.x, to.y - from.y)))
}

/// The neighbor `probe` as it is reached from `current`: with `current` as
/// its predecessor, the estimate to `goal` as `h`, the cost of `current` plus
/// one step of the probe's tag as `g`, and their sum as `f`.
pub open spec fn arrival(probe: Node, current: Node, goal: Node) -> Node {
    Node { parent_index: current.index, ..probe }.with_h(goal).with_g_f(current, probe.p_diagonal)
}

/// The open entry `entry` after it was reached from `current` at a lower
/// cost: predecessor, `g` and `f` change together, the rest stays.
pub open spec fn lowered(entry: Node, current: Node, diagonal: bool) -> Node {
    Node { parent_index: current.index, ..entry }.with_g_f(current, diagonal)
}

/// The open list after the step from `current` to the neighbor `probe`. A
/// closed cell is passed over. A cell that is open is rewritten where the new
/// cost is lower, and left alone where it is not. Any other cell joins the
/// open list at its end.
pub open spec fn relaxed(
    open: Seq<Node>,
    closed: Seq<Node>,
    current: Node,
    probe: Node,
    goal: Node,
) -> Seq<Node> {
    if holds(closed, probe.index) {
        open
    } else if holds(open, probe.index) {
        let at = first_position(open, probe.index);
        if arrival(probe, current, goal).g < open[at].g {
            open.update(at, lowered(open[at], current, probe.p_diagonal))
        } else {
            open
        }
    } else {
        open.push(arrival(probe, current, goal))
    }
}

/// The open list after the steps from `current` to each of `probes`, in their
/// order.
pub open spec fn expanded(
    open: Seq<Node>,
    closed: Seq<Node>,
    current: Node,
    probes: Seq<Node>,
    goal: Node,
) -> Seq<Node>
    decreases probes.len(),
{
    if probes.len() == 0 {
        open
    } else {
        relaxed(
            expanded(open, closed, current, probes.drop_last(), goal),
            closed,
            current,
            probes.last(),
            goal,
        )
    }
}

/// The cells from `node` back along the predecessors, read in the order from
/// the farthest back to `node`. The walk ends at a cell without a predecessor,
/// at one whose predecessor is not in `closed`, and after `steps` steps.
pub open spec fn trace(closed: Seq<Node>, node: Node, steps: nat) -> Seq<Node>
    decreases steps,
{
    if steps == 0 || node.parent_index == NO_PARENT || !holds(closed, node.parent_index) {
        seq![node]
    } else {
        trace(closed, closed[first_position(closed, node.parent_index)], (steps - 1) as nat).push(
            node,
        )
    }
}

/// The route that ends in `node`, read off `closed`. The walk back takes at
/// most as many steps as `closed` has entries, which a walk over entries that
/// differ from each other never needs.
pub open spec fn route_to(closed: Seq<Node>, node: Node) -> Seq<Node> {
    trace(closed, node, closed.len())
}

/// A list in the order of `f` after its first entry was taken out: the last
/// entry stands in its place.
pub open spec fn without_head(sorted: Seq<Node>) -> Seq<Node> {
    sorted.update(0, sorted.last()).drop_last()
}

impl GridView {
    /// The start cell as the search begins with it: no predecessor, `g` zero,
    /// the estimate to the goal as `h`, and `f` their sum.
    pub open spec fn seed(self, start: int, goal: int) -> Node {
        let cell = self.cell(start).with_h(self.cell(goal));
        Node { f: (cell.g + cell.h) as i32, ..cell }
    }

    /// The route that the rounds of the search arrive at from the given open
    /// and closed lists, or the empty sequence where the open list runs out
    /// first. `rounds` bounds the number of rounds.
    pub open spec fn run(self, goal: Node, open: Seq<Node>, closed: Seq<Node>, rounds: nat) -> Seq<
        Node,
    >
        decreases rounds,
    {
        if rounds == 0 || open.len() == 0 {
            Seq::empty()
        } else {
            let sorted = sort_by_f(open);
            let current = sorted[0];
            let done = closed.push(current);
            if current.index == goal.index {
                route_to(done, current)
            } else {
                self.run(
                    goal,
                    expanded(
                        without_head(sorted),
                        done,
                        current,
                        self.neighbors(current.x as int, current.y as int),
                        goal,
                    ),
                    done,
                    (rounds - 1) as nat,
                )
            }
        }
    }

    /// The route from the cell with index `start` to the cell with index
    /// `goal`, or the empty sequence where the search finds none. Every round
    /// closes a cell that was not closed before, so a search never takes more
    /// rounds than the grid has cells.
    pub open spec fn search(self, start: int, goal: int) -> Seq<Node> {
        self.run(self.cell(goal), seq![self.seed(start, goal)], Seq::empty(), self.cells() as nat)
    }
}

/// Whether a step from `current` to a cell whose estimate is `h` can be
/// costed in an `i32`.
pub open spec fn affordable(current: Node, h: int) -> bool {
    &&& i32::MIN <= current.g + MOVE_NORMAL_COST
    &&& current.g + MOVE_DIAGONAL_COST <= i32::MAX
    &&& i32::MIN <= current.g + MOVE_NORMAL_COST + h
    &&& current.g + MOVE_DIAGONAL_COST + h <= i32::MAX
}

/// Records the step from `current` to its neighbor `probe` in the open list.
///
/// Nothing happens where the neighbor is closed. An open entry for it is
/// rewritten only where the new cost is lower, and then its `g`, its
/// predecessor and its `f` change in the same write. A neighbor that is
/// neither closed nor open is appended.
pub fn relax(open: &mut Vec<Node>, closed: &Vec<Node>, current: Node, probe: Node, goal: Node)
    requires
        probe.traversable ==> probe.estimate(goal) <= i32::MAX,
        affordable(current, probe.with_h(goal).h as int),
        forall|k: int| 0 <= k < old(open)@.len() ==> affordable(current, old(open)@[k].h as int),
    ensures
        final(open)@ == relaxed(old(open)@, closed@, current, probe, goal),
        old(open)@.len() <= final(open)@.len() <= old(open)@.len() + 1,
        forall|k: int|
            0 <= k < old(open)@.len() ==> {
                let before = old(open)@[k];
                let after = #[trigger] final(open)@[k];
                &&& after.index == before.index
                &&& after.h == before.h
                &&& before.costs_agree() ==> after.costs_agree()
                &&& after == before || (after.g < before.g && after == lowered(
                    before,
                    current,
                    probe.p_diagonal,
                ) && after.parent_index == current.index && after.costs_agree())
            },
        final(open)@.len() > old(open)@.len() ==> final(open)@.last() == arrival(
            probe,
            current,
            goal,
        ) && final(open)@.last().costs_agree(),
{
    if find_index(closed, probe.index).is_some() {
        return ;
    }
    let mut reached = probe;
    reached.parent_index = current.index;
    reached.set_h(goal);
    reached.set_g_f(current, probe.p_diagonal);
    match find_index(open, probe.index) {
        Some(at) => {
            if reached.g < open[at].g {
                let mut entry = open[at];
                entry.parent_index = reached.parent_index;
                entry.set_g_f(current, probe.p_diagonal);
                open.set(at, entry);
            }
        },
        None => {
            open.push(reached);
        },
    }
}

impl Grid {
    /// Reads the route that ends in `node` off the closed list: `node`, before
    /// it the closed entry of its predecessor, and so on back to a cell
    /// without a predecessor. The walk also ends where a predecessor is not
    /// among `closed_nodes`, and after as many steps as `closed_nodes` has
    /// entries; the cells found up to there are returned.
    pub fn get_path(&self, closed_nodes: Vec<Node>, node: Node) -> (path: Vec<Node>)
        ensures
            path@ == route_to(closed_nodes@, node),
            path@.len() >= 1,
            path@.last() == node,
    {
        let mut path: Vec<Node> = Vec::new();
        path.push(node);
        let mut first = node;
        let mut steps: usize = closed_nodes.len();
        let ghost mut tail: Seq<Node> = Seq::empty();
        while steps > 0 && first.parent_index != NO_PARENT
            invariant
                path@ == seq![first] + tail,
                route_to(closed_nodes@, node) == trace(closed_nodes@, first, steps as nat) + tail,
                seq![first] + tail == (seq![first] + tail).drop_last().push(node),
            ensures
                trace(closed_nodes@, first, steps as nat) == seq![first],
            decreases steps,
        {
            match find_index(&closed_nodes, first.parent_index) {
                Some(at) => {
                    let parent = closed_nodes[at];
                    proof {
                        let shorter = trace(closed_nodes@, parent, (steps - 1) as nat);
                        assert(trace(closed_nodes@, first, steps as nat) == shorter.push(first));
                        assert(shorter.push(first) + tail == shorter + (seq![first] + tail));
                        assert(seq![parent] + (seq![first] + tail) == (seq![parent] + (seq![first]
                            + tail)).drop_last().push(node));
                        assert(path@.insert(0, parent) == seq![parent] + (seq![first] + tail));
                        tail = seq![first] + tail;
                    }
                    path.insert(0, parent);
                    first = parent;
                    steps -= 1;
                },
                None => {
                    assert(trace(closed_nodes@, first, steps as nat) == seq![first]);
                    break ;
                },
            }
        }
        path
    }

    /// Records the steps from `current`, the cell closed last, to each of its
    /// neighbors.
    fn expand(
        &self,
        open_nodes: &mut Vec<Node>,
        closed_nodes: &Vec<Node>,
        current: Node,
        target: Node,
        Ghost(from): Ghost<int>,
        Ghost(to): Ghost<int>,
    )
        requires
            self.wf(),
            self@.contains(to),
            target == self@.cell(to),
            self@.sound(from, to, old(open_nodes)@, closed_nodes@),
            closed_nodes@.len() > 0,
            current == closed_nodes@.last(),
        ensures
            final(open_nodes)@ == expanded(
                old(open_nodes)@,
                closed_nodes@,
                current,
                self@.neighbors(current.x as int, current.y as int),
                target,
            ),
            self@.sound(from, to, final(open_nodes)@, closed_nodes@),
            grows(old(open_nodes)@, final(open_nodes)@),
            self@.covered(final(open_nodes)@, closed_nodes@, current.index as int),
    {
        let ghost view = self@;
        let ghost rest = open_nodes@;
        let neighbors = self.get_neighbors(current);
        let mut k: usize = 0;
        while k < neighbors.len()
            invariant
                k <= neighbors.len(),
                view.valid(),
                view.contains(to),
                target == view.cell(to),
                view.sound(from, to, open_nodes@, closed_nodes@),
                closed_nodes@.len() > 0,
                current == closed_nodes@.last(),
                forall|j: int|
                    0 <= j < neighbors@.len() ==> view.probed(current, #[trigger] neighbors@[j]),
                open_nodes@ == expanded(
                    rest,
                    closed_nodes@,
                    current,
                    neighbors@.subrange(0, k as int),
                    target,
                ),
                grows(rest, open_nodes@),
                forall|j: int|
                    0 <= j < k ==> seen(
                        open_nodes@,
                        closed_nodes@,
                        (#[trigger] neighbors@[j]).index,
                    ),
            decreases neighbors.len() - k,
        {
            let ghost before = open_nodes@;
            proof {
                lemma_relaxed(view, from, to, before, closed_nodes@, current, neighbors@[k as int]);
                lemma_relaxed_grows(before, closed_nodes@, current, neighbors@[k as int], target);
                let upto = neighbors@.subrange(0, k + 1);
                assert(upto.drop_last() == neighbors@.subrange(0, k as int));
                assert(upto.last() == neighbors@[k as int]);
            }
            relax(open_nodes, closed_nodes, current, neighbors[k], target);
            proof {
                assert forall|j: int| 0 <= j < k + 1 implies seen(
                    open_nodes@,
                    closed_nodes@,
                    (#[trigger] neighbors@[j]).index,
                ) by {
                    if j < k {
                        assert(seen(before, closed_nodes@, neighbors@[j].index));
                    }
                }
            }
            k += 1;
        }
        proof {
            assert(neighbors@.subrange(0, k as int) == neighbors@);
            let last = closed_nodes@.len() - 1;
            assert(view.entry_ok(to, closed_nodes@[last], last));
            lemma_covered(view, open_nodes@, closed_nodes@, current.index as int);
        }
    }

    /// Searches a route from the cell with the index of `start` to the cell
    /// with the index of `goal`. Of the two arguments only the index is read:
    /// the search begins with the grid's own cells, so costs left in the
    /// arguments by an earlier search have no effect.
    ///
    /// The route is returned from start to goal, both included, each cell
    /// with the `g`, `h`, `f` and predecessor the search gave it; the `f` of
    /// the last cell is the cost of the route. A route is found exactly where
    /// the goal can be walked to from the start; where it cannot, the result
    /// is empty.
    pub fn a_star(&self, start: Node, goal: Node) -> (path: Vec<Node>)
        requires
            self.wf(),
            self@.contains(start.index as int),
            self@.contains(goal.index as int),
        ensures
            path@ == self@.search(start.index as int, goal.index as int),
            path@.len() > 0 <==> self@.reachable(start.index as int, goal.index as int),
            path@.len() > 0 ==> self@.is_route(start.index as int, goal.index as int, path@),
            start.index == goal.index ==> path@ == seq![
                self@.seed(start.index as int, goal.index as int),
            ] && path@[0].f == 0,
            self@.shut_in(start.index as int, goal.index as int) ==> path@.len() == 0,
    {
        let ghost view = self@;
        let ghost from = start.index as int;
        let ghost to = goal.index as int;
        let target = self.node(goal.index);
        let mut first = self.node(start.index);
        proof {
            lemma_estimate(view, from, to);
            lemma_seed(view, from, to);
            lemma_cell_coordinates(view, to);
        }
        first.set_h(target);
        first.f = first.g + first.h;
        let mut open_nodes: Vec<Node> = Vec::new();
        open_nodes.push(first);
        let mut closed_nodes: Vec<Node> = Vec::new();
        let ghost mut left: Set<int> = set_int_range(0, view.cells());
        proof {
            lemma_int_range(0, view.cells());
            assert(open_nodes@ == seq![view.seed(from, to)]);
            assert forall|i: int| left.contains(i) <==> view.contains(i) && !holds(
                closed_nodes@,
                i as i32,
            ) by {}
        }
        while open_nodes.len() > 0
            invariant
                self.wf(),
                view == self@,
                from == start.index,
                to == goal.index,
                view.contains(from),
                view.contains(to),
                target == view.cell(to),
                target.index == goal.index,
                view.sound(from, to, open_nodes@, closed_nodes@),
                view.explored(open_nodes@, closed_nodes@, closed_nodes@.len() as int),
                !holds(closed_nodes@, goal.index),
                left.finite(),
                forall|i: int|
                    left.contains(i) <==> view.contains(i) && !holds(closed_nodes@, i as i32),
                left.len() + closed_nodes@.len() == view.cells(),
                view.run(target, open_nodes@, closed_nodes@, left.len()) == view.search(from, to),
                closed_nodes@.len() > 0 ==> from != to,
            decreases left.len(),
        {
            let ghost open_before = open_nodes@;
            let ghost closed_before = closed_nodes@;
            let ghost rounds = left.len();
            proof {
                let head = sort_by_f(open_before)[0];
                lemma_sort_by_f(open_before);
                assert(open_before.contains(head));
                assert(view.open_entry_sound(from, to, closed_before, head));
                assert(left.contains(head.index as int));
                lemma_select(view, from, to, open_before, closed_before);
                lemma_explored_select(view, open_before, closed_before);
            }
            order_by_f(&mut open_nodes);
            let current = open_nodes.swap_remove(0);
            closed_nodes.push(current);
            proof {
                left = left.remove(current.index as int);
                assert forall|i: int| left.contains(i) <==> view.contains(i) && !holds(
                    closed_nodes@,
                    i as i32,
                ) by {
                    lemma_push(closed_before, current, i as i32);
                }
                lemma_push(closed_before, current, goal.index);
                assert(open_nodes@ == without_head(sort_by_f(open_before)));
            }
            if current.index == goal.index {
                proof {
                    lemma_route(view, from, to, closed_nodes@);
                    lemma_route_walk(view, from, to, route_to(closed_nodes@, current));
                    if view.shut_in(from, to) {
                        lemma_shut_in(view, from, to);
                    }
                }
                return self.get_path(closed_nodes, current);
            }
            let ghost rest = open_nodes@;
            self.expand(&mut open_nodes, &closed_nodes, current, target, Ghost(from), Ghost(to));
            proof {
                lemma_explored_grows(
                    view,
                    rest,
                    open_nodes@,
                    closed_nodes@,
                    closed_before.len() as int,
                );
                assert(view.run(target, open_before, closed_before, rounds) == view.run(
                    target,
                    open_nodes@,
                    closed_nodes@,
                    left.len(),
                ));
            }
        }
        proof {
            assert(open_nodes@ == Seq::<Node>::empty());
            assert(closed_nodes@[0].index == from);
            if view.reachable(from, to) {
                let walk = choose|walk: Seq<int>| #[trigger]
                    view.is_walk(walk) && walk[0] == from && walk.last() == to;
                lemma_walk_stays(view, closed_nodes@, walk, walk.len() - 1);
                let at = choose|at: int|
                    0 <= at < closed_nodes@.len() && #[trigger] closed_nodes@[at].index == to;
                assert(closed_nodes@[at].index == goal.index);
                assert(false);
            }
        }
        Vec::new()
    }
}

} // verus!
