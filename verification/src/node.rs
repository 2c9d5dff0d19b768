//! One cell of a grid, and the costs a search attaches to it.

use vstd::prelude::*;

verus! {

/// Cost of a step that is not tagged diagonal.
pub const MOVE_NORMAL_COST: i32 = 10;

/// Cost of a step that is tagged diagonal.
pub const MOVE_DIAGONAL_COST: i32 = 14;

/// Marks a cell that has no predecessor.
pub const NO_PARENT: i32 = -1;

/// A cell of a grid.
///
/// `index`, `x`, `y` and `traversable` describe the cell. The other fields are
/// scratch values of one search: the index of the cell it was reached from,
/// whether it was reached by a step tagged diagonal, the cost from the start
/// (`g`), the estimate to the goal (`h`) and their sum (`f`).
#[derive(Copy, Clone, Debug)]
pub struct Node {
    pub index: i32,
    pub parent_index: i32,
    pub p_diagonal: bool,
    pub traversable: bool,
    pub x: i32,
    pub y: i32,
    pub g: i32,
    pub h: i32,
    pub f: i32,
}

/// The cost of one step, by its tag.
pub open spec fn step_cost(diagonal: bool) -> int {
    if diagonal {
        MOVE_DIAGONAL_COST as int
    } else {
        MOVE_NORMAL_COST as int
    }
}

/// The absolute value of the difference of two coordinates.
pub open spec fn gap(a: int, b: int) -> int {
    if a >= b {
        a - b
    } else {
        b - a
    }
}

impl Node {
    /// A traversable cell that no search has touched.
    pub open spec fn fresh(index: i32, x: i32, y: i32) -> Node {
        Node {
            index,
            parent_index: NO_PARENT,
            p_diagonal: false,
            traversable: true,
            x,
            y,
            g: 0,
            h: 0,
            f: 0,
        }
    }

    /// The number of steps from this cell to `goal` when nothing is in the way:
    /// the larger of the two coordinate gaps.
    pub open spec fn distance(self, goal: Node) -> int {
        let dx = gap(self.x as int, goal.x as int);
        let dy = gap(self.y as int, goal.y as int);
        if dx >= dy {
            dx
        } else {
            dy
        }
    }

    /// The estimate of the cost from this cell to `goal`.
    pub open spec fn estimate(self, goal: Node) -> int {
        MOVE_DIAGONAL_COST * self.distance(goal)
    }

    /// This cell with the estimate to `goal` written to `h`; a cell that is not
    /// traversable keeps the `h` it has.
    pub open spec fn with_h(self, goal: Node) -> Node {
        if self.traversable {
            Node { h: self.estimate(goal) as i32, ..self }
        } else {
            self
        }
    }

    /// This cell with `g` one step beyond `parent` and `f` the sum of that `g`
    /// and the cell's `h`.
    pub open spec fn with_g_f(self, parent: Node, diagonal: bool) -> Node {
        Node {
            g: (parent.g + step_cost(diagonal)) as i32,
            f: (parent.g + step_cost(diagonal) + self.h) as i32,
            ..self
        }
    }

    /// Whether `f` is the sum of `g` and `h`.
    pub open spec fn costs_agree(self) -> bool {
        self.f == self.g + self.h
    }

    /// Makes a traversable cell with no predecessor and all costs zero.
    pub fn new(index: i32, x: i32, y: i32) -> (node: Node)
        ensures
            node == Node::fresh(index, x, y),
    {
        Node {
            index,
            parent_index: NO_PARENT,
            p_diagonal: false,
            traversable: true,
            x,
            y,
            g: 0,
            h: 0,
            f: 0,
        }
    }

    /// Writes the estimate to `goal` to `h`. A cell that is not traversable is
    /// left as it is.
    pub fn set_h(&mut self, goal: Node)
        requires
            old(self).traversable ==> old(self).estimate(goal) <= i32::MAX,
        ensures
            *final(self) == old(self).with_h(goal),
    {
        if !self.traversable {
            return ;
        }
        let dx: i64 = if self.x >= goal.x {
            self.x as i64 - goal.x as i64
        } else {
            goal.x as i64 - self.x as i64
        };
        let dy: i64 = if self.y >= goal.y {
            self.y as i64 - goal.y as i64
        } else {
            goal.y as i64 - self.y as i64
        };
        let far: i64 = if dx >= dy {
            dx
        } else {
            dy
        };
        self.h = (MOVE_DIAGONAL_COST as i64 * far) as i32;
    }

    /// Sets `g` to the cost of `parent` plus one step of the given tag, and `f`
    /// to the sum of the new `g` and the cell's `h`, in one go.
    pub fn set_g_f(&mut self, parent: Node, diagonal: bool)
        requires
            i32::MIN <= parent.g + step_cost(diagonal) <= i32::MAX,
            i32::MIN <= parent.g + step_cost(diagonal) + old(self).h <= i32::MAX,
        ensures
            *final(self) == old(self).with_g_f(parent, diagonal),
            old(self).h == final(self).h,
            final(self).costs_agree(),
    {
        self.g = parent.g + if diagonal {
            MOVE_DIAGONAL_COST
        } else {
            MOVE_NORMAL_COST
        };
        self.f = self.g + self.h;
    }
}

impl PartialEq for Node {
    /// Two cells are the same cell when their indices are equal.
    fn eq(&self, other: &Self) -> (same: bool) {
        self.index == other.index
    }
}

impl vstd::std_specs::cmp::PartialEqSpecImpl for Node {
    open spec fn obeys_eq_spec() -> bool {
        true
    }

    open spec fn eq_spec(&self, other: &Self) -> bool {
        self.index == other.index
    }
}

} // verus!
