//! The grid: its dimensions, its walls, and who is next to whom.

use vstd::prelude::*;
use crate::node::gap;
use crate::node::Node;
use crate::node::NO_PARENT;

verus! {

/// The largest number of cells a grid may have. With no more cells than this,
/// the cost of a route through every cell, plus any estimate, fits in an `i32`.
pub const MAX_CELLS: i32 = 76_695_844;

/// Why a grid was refused.
#[derive(Debug, Clone, Copy, PartialEq, Eq, Structural)]
pub enum GridError {
    /// The width or the height is zero or negative.
    EmptyDimension,
    /// The grid would have more than `MAX_CELLS` cells.
    TooLarge,
    /// A wall index is negative, or not below the number of cells.
    WallOutOfRange,
}

/// A grid as a mathematical value: its dimensions, and for each cell index
/// whether the cell can be walked on.
pub struct GridView {
    pub width: int,
    pub height: int,
    pub passable: Seq<bool>,
}

/// Horizontal offset of the window position `pos`. The eight positions run row
/// by row over the three-by-three window around a cell, the centre left out.
pub open spec fn offset_x(pos: int) -> int {
    (if pos < 4 {
        pos
    } else {
        pos + 1
    }) % 3 - 1
}

/// Vertical offset of the window position `pos`.
pub open spec fn offset_y(pos: int) -> int {
    (if pos < 4 {
        pos
    } else {
        pos + 1
    }) / 3 - 1
}

/// Whether a step to window position `pos` is tagged diagonal: every other
/// position is, starting with the first.
pub open spec fn tagged_diagonal(pos: int) -> bool {
    pos % 2 == 0
}

/// The window position of the offset `(dx, dy)`, both within one of zero and
/// not both zero.
pub open spec fn window_position(dx: int, dy: int) -> int {
    let raw = (dy + 1) * 3 + (dx + 1);
    if raw < 4 {
        raw
    } else {
        raw - 1
    }
}

impl GridView {
    /// The number of cells.
    pub open spec fn cells(self) -> int {
        self.width * self.height
    }

    /// What holds of the view of every grid.
    pub open spec fn valid(self) -> bool {
        &&& 0 < self.width
        &&& 0 < self.height
        &&& self.cells() <= MAX_CELLS
        &&& self.passable.len() == self.cells()
    }

    /// Whether `index` is the index of a cell.
    pub open spec fn contains(self, index: int) -> bool {
        0 <= index < self.cells()
    }

    /// Whether `(x, y)` lies on the grid.
    pub open spec fn in_bounds(self, x: int, y: int) -> bool {
        0 <= x < self.width && 0 <= y < self.height
    }

    /// The index of the cell at `(x, y)`: cells are numbered row by row.
    pub open spec fn index_at(self, x: int, y: int) -> int {
        y * self.width + x
    }

    /// The cell with the given index, as the grid stores it: no predecessor,
    /// no tag, all costs zero.
    pub open spec fn cell(self, index: int) -> Node {
        Node {
            index: index as i32,
            parent_index: NO_PARENT,
            p_diagonal: false,
            traversable: self.passable[index],
            x: (index % self.width) as i32,
            y: (index / self.width) as i32,
            g: 0,
            h: 0,
            f: 0,
        }
    }

    /// All cells in the order of their indices.
    pub open spec fn nodes(self) -> Seq<Node> {
        Seq::new(self.cells() as nat, |i: int| self.cell(i))
    }

    /// The cell that a step from `(x, y)` to window position `pos` arrives at,
    /// with its tag; `None` where that position is off the grid or a wall.
    pub open spec fn candidate(self, x: int, y: int, pos: int) -> Option<Node> {
        let cx = x + offset_x(pos);
        let cy = y + offset_y(pos);
        if self.in_bounds(cx, cy) && self.passable[self.index_at(cx, cy)] {
            Some(Node { p_diagonal: tagged_diagonal(pos), ..self.cell(self.index_at(cx, cy)) })
        } else {
            None
        }
    }

    /// The cells that the first `count` window positions around `(x, y)`
    /// arrive at, in the order of the positions.
    pub open spec fn neighbors_upto(self, x: int, y: int, count: nat) -> Seq<Node>
        decreases count,
    {
        if count == 0 {
            Seq::empty()
        } else {
            let before = self.neighbors_upto(x, y, (count - 1) as nat);
            match self.candidate(x, y, count - 1) {
                Some(cell) => before.push(cell),
                None => before,
            }
        }
    }

    /// The cells next to `(x, y)` that can be walked on, each with its tag.
    pub open spec fn neighbors(self, x: int, y: int) -> Seq<Node> {
        self.neighbors_upto(x, y, 8)
    }

    /// Whether `cell` is a cell of this grid, with any scratch values, that
    /// one step from `(x, y)` arrives at.
    pub open spec fn next_to(self, x: int, y: int, cell: Node) -> bool {
        &&& self.contains(cell.index as int)
        &&& cell.traversable
        &&& self.passable[cell.index as int]
        &&& cell.x == self.cell(cell.index as int).x
        &&& cell.y == self.cell(cell.index as int).y
        &&& gap(cell.x as int, x) <= 1
        &&& gap(cell.y as int, y) <= 1
        &&& !(cell.x == x && cell.y == y)
    }
}

/// The offset of a step between two cells next to each other is found again
/// from its window position.
pub proof fn lemma_window_position(dx: int, dy: int)
    requires
        -1 <= dx <= 1,
        -1 <= dy <= 1,
        !(dx == 0 && dy == 0),
    ensures
        0 <= window_position(dx, dy) < 8,
        offset_x(window_position(dx, dy)) == dx,
        offset_y(window_position(dx, dy)) == dy,
        window_position(-dx, -dy) == 7 - window_position(dx, dy),
{
}

/// The offset of a window position is within one of zero in both directions
/// and not zero in both, and the window position is found again from it.
pub proof fn lemma_offset(pos: int)
    requires
        0 <= pos < 8,
    ensures
        -1 <= offset_x(pos) <= 1,
        -1 <= offset_y(pos) <= 1,
        !(offset_x(pos) == 0 && offset_y(pos) == 0),
        window_position(offset_x(pos), offset_y(pos)) == pos,
{
}

/// The index of a cell on the grid is below the number of cells, and its
/// coordinates are found again from it.
pub proof fn lemma_index_at(view: GridView, x: int, y: int)
    requires
        view.valid(),
        view.in_bounds(x, y),
    ensures
        view.contains(view.index_at(x, y)),
        view.index_at(x, y) % view.width == x,
        view.index_at(x, y) / view.width == y,
{
    let w = view.width;
    let h = view.height;
    assert(0 <= y * w && y * w + w <= h * w) by (nonlinear_arith)
        requires
            0 <= y < h,
            0 < w,
    ;
    assert(h * w == w * h) by (nonlinear_arith);
    vstd::arithmetic::div_mod::lemma_fundamental_div_mod_converse(y * w + x, w, y, x);
}

/// The coordinates of a cell lie on the grid, and give its index back.
pub proof fn lemma_cell_coordinates(view: GridView, index: int)
    requires
        view.valid(),
        view.contains(index),
    ensures
        view.in_bounds(index % view.width, index / view.width),
        view.index_at(index % view.width, index / view.width) == index,
        view.cell(index).index == index,
        view.cell(index).x == index % view.width,
        view.cell(index).y == index / view.width,
{
    let w = view.width;
    let h = view.height;
    vstd::arithmetic::div_mod::lemma_fundamental_div_mod(index, w);
    vstd::arithmetic::div_mod::lemma_mod_bound(index, w);
    let q = index / w;
    assert(w * q == q * w) by (nonlinear_arith);
    assert(0 <= q < h) by (nonlinear_arith)
        requires
            0 <= index < w * h,
            index == q * w + index % w,
            0 <= index % w < w,
            0 < w,
    ;
}

/// Every cell that neighbor generation hands out is a cell of the grid that
/// can be walked on, one step away, tagged by the position it was found at;
/// and every such position that is on the grid and no wall is handed out.
pub proof fn lemma_neighbors(view: GridView, x: int, y: int, count: nat)
    requires
        view.valid(),
        count <= 8,
    ensures
        view.neighbors_upto(x, y, count).len() <= count,
        forall|k: int|
            0 <= k < view.neighbors_upto(x, y, count).len() ==> {
                let cell = #[trigger] view.neighbors_upto(x, y, count)[k];
                &&& view.next_to(x, y, cell)
                &&& window_position(cell.x - x, cell.y - y) < count
                &&& view.candidate(x, y, window_position(cell.x - x, cell.y - y)) == Some(cell)
            },
        forall|pos: int|
            0 <= pos < count && view.candidate(x, y, pos) is Some ==> view.neighbors_upto(
                x,
                y,
                count,
            ).contains(#[trigger] view.candidate(x, y, pos).unwrap()),
    decreases count,
{
    if count > 0 {
        let before = view.neighbors_upto(x, y, (count - 1) as nat);
        let now = view.neighbors_upto(x, y, count);
        lemma_neighbors(view, x, y, (count - 1) as nat);
        let pos = count - 1;
        match view.candidate(x, y, pos) {
            Some(cell) => {
                let cx = x + offset_x(pos);
                let cy = y + offset_y(pos);
                lemma_index_at(view, cx, cy);
                assert(now == before.push(cell));
                assert(now[before.len() as int] == cell);
                assert(window_position(cell.x - x, cell.y - y) == pos);
                assert forall|p: int|
                    0 <= p < count && view.candidate(x, y, p) is Some implies now.contains(
                    #[trigger] view.candidate(x, y, p).unwrap(),
                ) by {
                    if p < pos {
                        let c = view.candidate(x, y, p).unwrap();
                        let k = choose|k: int| 0 <= k < before.len() && before[k] == c;
                        assert(now[k] == c);
                    } else {
                        assert(now[before.len() as int] == cell);
                    }
                }
            },
            None => {},
        }
    }
}

/// Why the given dimensions and walls are refused, or `None` where they make
/// a grid. The dimensions are looked at first, the walls last.
pub open spec fn rejection(width: i32, height: i32, walls: Seq<i32>) -> Option<GridError> {
    if width <= 0 || height <= 0 {
        Some(GridError::EmptyDimension)
    } else if width * height > MAX_CELLS {
        Some(GridError::TooLarge)
    } else if exists|k: int| 0 <= k < walls.len() && !(0 <= #[trigger] walls[k] < width * height) {
        Some(GridError::WallOutOfRange)
    } else {
        None
    }
}

/// The grid of the given dimensions in which exactly the listed cells are
/// walls.
pub open spec fn plan(width: i32, height: i32, walls: Seq<i32>) -> GridView {
    GridView {
        width: width as int,
        height: height as int,
        passable: Seq::new((width * height) as nat, |i: int| !walls.contains(i as i32)),
    }
}

/// A grid of cells, stored row by row. It does not change once it is made.
pub struct Grid {
    width: i32,
    height: i32,
    nodes: Vec<Node>,
}

impl View for Grid {
    type V = GridView;

    closed spec fn view(&self) -> GridView {
        GridView {
            width: self.width as int,
            height: self.height as int,
            passable: Seq::new(self.nodes@.len(), |i: int| self.nodes@[i].traversable),
        }
    }
}

/// Whether `index` occurs in `walls`.
fn is_wall(walls: &Vec<i32>, index: i32) -> (found: bool)
    ensures
        found == walls@.contains(index),
{
    let mut k: usize = 0;
    while k < walls.len()
        invariant
            k <= walls.len(),
            forall|j: int| 0 <= j < k ==> walls@[j] != index,
        decreases walls.len() - k,
    {
        if walls[k] == index {
            return true;
        }
        k += 1;
    }
    false
}

impl Grid {
    /// Whether the stored cells are those of the view, in the order of their
    /// indices.
    pub closed spec fn stores_cells(&self) -> bool {
        self.nodes@ == self@.nodes()
    }

    /// The invariant of a grid: positive dimensions, no more than `MAX_CELLS`
    /// cells, and every cell stored under its index with its coordinates and
    /// with no trace of a search.
    pub open spec fn wf(&self) -> bool {
        self@.valid() && self.stores_cells()
    }

    /// Builds the grid of the given dimensions whose walls are the cells
    /// listed in `walls`. Dimensions that are not positive, a grid of more
    /// than `MAX_CELLS` cells and a wall index that names no cell are refused.
    pub fn new(width: i32, height: i32, walls: Vec<i32>) -> (made: Result<Grid, GridError>)
        ensures
            match made {
                Ok(grid) => rejection(width, height, walls@) is None && grid.wf() && grid@ == plan(
                    width,
                    height,
                    walls@,
                ),
                Err(error) => rejection(width, height, walls@) == Some(error),
            },
    {
        if width <= 0 || height <= 0 {
            return Err(GridError::EmptyDimension);
        }
        assert(0 < width * height <= 0x7fff_ffff * 0x7fff_ffff) by (nonlinear_arith)
            requires
                0 < width <= 0x7fff_ffff,
                0 < height <= 0x7fff_ffff,
        ;
        let area: i64 = width as i64 * height as i64;
        if area > MAX_CELLS as i64 {
            return Err(GridError::TooLarge);
        }
        let cells: i32 = area as i32;
        let mut k: usize = 0;
        while k < walls.len()
            invariant
                k <= walls.len(),
                0 < width,
                0 < height,
                cells == width * height,
                cells <= MAX_CELLS,
                forall|j: int| 0 <= j < k ==> 0 <= #[trigger] walls@[j] < cells,
            decreases walls.len() - k,
        {
            if walls[k] < 0 || walls[k] >= cells {
                assert(!(0 <= walls@[k as int] < width * height));
                return Err(GridError::WallOutOfRange);
            }
            k += 1;
        }
        let ghost view = plan(width, height, walls@);
        let mut nodes: Vec<Node> = Vec::new();
        let mut index: i32 = 0;
        while index < cells
            invariant
                0 <= index <= cells,
                0 < width,
                cells == width * height,
                view == plan(width, height, walls@),
                nodes@.len() == index,
                forall|i: int| 0 <= i < index ==> nodes@[i] == view.cell(i),
            decreases cells - index,
        {
            let mut node = Node::new(index, index % width, index / width);
            if is_wall(&walls, index) {
                node.traversable = false;
            }
            assert(node == view.cell(index as int));
            nodes.push(node);
            index += 1;
        }
        let grid = Grid { width, height, nodes };
        proof {
            assert(grid.nodes@.len() == cells);
            assert(view.passable.len() == cells);
            assert forall|i: int| 0 <= i < cells implies grid@.passable[i]
                == view.passable[i] by {
                assert(grid.nodes@[i] == view.cell(i));
            }
            assert(grid@.passable =~= view.passable);
            assert(grid.nodes@ =~= grid@.nodes());
        }
        Ok(grid)
    }

    /// The width the grid was made with.
    pub fn width(&self) -> (width: i32)
        ensures
            width == self@.width,
    {
        self.width
    }

    /// The height the grid was made with.
    pub fn height(&self) -> (height: i32)
        ensures
            height == self@.height,
    {
        self.height
    }

    /// The cell with the given index, as the grid stores it.
    pub fn node(&self, index: i32) -> (cell: Node)
        requires
            self.wf(),
            self@.contains(index as int),
        ensures
            cell == self@.cell(index as int),
    {
        self.nodes[index as usize]
    }

    /// A copy of every cell, in the order of the indices.
    pub fn get_nodes(&self) -> (nodes: Vec<Node>)
        requires
            self.wf(),
        ensures
            nodes@ == self@.nodes(),
    {
        let mut nodes: Vec<Node> = Vec::new();
        let mut k: usize = 0;
        while k < self.nodes.len()
            invariant
                k <= self.nodes.len(),
                nodes@ == self.nodes@.subrange(0, k as int),
            decreases self.nodes.len() - k,
        {
            nodes.push(self.nodes[k]);
            assert(nodes@ == self.nodes@.subrange(0, k + 1));
            k += 1;
        }
        assert(nodes@ == self.nodes@);
        nodes
    }

    /// The cells around `node` that lie on the grid and are no walls, at most
    /// eight, in the order of the window positions. Each is the stored cell
    /// with its tag set: every other window position is tagged diagonal,
    /// starting with the first. Only the coordinates of `node` are read.
    pub fn get_neighbors(&self, node: Node) -> (neighbors: Vec<Node>)
        requires
            self.wf(),
        ensures
            neighbors@ == self@.neighbors(node.x as int, node.y as int),
            neighbors@.len() <= 8,
            forall|k: int|
                0 <= k < neighbors@.len() ==> {
                    let cell = #[trigger] neighbors@[k];
                    &&& self@.contains(cell.index as int)
                    &&& cell.traversable
                    &&& self@.next_to(node.x as int, node.y as int, cell)
                    &&& cell == Node {
                        p_diagonal: cell.p_diagonal,
                        ..self@.cell(cell.index as int)
                    }
                    &&& cell.p_diagonal == tagged_diagonal(
                        window_position(cell.x - node.x, cell.y - node.y),
                    )
                },
    {
        let mut neighbors: Vec<Node> = Vec::new();
        let mut pos: u8 = 0;
        while pos < 8
            invariant
                pos <= 8,
                self.wf(),
                neighbors@ == self@.neighbors_upto(node.x as int, node.y as int, pos as nat),
            decreases 8 - pos,
        {
            let raw: i64 = if pos < 4 {
                pos as i64
            } else {
                pos as i64 + 1
            };
            let x: i64 = node.x as i64 + raw % 3 - 1;
            let y: i64 = node.y as i64 + raw / 3 - 1;
            if x >= 0 && x < self.width as i64 && y >= 0 && y < self.height as i64 {
                proof {
                    lemma_index_at(self@, x as int, y as int);
                }
                let mut neighbor: Node = self.nodes[(y * self.width as i64 + x) as usize];
                if neighbor.traversable {
                    if pos % 2 == 0 {
                        neighbor.p_diagonal = true;
                    }
                    neighbors.push(neighbor);
                }
            }
            pos += 1;
        }
        proof {
            lemma_neighbors(self@, node.x as int, node.y as int, 8);
        }
        neighbors
    }
}

} // verus!
