//! The grid model: blocks and weighted road cells, and the 4-bit openness
//! flag that classifies a cell's neighborhood.

use vstd::prelude::*;

verus! {

/// One cell of the square city grid: impassable, or a road segment with a
/// small travel cost.
#[derive(Debug, Copy, Clone, PartialEq, Eq, Structural)]
pub enum Cell {
    Block,
    Road(u8),
}

/// The mathematical view of a grid: the sequence of row sequences.
pub open spec fn gview(map: Seq<Vec<Cell>>) -> Seq<Seq<Cell>> {
    map.map_values(|r: Vec<Cell>| r@)
}

impl Cell {
    /// Builds a cell from one input byte: `#` is a block, a digit is a road
    /// whose cost is the digit's value.
    pub fn from_byte(b: u8) -> (r: Cell)
        requires
            b == 35 || 48 <= b <= 57,
        ensures
            r == spec_cell_of_byte(b),
    {
        match b {
            35u8 => Cell::Block,
            n => Cell::Road(n - 48),
        }
    }

    pub fn is_block(self) -> (r: bool)
        ensures
            r == (self is Block),
    {
        matches!(self, Cell::Block)
    }
}

pub open spec fn spec_cell_of_byte(b: u8) -> Cell {
    if b == 35 {
        Cell::Block
    } else {
        Cell::Road((b - 48) as u8)
    }
}

/// The travel cost of a cell; blocks carry no cost.
pub open spec fn cost(c: Cell) -> int {
    match c {
        Cell::Block => 0,
        Cell::Road(w) => w as int,
    }
}

/// A well-formed grid is square: as many rows as columns.
pub open spec fn grid_wf(map: Seq<Seq<Cell>>) -> bool {
    forall|y: int| 0 <= y < map.len() ==> (#[trigger] map[y]).len() == map.len()
}

pub open spec fn in_grid(map: Seq<Seq<Cell>>, x: int, y: int) -> bool {
    0 <= y < map.len() && 0 <= x < map.len()
}

pub open spec fn is_road(map: Seq<Seq<Cell>>, x: int, y: int) -> bool {
    in_grid(map, x, y) && !(map[y][x] is Block)
}

pub open spec fn open_left(map: Seq<Seq<Cell>>, x: int, y: int) -> bool {
    x > 0 && !(map[y][x - 1] is Block)
}

pub open spec fn open_right(map: Seq<Seq<Cell>>, x: int, y: int) -> bool {
    x + 1 < map.len() && !(map[y][x + 1] is Block)
}

pub open spec fn open_up(map: Seq<Seq<Cell>>, x: int, y: int) -> bool {
    y > 0 && !(map[y - 1][x] is Block)
}

pub open spec fn open_down(map: Seq<Seq<Cell>>, x: int, y: int) -> bool {
    y + 1 < map.len() && !(map[y + 1][x] is Block)
}

/// The 4-bit openness flag of a cell: 1 for an open left neighbor, 2 for
/// right, 4 for up, 8 for down. Grid edges count as closed.
pub open spec fn flag_spec(map: Seq<Seq<Cell>>, x: int, y: int) -> u8 {
    ((if open_left(map, x, y) { 1int } else { 0 })
        + (if open_right(map, x, y) { 2int } else { 0 })
        + (if open_up(map, x, y) { 4int } else { 0 })
        + (if open_down(map, x, y) { 8int } else { 0 })) as u8
}

/// In a well-formed grid every row is as long as the grid itself.
pub proof fn lemma_row_len(map: Seq<Vec<Cell>>, y: int)
    requires
        grid_wf(gview(map)),
        0 <= y < map.len(),
    ensures
        gview(map)[y] == map[y]@,
        map[y]@.len() == map.len(),
{
    assert(gview(map)[y] == map[y]@);
    assert((#[trigger] gview(map)[y]).len() == gview(map).len());
}

/// Computes the openness flag of the cell at `(x, y)`.
pub fn cell_flag(map: &Vec<Vec<Cell>>, x: usize, y: usize) -> (flag: u8)
    requires
        grid_wf(gview(map@)),
        x < map@.len(),
        y < map@.len(),
    ensures
        flag == flag_spec(gview(map@), x as int, y as int),
{
    proof {
        lemma_row_len(map@, y as int);
        if y > 0 {
            lemma_row_len(map@, y - 1);
        }
        if y + 1 < map@.len() {
            lemma_row_len(map@, y + 1);
        }
    }
    let n = map.len();
    let mut flag: u8 = 0;
    if 0 < x && !map[y][x - 1].is_block() {
        flag = flag + 1;
    }
    if x + 1 < n && !map[y][x + 1].is_block() {
        flag = flag + 2;
    }
    if 0 < y && !map[y - 1][x].is_block() {
        flag = flag + 4;
    }
    if y + 1 < n && !map[y + 1][x].is_block() {
        flag = flag + 8;
    }
    flag
}

} // verus!
