//! The `Square` type: a square region of a grid given by its top-left corner and its side.
use vstd::prelude::*;

use crate::grid::{Grid, World};

verus! {

/// A square region: `y` is the row and `x` the column of its top-left corner, `size` its side.
#[derive(Debug, Clone, Copy, PartialEq, Eq, Structural)]
pub struct Square {
    pub x: usize,
    pub y: usize,
    pub size: usize,
}

impl Square {
    /// Builds a square from `(row, column, side)`.
    pub fn new(coords: (usize, usize, usize)) -> (s: Square)
        ensures
            s.y == coords.0,
            s.x == coords.1,
            s.size == coords.2,
    {
        let (y, x, size) = coords;
        Square { y, x, size }
    }
}

/// The `size`×`size` block whose top-left corner is row `r`, column `c` lies within the grid
/// and all its cells are free. A block of side 0 is empty when its corner is within bounds.
pub open spec fn is_empty_square(g: Grid, r: int, c: int, size: int) -> bool {
    &&& 0 <= r
    &&& 0 <= c
    &&& 0 <= size
    &&& r + size <= g.height
    &&& c + size <= g.width
    &&& forall|i: int, j: int| r <= i < r + size && c <= j < c + size ==> #[trigger] g.is_free(i, j)
}

/// The cells that growing the `size`×`size` block at row `r`, column `c` by one adds (column
/// `c + size` of rows `r` to `r + size`, and row `r + size` of columns `c` to `c + size`) lie
/// within the grid and are free.
pub open spec fn border_is_free(g: Grid, r: int, c: int, size: int) -> bool {
    &&& 0 <= r
    &&& 0 <= c
    &&& 0 <= size
    &&& r + size + 1 <= g.height
    &&& c + size + 1 <= g.width
    &&& forall|i: int| r <= i <= r + size ==> #[trigger] g.is_free(i, c + size)
    &&& forall|j: int| c <= j <= c + size ==> #[trigger] g.is_free(r + size, j)
}

/// A block inside an empty square, sharing its top-left corner, is empty too.
pub proof fn lemma_empty_square_shrinks(g: Grid, r: int, c: int, size: int, smaller: int)
    requires
        is_empty_square(g, r, c, size),
        0 <= smaller <= size,
    ensures
        is_empty_square(g, r, c, smaller),
{
    assert forall|i: int, j: int| r <= i < r + smaller && c <= j < c + smaller implies #[trigger] g.is_free(i, j) by {
        assert(g.is_free(i, j));
    }
}

/// An empty square whose border is free grows into an empty square one larger.
pub proof fn lemma_border_grows_square(g: Grid, r: int, c: int, size: int)
    requires
        is_empty_square(g, r, c, size),
    ensures
        is_empty_square(g, r, c, size + 1) == border_is_free(g, r, c, size),
{
    if border_is_free(g, r, c, size) {
        assert forall|i: int, j: int| r <= i < r + size + 1 && c <= j < c + size + 1 implies #[trigger] g.is_free(i, j) by {
            if i == r + size {
                assert(g.is_free(r + size, j));
            } else if j == c + size {
                assert(g.is_free(i, c + size));
            }
        }
    }
    if is_empty_square(g, r, c, size + 1) {
        assert forall|i: int| r <= i <= r + size implies #[trigger] g.is_free(i, c + size) by {
            assert(g.is_free(i, c + size));
        }
        assert forall|j: int| c <= j <= c + size implies #[trigger] g.is_free(r + size, j) by {
            assert(g.is_free(r + size, j));
        }
    }
}

/// Whether the square `s` lies within the grid of `world` and all its cells are free.
pub fn is_square_valid(world: &World, s: &Square) -> (b: bool)
    ensures
        b == is_empty_square(world@, s.y as int, s.x as int, s.size as int),
{
    let height = world.height();
    let width = world.width();
    if s.size > height || s.y > height - s.size || s.size > width || s.x > width - s.size {
        return false;
    }
    let bottom = s.y + s.size;
    let right = s.x + s.size;
    let mut i: usize = s.y;
    while i < bottom
        invariant
            s.y <= i <= bottom,
            bottom == s.y + s.size <= world@.height,
            right == s.x + s.size <= world@.width,
            forall|a: int, b: int| s.y <= a < i && s.x <= b < right ==> #[trigger] world@.is_free(a, b),
        decreases bottom - i,
    {
        let mut j: usize = s.x;
        while j < right
            invariant
                s.y <= i < bottom,
                s.x <= j <= right,
                bottom == s.y + s.size <= world@.height,
                right == s.x + s.size <= world@.width,
                forall|a: int, b: int| s.y <= a < i && s.x <= b < right ==> #[trigger] world@.is_free(a, b),
                forall|b: int| s.x <= b < j ==> #[trigger] world@.is_free(i as int, b),
            decreases right - j,
        {
            if !world.free_at(i, j) {
                return false;
            }
            j += 1;
        }
        i += 1;
    }
    true
}

/// Whether the cells that growing the square `s` by one adds lie within the grid and are free;
/// when `s` itself is empty, this says whether the square one larger is.
pub fn is_square_enlargment_valid(world: &World, s: &Square) -> (b: bool)
    ensures
        b == border_is_free(world@, s.y as int, s.x as int, s.size as int),
        is_empty_square(world@, s.y as int, s.x as int, s.size as int) ==> b == is_empty_square(
            world@,
            s.y as int,
            s.x as int,
            s.size + 1,
        ),
{
    proof {
        if is_empty_square(world@, s.y as int, s.x as int, s.size as int) {
            lemma_border_grows_square(world@, s.y as int, s.x as int, s.size as int);
        }
    }
    let height = world.height();
    let width = world.width();
    if s.size >= height || s.y >= height - s.size || s.size >= width || s.x >= width - s.size {
        return false;
    }
    let bottom = s.y + s.size;
    let right = s.x + s.size;
    let mut i: usize = s.y;
    while i <= bottom
        invariant
            s.y <= i <= bottom + 1,
            bottom < height,
            bottom == s.y + s.size < world@.height,
            right == s.x + s.size < world@.width,
            forall|a: int| s.y <= a < i ==> #[trigger] world@.is_free(a, right as int),
        decreases bottom + 1 - i,
    {
        if !world.free_at(i, right) {
            return false;
        }
        i += 1;
    }
    let mut j: usize = s.x;
    while j <= right
        invariant
            s.x <= j <= right + 1,
            right < width,
            bottom == s.y + s.size < world@.height,
            right == s.x + s.size < world@.width,
            forall|a: int| s.y <= a <= bottom ==> #[trigger] world@.is_free(a, right as int),
            forall|b: int| s.x <= b < j ==> #[trigger] world@.is_free(bottom as int, b),
        decreases right + 1 - j,
    {
        if !world.free_at(bottom, j) {
            return false;
        }
        j += 1;
    }
    true
}

/// The side of the largest empty square whose top-left corner is the free cell at
/// `(row, column)`.
pub fn get_max_size_from_coords(world: &World, coords: (usize, usize)) -> (size: usize)
    requires
        world@.is_free(coords.0 as int, coords.1 as int),
    ensures
        size >= 1,
        is_empty_square(world@, coords.0 as int, coords.1 as int, size as int),
        forall|k: int| k > size ==> !is_empty_square(world@, coords.0 as int, coords.1 as int, k),
{
    let (y, x) = coords;
    let height = world.height();
    let mut max_size: usize = 1;
    assert(is_empty_square(world@, y as int, x as int, 1)) by {
        assert forall|i: int, j: int| y <= i < y + 1 && x <= j < x + 1 implies #[trigger] world@.is_free(i, j) by {
            assert(i == y && j == x);
        }
    }
    loop
        invariant
            y == coords.0,
            x == coords.1,
            height == world@.height,
            max_size >= 1,
            is_empty_square(world@, y as int, x as int, max_size as int),
        decreases world@.height - max_size,
    {
        if !is_square_enlargment_valid(world, &Square { y, x, size: max_size }) {
            assert forall|k: int| k > max_size implies !is_empty_square(world@, y as int, x as int, k) by {
                if is_empty_square(world@, y as int, x as int, k) {
                    lemma_empty_square_shrinks(world@, y as int, x as int, k, max_size + 1);
                }
            }
            return max_size;
        }
        max_size += 1;
    }
}

} // verus!
