use vstd::prelude::*;
use crate::direction::Direction;

verus! {

/// A grid position: (row, column), 0-indexed, row-major. The fields are
/// signed so that a position may step one cell out of bounds during a
/// search before its validity is checked.
#[derive(Debug, PartialEq, Eq, Structural, Clone, Copy)]
pub struct Coordinate {
    pub row: i16,
    pub column: i16,
}

impl Coordinate {
    pub fn new(row: i16, column: i16) -> (r: Coordinate)
        ensures
            r.row == row,
            r.column == column,
    {
        Coordinate { row, column }
    }

    /// Whether the position lies inside a `width` x `height` grid.
    pub open spec fn valid_spec(self, width: int, height: int) -> bool {
        0 <= self.row < height && 0 <= self.column < width
    }

    pub fn valid(&self, width: i16, height: i16) -> (r: bool)
        ensures
            r == self.valid_spec(width as int, height as int),
    {
        self.row >= 0 && self.row < height && self.column >= 0 && self.column < width
    }

    /// One step along a direction's unit row/column delta.
    pub open spec fn step_spec(self, direction: Direction) -> Coordinate {
        Coordinate {
            row: (self.row + direction.row_delta()) as i16,
            column: (self.column + direction.col_delta()) as i16,
        }
    }

    pub fn get_next_coordinate(&self, direction: &Direction) -> (r: Coordinate)
        requires
            i16::MIN < self.row < i16::MAX,
            i16::MIN < self.column < i16::MAX,
        ensures
            r == self.step_spec(*direction),
            r.row == self.row + direction.row_delta(),
            r.column == self.column + direction.col_delta(),
    {
        match direction {
            Direction::Up => Coordinate::new(self.row - 1, self.column),
            Direction::Down => Coordinate::new(self.row + 1, self.column),
            Direction::Left => Coordinate::new(self.row, self.column - 1),
            Direction::Right => Coordinate::new(self.row, self.column + 1),
            Direction::UpLeft => Coordinate::new(self.row - 1, self.column - 1),
            Direction::UpRight => Coordinate::new(self.row - 1, self.column + 1),
            Direction::DownLeft => Coordinate::new(self.row + 1, self.column - 1),
            Direction::DownRight => Coordinate::new(self.row + 1, self.column + 1),
        }
    }

    /// The next position in row-major raster order, wrapping from the end
    /// of a row to the next row and from the last cell back to (0, 0).
    pub open spec fn raster_next_spec(self, width: int, height: int) -> Coordinate {
        if self.column + 1 < width {
            Coordinate { row: self.row, column: (self.column + 1) as i16 }
        } else if self.row + 1 < height {
            Coordinate { row: (self.row + 1) as i16, column: 0 }
        } else {
            Coordinate { row: 0, column: 0 }
        }
    }

    pub fn get_next_coordinate_for_size(&self, width: i16, height: i16) -> (r: Coordinate)
        requires
            self.row < i16::MAX,
            self.column < i16::MAX,
        ensures
            r == self.raster_next_spec(width as int, height as int),
    {
        if self.column + 1 < width {
            Coordinate::new(self.row, self.column + 1)
        } else if self.row + 1 < height {
            Coordinate::new(self.row + 1, 0)
        } else {
            Coordinate::new(0, 0)
        }
    }

    /// Row-major cell index of the position.
    pub open spec fn raster_index(self, width: int) -> int {
        self.row * width + self.column
    }

    /// How many raster steps it takes to reach `origin` from this position,
    /// counting a full cycle of `width * height` steps when the two are equal.
    pub open spec fn raster_distance(self, origin: Coordinate, width: int, height: int) -> int {
        if self.raster_index(width) < origin.raster_index(width) {
            origin.raster_index(width) - self.raster_index(width)
        } else {
            width * height - (self.raster_index(width) - origin.raster_index(width))
        }
    }
}

/// A valid position's raster index lies in `[0, width * height)`.
pub proof fn lemma_raster_index_bounds(c: Coordinate, width: int, height: int)
    requires
        c.valid_spec(width, height),
    ensures
        0 <= c.raster_index(width) < width * height,
{
    assert(0 <= c.row * width + c.column < width * height) by (nonlinear_arith)
        requires
            0 <= c.row < height,
            0 <= c.column < width,
    ;
}

/// Distinct valid positions have distinct raster indices.
pub proof fn lemma_raster_index_injective(a: Coordinate, b: Coordinate, width: int, height: int)
    requires
        a.valid_spec(width, height),
        b.valid_spec(width, height),
        a.raster_index(width) == b.raster_index(width),
    ensures
        a == b,
{
    assert(a.row == b.row && a.column == b.column) by (nonlinear_arith)
        requires
            0 <= a.row < height,
            0 <= a.column < width,
            0 <= b.row < height,
            0 <= b.column < width,
            a.row * width + a.column == b.row * width + b.column,
    ;
}

/// Advancing in raster order from a valid position yields a valid position
/// whose raster index is one higher, wrapping to 0 from the last cell.
pub proof fn lemma_raster_next(c: Coordinate, width: int, height: int)
    requires
        c.valid_spec(width, height),
        1 <= width <= i16::MAX,
        1 <= height <= i16::MAX,
    ensures
        c.raster_next_spec(width, height).valid_spec(width, height),
        c.raster_index(width) == width * height - 1 ==> c.raster_next_spec(
            width,
            height,
        ).raster_index(width) == 0,
        c.raster_index(width) < width * height - 1 ==> c.raster_next_spec(
            width,
            height,
        ).raster_index(width) == c.raster_index(width) + 1,
{
    lemma_raster_index_bounds(c, width, height);
    let n = c.raster_next_spec(width, height);
    if c.column + 1 < width {
        assert(n.raster_index(width) == c.raster_index(width) + 1);
        assert(c.raster_index(width) < width * height - 1) by (nonlinear_arith)
            requires
                0 <= c.row < height,
                0 <= c.column,
                c.column + 1 < width,
        ;
    } else if c.row + 1 < height {
        assert(c.column == width - 1);
        assert(n.raster_index(width) == (c.row + 1) * width);
        assert((c.row + 1) * width == c.row * width + width) by (nonlinear_arith);
        assert(c.raster_index(width) < width * height - 1) by (nonlinear_arith)
            requires
                0 <= c.row,
                c.row + 1 < height,
                c.column == width - 1,
                width >= 1,
        ;
    } else {
        assert(c.column == width - 1 && c.row == height - 1);
        assert(c.raster_index(width) == (height - 1) * width + width - 1);
        assert((height - 1) * width + width - 1 == width * height - 1) by (nonlinear_arith);
        assert(n.raster_index(width) == 0);
    }
}

/// Two valid positions at the same raster distance from an origin are the
/// same position.
pub proof fn lemma_raster_distance_injective(
    c1: Coordinate,
    c2: Coordinate,
    origin: Coordinate,
    width: int,
    height: int,
)
    requires
        c1.valid_spec(width, height),
        c2.valid_spec(width, height),
        origin.valid_spec(width, height),
        c1.raster_distance(origin, width, height) == c2.raster_distance(origin, width, height),
    ensures
        c1 == c2,
{
    lemma_raster_index_bounds(c1, width, height);
    lemma_raster_index_bounds(c2, width, height);
    lemma_raster_index_bounds(origin, width, height);
    if c1.raster_index(width) == c2.raster_index(width) {
        lemma_raster_index_injective(c1, c2, width, height);
    }
}

/// The raster distance to the origin is the full grid size exactly at the
/// origin itself.
pub proof fn lemma_raster_distance_full(c: Coordinate, origin: Coordinate, width: int, height: int)
    requires
        c.valid_spec(width, height),
        origin.valid_spec(width, height),
        1 <= width,
        1 <= height,
    ensures
        c.raster_distance(origin, width, height) == width * height <==> c == origin,
{
    lemma_raster_index_bounds(c, width, height);
    lemma_raster_index_bounds(origin, width, height);
    if c.raster_index(width) == origin.raster_index(width) {
        lemma_raster_index_injective(c, origin, width, height);
    }
}

/// Advancing in raster order shortens the raster distance to the origin by
/// one, until the origin itself is reached again.
pub proof fn lemma_raster_distance_step(c: Coordinate, origin: Coordinate, width: int, height: int)
    requires
        c.valid_spec(width, height),
        origin.valid_spec(width, height),
        1 <= width <= i16::MAX,
        1 <= height <= i16::MAX,
    ensures
        1 <= c.raster_distance(origin, width, height) <= width * height,
        c.raster_next_spec(width, height) == origin <==> c.raster_distance(origin, width, height)
            == 1,
        c.raster_next_spec(width, height) != origin ==> c.raster_next_spec(
            width,
            height,
        ).raster_distance(origin, width, height) == c.raster_distance(origin, width, height) - 1,
{
    lemma_raster_index_bounds(c, width, height);
    lemma_raster_index_bounds(origin, width, height);
    lemma_raster_next(c, width, height);
    let n = c.raster_next_spec(width, height);
    if n.raster_index(width) == origin.raster_index(width) {
        lemma_raster_index_injective(n, origin, width, height);
    }
}

} // verus!
