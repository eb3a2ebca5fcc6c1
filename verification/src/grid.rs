use vstd::prelude::*;

verus! {

/// The cell marker of a spot that no word occupies yet.
pub open spec fn blank() -> char {
    ' '
}

/// Mathematical view of a puzzle grid: a sequence of rows, each a sequence
/// of characters.
pub open spec fn grid_view(g: Vec<Vec<char>>) -> Seq<Seq<char>> {
    g@.map_values(|row: Vec<char>| row@)
}

/// The common length of the grid's rows (0 for a grid with no rows).
pub open spec fn grid_width(g: Seq<Seq<char>>) -> int {
    if g.len() == 0 {
        0
    } else {
        g[0].len() as int
    }
}

/// The all-blank grid of the given dimensions.
pub open spec fn blank_grid(width: int, height: int) -> Seq<Seq<char>> {
    Seq::new(height as nat, |i: int| Seq::new(width as nat, |j: int| ' '))
}

/// A rectangular grid: every row has the same length.
pub open spec fn grid_wf(g: Seq<Seq<char>>) -> bool {
    forall|i: int| 0 <= i < g.len() ==> (#[trigger] g[i]).len() == grid_width(g)
}

/// Builds a grid of `height` rows, each of `width` blank cells.
pub fn generate_empty_puzzle(width: i16, height: i16) -> (puzzle: Vec<Vec<char>>)
    requires
        width >= 0,
        height >= 0,
    ensures
        grid_wf(grid_view(puzzle)),
        grid_view(puzzle).len() == height,
        grid_width(grid_view(puzzle)) == if height == 0 { 0int } else { width as int },
        forall|i: int| 0 <= i < height ==> (#[trigger] grid_view(puzzle)[i]).len() == width,
        forall|i: int, j: int|
            0 <= i < height && 0 <= j < width ==> grid_view(puzzle)[i][j] == blank(),
{
    let mut puzzle: Vec<Vec<char>> = Vec::new();
    let mut r: usize = 0;
    while r < height as usize
        invariant
            r <= height,
            height >= 0,
            width >= 0,
            puzzle@.len() == r,
            forall|i: int| 0 <= i < r ==> (#[trigger] puzzle@[i])@.len() == width,
            forall|i: int, j: int|
                0 <= i < r && 0 <= j < width ==> puzzle@[i]@[j] == blank(),
        decreases height - r,
    {
        let mut row: Vec<char> = Vec::new();
        let mut c: usize = 0;
        while c < width as usize
            invariant
                c <= width,
                width >= 0,
                row@.len() == c,
                forall|j: int| 0 <= j < c ==> row@[j] == blank(),
            decreases width - c,
        {
            row.push(' ');
            c = c + 1;
        }
        puzzle.push(row);
        r = r + 1;
    }
    puzzle
}

/// Writes one character into the grid cell at (row, column).
pub fn set_cell(puzzle: &mut Vec<Vec<char>>, row: usize, column: usize, value: char)
    requires
        row < old(puzzle)@.len(),
        column < old(puzzle)@[row as int]@.len(),
    ensures
        grid_view(*final(puzzle)) == grid_view(*old(puzzle)).update(
            row as int,
            grid_view(*old(puzzle))[row as int].update(column as int, value),
        ),
        final(puzzle)@.len() == old(puzzle)@.len(),
        forall|r: int|
            0 <= r < old(puzzle)@.len() ==> (#[trigger] final(puzzle)@[r])@.len() == old(
                puzzle,
            )@[r]@.len(),
{
    let ghost g0 = grid_view(*puzzle);
    let row_ref = &mut puzzle[row];
    let cell_ref = &mut row_ref[column];
    *cell_ref = value;
    proof {
        assert(grid_view(*puzzle) =~~= g0.update(
            row as int,
            g0[row as int].update(column as int, value),
        ));
    }
}

/// The view of a grid has one row view per row, in order.
pub proof fn lemma_grid_view_index(g: Vec<Vec<char>>, i: int)
    requires
        0 <= i < g@.len(),
    ensures
        grid_view(g).len() == g@.len(),
        grid_view(g)[i] == g@[i]@,
{
}

} // verus!
