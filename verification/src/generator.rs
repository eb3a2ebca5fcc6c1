use vstd::prelude::*;
use crate::coordinate::Coordinate;
use crate::direction::Direction;
use crate::grid::{blank, blank_grid, grid_view, grid_width, grid_wf, set_cell};
use rand::Rng;
use vstd::string::StrSliceExecFns;

verus! {

/// A run of `len` cells starting at (row, col) and advancing along `d` can
/// take a word: every cell of the run lies inside the grid and is blank.
/// Cells already holding a letter block placement even when the letter
/// would match the word.
pub open spec fn fits(g: Seq<Seq<char>>, row: int, col: int, d: Direction, len: nat) -> bool
    decreases len,
{
    len == 0 || {
        &&& 0 <= row < g.len()
        &&& 0 <= col < grid_width(g)
        &&& g[row][col] == blank()
        &&& fits(g, row + d.row_delta(), col + d.col_delta(), d, (len - 1) as nat)
    }
}

/// The row of the `k`-th cell of a run that starts at `row` and advances
/// along `d`.
pub open spec fn path_row(row: int, d: Direction, k: int) -> int {
    row + k * d.row_delta()
}

/// The column of the `k`-th cell of a run that starts at `col` and advances
/// along `d`.
pub open spec fn path_col(col: int, d: Direction, k: int) -> int {
    col + k * d.col_delta()
}

/// Whether (i, j) is one of the first `len` cells of the run that starts at
/// (row, col) and advances along `d`.
pub open spec fn on_path(row: int, col: int, d: Direction, len: nat, i: int, j: int) -> bool {
    exists|k: int|
        0 <= k < len && i == #[trigger] path_row(row, d, k) && j == #[trigger] path_col(col, d, k)
}

/// The `k`-th cell of the run starting at (row, col) along `d` lies in the
/// grid and holds the `k`-th character of `w`.
pub open spec fn spelled_cell(
    g: Seq<Seq<char>>,
    row: int,
    col: int,
    d: Direction,
    w: Seq<char>,
    k: int,
) -> bool {
    &&& 0 <= path_row(row, d, k) < g.len()
    &&& 0 <= path_col(col, d, k) < grid_width(g)
    &&& g[path_row(row, d, k)][path_col(col, d, k)] == w[k]
}

/// The word `w` stands written in the grid along the run that starts at
/// (row, col) and advances along `d`.
pub open spec fn spelled_at(
    g: Seq<Seq<char>>,
    row: int,
    col: int,
    d: Direction,
    w: Seq<char>,
) -> bool {
    forall|k: int| 0 <= k < w.len() ==> #[trigger] spelled_cell(g, row, col, d, w, k)
}

/// The second grid has the same shape as the first and keeps every cell of
/// the first that already held something other than the blank marker.
pub open spec fn preserves_letters(g1: Seq<Seq<char>>, g2: Seq<Seq<char>>) -> bool {
    &&& g2.len() == g1.len()
    &&& grid_width(g2) == grid_width(g1)
    &&& forall|i: int, j: int|
        0 <= i < g1.len() && 0 <= j < grid_width(g1) && g1[i][j] != blank() ==> #[trigger] g2[i][j]
            == g1[i][j]
}

/// A word of length zero fits at any position, in any direction, on any
/// grid contents.
pub proof fn lemma_fits_empty(g: Seq<Seq<char>>, row: int, col: int, d: Direction)
    ensures
        fits(g, row, col, d, 0),
{
}

/// When a word fits, the `k`-th cell of its run is in bounds and blank.
pub proof fn lemma_fits_path(g: Seq<Seq<char>>, row: int, col: int, d: Direction, len: nat, k: int)
    requires
        fits(g, row, col, d, len),
        0 <= k < len,
    ensures
        0 <= path_row(row, d, k) < g.len(),
        0 <= path_col(col, d, k) < grid_width(g),
        g[path_row(row, d, k)][path_col(col, d, k)] == blank(),
    decreases len,
{
    if k > 0 {
        lemma_fits_path(g, row + d.row_delta(), col + d.col_delta(), d, (len - 1) as nat, k - 1);
        assert(path_row(row, d, k) == path_row(row + d.row_delta(), d, k - 1));
        assert(path_col(col, d, k) == path_col(col + d.col_delta(), d, k - 1));
    }
}

/// The grid after writing `w` into it cell by cell, starting at (row, col)
/// and advancing along `d`.
pub open spec fn place_grid_spec(
    g: Seq<Seq<char>>,
    row: int,
    col: int,
    d: Direction,
    w: Seq<char>,
) -> Seq<Seq<char>>
    decreases w.len(),
{
    if w.len() == 0 {
        g
    } else {
        place_grid_spec(
            g.update(row, g[row].update(col, w[0])),
            row + d.row_delta(),
            col + d.col_delta(),
            d,
            w.drop_first(),
        )
    }
}

/// The `k + 1`-st cell of a run is the `k`-th cell of the run shortened by
/// its head, and the 0-th cell is the start itself.
pub proof fn lemma_path_step(row: int, col: int, d: Direction, k: int)
    ensures
        path_row(row, d, k + 1) == path_row(row + d.row_delta(), d, k),
        path_col(col, d, k + 1) == path_col(col + d.col_delta(), d, k),
        path_row(row, d, k + 1) == path_row(row, d, k) + d.row_delta(),
        path_col(col, d, k + 1) == path_col(col, d, k) + d.col_delta(),
        path_row(row, d, 0) == row,
        path_col(col, d, 0) == col,
{
    assert((k + 1) * d.row_delta() == d.row_delta() + k * d.row_delta()) by (nonlinear_arith);
    assert((k + 1) * d.col_delta() == d.col_delta() + k * d.col_delta()) by (nonlinear_arith);
    assert(0 * d.row_delta() == 0) by (nonlinear_arith);
    assert(0 * d.col_delta() == 0) by (nonlinear_arith);
}

/// Two distinct steps of a run land on distinct cells: a direction moves by
/// at least one row or one column per step.
pub proof fn lemma_path_injective(row: int, col: int, d: Direction, k1: int, k2: int)
    requires
        k1 != k2,
    ensures
        path_row(row, d, k1) != path_row(row, d, k2) || path_col(col, d, k1) != path_col(
            col,
            d,
            k2,
        ),
{
    if d.row_delta() != 0 {
        assert(row + k1 * d.row_delta() != row + k2 * d.row_delta()) by (nonlinear_arith)
            requires
                k1 != k2,
                d.row_delta() != 0,
        ;
    } else {
        assert(d.col_delta() != 0);
        assert(col + k1 * d.col_delta() != col + k2 * d.col_delta()) by (nonlinear_arith)
            requires
                k1 != k2,
                d.col_delta() != 0,
        ;
    }
}

/// The first cell of a run does not reappear among the later cells.
pub proof fn lemma_head_not_on_tail(row: int, col: int, d: Direction, len: nat)
    requires
        len >= 1,
    ensures
        !on_path(row + d.row_delta(), col + d.col_delta(), d, (len - 1) as nat, row, col),
{
    if on_path(row + d.row_delta(), col + d.col_delta(), d, (len - 1) as nat, row, col) {
        let k = choose|k: int|
            0 <= k < (len - 1) as nat && row == #[trigger] path_row(row + d.row_delta(), d, k)
                && col == #[trigger] path_col(col + d.col_delta(), d, k);
        lemma_path_step(row, col, d, k);
        lemma_path_injective(row, col, d, k + 1, 0);
    }
}

/// A cell off a run can not enter it when the run is shortened by its head.
pub proof fn lemma_off_path_shrinks(row: int, col: int, d: Direction, len: nat, i: int, j: int)
    requires
        len >= 1,
        !on_path(row, col, d, len, i, j),
    ensures
        !on_path(row + d.row_delta(), col + d.col_delta(), d, (len - 1) as nat, i, j),
{
    if on_path(row + d.row_delta(), col + d.col_delta(), d, (len - 1) as nat, i, j) {
        let k = choose|k: int|
            0 <= k < (len - 1) as nat && i == #[trigger] path_row(row + d.row_delta(), d, k) && j
                == #[trigger] path_col(col + d.col_delta(), d, k);
        lemma_path_step(row, col, d, k);
        assert(i == path_row(row, d, k + 1) && j == path_col(col, d, k + 1));
    }
}

/// Writing a cell that lies off a run does not change whether a word fits
/// along that run.
pub proof fn lemma_fits_update(
    g: Seq<Seq<char>>,
    row: int,
    col: int,
    d: Direction,
    len: nat,
    ur: int,
    uc: int,
    x: char,
)
    requires
        grid_wf(g),
        fits(g, row, col, d, len),
        !on_path(row, col, d, len, ur, uc),
        0 <= ur < g.len(),
        0 <= uc < grid_width(g),
    ensures
        fits(g.update(ur, g[ur].update(uc, x)), row, col, d, len),
    decreases len,
{
    if len > 0 {
        let g2 = g.update(ur, g[ur].update(uc, x));
        lemma_path_step(row, col, d, 0);
        assert(!(ur == row && uc == col));
        assert(g2.len() == g.len());
        assert(g2[0].len() == g[0].len());
        assert(grid_width(g2) == grid_width(g));
        assert(g2[row][col] == blank());
        lemma_off_path_shrinks(row, col, d, len, ur, uc);
        lemma_fits_update(
            g,
            row + d.row_delta(),
            col + d.col_delta(),
            d,
            (len - 1) as nat,
            ur,
            uc,
            x,
        );
    }
}

/// A word that fits along a run also fits along any prefix of that run.
pub proof fn lemma_fits_prefix(g: Seq<Seq<char>>, row: int, col: int, d: Direction, len: nat, k: nat)
    requires
        fits(g, row, col, d, len),
        k <= len,
    ensures
        fits(g, row, col, d, k),
    decreases len,
{
    if k > 0 {
        lemma_fits_prefix(
            g,
            row + d.row_delta(),
            col + d.col_delta(),
            d,
            (len - 1) as nat,
            (k - 1) as nat,
        );
    }
}

/// Writing a word that fits keeps the grid's shape.
pub proof fn lemma_place_shape(g: Seq<Seq<char>>, row: int, col: int, d: Direction, w: Seq<char>)
    requires
        grid_wf(g),
        fits(g, row, col, d, w.len()),
    ensures
        place_grid_spec(g, row, col, d, w).len() == g.len(),
        grid_width(place_grid_spec(g, row, col, d, w)) == grid_width(g),
        grid_wf(place_grid_spec(g, row, col, d, w)),
    decreases w.len(),
{
    if w.len() > 0 {
        let g1 = g.update(row, g[row].update(col, w[0]));
        assert(g1.len() == g.len());
        assert(g1[0].len() == g[0].len());
        assert(grid_width(g1) == grid_width(g));
        assert(grid_wf(g1));
        lemma_head_not_on_tail(row, col, d, w.len());
        lemma_fits_update(
            g,
            row + d.row_delta(),
            col + d.col_delta(),
            d,
            (w.len() - 1) as nat,
            row,
            col,
            w[0],
        );
        lemma_place_shape(g1, row + d.row_delta(), col + d.col_delta(), d, w.drop_first());
    }
}

/// Cells off the run keep their previous contents when a word is written.
pub proof fn lemma_place_off_path(
    g: Seq<Seq<char>>,
    row: int,
    col: int,
    d: Direction,
    w: Seq<char>,
    i: int,
    j: int,
)
    requires
        grid_wf(g),
        fits(g, row, col, d, w.len()),
        0 <= i < g.len(),
        0 <= j < grid_width(g),
        !on_path(row, col, d, w.len(), i, j),
    ensures
        place_grid_spec(g, row, col, d, w)[i][j] == g[i][j],
    decreases w.len(),
{
    if w.len() > 0 {
        let g1 = g.update(row, g[row].update(col, w[0]));
        lemma_path_step(row, col, d, 0);
        assert(!(i == row && j == col));
        assert(g1[i][j] == g[i][j]);
        assert(grid_width(g1) == grid_width(g));
        assert(grid_wf(g1));
        lemma_head_not_on_tail(row, col, d, w.len());
        lemma_fits_update(
            g,
            row + d.row_delta(),
            col + d.col_delta(),
            d,
            (w.len() - 1) as nat,
            row,
            col,
            w[0],
        );
        lemma_off_path_shrinks(row, col, d, w.len(), i, j);
        lemma_place_off_path(
            g1,
            row + d.row_delta(),
            col + d.col_delta(),
            d,
            w.drop_first(),
            i,
            j,
        );
    }
}

/// The `k`-th cell of the run holds the `k`-th character after the word is
/// written.
pub proof fn lemma_place_on_path(
    g: Seq<Seq<char>>,
    row: int,
    col: int,
    d: Direction,
    w: Seq<char>,
    k: int,
)
    requires
        grid_wf(g),
        fits(g, row, col, d, w.len()),
        0 <= k < w.len(),
    ensures
        place_grid_spec(g, row, col, d, w)[path_row(row, d, k)][path_col(col, d, k)] == w[k],
    decreases w.len(),
{
    let g1 = g.update(row, g[row].update(col, w[0]));
    assert(grid_width(g1) == grid_width(g));
    assert(grid_wf(g1));
    lemma_head_not_on_tail(row, col, d, w.len());
    lemma_fits_update(
        g,
        row + d.row_delta(),
        col + d.col_delta(),
        d,
        (w.len() - 1) as nat,
        row,
        col,
        w[0],
    );
    if k == 0 {
        lemma_path_step(row, col, d, 0);
        assert(g1[row][col] == w[0]);
        lemma_place_off_path(
            g1,
            row + d.row_delta(),
            col + d.col_delta(),
            d,
            w.drop_first(),
            row,
            col,
        );
    } else {
        lemma_place_on_path(
            g1,
            row + d.row_delta(),
            col + d.col_delta(),
            d,
            w.drop_first(),
            k - 1,
        );
        lemma_path_step(row, col, d, k - 1);
    }
}

/// Round trip: after a word that fits is written, reading the grid along
/// the same start and direction gives back exactly the word's characters,
/// and every cell that already held a letter is untouched.
pub proof fn lemma_place_round_trip(
    g: Seq<Seq<char>>,
    row: int,
    col: int,
    d: Direction,
    w: Seq<char>,
)
    requires
        grid_wf(g),
        fits(g, row, col, d, w.len()),
    ensures
        spelled_at(place_grid_spec(g, row, col, d, w), row, col, d, w),
        preserves_letters(g, place_grid_spec(g, row, col, d, w)),
    decreases w.len(),
{
    let g2 = place_grid_spec(g, row, col, d, w);
    lemma_place_shape(g, row, col, d, w);
    assert forall|k: int| 0 <= k < w.len() implies #[trigger] spelled_cell(
        g2,
        row,
        col,
        d,
        w,
        k,
    ) by {
        lemma_fits_path(g, row, col, d, w.len(), k);
        lemma_place_on_path(g, row, col, d, w, k);
    }
    assert forall|i: int, j: int|
        0 <= i < g.len() && 0 <= j < grid_width(g) && g[i][j] != blank() implies #[trigger] g2[i][j]
        == g[i][j] by {
        if on_path(row, col, d, w.len(), i, j) {
            let k = choose|k: int|
                0 <= k < w.len() && i == #[trigger] path_row(row, d, k) && j == #[trigger] path_col(
                    col,
                    d,
                    k,
                );
            lemma_fits_path(g, row, col, d, w.len(), k);
        } else {
            lemma_place_off_path(g, row, col, d, w, i, j);
        }
    }
}

/// Writing a word extended by one character is writing the word and then
/// one more cell at the next step of the run.
pub proof fn lemma_place_snoc(
    g: Seq<Seq<char>>,
    row: int,
    col: int,
    d: Direction,
    w: Seq<char>,
    x: char,
)
    ensures
        place_grid_spec(g, row, col, d, w.push(x)) == ({
            let g2 = place_grid_spec(g, row, col, d, w);
            g2.update(
                path_row(row, d, w.len() as int),
                g2[path_row(row, d, w.len() as int)].update(path_col(col, d, w.len() as int), x),
            )
        }),
    decreases w.len(),
{
    lemma_path_step(row, col, d, 0);
    if w.len() == 0 {
        reveal_with_fuel(place_grid_spec, 2);
        assert(w.push(x)[0] == x);
        assert(w.push(x).drop_first() =~= Seq::<char>::empty());
    } else {
        let g1 = g.update(row, g[row].update(col, w[0]));
        assert(w.push(x)[0] == w[0]);
        assert(w.push(x).drop_first() =~= w.drop_first().push(x));
        lemma_place_snoc(g1, row + d.row_delta(), col + d.col_delta(), d, w.drop_first(), x);
        lemma_path_step(row, col, d, w.len() as int - 1);
    }
}

/// Writes the word into the grid one character per cell, starting at the
/// given coordinate and advancing along the given direction.
pub fn place_word(
    puzzle: &mut Vec<Vec<char>>,
    coordinate: &Coordinate,
    direction: &Direction,
    word: &str,
)
    requires
        grid_wf(grid_view(*old(puzzle))),
        old(puzzle)@.len() <= i16::MAX,
        grid_width(grid_view(*old(puzzle))) <= i16::MAX,
        fits(
            grid_view(*old(puzzle)),
            coordinate.row as int,
            coordinate.column as int,
            *direction,
            word@.len(),
        ),
    ensures
        grid_view(*final(puzzle)) == place_grid_spec(
            grid_view(*old(puzzle)),
            coordinate.row as int,
            coordinate.column as int,
            *direction,
            word@,
        ),
{
    let ghost g0 = grid_view(*puzzle);
    let ghost row0: int = coordinate.row as int;
    let ghost col0: int = coordinate.column as int;
    let len = word.unicode_len();
    let mut cur: Coordinate = *coordinate;
    let mut k: usize = 0;
    while k < len
        invariant
            k <= len,
            len == word@.len(),
            grid_wf(g0),
            g0.len() <= i16::MAX,
            grid_width(g0) <= i16::MAX,
            fits(g0, row0, col0, *direction, len as nat),
            cur.row as int == path_row(row0, *direction, k as int),
            cur.column as int == path_col(col0, *direction, k as int),
            grid_view(*puzzle) == place_grid_spec(g0, row0, col0, *direction, word@.take(
                k as int,
            )),
        decreases len - k,
    {
        proof {
            lemma_fits_prefix(g0, row0, col0, *direction, len as nat, k as nat);
            lemma_place_shape(g0, row0, col0, *direction, word@.take(k as int));
            lemma_fits_path(g0, row0, col0, *direction, len as nat, k as int);
            assert(grid_view(*puzzle)[cur.row as int] == puzzle@[cur.row as int]@);
        }
        let ch = word.get_char(k);
        set_cell(puzzle, cur.row as usize, cur.column as usize, ch);
        proof {
            lemma_place_snoc(g0, row0, col0, *direction, word@.take(k as int), word@[k as int]);
            assert(word@.take(k as int).push(word@[k as int]) =~= word@.take(k as int + 1));
            lemma_path_step(row0, col0, *direction, k as int);
        }
        cur = cur.get_next_coordinate(direction);
        k = k + 1;
    }
    proof {
        assert(word@.take(len as int) =~= word@);
    }
}

/// The deterministic sweep that looks for a spot where a word of length
/// `len` fits. From (cur, dir) it tries every direction at the current
/// coordinate in cyclic order, then moves to the next raster coordinate,
/// and gives up when the sweep returns to (origin, origin_dir).
pub open spec fn search_spec(
    g: Seq<Seq<char>>,
    len: nat,
    cur: Coordinate,
    dir: Direction,
    origin: Coordinate,
    origin_dir: Direction,
) -> Option<(Coordinate, Direction)>
    decreases cur.raster_distance(origin, grid_width(g), g.len() as int), dir.cyclic_distance(
        origin_dir,
    ),
        when (cur.valid_spec(grid_width(g), g.len() as int) && origin.valid_spec(
        grid_width(g),
        g.len() as int,
    ) && 1 <= grid_width(g) <= i16::MAX && 1 <= g.len() <= i16::MAX)
{
    if fits(g, cur.row as int, cur.column as int, dir, len) {
        Some((cur, dir))
    } else {
        let d2 = dir.next_spec();
        if d2 == origin_dir {
            let c2 = cur.raster_next_spec(grid_width(g), g.len() as int);
            if c2 == origin {
                None
            } else {
                proof {
                    crate::coordinate::lemma_raster_distance_step(
                        cur,
                        origin,
                        grid_width(g),
                        g.len() as int,
                    );
                    crate::coordinate::lemma_raster_next(cur, grid_width(g), g.len() as int);
                }
                search_spec(g, len, c2, d2, origin, origin_dir)
            }
        } else {
            proof {
                crate::direction::lemma_cyclic_distance_step(dir, origin_dir);
            }
            search_spec(g, len, cur, d2, origin, origin_dir)
        }
    }
}

/// Whatever spot the sweep returns is a valid position where the word
/// really fits.
pub proof fn lemma_search_finds_fit(
    g: Seq<Seq<char>>,
    len: nat,
    cur: Coordinate,
    dir: Direction,
    origin: Coordinate,
    origin_dir: Direction,
)
    requires
        cur.valid_spec(grid_width(g), g.len() as int),
        origin.valid_spec(grid_width(g), g.len() as int),
        1 <= grid_width(g) <= i16::MAX,
        1 <= g.len() <= i16::MAX,
    ensures
        match search_spec(g, len, cur, dir, origin, origin_dir) {
            Some(placement) => placement.0.valid_spec(grid_width(g), g.len() as int) && fits(
                g,
                placement.0.row as int,
                placement.0.column as int,
                placement.1,
                len,
            ),
            None => true,
        },
    decreases cur.raster_distance(origin, grid_width(g), g.len() as int), dir.cyclic_distance(
        origin_dir,
    ),
{
    if !fits(g, cur.row as int, cur.column as int, dir, len) {
        let d2 = dir.next_spec();
        if d2 == origin_dir {
            let c2 = cur.raster_next_spec(grid_width(g), g.len() as int);
            if c2 != origin {
                crate::coordinate::lemma_raster_distance_step(
                    cur,
                    origin,
                    grid_width(g),
                    g.len() as int,
                );
                crate::coordinate::lemma_raster_next(cur, grid_width(g), g.len() as int);
                lemma_search_finds_fit(g, len, c2, d2, origin, origin_dir);
            }
        } else {
            crate::direction::lemma_cyclic_distance_step(dir, origin_dir);
            lemma_search_finds_fit(g, len, cur, d2, origin, origin_dir);
        }
    }
}

/// The sweep is exhaustive: when it gives up, the word fit nowhere among
/// the positions it was still to visit — every direction yet to be tried
/// at the current coordinate, and every direction at every coordinate yet
/// to be reached before the sweep closes on the origin.
pub proof fn lemma_search_complete(
    g: Seq<Seq<char>>,
    len: nat,
    cur: Coordinate,
    dir: Direction,
    origin: Coordinate,
    origin_dir: Direction,
)
    requires
        cur.valid_spec(grid_width(g), g.len() as int),
        origin.valid_spec(grid_width(g), g.len() as int),
        1 <= grid_width(g) <= i16::MAX,
        1 <= g.len() <= i16::MAX,
        search_spec(g, len, cur, dir, origin, origin_dir) is None,
    ensures
        forall|d2: Direction|
            d2.cyclic_distance(origin_dir) <= dir.cyclic_distance(origin_dir) ==> !fits(
                g,
                cur.row as int,
                cur.column as int,
                d2,
                len,
            ),
        forall|c: Coordinate, d2: Direction|
            c.valid_spec(grid_width(g), g.len() as int) && c.raster_distance(
                origin,
                grid_width(g),
                g.len() as int,
            ) < cur.raster_distance(origin, grid_width(g), g.len() as int) ==> !fits(
                g,
                c.row as int,
                c.column as int,
                d2,
                len,
            ),
    decreases cur.raster_distance(origin, grid_width(g), g.len() as int), dir.cyclic_distance(
        origin_dir,
    ),
{
    let width = grid_width(g);
    let height = g.len() as int;
    assert(!fits(g, cur.row as int, cur.column as int, dir, len));
    crate::direction::lemma_cyclic_distance_step(dir, origin_dir);
    crate::coordinate::lemma_raster_distance_step(cur, origin, width, height);
    let d2 = dir.next_spec();
    if d2 == origin_dir {
        let c2 = cur.raster_next_spec(width, height);
        if c2 == origin {
            // Only (cur, dir) itself was left; nothing lies beyond it.
            assert forall|d3: Direction|
                d3.cyclic_distance(origin_dir) <= dir.cyclic_distance(origin_dir) implies !fits(
                g,
                cur.row as int,
                cur.column as int,
                d3,
                len,
            ) by {
                crate::direction::lemma_cyclic_distance_step(d3, origin_dir);
                crate::direction::lemma_cyclic_distance_injective(d3, dir, origin_dir);
            }
            assert forall|c: Coordinate, d3: Direction|
                c.valid_spec(width, height) && c.raster_distance(origin, width, height)
                    < cur.raster_distance(origin, width, height) implies !fits(
                g,
                c.row as int,
                c.column as int,
                d3,
                len,
            ) by {
                crate::coordinate::lemma_raster_distance_step(c, origin, width, height);
            }
        } else {
            crate::coordinate::lemma_raster_next(cur, width, height);
            lemma_search_complete(g, len, c2, origin_dir, origin, origin_dir);
            assert forall|d3: Direction|
                d3.cyclic_distance(origin_dir) <= dir.cyclic_distance(origin_dir) implies !fits(
                g,
                cur.row as int,
                cur.column as int,
                d3,
                len,
            ) by {
                crate::direction::lemma_cyclic_distance_step(d3, origin_dir);
                crate::direction::lemma_cyclic_distance_injective(d3, dir, origin_dir);
            }
            assert forall|c: Coordinate, d3: Direction|
                c.valid_spec(width, height) && c.raster_distance(origin, width, height)
                    < cur.raster_distance(origin, width, height) implies !fits(
                g,
                c.row as int,
                c.column as int,
                d3,
                len,
            ) by {
                crate::direction::lemma_cyclic_distance_step(d3, origin_dir);
                if c.raster_distance(origin, width, height) == c2.raster_distance(
                    origin,
                    width,
                    height,
                ) {
                    crate::coordinate::lemma_raster_distance_injective(c, c2, origin, width,
                        height);
                }
            }
        }
    } else {
        crate::direction::lemma_cyclic_distance_step(d2, origin_dir);
        lemma_search_complete(g, len, cur, d2, origin, origin_dir);
        assert forall|d3: Direction|
            d3.cyclic_distance(origin_dir) <= dir.cyclic_distance(origin_dir) implies !fits(
            g,
            cur.row as int,
            cur.column as int,
            d3,
            len,
        ) by {
            crate::direction::lemma_cyclic_distance_step(d3, origin_dir);
            if d3.cyclic_distance(origin_dir) == dir.cyclic_distance(origin_dir) {
                crate::direction::lemma_cyclic_distance_injective(d3, dir, origin_dir);
            }
        }
        assert forall|c: Coordinate, d3: Direction|
            c.valid_spec(width, height) && c.raster_distance(origin, width, height)
                < cur.raster_distance(origin, width, height) implies !fits(
            g,
            c.row as int,
            c.column as int,
            d3,
            len,
        ) by {
            assert(!fits(g, c.row as int, c.column as int, d3, len));
        }
    }
}

/// When the sweep starts at its own origin and gives up, the word fits
/// nowhere in the grid, at no coordinate and in no direction.
pub proof fn lemma_search_none_no_fit(
    g: Seq<Seq<char>>,
    len: nat,
    origin: Coordinate,
    origin_dir: Direction,
)
    requires
        origin.valid_spec(grid_width(g), g.len() as int),
        1 <= grid_width(g) <= i16::MAX,
        1 <= g.len() <= i16::MAX,
        search_spec(g, len, origin, origin_dir, origin, origin_dir) is None,
    ensures
        no_fit_anywhere(g, len),
        len > 0,
{
    let width = grid_width(g);
    let height = g.len() as int;
    lemma_search_complete(g, len, origin, origin_dir, origin, origin_dir);
    assert(len > 0) by {
        if len == 0 {
            assert(fits(g, origin.row as int, origin.column as int, origin_dir, len));
        }
    }
    assert forall|c: Coordinate, d: Direction| !(#[trigger] fits(
        g,
        c.row as int,
        c.column as int,
        d,
        len,
    )) by {
        if c.valid_spec(width, height) {
            crate::direction::lemma_cyclic_distance_step(d, origin_dir);
            crate::coordinate::lemma_raster_distance_step(c, origin, width, height);
            crate::coordinate::lemma_raster_distance_full(c, origin, width, height);
            if c == origin {
                assert(d.cyclic_distance(origin_dir) <= origin_dir.cyclic_distance(origin_dir));
            } else {
                assert(c.raster_distance(origin, width, height) < width * height);
                assert(origin.raster_distance(origin, width, height) == width * height);
            }
        } else {
            assert(!fits(g, c.row as int, c.column as int, d, len));
        }
    }
}

/// A word that fits after cells were filled in already fit before: filling
/// keeps every letter, so every cell blank afterwards was blank before.
pub proof fn lemma_fits_backward(
    g1: Seq<Seq<char>>,
    g2: Seq<Seq<char>>,
    row: int,
    col: int,
    d: Direction,
    len: nat,
)
    requires
        preserves_letters(g1, g2),
        fits(g2, row, col, d, len),
    ensures
        fits(g1, row, col, d, len),
    decreases len,
{
    if len > 0 {
        assert(g1[row][col] == blank()) by {
            if g1[row][col] != blank() {
                assert(g2[row][col] == g1[row][col]);
            }
        }
        lemma_fits_backward(g1, g2, row + d.row_delta(), col + d.col_delta(), d, (len - 1) as nat);
    }
}

/// Tests whether a word of the given length fits at (coordinate, direction):
/// each of the `word_length` cells of the run must be in bounds and blank.
pub fn word_fits(
    puzzle: &Vec<Vec<char>>,
    coordinate: &Coordinate,
    direction: &Direction,
    word_length: usize,
) -> (r: bool)
    requires
        grid_wf(grid_view(*puzzle)),
        word_length > 0 ==> puzzle@.len() > 0,
        puzzle@.len() <= i16::MAX,
        grid_width(grid_view(*puzzle)) <= i16::MAX,
    ensures
        r == fits(
            grid_view(*puzzle),
            coordinate.row as int,
            coordinate.column as int,
            *direction,
            word_length as nat,
        ),
{
    let ghost g = grid_view(*puzzle);
    if word_length == 0 {
        return true;
    }
    let height_16: i16 = puzzle.len() as i16;
    let width_16: i16 = puzzle[0].len() as i16;
    let mut cur: Coordinate = *coordinate;
    let mut remaining: usize = word_length;
    while remaining > 0
        invariant
            grid_wf(g),
            g == grid_view(*puzzle),
            g.len() > 0,
            height_16 == g.len(),
            width_16 == grid_width(g),
            fits(g, coordinate.row as int, coordinate.column as int, *direction,
                word_length as nat) == fits(g, cur.row as int, cur.column as int, *direction,
                remaining as nat),
        decreases remaining,
    {
        if !cur.valid(width_16, height_16) {
            return false;
        }
        if puzzle[cur.row as usize][cur.column as usize] != ' ' {
            return false;
        }
        cur = cur.get_next_coordinate(direction);
        remaining = remaining - 1;
    }
    true
}

/// Sweeps from the given start coordinate and direction for a spot where
/// the word fits, and writes the word there. The sweep order, its outcome
/// and the resulting grid are a function of the grid, the word and the
/// start alone.
pub fn try_place_word_from(
    puzzle: &mut Vec<Vec<char>>,
    word: &str,
    start: Coordinate,
    start_direction: Direction,
) -> (placed: bool)
    requires
        grid_wf(grid_view(*old(puzzle))),
        1 <= old(puzzle)@.len() <= i16::MAX,
        1 <= grid_width(grid_view(*old(puzzle))) <= i16::MAX,
        start.valid_spec(grid_width(grid_view(*old(puzzle))), old(puzzle)@.len() as int),
    ensures
        ({
            let g0 = grid_view(*old(puzzle));
            match search_spec(g0, word@.len(), start, start_direction, start, start_direction) {
                Some(placement) => placed && fits(
                    g0,
                    placement.0.row as int,
                    placement.0.column as int,
                    placement.1,
                    word@.len(),
                ) && grid_view(*final(puzzle)) == place_grid_spec(
                    g0,
                    placement.0.row as int,
                    placement.0.column as int,
                    placement.1,
                    word@,
                ),
                None => !placed && grid_view(*final(puzzle)) == g0,
            }
        }),
{
    let ghost g0 = grid_view(*old(puzzle));
    let height_16: i16 = puzzle.len() as i16;
    let width_16: i16 = puzzle[0].len() as i16;
    let word_length = word.unicode_len();
    let mut coordinate: Coordinate = start;
    let mut direction: Direction = start_direction;
    while !word_fits(puzzle, &coordinate, &direction, word_length)
        invariant
            grid_view(*puzzle) == g0,
            g0 == grid_view(*old(puzzle)),
            grid_wf(g0),
            1 <= g0.len() <= i16::MAX,
            1 <= grid_width(g0) <= i16::MAX,
            height_16 == g0.len(),
            width_16 == grid_width(g0),
            word_length == word@.len(),
            coordinate.valid_spec(grid_width(g0), g0.len() as int),
            start.valid_spec(grid_width(g0), g0.len() as int),
            search_spec(g0, word@.len(), coordinate, direction, start, start_direction)
                == search_spec(g0, word@.len(), start, start_direction, start, start_direction),
        decreases coordinate.raster_distance(start, grid_width(g0), g0.len() as int),
            direction.cyclic_distance(start_direction),
    {
        let ghost prev_c = coordinate;
        let ghost prev_d = direction;
        direction = direction.get_next_direction();
        proof {
            crate::direction::lemma_cyclic_distance_step(prev_d, start_direction);
        }
        if direction == start_direction {
            proof {
                crate::coordinate::lemma_raster_distance_step(
                    prev_c,
                    start,
                    grid_width(g0),
                    g0.len() as int,
                );
                crate::coordinate::lemma_raster_next(prev_c, grid_width(g0), g0.len() as int);
            }
            coordinate = coordinate.get_next_coordinate_for_size(width_16, height_16);
            if coordinate == start {
                return false;
            }
        }
    }
    proof {
        lemma_search_finds_fit(g0, word@.len(), coordinate, direction, start, start_direction);
    }
    place_word(puzzle, &coordinate, &direction, word);
    true
}

/// The character sequences of a list of words.
pub open spec fn views_of(words: Seq<&str>) -> Seq<Seq<char>> {
    words.map_values(|w: &str| w@)
}

/// `a` appears within `b` in order: some strictly increasing choice of
/// positions of `b` yields exactly `a`.
pub open spec fn is_subsequence_of(a: Seq<Seq<char>>, b: Seq<Seq<char>>) -> bool {
    exists|m: Seq<int>|
        #![trigger m.len()]
        {
            &&& m.len() == a.len()
            &&& forall|k: int| 0 <= k < m.len() ==> 0 <= #[trigger] m[k] < b.len() && b[m[k]] == a[k]
            &&& forall|k1: int, k2: int| 0 <= k1 < k2 < m.len() ==> m[k1] < m[k2]
        }
}

/// Whether some word of `list` reads as the character sequence `w`.
pub open spec fn contains_word(list: Seq<&str>, w: Seq<char>) -> bool {
    exists|k: int| 0 <= k < list.len() && (#[trigger] list[k])@ == w
}

/// Whether `w` stands written somewhere in the grid, along some of the
/// eight directions.
pub open spec fn word_spelled_somewhere(g: Seq<Seq<char>>, w: Seq<char>) -> bool {
    exists|c: Coordinate, d: Direction|
        #[trigger] spelled_at(g, c.row as int, c.column as int, d, w)
}

/// A word of length `len` fits at no coordinate and in no direction of the
/// grid.
pub open spec fn no_fit_anywhere(g: Seq<Seq<char>>, len: nat) -> bool {
    forall|c: Coordinate, d: Direction|
        !(#[trigger] fits(g, c.row as int, c.column as int, d, len))
}

/// The character occurs in the uppercased form of one of the words.
pub open spec fn letter_of_some_word(words: Seq<&str>, ch: char) -> bool {
    exists|k: int| 0 <= k < words.len() && (#[trigger] upper_of(words[k]@)).contains(ch)
}

/// An empty list is a subsequence of anything.
pub proof fn lemma_subsequence_empty(b: Seq<Seq<char>>)
    ensures
        is_subsequence_of(Seq::<Seq<char>>::empty(), b),
{
    let m = Seq::<int>::empty();
    assert(m.len() == Seq::<Seq<char>>::empty().len());
}

/// A subsequence of `b` is still one when `b` grows at its end.
pub proof fn lemma_subsequence_skip(a: Seq<Seq<char>>, b: Seq<Seq<char>>, x: Seq<char>)
    requires
        is_subsequence_of(a, b),
    ensures
        is_subsequence_of(a, b.push(x)),
{
    let m = choose|m: Seq<int>|
        #![trigger m.len()]
        {
            &&& m.len() == a.len()
            &&& forall|k: int| 0 <= k < m.len() ==> 0 <= #[trigger] m[k] < b.len() && b[m[k]] == a[k]
            &&& forall|k1: int, k2: int| 0 <= k1 < k2 < m.len() ==> m[k1] < m[k2]
        };
    assert(m.len() == a.len());
    assert forall|k: int| 0 <= k < m.len() implies 0 <= #[trigger] m[k] < b.push(x).len() && b.push(
        x,
    )[m[k]] == a[k] by {
        assert(0 <= m[k] < b.len());
    }
}

/// Extending a subsequence and its carrier by the same element keeps the
/// subsequence relation.
pub proof fn lemma_subsequence_push(a: Seq<Seq<char>>, b: Seq<Seq<char>>, x: Seq<char>)
    requires
        is_subsequence_of(a, b),
    ensures
        is_subsequence_of(a.push(x), b.push(x)),
{
    let m = choose|m: Seq<int>|
        #![trigger m.len()]
        {
            &&& m.len() == a.len()
            &&& forall|k: int| 0 <= k < m.len() ==> 0 <= #[trigger] m[k] < b.len() && b[m[k]] == a[k]
            &&& forall|k1: int, k2: int| 0 <= k1 < k2 < m.len() ==> m[k1] < m[k2]
        };
    let m2 = m.push(b.len() as int);
    assert(m2.len() == a.push(x).len());
    assert forall|k: int| 0 <= k < m2.len() implies 0 <= #[trigger] m2[k] < b.push(x).len()
        && b.push(x)[m2[k]] == a.push(x)[k] by {
        if k < m.len() {
            assert(m2[k] == m[k]);
            assert(0 <= m[k] < b.len());
        } else {
            assert(m2[k] == b.len());
        }
    }
    assert forall|k1: int, k2: int| 0 <= k1 < k2 < m2.len() implies m2[k1] < m2[k2] by {
        if k2 < m.len() {
            assert(m2[k1] == m[k1] && m2[k2] == m[k2]);
        } else {
            assert(m2[k2] == b.len());
            assert(m2[k1] == m[k1]);
            assert(0 <= m[k1] < b.len());
        }
    }
}

/// Letters kept across each of two changes are kept across both together.
pub proof fn lemma_preserves_trans(g0: Seq<Seq<char>>, g1: Seq<Seq<char>>, g2: Seq<Seq<char>>)
    requires
        preserves_letters(g0, g1),
        preserves_letters(g1, g2),
    ensures
        preserves_letters(g0, g2),
{
    assert forall|i: int, j: int|
        0 <= i < g0.len() && 0 <= j < grid_width(g0) && g0[i][j] != blank()
        implies #[trigger] g2[i][j] == g0[i][j] by {
        assert(g1[i][j] == g0[i][j]);
    }
}

/// A word spelled in a grid stays spelled after any change that keeps
/// every non-blank cell, as long as the word has no blank character.
pub proof fn lemma_spelled_preserved(
    g1: Seq<Seq<char>>,
    g2: Seq<Seq<char>>,
    row: int,
    col: int,
    d: Direction,
    w: Seq<char>,
)
    requires
        spelled_at(g1, row, col, d, w),
        preserves_letters(g1, g2),
        !w.contains(blank()),
    ensures
        spelled_at(g2, row, col, d, w),
{
    assert forall|k: int| 0 <= k < w.len() implies #[trigger] spelled_cell(
        g2,
        row,
        col,
        d,
        w,
        k,
    ) by {
        assert(spelled_cell(g1, row, col, d, w, k));
        assert(w[k] != blank());
        assert(g1[path_row(row, d, k)][path_col(col, d, k)] == w[k]);
    }
}

/// A word longer than both grid dimensions fits nowhere: every direction
/// advances by a full row or a full column at each step.
pub proof fn lemma_no_fit_when_too_long(
    g: Seq<Seq<char>>,
    row: int,
    col: int,
    d: Direction,
    len: nat,
)
    requires
        len > g.len(),
        len > grid_width(g),
    ensures
        !fits(g, row, col, d, len),
{
    if fits(g, row, col, d, len) {
        lemma_path_step(row, col, d, 0);
        lemma_fits_path(g, row, col, d, len, 0);
        lemma_fits_path(g, row, col, d, len, len - 1);
        if d.row_delta() == 1 {
            assert((len - 1) as int * d.row_delta() == len - 1) by (nonlinear_arith)
                requires
                    d.row_delta() == 1,
            ;
        } else if d.row_delta() == -1 {
            assert((len - 1) as int * d.row_delta() == -(len - 1)) by (nonlinear_arith)
                requires
                    d.row_delta() == -1,
            ;
        } else if d.col_delta() == 1 {
            assert((len - 1) as int * d.col_delta() == len - 1) by (nonlinear_arith)
                requires
                    d.col_delta() == 1,
            ;
        } else {
            assert(d.col_delta() == -1);
            assert((len - 1) as int * d.col_delta() == -(len - 1)) by (nonlinear_arith)
                requires
                    d.col_delta() == -1,
            ;
        }
    }
}

/// What `str::to_uppercase` returns for a given character sequence.
pub uninterp spec fn upper_of(s: Seq<char>) -> Seq<char>;

/// Relies on str::to_uppercase: the result depends on the characters of
/// the input alone; an empty input gives an empty result; each character
/// maps to one or more uppercase characters, so the result is never
/// shorter than the input.
#[verifier::external_body]
fn uppercase(word: &str) -> (r: String)
    ensures
        r@ == upper_of(word@),
        word@.len() == 0 ==> r@.len() == 0,
        r@.len() >= word@.len(),
{
    word.to_uppercase()
}

/// Relies on rand::Rng::gen_range over `0..bound`: the result lies below
/// the bound; the call panics only on an empty range, which the
/// precondition rules out.
#[verifier::external_body]
fn random_below(bound: usize) -> (r: usize)
    requires
        bound > 0,
    ensures
        r < bound,
{
    rand::thread_rng().gen_range(0..bound)
}

/// Attempts to place one word, uppercased by the caller, sweeping from a
/// uniformly random start coordinate and direction. The random start
/// decides only where the word lands, never whether: the sweep is
/// exhaustive, so failure is reported exactly when the word fits nowhere
/// in the grid.
pub fn add_word_to_puzzle(puzzle: &mut Vec<Vec<char>>, word: &str) -> (placed: bool)
    requires
        grid_wf(grid_view(*old(puzzle))),
        1 <= old(puzzle)@.len() <= i16::MAX,
        1 <= grid_width(grid_view(*old(puzzle))) <= i16::MAX,
    ensures
        grid_wf(grid_view(*final(puzzle))),
        final(puzzle)@.len() == old(puzzle)@.len(),
        grid_width(grid_view(*final(puzzle))) == grid_width(grid_view(*old(puzzle))),
        preserves_letters(grid_view(*old(puzzle)), grid_view(*final(puzzle))),
        placed ==> exists|c: Coordinate, d: Direction|
            fits(grid_view(*old(puzzle)), c.row as int, c.column as int, d, word@.len())
                && grid_view(*final(puzzle)) == place_grid_spec(
                grid_view(*old(puzzle)),
                c.row as int,
                c.column as int,
                d,
                word@,
            ) && #[trigger] spelled_at(
                grid_view(*final(puzzle)),
                c.row as int,
                c.column as int,
                d,
                word@,
            ),
        !placed ==> grid_view(*final(puzzle)) == grid_view(*old(puzzle)),
        !placed ==> no_fit_anywhere(grid_view(*old(puzzle)), word@.len()),
{
    let ghost g0 = grid_view(*old(puzzle));
    let height = puzzle.len();
    let width = puzzle[0].len();
    let row = random_below(height);
    let column = random_below(width);
    let direction_number = random_below(8);
    let start = Coordinate::new(row as i16, column as i16);
    let start_direction = match Direction::from_number((direction_number + 1) as u8) {
        Some(d) => d,
        None => Direction::Up,
    };
    let placed = try_place_word_from(puzzle, word, start, start_direction);
    proof {
        let sr = search_spec(g0, word@.len(), start, start_direction, start, start_direction);
        if placed {
            let p = sr->0;
            lemma_search_finds_fit(g0, word@.len(), start, start_direction, start,
                start_direction);
            lemma_place_shape(g0, p.0.row as int, p.0.column as int, p.1, word@);
            lemma_place_round_trip(g0, p.0.row as int, p.0.column as int, p.1, word@);
            assert(grid_view(*puzzle) == place_grid_spec(
                g0,
                p.0.row as int,
                p.0.column as int,
                p.1,
                word@,
            ));
            assert(spelled_at(
                grid_view(*puzzle),
                p.0.row as int,
                p.0.column as int,
                p.1,
                word@,
            ));
        } else {
            lemma_search_none_no_fit(g0, word@.len(), start, start_direction);
        }
    }
    placed
}

/// Builds an empty grid, places the words, fills the remaining blanks with
/// random letters, and returns the grid together with the words that could
/// not be placed.
pub fn generate_puzzle<'a>(width: i16, height: i16, words: &Vec<&'a str>) -> (result: (
    Vec<Vec<char>>,
    Vec<&'a str>,
))
    requires
        width >= 0,
        height >= 0,
        words@.len() > 0 ==> width > 0 && height > 0,
    ensures
        grid_wf(grid_view(result.0)),
        grid_view(result.0).len() == height,
        forall|i: int| 0 <= i < height ==> (#[trigger] grid_view(result.0)[i]).len() == width,
        forall|i: int, j: int|
            0 <= i < height && 0 <= j < width ==> #[trigger] grid_view(result.0)[i][j] != blank(),
        is_subsequence_of(views_of(result.1@), views_of(words@)),
        forall|k: int|
            0 <= k < words@.len() && upper_of((#[trigger] words@[k])@).len() > width && upper_of(
                words@[k]@,
            ).len() > height ==> contains_word(result.1@, words@[k]@),
        forall|k: int|
            0 <= k < words@.len() && !contains_word(result.1@, (#[trigger] words@[k])@)
                && !upper_of(words@[k]@).contains(blank()) ==> word_spelled_somewhere(
                grid_view(result.0),
                upper_of(words@[k]@),
            ),
        forall|i: int, j: int|
            0 <= i < height && 0 <= j < width ==> ('A' <= (#[trigger] grid_view(result.0)[i][j])
                && grid_view(result.0)[i][j] <= 'Z') || letter_of_some_word(
                words@,
                grid_view(result.0)[i][j],
            ),
        forall|k: int|
            0 <= k < words@.len() && (#[trigger] words@[k])@.len() > width && words@[k]@.len()
                > height ==> contains_word(result.1@, words@[k]@),
        words@.len() > 0 && (exists|c: Coordinate, d: Direction|
            #[trigger] fits(
                blank_grid(width as int, height as int),
                c.row as int,
                c.column as int,
                d,
                upper_of(words@[0]@).len(),
            )) ==> result.1@.len() < words@.len(),
{
    let mut puzzle = crate::grid::generate_empty_puzzle(width, height);
    proof {
        assert(grid_view(puzzle) =~~= blank_grid(width as int, height as int));
    }
    let words_not_placed = add_words_to_puzzle(&mut puzzle, words);
    let ghost g_placed = grid_view(puzzle);
    let ghost not_placed_view = words_not_placed@;
    remove_empty_spots(&mut puzzle);
    proof {
        let g_final = grid_view(puzzle);
        // Every cell is a filled-in letter or a character of some word.
        assert forall|i: int, j: int| 0 <= i < height && 0 <= j < width implies ('A' <= (
        #[trigger] g_final[i][j]) && g_final[i][j] <= 'Z') || letter_of_some_word(
            words@,
            g_final[i][j],
        ) by {
            if g_placed[i][j] != blank() {
                assert(g_final[i][j] == g_placed[i][j]);
                assert(letter_of_some_word(words@, g_placed[i][j]));
            }
        }
        assert(grid_width(g_final) == grid_width(g_placed));
        assert(grid_wf(g_final));
        assert(preserves_letters(g_placed, g_final));
        assert forall|k: int|
            0 <= k < words@.len() && !contains_word(not_placed_view, (#[trigger] words@[k])@)
                && !upper_of(words@[k]@).contains(blank()) implies word_spelled_somewhere(
            g_final,
            upper_of(words@[k]@),
        ) by {
            let (c, d) = choose|c: Coordinate, d: Direction|
                #[trigger] spelled_at(
                    g_placed,
                    c.row as int,
                    c.column as int,
                    d,
                    upper_of(words@[k]@),
                );
            lemma_spelled_preserved(
                g_placed,
                g_final,
                c.row as int,
                c.column as int,
                d,
                upper_of(words@[k]@),
            );
            assert(word_spelled_somewhere(g_final, upper_of(words@[k]@)));
        }
    }
    (puzzle, words_not_placed)
}

/// Uppercases each word in turn and attempts to place it at a random spot,
/// mutating the grid; returns the words (original strings, original order)
/// that could not be placed. A word is reported only when, at the moment
/// it was tried — and so also in the grid as returned — it fit nowhere;
/// cells only ever change from blank to a letter of one of the words.
pub fn add_words_to_puzzle<'a>(puzzle: &mut Vec<Vec<char>>, words: &Vec<&'a str>) -> (
    words_not_added: Vec<&'a str>
)
    requires
        grid_wf(grid_view(*old(puzzle))),
        old(puzzle)@.len() <= i16::MAX,
        grid_width(grid_view(*old(puzzle))) <= i16::MAX,
        words@.len() > 0 ==> 1 <= old(puzzle)@.len() && 1 <= grid_width(grid_view(*old(puzzle))),
    ensures
        grid_wf(grid_view(*final(puzzle))),
        final(puzzle)@.len() == old(puzzle)@.len(),
        grid_width(grid_view(*final(puzzle))) == grid_width(grid_view(*old(puzzle))),
        preserves_letters(grid_view(*old(puzzle)), grid_view(*final(puzzle))),
        is_subsequence_of(views_of(words_not_added@), views_of(words@)),
        forall|k: int|
            0 <= k < words@.len() && upper_of((#[trigger] words@[k])@).len() > grid_width(
                grid_view(*old(puzzle)),
            ) && upper_of(words@[k]@).len() > old(puzzle)@.len() ==> contains_word(
                words_not_added@,
                words@[k]@,
            ),
        forall|k: int|
            0 <= k < words@.len() && !contains_word(words_not_added@, (#[trigger] words@[k])@)
                && !upper_of(words@[k]@).contains(blank()) ==> word_spelled_somewhere(
                grid_view(*final(puzzle)),
                upper_of(words@[k]@),
            ),
        forall|k: int|
            0 <= k < words@.len() && (#[trigger] words@[k])@.len() > grid_width(
                grid_view(*old(puzzle)),
            ) && words@[k]@.len() > old(puzzle)@.len() ==> contains_word(
                words_not_added@,
                words@[k]@,
            ),
        forall|k: int|
            0 <= k < words@.len() && contains_word(words_not_added@, (#[trigger] words@[k])@)
                ==> no_fit_anywhere(grid_view(*final(puzzle)), upper_of(words@[k]@).len()),
        forall|i: int, j: int|
            0 <= i < old(puzzle)@.len() && 0 <= j < grid_width(grid_view(*old(puzzle))) && (
            #[trigger] grid_view(*final(puzzle))[i][j]) != grid_view(*old(puzzle))[i][j]
                ==> grid_view(*old(puzzle))[i][j] == blank() && letter_of_some_word(
                words@,
                grid_view(*final(puzzle))[i][j],
            ),
        words@.len() > 0 && (exists|c: Coordinate, d: Direction|
            #[trigger] fits(
                grid_view(*old(puzzle)),
                c.row as int,
                c.column as int,
                d,
                upper_of(words@[0]@).len(),
            )) ==> words_not_added@.len() < words@.len(),
{
    let ghost g0 = grid_view(*old(puzzle));
    let mut words_not_added: Vec<&'a str> = Vec::new();
    proof {
        lemma_subsequence_empty(views_of(words@.take(0)));
        assert(views_of(words_not_added@) =~= Seq::<Seq<char>>::empty());
    }
    let mut idx: usize = 0;
    while idx < words.len()
        invariant
            idx <= words@.len(),
            g0 == grid_view(*old(puzzle)),
            grid_wf(g0),
            g0.len() <= i16::MAX,
            grid_width(g0) <= i16::MAX,
            words@.len() > 0 ==> 1 <= g0.len() && 1 <= grid_width(g0),
            grid_wf(grid_view(*puzzle)),
            puzzle@.len() == g0.len(),
            grid_width(grid_view(*puzzle)) == grid_width(g0),
            preserves_letters(g0, grid_view(*puzzle)),
            is_subsequence_of(views_of(words_not_added@), views_of(words@.take(idx as int))),
            forall|k: int|
                0 <= k < idx && upper_of((#[trigger] words@[k])@).len() > grid_width(g0)
                    && upper_of(words@[k]@).len() > g0.len() ==> contains_word(
                    words_not_added@,
                    words@[k]@,
                ),
            forall|k: int|
                0 <= k < idx && !contains_word(words_not_added@, (#[trigger] words@[k])@)
                    && !upper_of(words@[k]@).contains(blank()) ==> word_spelled_somewhere(
                    grid_view(*puzzle),
                    upper_of(words@[k]@),
                ),
            forall|k: int|
                0 <= k < idx && (#[trigger] words@[k])@.len() > grid_width(g0) && words@[k]@.len()
                    > g0.len() ==> contains_word(words_not_added@, words@[k]@),
            forall|k: int|
                0 <= k < words@.len() && contains_word(words_not_added@, (#[trigger] words@[k])@)
                    ==> no_fit_anywhere(grid_view(*puzzle), upper_of(words@[k]@).len()),
            forall|i: int, j: int|
                0 <= i < g0.len() && 0 <= j < grid_width(g0) && (#[trigger] grid_view(
                    *puzzle,
                )[i][j]) != g0[i][j] ==> g0[i][j] == blank() && letter_of_some_word(
                    words@,
                    grid_view(*puzzle)[i][j],
                ),
            words_not_added@.len() <= idx,
            idx == 0 ==> grid_view(*puzzle) == g0,
            idx > 0 && (exists|c: Coordinate, d: Direction|
                #[trigger] fits(g0, c.row as int, c.column as int, d, upper_of(words@[0]@).len()))
                ==> words_not_added@.len() < idx,
        decreases words@.len() - idx,
    {
        let word = words[idx];
        let upper = uppercase(word);
        let ghost g_before = grid_view(*puzzle);
        let ghost not_added_before = words_not_added@;
        let placed = add_word_to_puzzle(puzzle, upper.as_str());
        if !placed {
            words_not_added.push(word);
        }
        proof {
            let g_now = grid_view(*puzzle);
            lemma_preserves_trans(g0, g_before, g_now);
            // The words already spelled keep their cells through this placement.
            assert forall|k: int|
                0 <= k < idx && !contains_word(words_not_added@, (#[trigger] words@[k])@)
                    && !upper_of(words@[k]@).contains(blank()) implies word_spelled_somewhere(
                g_now,
                upper_of(words@[k]@),
            ) by {
                assert forall|j: int| 0 <= j < not_added_before.len() implies words_not_added@[j]
                    == not_added_before[j] by {}
                assert(!contains_word(not_added_before, words@[k]@));
                let (c, d) = choose|c: Coordinate, d: Direction|
                    #[trigger] spelled_at(
                        g_before,
                        c.row as int,
                        c.column as int,
                        d,
                        upper_of(words@[k]@),
                    );
                lemma_spelled_preserved(
                    g_before,
                    g_now,
                    c.row as int,
                    c.column as int,
                    d,
                    upper_of(words@[k]@),
                );
                assert(word_spelled_somewhere(g_now, upper_of(words@[k]@)));
            }
            // The word just handled: spelled when placed, reported when not.
            if placed {
                let (c, d) = choose|c: Coordinate, d: Direction|
                    fits(g_before, c.row as int, c.column as int, d, upper@.len()) && g_now
                        == place_grid_spec(g_before, c.row as int, c.column as int, d, upper@)
                        && #[trigger] spelled_at(g_now, c.row as int, c.column as int, d, upper@);
                assert(spelled_at(g_now, c.row as int, c.column as int, d, upper_of(word@)));
                assert(word_spelled_somewhere(g_now, upper_of(word@)));
                if upper_of(word@).len() > grid_width(g0) && upper_of(word@).len() > g0.len() {
                    lemma_no_fit_when_too_long(
                        g_before,
                        c.row as int,
                        c.column as int,
                        d,
                        upper@.len(),
                    );
                }
                lemma_subsequence_skip(
                    views_of(not_added_before),
                    views_of(words@.take(idx as int)),
                    word@,
                );
                assert(views_of(words@.take(idx as int + 1)) =~= views_of(
                    words@.take(idx as int),
                ).push(word@));
            } else {
                lemma_subsequence_push(
                    views_of(not_added_before),
                    views_of(words@.take(idx as int)),
                    word@,
                );
                assert(views_of(words@.take(idx as int + 1)) =~= views_of(
                    words@.take(idx as int),
                ).push(word@));
                assert(views_of(words_not_added@) =~= views_of(not_added_before).push(word@));
                assert(words_not_added@[words_not_added@.len() - 1] == word);
                assert(contains_word(words_not_added@, word@));
            }
            // Earlier reports stay reported: the list only grows.
            assert forall|k: int|
                0 <= k < idx && contains_word(not_added_before, (#[trigger] words@[k])@) implies contains_word(
                words_not_added@,
                words@[k]@,
            ) by {
                let j = choose|j: int|
                    0 <= j < not_added_before.len() && (#[trigger] not_added_before[j])@
                        == words@[k]@;
                assert(words_not_added@[j] == not_added_before[j]);
            }
            // A reported word fits nowhere in the grid as it now stands:
            // placement only turns blanks into letters, so a fit now would
            // have been a fit when the word was tried.
            assert forall|k: int|
                0 <= k < words@.len() && contains_word(words_not_added@, (#[trigger] words@[k])@) implies no_fit_anywhere(
                g_now,
                upper_of(words@[k]@).len(),
            ) by {
                if contains_word(not_added_before, words@[k]@) {
                    assert(no_fit_anywhere(g_before, upper_of(words@[k]@).len()));
                    assert forall|c: Coordinate, d: Direction| !(#[trigger] fits(
                        g_now,
                        c.row as int,
                        c.column as int,
                        d,
                        upper_of(words@[k]@).len(),
                    )) by {
                        if fits(g_now, c.row as int, c.column as int, d, upper_of(
                            words@[k]@,
                        ).len()) {
                            lemma_fits_backward(g_before, g_now, c.row as int, c.column as int, d,
                                upper_of(words@[k]@).len());
                        }
                    }
                } else {
                    assert(!placed) by {
                        if placed {
                            assert(words_not_added@ == not_added_before);
                        }
                    }
                    let j = choose|j2: int|
                        0 <= j2 < words_not_added@.len() && (#[trigger] words_not_added@[j2])@
                            == words@[k]@;
                    if j < not_added_before.len() {
                        assert(words_not_added@[j] == not_added_before[j]);
                        assert(contains_word(not_added_before, words@[k]@));
                    }
                    assert(words_not_added@[j] == word);
                    assert(upper_of(words@[k]@) == upper_of(word@));
                    assert(g_now == g_before);
                }
            }
            // Cells change only from blank to a letter of one of the words.
            assert forall|i: int, j: int|
                0 <= i < g0.len() && 0 <= j < grid_width(g0) && (#[trigger] g_now[i][j])
                    != g0[i][j] implies g0[i][j] == blank() && letter_of_some_word(
                words@,
                g_now[i][j],
            ) by {
                if g_now[i][j] != g_before[i][j] {
                    assert(placed) by {
                        if !placed {
                            assert(g_now == g_before);
                        }
                    }
                    let (c, d) = choose|c: Coordinate, d: Direction|
                        fits(g_before, c.row as int, c.column as int, d, upper@.len()) && g_now
                            == place_grid_spec(g_before, c.row as int, c.column as int, d, upper@)
                            && #[trigger] spelled_at(g_now, c.row as int, c.column as int, d,
                        upper@);
                    if on_path(c.row as int, c.column as int, d, upper@.len(), i, j) {
                        let n = choose|n: int|
                            0 <= n < upper@.len() && i == #[trigger] path_row(c.row as int, d, n)
                                && j == #[trigger] path_col(c.column as int, d, n);
                        lemma_place_on_path(g_before, c.row as int, c.column as int, d, upper@, n);
                        lemma_fits_path(g_before, c.row as int, c.column as int, d, upper@.len(),
                            n);
                        assert(g_now[i][j] == upper@[n]);
                        assert(g_before[i][j] == blank());
                        assert(upper_of(words@[idx as int]@).contains(g_now[i][j]));
                        assert(letter_of_some_word(words@, g_now[i][j]));
                    } else {
                        lemma_place_off_path(g_before, c.row as int, c.column as int, d, upper@, i,
                            j);
                        assert(false);
                    }
                } else {
                    assert(g_before[i][j] != g0[i][j]);
                }
            }
            // The first word is owed placement when it fits the untouched
            // grid: the sweep is exhaustive, so only a missing fit can stop
            // it.
            if idx == 0 && (exists|c: Coordinate, d: Direction|
                #[trigger] fits(g0, c.row as int, c.column as int, d, upper_of(
                    words@[0]@,
                ).len())) {
                if !placed {
                    let (c, d) = choose|c: Coordinate, d: Direction|
                        #[trigger] fits(g0, c.row as int, c.column as int, d, upper_of(
                            words@[0]@,
                        ).len());
                    assert(g_before == g0);
                    assert(no_fit_anywhere(g0, upper@.len()));
                    assert(upper@.len() == upper_of(words@[0]@).len());
                    assert(!fits(g0, c.row as int, c.column as int, d, upper_of(
                        words@[0]@,
                    ).len()));
                }
            }
        }
        idx = idx + 1;
    }
    proof {
        assert(words@.take(words@.len() as int) =~= words@);
    }
    words_not_added
}

/// Replaces every cell that still holds the blank marker with a uniformly
/// random uppercase letter; every other cell stays untouched.
pub fn remove_empty_spots(puzzle: &mut Vec<Vec<char>>)
    ensures
        final(puzzle)@.len() == old(puzzle)@.len(),
        forall|i: int|
            0 <= i < old(puzzle)@.len() ==> (#[trigger] grid_view(*final(puzzle))[i]).len()
                == grid_view(*old(puzzle))[i].len(),
        forall|i: int, j: int|
            0 <= i < old(puzzle)@.len() && 0 <= j < grid_view(*old(puzzle))[i].len()
                && grid_view(*old(puzzle))[i][j] != blank() ==> #[trigger] grid_view(
                *final(puzzle),
            )[i][j] == grid_view(*old(puzzle))[i][j],
        forall|i: int, j: int|
            0 <= i < old(puzzle)@.len() && 0 <= j < grid_view(*old(puzzle))[i].len()
                && grid_view(*old(puzzle))[i][j] == blank() ==> 'A' <= (#[trigger] grid_view(
                *final(puzzle),
            )[i][j]) && grid_view(*final(puzzle))[i][j] <= 'Z',
{
    let ghost g0 = grid_view(*old(puzzle));
    let height = puzzle.len();
    let mut i: usize = 0;
    while i < height
        invariant
            i <= height,
            height == g0.len(),
            g0 == grid_view(*old(puzzle)),
            puzzle@.len() == g0.len(),
            forall|r: int|
                0 <= r < g0.len() ==> (#[trigger] grid_view(*puzzle)[r]).len() == g0[r].len(),
            forall|r: int, c: int|
                0 <= r < g0.len() && 0 <= c < g0[r].len() && g0[r][c] != blank() ==> #[trigger] grid_view(
                    *puzzle,
                )[r][c] == g0[r][c],
            forall|r: int, c: int|
                i <= r < g0.len() && 0 <= c < g0[r].len() ==> #[trigger] grid_view(*puzzle)[r][c]
                    == g0[r][c],
            forall|r: int, c: int|
                0 <= r < i && 0 <= c < g0[r].len() && g0[r][c] == blank() ==> 'A' <= (
                #[trigger] grid_view(*puzzle)[r][c]) && grid_view(*puzzle)[r][c] <= 'Z',
        decreases height - i,
    {
        proof {
            crate::grid::lemma_grid_view_index(*puzzle, i as int);
        }
        let row_len = puzzle[i].len();
        let mut j: usize = 0;
        while j < row_len
            invariant
                j <= row_len,
                i < height,
                height == g0.len(),
                g0 == grid_view(*old(puzzle)),
                puzzle@.len() == g0.len(),
                row_len == g0[i as int].len(),
                forall|r: int|
                    0 <= r < g0.len() ==> (#[trigger] grid_view(*puzzle)[r]).len() == g0[r].len(),
                forall|r: int, c: int|
                    0 <= r < g0.len() && 0 <= c < g0[r].len() && g0[r][c] != blank()
                        ==> #[trigger] grid_view(*puzzle)[r][c] == g0[r][c],
                forall|r: int, c: int|
                    i < r < g0.len() && 0 <= c < g0[r].len() ==> #[trigger] grid_view(*puzzle)[r][c]
                        == g0[r][c],
                forall|c: int|
                    j <= c < g0[i as int].len() ==> #[trigger] grid_view(*puzzle)[i as int][c]
                        == g0[i as int][c],
                forall|r: int, c: int|
                    0 <= r < i && 0 <= c < g0[r].len() && g0[r][c] == blank() ==> 'A' <= (
                    #[trigger] grid_view(*puzzle)[r][c]) && grid_view(*puzzle)[r][c] <= 'Z',
                forall|c: int|
                    0 <= c < j && g0[i as int][c] == blank() ==> 'A' <= (#[trigger] grid_view(
                        *puzzle,
                    )[i as int][c]) && grid_view(*puzzle)[i as int][c] <= 'Z',
            decreases row_len - j,
        {
            proof {
                crate::grid::lemma_grid_view_index(*puzzle, i as int);
            }
            if puzzle[i][j] == ' ' {
                let r = random_below(26);
                let letter: char = ((r as u8) + 65u8) as char;
                assert('A' <= letter && letter <= 'Z');
                set_cell(puzzle, i, j, letter);
            }
            j = j + 1;
        }
        i = i + 1;
    }
}

} // verus!
