//! The table of longest-common-subsequence lengths of two line sequences,
//! the walk back through it, and the text it is shown as.

use crate::grid::Grid;
use crate::script::{
    common_side, first_side, lemma_walk_common, lemma_walk_len, lemma_walk_self,
    lemma_walk_sides, lemma_walk_stays_inside, next_move, render, rendered, second_side,
    swap_roles, swapped_line, walk, DiffLine, Move, Table,
};
use crate::subsequence::{
    is_common_subsequence, is_longest_common_length, lcs_len, lemma_lcs_len_bounded,
    lemma_lcs_len_is_longest, lemma_lcs_len_monotone, lemma_lcs_len_symmetric,
};
use vstd::prelude::*;

verus! {

/// Length of a longest common subsequence of the first `i` elements of `a`
/// and the first `j` elements of `b`.
pub open spec fn prefix_lcs_len<T>(a: Seq<T>, b: Seq<T>, i: int, j: int) -> nat {
    lcs_len(a.take(i), b.take(j))
}

/// `grid` has one row per prefix of `a` and one column per prefix of `b`, and
/// each cell holds the length of a longest common subsequence of the two
/// prefixes it stands for.
pub open spec fn is_lcs_table<T>(grid: Grid, a: Seq<T>, b: Seq<T>) -> bool {
    &&& grid.well_formed()
    &&& grid.rows() == a.len() + 1
    &&& grid.columns() == b.len() + 1
    &&& forall|i: int, j: int|
        0 <= i <= a.len() && 0 <= j <= b.len() ==> #[trigger] grid.cell(i, j) == prefix_lcs_len(
            a,
            b,
            i,
            j,
        )
}

/// The cells of `grid` as the walk reads them.
pub open spec fn grid_table(grid: Grid) -> Table {
    |row: int, column: int| grid.cell(row, column) as int
}

/// The table of longest-common-subsequence lengths of all pairs of prefixes
/// of `a` and `b`.
pub open spec fn length_table<T>(a: Seq<T>, b: Seq<T>) -> Table {
    |i: int, j: int| prefix_lcs_len(a, b, i, j) as int
}

/// The comparison of `a` with `b`: the lines of the walk through the table of
/// their longest-common-subsequence lengths, from the bottom-right corner.
pub open spec fn edit_script<T>(a: Seq<T>, b: Seq<T>) -> Seq<DiffLine<T>> {
    walk(length_table(a, b), a, b, a.len(), b.len())
}

/// How the length for a pair of prefixes follows from the lengths for the
/// shorter prefixes.
pub proof fn lemma_prefix_step<T>(a: Seq<T>, b: Seq<T>, i: int, j: int)
    requires
        0 <= i < a.len(),
        0 <= j < b.len(),
    ensures
        prefix_lcs_len(a, b, i, 0) == 0,
        prefix_lcs_len(a, b, 0, j) == 0,
        a[i] == b[j] ==> prefix_lcs_len(a, b, i + 1, j + 1) == prefix_lcs_len(a, b, i, j) + 1,
        a[i] != b[j] ==> prefix_lcs_len(a, b, i + 1, j + 1) == vstd::math::max(
            prefix_lcs_len(a, b, i + 1, j) as int,
            prefix_lcs_len(a, b, i, j + 1) as int,
        ),
        prefix_lcs_len(a, b, i, j + 1) <= prefix_lcs_len(a, b, i + 1, j + 1),
        prefix_lcs_len(a, b, i + 1, j) <= prefix_lcs_len(a, b, i + 1, j + 1),
        prefix_lcs_len(a, b, i + 1, j + 1) <= i + 1,
{
    assert(a.take(i + 1).drop_last() =~= a.take(i));
    assert(b.take(j + 1).drop_last() =~= b.take(j));
    lemma_lcs_len_monotone(a.take(i + 1), b.take(j + 1));
    lemma_lcs_len_bounded(a.take(i + 1), b.take(j + 1));
}

/// What holds of every table of longest-common-subsequence lengths: the first
/// row and the first column are 0, no cell is smaller than the cell above it
/// or the cell to its left, a cell whose two elements are equal is one more
/// than its upper-left neighbour, and the bottom-right cell is the length of
/// a longest common subsequence of the whole sequences.
pub proof fn lemma_table_shape<T>(grid: Grid, a: Seq<T>, b: Seq<T>)
    requires
        is_lcs_table(grid, a, b),
    ensures
        forall|i: int| 0 <= i <= a.len() ==> #[trigger] grid.cell(i, 0) == 0,
        forall|j: int| 0 <= j <= b.len() ==> #[trigger] grid.cell(0, j) == 0,
        forall|i: int, j: int|
            1 <= i <= a.len() && 0 <= j <= b.len() ==> grid.cell(i - 1, j) <= #[trigger] grid.cell(
                i,
                j,
            ),
        forall|i: int, j: int|
            0 <= i <= a.len() && 1 <= j <= b.len() ==> grid.cell(i, j - 1) <= #[trigger] grid.cell(
                i,
                j,
            ),
        forall|i: int, j: int|
            1 <= i <= a.len() && 1 <= j <= b.len() && a[i - 1] == b[j - 1] ==> #[trigger] grid.cell(
                i,
                j,
            ) == grid.cell(i - 1, j - 1) + 1,
        forall|i: int, j: int|
            1 <= i <= a.len() && 1 <= j <= b.len() && a[i - 1] != b[j - 1] ==> #[trigger] grid.cell(
                i,
                j,
            ) == vstd::math::max(grid.cell(i - 1, j) as int, grid.cell(i, j - 1) as int),
        is_longest_common_length(a, b, grid.cell(a.len() as int, b.len() as int) as nat),
{
    assert forall|i: int, j: int| 1 <= i <= a.len() && 0 <= j <= b.len() implies grid.cell(
        i - 1,
        j,
    ) <= #[trigger] grid.cell(i, j) by {
        assert(grid.cell(i - 1, j) == prefix_lcs_len(a, b, i - 1, j));
        assert(a.take(i).drop_last() =~= a.take(i - 1));
        lemma_lcs_len_monotone(a.take(i), b.take(j));
    }
    assert forall|i: int, j: int| 0 <= i <= a.len() && 1 <= j <= b.len() implies grid.cell(
        i,
        j - 1,
    ) <= #[trigger] grid.cell(i, j) by {
        assert(grid.cell(i, j - 1) == prefix_lcs_len(a, b, i, j - 1));
        assert(b.take(j).drop_last() =~= b.take(j - 1));
        lemma_lcs_len_monotone(a.take(i), b.take(j));
    }
    assert forall|i: int, j: int|
        1 <= i <= a.len() && 1 <= j <= b.len() && a[i - 1] == b[j - 1] implies #[trigger] grid.cell(
        i,
        j,
    ) == grid.cell(i - 1, j - 1) + 1 by {
        assert(grid.cell(i - 1, j - 1) == prefix_lcs_len(a, b, i - 1, j - 1));
        lemma_prefix_step(a, b, i - 1, j - 1);
    }
    assert forall|i: int, j: int|
        1 <= i <= a.len() && 1 <= j <= b.len() && a[i - 1] != b[j - 1] implies #[trigger] grid.cell(
        i,
        j,
    ) == vstd::math::max(grid.cell(i - 1, j) as int, grid.cell(i, j - 1) as int) by {
        assert(grid.cell(i - 1, j) == prefix_lcs_len(a, b, i - 1, j));
        assert(grid.cell(i, j - 1) == prefix_lcs_len(a, b, i, j - 1));
        lemma_prefix_step(a, b, i - 1, j - 1);
    }
    assert(a.take(a.len() as int) =~= a);
    assert(b.take(b.len() as int) =~= b);
    assert(grid.cell(a.len() as int, b.len() as int) == prefix_lcs_len(
        a,
        b,
        a.len() as int,
        b.len() as int,
    ));
    lemma_lcs_len_is_longest(a, b);
}

/// Fills the table of longest-common-subsequence lengths for every pair of
/// prefixes of the two sequences, row by row.
pub fn lcs(first_sequence: &[String], second_sequence: &[String]) -> (grid: Grid)
    requires
        (first_sequence.len() + 1) * (second_sequence.len() + 1) <= usize::MAX,
    ensures
        is_lcs_table(grid, first_sequence.deep_view(), second_sequence.deep_view()),
        is_longest_common_length(
            first_sequence.deep_view(),
            second_sequence.deep_view(),
            grid.cell(first_sequence.len() as int, second_sequence.len() as int) as nat,
        ),
        forall|i: int, j: int|
            1 <= i <= first_sequence.len() && 0 <= j <= second_sequence.len() ==> grid.cell(
                i - 1,
                j,
            ) <= #[trigger] grid.cell(i, j),
        forall|i: int, j: int|
            0 <= i <= first_sequence.len() && 1 <= j <= second_sequence.len() ==> grid.cell(
                i,
                j - 1,
            ) <= #[trigger] grid.cell(i, j),
{
    let m = first_sequence.len();
    let n = second_sequence.len();
    let ghost a = first_sequence.deep_view();
    let ghost b = second_sequence.deep_view();
    assert(m + 1 <= usize::MAX && n + 1 <= usize::MAX) by (nonlinear_arith)
        requires
            (m + 1) * (n + 1) <= usize::MAX,
    ;
    let mut grid = Grid::new(m + 1, n + 1);
    let mut i: usize = 0;
    while i < m
        invariant
            0 <= i <= m,
            m == first_sequence.len() == a.len(),
            n == second_sequence.len() == b.len(),
            a == first_sequence.deep_view(),
            b == second_sequence.deep_view(),
            grid.well_formed(),
            grid.rows() == m + 1,
            grid.columns() == n + 1,
            forall|r: int| 0 <= r <= m ==> #[trigger] grid.cell(r, 0) == 0,
            forall|r: int, c: int|
                0 <= r <= i && 0 <= c <= n ==> #[trigger] grid.cell(r, c) == prefix_lcs_len(
                    a,
                    b,
                    r,
                    c,
                ),
        decreases m - i,
    {
        let mut j: usize = 0;
        while j < n
            invariant
                0 <= i < m,
                0 <= j <= n,
                m == first_sequence.len() == a.len(),
                n == second_sequence.len() == b.len(),
                a == first_sequence.deep_view(),
                b == second_sequence.deep_view(),
                grid.well_formed(),
                grid.rows() == m + 1,
                grid.columns() == n + 1,
                forall|r: int| 0 <= r <= m ==> #[trigger] grid.cell(r, 0) == 0,
                forall|r: int, c: int|
                    0 <= r <= i && 0 <= c <= n ==> #[trigger] grid.cell(r, c) == prefix_lcs_len(
                        a,
                        b,
                        r,
                        c,
                    ),
                forall|c: int|
                    0 <= c <= j ==> #[trigger] grid.cell(i + 1, c) == prefix_lcs_len(
                        a,
                        b,
                        i + 1,
                        c,
                    ),
            decreases n - j,
        {
            proof {
                lemma_prefix_step(a, b, i as int, j as int);
            }
            let value = if first_sequence[i] == second_sequence[j] {
                grid.get(i, j) + 1
            } else {
                let left = grid.get(i + 1, j);
                let up = grid.get(i, j + 1);
                if left >= up {
                    left
                } else {
                    up
                }
            };
            grid.insert(i + 1, j + 1, value);
            j += 1;
        }
        i += 1;
    }
    proof {
        lemma_table_shape(grid, a, b);
    }
    grid
}

/// Decides the move of the walk at `(i, j)` from the last remaining elements
/// and, where they differ, from the cells to the left and above.
pub fn choose_move(
    grid: &Grid,
    first_sequence: &[String],
    second_sequence: &[String],
    i: usize,
    j: usize,
) -> (chosen: Move)
    requires
        grid.well_formed(),
        i <= first_sequence.len(),
        j <= second_sequence.len(),
        i > 0 && j > 0 ==> i < grid.rows() && j < grid.columns(),
    ensures
        chosen == next_move(
            grid_table(*grid),
            first_sequence.deep_view(),
            second_sequence.deep_view(),
            i as nat,
            j as nat,
        ),
{
    if i > 0 && j > 0 && first_sequence[i - 1] == second_sequence[j - 1] {
        Move::Both
    } else if j > 0 && (i == 0 || grid.get(i, j - 1) >= grid.get(i - 1, j)) {
        Move::Second
    } else if i > 0 {
        Move::First
    } else {
        Move::Done
    }
}

/// Walks the table back from its bottom-right corner and returns the lines of
/// the comparison in the order of the sequences.
pub fn reconstruct(grid: &Grid, first_sequence: &[String], second_sequence: &[String]) -> (lines:
    Vec<DiffLine<String>>)
    requires
        grid.well_formed(),
        first_sequence.len() > 0 && second_sequence.len() > 0 ==> first_sequence.len()
            < grid.rows() && second_sequence.len() < grid.columns(),
    ensures
        lines.deep_view() == walk(
            grid_table(*grid),
            first_sequence.deep_view(),
            second_sequence.deep_view(),
            first_sequence.len() as nat,
            second_sequence.len() as nat,
        ),
{
    let ghost table = grid_table(*grid);
    let ghost a = first_sequence.deep_view();
    let ghost b = second_sequence.deep_view();
    let ghost whole = walk(table, a, b, first_sequence.len() as nat, second_sequence.len() as nat);
    let mut backwards: Vec<DiffLine<String>> = Vec::new();
    let mut i = first_sequence.len();
    let mut j = second_sequence.len();
    let mut chosen = choose_move(grid, first_sequence, second_sequence, i, j);
    while chosen != Move::Done
        invariant
            grid.well_formed(),
            i <= first_sequence.len(),
            j <= second_sequence.len(),
            first_sequence.len() > 0 && second_sequence.len() > 0 ==> first_sequence.len()
                < grid.rows() && second_sequence.len() < grid.columns(),
            table == grid_table(*grid),
            a == first_sequence.deep_view(),
            b == second_sequence.deep_view(),
            chosen == next_move(table, a, b, i as nat, j as nat),
            whole == walk(table, a, b, i as nat, j as nat) + backwards.deep_view().reverse(),
        decreases i + j,
    {
        let ghost rest = backwards.deep_view();
        let ghost here = walk(table, a, b, i as nat, j as nat);
        let line = match chosen {
            Move::Both => {
                i -= 1;
                j -= 1;
                DiffLine::Common(first_sequence[i].clone())
            },
            Move::Second => {
                j -= 1;
                DiffLine::OnlyInSecond(second_sequence[j].clone())
            },
            _ => {
                i -= 1;
                DiffLine::OnlyInFirst(first_sequence[i].clone())
            },
        };
        backwards.push(line);
        proof {
            let shorter = walk(table, a, b, i as nat, j as nat);
            assert(here == shorter.push(line.deep_view()));
            assert(backwards.deep_view() =~= rest.push(line.deep_view()));
            assert(shorter.push(line.deep_view()) + rest.reverse() =~= shorter + rest.push(
                line.deep_view(),
            ).reverse());
        }
        chosen = choose_move(grid, first_sequence, second_sequence, i, j);
    }
    let mut lines: Vec<DiffLine<String>> = Vec::new();
    let ghost total = backwards.deep_view();
    assert(whole =~= total.reverse());
    while backwards.len() > 0
        invariant
            backwards.deep_view() =~= total.take(backwards.len() as int),
            lines.deep_view() =~= total.skip(backwards.len() as int).reverse(),
            backwards.len() <= total.len(),
        decreases backwards.len(),
    {
        let ghost before = lines.deep_view();
        let ghost k = backwards.len() - 1;
        let ghost pending = backwards.deep_view();
        let line = backwards.pop().unwrap();
        lines.push(line);
        proof {
            assert(line.deep_view() == pending[k]);
            assert(backwards.deep_view() =~= pending.take(k));
            assert(lines.deep_view() =~= before.push(line.deep_view()));
            assert(total.skip(k).reverse() =~= total.skip(k + 1).reverse().push(total[k]));
        }
    }
    assert(total.skip(0) =~= total);
    lines
}

/// Compares two sequences of lines and returns the tagged lines of the
/// comparison in the order of the sequences.
pub fn diff_lines(first_sequence: &[String], second_sequence: &[String]) -> (lines: Vec<
    DiffLine<String>,
>)
    requires
        (first_sequence.len() + 1) * (second_sequence.len() + 1) <= usize::MAX,
    ensures
        lines.deep_view() == edit_script(first_sequence.deep_view(), second_sequence.deep_view()),
{
    let grid = lcs(first_sequence, second_sequence);
    proof {
        lemma_walk_stays_inside(
            grid_table(grid),
            length_table(first_sequence.deep_view(), second_sequence.deep_view()),
            first_sequence.deep_view(),
            second_sequence.deep_view(),
            first_sequence.len() as nat,
            second_sequence.len() as nat,
        );
    }
    reconstruct(&grid, first_sequence, second_sequence)
}

/// Compares two sequences of lines and returns the comparison as text: an
/// empty line, then common lines as they are, lines to insert behind `"> "`
/// and lines to remove behind `"< "`.
pub fn diff(first_sequence: &[String], second_sequence: &[String]) -> (text: Vec<String>)
    requires
        (first_sequence.len() + 1) * (second_sequence.len() + 1) <= usize::MAX,
    ensures
        text.deep_view() == rendered(
            edit_script(first_sequence.deep_view(), second_sequence.deep_view()),
        ),
{
    let lines = diff_lines(first_sequence, second_sequence);
    render(&lines)
}

/// Every element of both sequences appears exactly once in the comparison
/// and in order: its lines of the first sequence are `a`, its lines of the
/// second sequence are `b`.
pub proof fn lemma_script_sides<T>(a: Seq<T>, b: Seq<T>)
    ensures
        first_side(edit_script(a, b)) == a,
        second_side(edit_script(a, b)) == b,
{
    lemma_walk_sides(length_table(a, b), a, b, a.len(), b.len());
    assert(a.take(a.len() as int) =~= a);
    assert(b.take(b.len() as int) =~= b);
}

/// Comparing a sequence with itself yields only common lines: one per
/// element, in order.
pub proof fn lemma_script_self<T>(a: Seq<T>)
    ensures
        edit_script(a, a) == a.map_values(|text: T| DiffLine::Common(text)),
{
    lemma_walk_self(length_table(a, a), a, a.len());
    assert(a.take(a.len() as int) =~= a);
}

/// Through the table of lengths, the walk from `(i, j)` keeps as many common
/// lines as the cell `(i, j)` says.
pub proof fn lemma_walk_keeps_cell<T>(a: Seq<T>, b: Seq<T>, i: nat, j: nat)
    requires
        i <= a.len(),
        j <= b.len(),
    ensures
        common_side(walk(length_table(a, b), a, b, i, j)).len() == prefix_lcs_len(
            a,
            b,
            i as int,
            j as int,
        ),
    decreases i + j,
{
    let table = length_table(a, b);
    let script = walk(table, a, b, i, j);
    if i > 0 && j > 0 {
        lemma_prefix_step(a, b, i - 1, j - 1);
        assert(table(i as int, j - 1) == prefix_lcs_len(a, b, i as int, j - 1));
        assert(table(i - 1, j as int) == prefix_lcs_len(a, b, i - 1, j as int));
    }
    match next_move(table, a, b, i, j) {
        Move::Both => {
            lemma_walk_keeps_cell(a, b, (i - 1) as nat, (j - 1) as nat);
            assert(script.drop_last() =~= walk(table, a, b, (i - 1) as nat, (j - 1) as nat));
        },
        Move::Second => {
            lemma_walk_keeps_cell(a, b, i, (j - 1) as nat);
            assert(script.drop_last() =~= walk(table, a, b, i, (j - 1) as nat));
        },
        Move::First => {
            lemma_walk_keeps_cell(a, b, (i - 1) as nat, j);
            assert(script.drop_last() =~= walk(table, a, b, (i - 1) as nat, j));
        },
        Move::Done => {},
    }
}

/// The common lines of the comparison are a longest common subsequence of
/// the two sequences, and the comparison has one line for each element that
/// is not paired with one of the other sequence.
pub proof fn lemma_script_keeps_longest<T>(a: Seq<T>, b: Seq<T>)
    ensures
        is_common_subsequence(common_side(edit_script(a, b)), a, b),
        common_side(edit_script(a, b)).len() == lcs_len(a, b),
        is_longest_common_length(a, b, common_side(edit_script(a, b)).len()),
        edit_script(a, b).len() + lcs_len(a, b) == a.len() + b.len(),
{
    lemma_walk_common(length_table(a, b), a, b, a.len(), b.len());
    lemma_walk_keeps_cell(a, b, a.len(), b.len());
    lemma_walk_len(length_table(a, b), a, b, a.len(), b.len());
    lemma_lcs_len_is_longest(a, b);
    assert(a.take(a.len() as int) =~= a);
    assert(b.take(b.len() as int) =~= b);
}

/// The walk from `(i, j)` through the table of lengths never has to break a
/// tie: wherever the last elements differ and both sequences have elements
/// left, the cell to the left and the cell above differ.
pub open spec fn meets_no_tie<T>(a: Seq<T>, b: Seq<T>, i: nat, j: nat) -> bool
    decreases i + j,
{
    match next_move(length_table(a, b), a, b, i, j) {
        Move::Both => meets_no_tie(a, b, (i - 1) as nat, (j - 1) as nat),
        Move::Second => (i == 0 || prefix_lcs_len(a, b, i as int, j - 1) != prefix_lcs_len(
            a,
            b,
            i - 1,
            j as int,
        )) && meets_no_tie(a, b, i, (j - 1) as nat),
        Move::First => meets_no_tie(a, b, (i - 1) as nat, j),
        Move::Done => true,
    }
}

/// Exchanging the two sequences exchanges the roles in every line of the walk
/// from `(i, j)` exactly when that walk meets no tie. At a tie both walks
/// prefer their own second sequence and part ways.
pub proof fn lemma_walk_swapped<T>(a: Seq<T>, b: Seq<T>, i: nat, j: nat)
    requires
        i <= a.len(),
        j <= b.len(),
    ensures
        walk(length_table(b, a), b, a, j, i) == swap_roles(walk(length_table(a, b), a, b, i, j))
            <==> meets_no_tie(a, b, i, j),
    decreases i + j,
{
    let forth = length_table(a, b);
    let back = length_table(b, a);
    let script = walk(forth, a, b, i, j);
    let mirrored = walk(back, b, a, j, i);
    if i > 0 && j > 0 {
        lemma_lcs_len_symmetric(a.take(i as int), b.take(j - 1));
        lemma_lcs_len_symmetric(a.take(i - 1), b.take(j as int));
        assert(forth(i as int, j - 1) == back(j - 1, i as int));
        assert(forth(i - 1, j as int) == back(j as int, i - 1));
    }
    match next_move(forth, a, b, i, j) {
        Move::Both => {
            let shorter = walk(forth, a, b, (i - 1) as nat, (j - 1) as nat);
            let other = walk(back, b, a, (j - 1) as nat, (i - 1) as nat);
            lemma_walk_swapped(a, b, (i - 1) as nat, (j - 1) as nat);
            assert(script.drop_last() =~= shorter);
            assert(mirrored.drop_last() =~= other);
            assert(swap_roles(script) =~= swap_roles(shorter).push(swapped_line(script.last())));
            assert(swap_roles(script).drop_last() =~= swap_roles(shorter));
        },
        Move::Second => {
            let shorter = walk(forth, a, b, i, (j - 1) as nat);
            lemma_walk_swapped(a, b, i, (j - 1) as nat);
            assert(script.drop_last() =~= shorter);
            assert(swap_roles(script) =~= swap_roles(shorter).push(swapped_line(script.last())));
            assert(swap_roles(script).drop_last() =~= swap_roles(shorter));
            if i == 0 || forth(i as int, j - 1) != forth(i - 1, j as int) {
                let other = walk(back, b, a, (j - 1) as nat, i);
                assert(mirrored.drop_last() =~= other);
            } else {
                assert(mirrored.last() != swap_roles(script).last());
            }
        },
        Move::First => {
            let shorter = walk(forth, a, b, (i - 1) as nat, j);
            let other = walk(back, b, a, j, (i - 1) as nat);
            lemma_walk_swapped(a, b, (i - 1) as nat, j);
            assert(script.drop_last() =~= shorter);
            assert(mirrored.drop_last() =~= other);
            assert(swap_roles(script) =~= swap_roles(shorter).push(swapped_line(script.last())));
            assert(swap_roles(script).drop_last() =~= swap_roles(shorter));
        },
        Move::Done => {
            assert(swap_roles(script) =~= mirrored);
        },
    }
}

/// Comparing `b` with `a` gives the lines of comparing `a` with `b` with the
/// roles exchanged, line by line, exactly when the walk for `a` and `b` meets
/// no tie.
pub proof fn lemma_script_swapped<T>(a: Seq<T>, b: Seq<T>)
    ensures
        edit_script(b, a) == swap_roles(edit_script(a, b)) <==> meets_no_tie(
            a,
            b,
            a.len(),
            b.len(),
        ),
{
    lemma_walk_swapped(a, b, a.len(), b.len());
}

/// Tie or not, comparing `b` with `a` keeps as many common lines and has as
/// many lines in all as comparing `a` with `b`.
pub proof fn lemma_script_swapped_counts<T>(a: Seq<T>, b: Seq<T>)
    ensures
        common_side(edit_script(b, a)).len() == common_side(edit_script(a, b)).len(),
        edit_script(b, a).len() == edit_script(a, b).len(),
{
    lemma_script_keeps_longest(a, b);
    lemma_script_keeps_longest(b, a);
    lemma_lcs_len_symmetric(a, b);
}

} // verus!
