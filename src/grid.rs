//! Arithmetic facts about a rectangular grid stored row by row in one sequence.
use vstd::prelude::*;

verus! {

/// The position of cell `(r, c)` in a row-major sequence with `cols` columns.
pub open spec fn cell_index(cols: int, r: int, c: int) -> int {
    r * cols + c
}

/// `(r, c)` lies on a grid of `rows` rows and `cols` columns.
pub open spec fn in_grid(rows: int, cols: int, r: int, c: int) -> bool {
    0 <= r < rows && 0 <= c < cols
}

/// Two distinct cells that touch by a side or by a corner.
pub open spec fn adjacent(r1: int, c1: int, r2: int, c2: int) -> bool {
    &&& (r1 != r2 || c1 != c2)
    &&& -1 <= r1 - r2 <= 1
    &&& -1 <= c1 - c2 <= 1
}

/// The number of `true` entries of `s`.
pub open spec fn count_true(s: Seq<bool>) -> nat
    decreases s.len(),
{
    if s.len() == 0 {
        0
    } else {
        count_true(s.drop_last()) + if s.last() {
            1nat
        } else {
            0nat
        }
    }
}

/// A cell of the grid has its index inside the sequence.
pub proof fn lemma_index_in_range(rows: int, cols: int, r: int, c: int)
    requires
        in_grid(rows, cols, r, c),
    ensures
        0 <= cell_index(cols, r, c) < rows * cols,
{
    assert(0 <= r * cols) by (nonlinear_arith)
        requires
            0 <= r,
            0 < cols,
    ;
    assert(r * cols + c < rows * cols) by (nonlinear_arith)
        requires
            r + 1 <= rows,
            c < cols,
            0 < cols,
    ;
}

/// Distinct cells of the grid have distinct indices.
pub proof fn lemma_index_injective(cols: int, r1: int, c1: int, r2: int, c2: int)
    requires
        0 <= c1 < cols,
        0 <= c2 < cols,
        r1 != r2 || c1 != c2,
    ensures
        cell_index(cols, r1, c1) != cell_index(cols, r2, c2),
{
    if r1 == r2 {
    } else if r1 < r2 {
        assert(r1 * cols + c1 < r2 * cols + c2) by (nonlinear_arith)
            requires
                r1 + 1 <= r2,
                0 <= c1 < cols,
                0 <= c2,
        ;
    } else {
        assert(r2 * cols + c2 < r1 * cols + c1) by (nonlinear_arith)
            requires
                r2 + 1 <= r1,
                0 <= c2 < cols,
                0 <= c1,
        ;
    }
}

/// Writing one cell of a row-major sequence leaves every other cell as it was.
pub proof fn lemma_update_other_cells<T>(rows: int, cols: int, s: Seq<T>, r0: int, c0: int, x: T)
    requires
        in_grid(rows, cols, r0, c0),
        s.len() == rows * cols,
    ensures
        forall|r: int, c: int|
            in_grid(rows, cols, r, c) && (r != r0 || c != c0) ==> #[trigger] s.update(
                cell_index(cols, r0, c0),
                x,
            )[cell_index(cols, r, c)] == s[cell_index(cols, r, c)],
{
    assert forall|r: int, c: int| in_grid(rows, cols, r, c) && (r != r0 || c != c0) implies #[trigger] s.update(
        cell_index(cols, r0, c0),
        x,
    )[cell_index(cols, r, c)] == s[cell_index(cols, r, c)] by {
        lemma_index_injective(cols, r, c, r0, c0);
        lemma_index_in_range(rows, cols, r, c);
        lemma_index_in_range(rows, cols, r0, c0);
    }
}

pub proof fn lemma_count_true_bound(s: Seq<bool>)
    ensures
        count_true(s) <= s.len(),
    decreases s.len(),
{
    if s.len() > 0 {
        lemma_count_true_bound(s.drop_last());
    }
}

/// Setting a `false` entry to `true` adds one to the count.
pub proof fn lemma_count_true_set(s: Seq<bool>, i: int)
    requires
        0 <= i < s.len(),
        !s[i],
    ensures
        count_true(s.update(i, true)) == count_true(s) + 1,
    decreases s.len(),
{
    let t = s.update(i, true);
    if i == s.len() - 1 {
        assert(t.drop_last() =~= s.drop_last());
    } else {
        assert(t.drop_last() =~= s.drop_last().update(i, true));
        lemma_count_true_set(s.drop_last(), i);
    }
}

/// The count over a prefix one entry longer.
pub proof fn lemma_count_true_take(s: Seq<bool>, i: int)
    requires
        0 <= i < s.len(),
    ensures
        count_true(s.take(i + 1)) == count_true(s.take(i)) + if s[i] {
            1nat
        } else {
            0nat
        },
{
    assert(s.take(i + 1).drop_last() =~= s.take(i));
}

/// A sequence with no `true` entry counts none.
pub proof fn lemma_count_true_none(s: Seq<bool>)
    requires
        forall|i: int| 0 <= i < s.len() ==> !s[i],
    ensures
        count_true(s) == 0,
    decreases s.len(),
{
    if s.len() > 0 {
        lemma_count_true_none(s.drop_last());
    }
}

} // verus!
