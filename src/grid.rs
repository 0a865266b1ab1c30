use vstd::prelude::*;

verus! {

/// Number of marked cells in a row.
pub open spec fn count_row(s: Seq<bool>) -> int
    decreases s.len(),
{
    if s.len() == 0 {
        0
    } else {
        count_row(s.drop_last()) + if s.last() {
            1int
        } else {
            0int
        }
    }
}

/// Number of marked cells in a grid.
pub open spec fn count_grid(g: Seq<Vec<bool>>) -> int
    decreases g.len(),
{
    if g.len() == 0 {
        0
    } else {
        count_grid(g.drop_last()) + count_row(g.last()@)
    }
}

/// A row without marks counts zero.
pub proof fn lemma_count_row_none(s: Seq<bool>)
    requires
        forall|j: int| 0 <= j < s.len() ==> !#[trigger] s[j],
    ensures
        count_row(s) == 0,
    decreases s.len(),
{
    if s.len() > 0 {
        lemma_count_row_none(s.drop_last());
    }
}

/// A grid without marks counts zero.
pub proof fn lemma_count_grid_none(g: Seq<Vec<bool>>)
    requires
        forall|i: int, j: int| 0 <= i < g.len() && 0 <= j < g[i]@.len() ==> !#[trigger] g[i]@[j],
    ensures
        count_grid(g) == 0,
    decreases g.len(),
{
    if g.len() > 0 {
        lemma_count_grid_none(g.drop_last());
        lemma_count_row_none(g.last()@);
    }
}

/// A row holds no more marks than cells.
pub proof fn lemma_count_row_bound(s: Seq<bool>)
    ensures
        0 <= count_row(s) <= s.len(),
    decreases s.len(),
{
    if s.len() > 0 {
        lemma_count_row_bound(s.drop_last());
    }
}

/// Marking an unmarked cell adds one to the row's count.
pub proof fn lemma_count_row_mark(s: Seq<bool>, j: int)
    requires
        0 <= j < s.len(),
        !s[j],
    ensures
        count_row(s.update(j, true)) == count_row(s) + 1,
    decreases s.len(),
{
    let t = s.update(j, true);
    if j < s.len() - 1 {
        lemma_count_row_mark(s.drop_last(), j);
        assert(t.drop_last() =~= s.drop_last().update(j, true));
    } else {
        assert(t.drop_last() =~= s.drop_last());
    }
}

/// A grid of `rows` rows of `cols` cells holds at most `rows * cols` marks.
pub proof fn lemma_count_grid_bound(g: Seq<Vec<bool>>, cols: int)
    requires
        forall|i: int| 0 <= i < g.len() ==> #[trigger] g[i]@.len() == cols,
    ensures
        0 <= count_grid(g) <= g.len() * cols,
    decreases g.len(),
{
    if g.len() > 0 {
        lemma_count_grid_bound(g.drop_last(), cols);
        lemma_count_row_bound(g.last()@);
        assert(g.len() * cols == (g.len() - 1) * cols + cols) by (nonlinear_arith);
    }
}

/// A grid with an unmarked cell holds fewer marks than cells.
pub proof fn lemma_count_grid_lt(g: Seq<Vec<bool>>, cols: int, i: int, j: int)
    requires
        forall|k: int| 0 <= k < g.len() ==> #[trigger] g[k]@.len() == cols,
        0 <= i < g.len(),
        0 <= j < cols,
        !g[i]@[j],
    ensures
        count_grid(g) < g.len() * cols,
    decreases g.len(),
{
    lemma_count_grid_bound(g.drop_last(), cols);
    lemma_count_row_bound(g.last()@);
    assert(g.len() * cols == (g.len() - 1) * cols + cols) by (nonlinear_arith);
    if i < g.len() - 1 {
        lemma_count_grid_lt(g.drop_last(), cols, i, j);
    } else {
        lemma_count_row_mark(g.last()@, j);
        lemma_count_row_bound(g.last()@.update(j, true));
    }
}

/// Replacing row `i` by one with one more mark adds one to the grid's count.
pub proof fn lemma_count_grid_mark(g: Seq<Vec<bool>>, i: int, row: Vec<bool>)
    requires
        0 <= i < g.len(),
        count_row(row@) == count_row(g[i]@) + 1,
    ensures
        count_grid(g.update(i, row)) == count_grid(g) + 1,
    decreases g.len(),
{
    let h = g.update(i, row);
    if i < g.len() - 1 {
        lemma_count_grid_mark(g.drop_last(), i, row);
        assert(h.drop_last() =~= g.drop_last().update(i, row));
    } else {
        assert(h.drop_last() =~= g.drop_last());
    }
}

} // verus!
