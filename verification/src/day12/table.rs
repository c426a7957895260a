use crate::day12::sweep::{at, replaced};
use vstd::prelude::*;

verus! {

/// Sum of the entries of a row.
pub open spec fn row_total(r: Seq<usize>) -> nat
    decreases r.len(),
{
    if r.len() == 0 {
        0
    } else {
        row_total(r.drop_last()) + r.last() as nat
    }
}

/// Sum of the entries of a table.
pub open spec fn table_total(t: Seq<Vec<usize>>) -> nat
    decreases t.len(),
{
    if t.len() == 0 {
        0
    } else {
        table_total(t.drop_last()) + row_total(t.last()@)
    }
}

/// Replacing one entry of a row changes the sum by the difference.
pub proof fn lemma_row_total_update(r: Seq<usize>, i: int, v: usize)
    requires
        0 <= i < r.len(),
    ensures
        row_total(r.update(i, v)) == row_total(r) - r[i] + v,
    decreases r.len(),
{
    let r2 = r.update(i, v);
    if i == r.len() - 1 {
        assert(r2.drop_last() == r.drop_last());
    } else {
        lemma_row_total_update(r.drop_last(), i, v);
        assert(r2.drop_last() == r.drop_last().update(i, v));
    }
}

/// Two tables with the same rows have the same sum.
pub proof fn lemma_table_total_same(t: Seq<Vec<usize>>, t2: Seq<Vec<usize>>)
    requires
        t.len() == t2.len(),
        forall|j: int| 0 <= j < t.len() ==> (#[trigger] t2[j])@ == t[j]@,
    ensures
        table_total(t2) == table_total(t),
    decreases t.len(),
{
    if t.len() > 0 {
        assert(t2.last()@ == t.last()@);
        lemma_table_total_same(t.drop_last(), t2.drop_last());
    }
}

/// Replacing one entry of a table changes the sum by the difference.
pub proof fn lemma_table_total_replaced(t: Seq<Vec<usize>>, t2: Seq<Vec<usize>>, c: (usize, usize), v: usize)
    requires
        c.1 < t.len(),
        c.0 < t[c.1 as int]@.len(),
        replaced(t, t2, c, v),
    ensures
        table_total(t2) == table_total(t) - at(t, c) + v,
    decreases t.len(),
{
    if c.1 == t.len() - 1 {
        lemma_row_total_update(t.last()@, c.0 as int, v);
        lemma_table_total_same(t.drop_last(), t2.drop_last());
    } else {
        assert(t2.last()@ == t.last()@);
        assert(replaced(t.drop_last(), t2.drop_last(), c, v));
        lemma_table_total_replaced(t.drop_last(), t2.drop_last(), c, v);
    }
}

} // verus!
