//! Counting helpers shared by the graph searches.
use vstd::prelude::*;

verus! {

/// The number of `false` entries.
pub open spec fn count_false(marks: Seq<bool>) -> nat
    decreases marks.len(),
{
    if marks.len() == 0 {
        0
    } else {
        count_false(marks.drop_last()) + if marks.last() {
            0nat
        } else {
            1nat
        }
    }
}

pub proof fn lemma_count_false_mark(marks: Seq<bool>, v: int)
    requires
        0 <= v < marks.len(),
        !marks[v],
    ensures
        count_false(marks.update(v, true)) + 1 == count_false(marks),
    decreases marks.len(),
{
    if v < marks.len() - 1 {
        assert(marks.update(v, true).drop_last() =~= marks.drop_last().update(v, true));
        lemma_count_false_mark(marks.drop_last(), v);
    } else {
        assert(marks.update(v, true).drop_last() =~= marks.drop_last());
    }
}

} // verus!
