//! Counting open entries (removed walls) of a wall grid. The count of open
//! interior walls is how the spanning-tree edge count of a finished maze is
//! stated.

use vstd::prelude::*;

verus! {

/// How many entries of `s` are `false`, i.e. how many walls of a wall grid
/// are open.
pub open spec fn open_count(s: Seq<bool>) -> nat
    decreases s.len(),
{
    if s.len() == 0 {
        0
    } else {
        open_count(s.drop_last()) + (if s.last() {
            0nat
        } else {
            1nat
        })
    }
}

/// A grid whose walls are all present has no open wall.
pub proof fn lemma_open_count_all_true(s: Seq<bool>)
    requires
        forall|i: int| 0 <= i < s.len() ==> s[i],
    ensures
        open_count(s) == 0,
    decreases s.len(),
{
    if s.len() > 0 {
        lemma_open_count_all_true(s.drop_last());
    }
}

/// Opening one present wall raises the open count by exactly one.
pub proof fn lemma_open_count_open_one(s: Seq<bool>, i: int)
    requires
        0 <= i < s.len(),
        s[i],
    ensures
        open_count(s.update(i, false)) == open_count(s) + 1,
    decreases s.len(),
{
    let t = s.update(i, false);
    if i == s.len() - 1 {
        assert(t.drop_last() =~= s.drop_last());
    } else {
        assert(t.drop_last() =~= s.drop_last().update(i, false));
        lemma_open_count_open_one(s.drop_last(), i);
    }
}

/// Equal sequences of walls have equal open counts stated over a prefix
/// relation: the count only depends on the entries.
pub proof fn lemma_open_count_equal(s: Seq<bool>, t: Seq<bool>)
    requires
        s.len() == t.len(),
        forall|i: int| 0 <= i < s.len() ==> s[i] == t[i],
    ensures
        open_count(s) == open_count(t),
    decreases s.len(),
{
    if s.len() > 0 {
        lemma_open_count_equal(s.drop_last(), t.drop_last());
    }
}

} // verus!
