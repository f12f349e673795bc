//! Counting the set entries of a table of flags.
//!
//! The two byte-indexed node shapes keep an occupancy count beside a table
//! with one entry per byte. Their invariants state the count over the table
//! with `count_set`, and the lemmas here say how it moves when one entry does.

use vstd::prelude::*;

verus! {

/// The number of `true` entries of `s`.
pub open spec fn count_set(s: Seq<bool>) -> nat
    decreases s.len(),
{
    if s.len() == 0 {
        0
    } else {
        count_set(s.drop_last()) + if s.last() {
            1nat
        } else {
            0nat
        }
    }
}

/// No more entries are set than there are entries.
pub proof fn lemma_count_bound(s: Seq<bool>)
    ensures
        count_set(s) <= s.len(),
    decreases s.len(),
{
    if s.len() > 0 {
        lemma_count_bound(s.drop_last());
    }
}

/// Writing one entry moves the count by the difference between the new flag
/// and the old one.
pub proof fn lemma_count_update(s: Seq<bool>, i: int, v: bool)
    requires
        0 <= i < s.len(),
    ensures
        count_set(s.update(i, v)) + (if s[i] { 1int } else { 0int })
            == count_set(s) + (if v { 1int } else { 0int }),
    decreases s.len(),
{
    let t = s.update(i, v);
    if i == s.len() - 1 {
        assert(t.drop_last() =~= s.drop_last());
    } else {
        assert(t.drop_last() =~= s.drop_last().update(i, v));
        lemma_count_update(s.drop_last(), i, v);
    }
}

/// The count is zero exactly when no entry is set.
pub proof fn lemma_count_zero(s: Seq<bool>)
    ensures
        count_set(s) == 0 <==> (forall|i: int| 0 <= i < s.len() ==> !s[i]),
    decreases s.len(),
{
    if s.len() > 0 {
        lemma_count_zero(s.drop_last());
        if count_set(s) == 0 {
            assert forall|i: int| 0 <= i < s.len() implies !s[i] by {
                if i < s.len() - 1 {
                    assert(s.drop_last()[i] == s[i]);
                }
            }
        } else if forall|i: int| 0 <= i < s.len() ==> !s[i] {
            assert forall|i: int| 0 <= i < s.drop_last().len() implies !s.drop_last()[i] by {
                assert(s.drop_last()[i] == s[i]);
            }
        }
    }
}

/// A table whose count equals its length has every entry set.
pub proof fn lemma_count_full(s: Seq<bool>)
    requires
        count_set(s) == s.len(),
    ensures
        forall|i: int| 0 <= i < s.len() ==> s[i],
    decreases s.len(),
{
    if s.len() > 0 {
        lemma_count_bound(s.drop_last());
        lemma_count_full(s.drop_last());
        assert forall|i: int| 0 <= i < s.len() implies s[i] by {
            if i < s.len() - 1 {
                assert(s.drop_last()[i] == s[i]);
            }
        }
    }
}

/// Counting one entry further adds that entry's flag.
pub proof fn lemma_count_step(s: Seq<bool>, i: int)
    requires
        0 <= i < s.len(),
    ensures
        count_set(s.take(i + 1)) == count_set(s.take(i)) + (if s[i] { 1nat } else { 0nat }),
{
    assert(s.take(i + 1).drop_last() =~= s.take(i));
}

/// A leading part of a table has no more set entries than the whole.
pub proof fn lemma_count_take(s: Seq<bool>, i: int)
    requires
        0 <= i <= s.len(),
    ensures
        count_set(s.take(i)) <= count_set(s),
    decreases s.len() - i,
{
    if i < s.len() {
        lemma_count_step(s, i);
        lemma_count_take(s, i + 1);
    } else {
        assert(s.take(i) =~= s);
    }
}

} // verus!
