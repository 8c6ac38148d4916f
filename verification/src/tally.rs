//! Counting the occurrences of a value in a sequence.

use vstd::prelude::*;

verus! {

/// One where `b` holds, zero where it does not.
pub open spec fn one_if(b: bool) -> int {
    if b {
        1
    } else {
        0
    }
}

/// How many entries of `s` equal `v`.
pub open spec fn count_in<T>(s: Seq<T>, v: T) -> nat
    decreases s.len(),
{
    if s.len() == 0 {
        0
    } else {
        count_in(s.drop_last(), v) + if s.last() == v {
            1nat
        } else {
            0nat
        }
    }
}

/// A value that no entry holds is counted zero times.
pub proof fn lemma_count_absent<T>(s: Seq<T>, v: T)
    requires
        forall|i: int| 0 <= i < s.len() ==> s[i] != v,
    ensures
        count_in(s, v) == 0,
    decreases s.len(),
{
    if s.len() > 0 {
        lemma_count_absent(s.drop_last(), v);
    }
}

/// Overwriting one entry takes one from the count of the value that was
/// there and adds one to the count of the value that is written.
pub proof fn lemma_count_update<T>(s: Seq<T>, i: int, w: T, v: T)
    requires
        0 <= i < s.len(),
    ensures
        count_in(s.update(i, w), v) + one_if(s[i] == v) == count_in(s, v) + one_if(w == v),
    decreases s.len(),
{
    let t = s.update(i, w);
    if i == s.len() - 1 {
        assert(t.drop_last() =~= s.drop_last());
    } else {
        assert(t.drop_last() =~= s.drop_last().update(i, w));
        lemma_count_update(s.drop_last(), i, w, v);
    }
}

} // verus!
