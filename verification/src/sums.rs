//! Totals of sequences of counts, and the few facts about them that the
//! histogram and transfer-table proofs lean on.

use vstd::prelude::*;

verus! {

/// The sum of all entries of `s`.
pub open spec fn total(s: Seq<nat>) -> nat
    decreases s.len(),
{
    if s.len() == 0 {
        0
    } else {
        total(s.drop_last()) + s.last()
    }
}

/// How often `v` occurs in `s`.
pub open spec fn occurrences(s: Seq<nat>, v: nat) -> nat
    decreases s.len(),
{
    if s.len() == 0 {
        0
    } else {
        occurrences(s.drop_last(), v) + if s.last() == v { 1nat } else { 0nat }
    }
}

/// Taking one more entry adds that entry to the total.
pub proof fn lemma_total_take_step(s: Seq<nat>, n: int)
    requires
        0 <= n < s.len(),
    ensures
        total(s.take(n + 1)) == total(s.take(n)) + s[n],
{
    assert(s.take(n + 1).drop_last() =~= s.take(n));
}

/// Taking one more entry counts that entry.
pub proof fn lemma_occurrences_take_step(s: Seq<nat>, n: int, v: nat)
    requires
        0 <= n < s.len(),
    ensures
        occurrences(s.take(n + 1), v) == occurrences(s.take(n), v) + if s[n] == v {
            1nat
        } else {
            0nat
        },
{
    assert(s.take(n + 1).drop_last() =~= s.take(n));
}

/// Replacing one entry moves the total by the difference.
pub proof fn lemma_total_update(s: Seq<nat>, i: int, v: nat)
    requires
        0 <= i < s.len(),
    ensures
        total(s.update(i, v)) == total(s) - s[i] + v,
    decreases s.len(),
{
    if i == s.len() - 1 {
        assert(s.update(i, v).drop_last() =~= s.drop_last());
    } else {
        lemma_total_update(s.drop_last(), i, v);
        assert(s.update(i, v).drop_last() =~= s.drop_last().update(i, v));
    }
}

/// No entry is larger than the total.
pub proof fn lemma_entry_le_total(s: Seq<nat>, i: int)
    requires
        0 <= i < s.len(),
    ensures
        s[i] <= total(s),
    decreases s.len(),
{
    if i < s.len() - 1 {
        lemma_entry_le_total(s.drop_last(), i);
    }
}

/// Totals of prefixes grow with the prefix.
pub proof fn lemma_total_take_monotone(s: Seq<nat>, a: int, b: int)
    requires
        0 <= a <= b <= s.len(),
    ensures
        total(s.take(a)) <= total(s.take(b)),
    decreases b - a,
{
    if a < b {
        lemma_total_take_monotone(s, a, b - 1);
        lemma_total_take_step(s, b - 1);
    }
}

/// A sequence of zeros has total zero.
pub proof fn lemma_total_zeros(s: Seq<nat>)
    requires
        forall|i: int| 0 <= i < s.len() ==> s[i] == 0,
    ensures
        total(s) == 0,
    decreases s.len(),
{
    if s.len() > 0 {
        lemma_total_zeros(s.drop_last());
    }
}

} // verus!
