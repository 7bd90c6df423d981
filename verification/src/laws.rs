//! Laws that hold of every set variant, proved once over the mathematical
//! model their contracts share: a set of integers.
//!
//! Each variant's `insert` ensures `final(self)@ == old(self)@.insert(v)`
//! and returns whether the value was new, `remove` ensures
//! `final(self)@ == old(self)@.remove(v)` and returns whether the value was
//! present, `contains` answers membership in the view, and `cardinality`
//! returns the view's size. The lemmas below therefore carry over to any
//! chain of those calls, on any variant.

use vstd::prelude::*;

verus! {

/// The set reached by inserting every value of a sequence, in order, into a
/// starting set; the model of a bulk construction loop.
pub open spec fn set_after_inserts(start: Set<int>, values: Seq<int>) -> Set<int>
    decreases values.len(),
{
    if values.len() == 0 {
        start
    } else {
        set_after_inserts(start, values.drop_last()).insert(values.last())
    }
}

/// Inserting a finite sequence of values into an empty set yields exactly
/// the set of those values, whatever their order; with distinct values, the
/// cardinality afterwards is the number of values inserted.
pub proof fn lemma_inserts_collect(values: Seq<int>)
    ensures
        set_after_inserts(Set::empty(), values) == values.to_set(),
        values.no_duplicates() ==> set_after_inserts(Set::empty(), values).len() == values.len(),
    decreases values.len(),
{
    broadcast use vstd::seq_lib::seq_to_set_is_finite;

    if values.len() == 0 {
        assert(set_after_inserts(Set::empty(), values) =~= values.to_set());
    } else {
        lemma_inserts_collect(values.drop_last());
        assert forall|x: int|
            values.to_set().contains(x) == values.drop_last().to_set().insert(
                values.last(),
            ).contains(x) by {
            if values.to_set().contains(x) {
                let i = choose|i: int| 0 <= i < values.len() && values[i] == x;
                if i < values.len() - 1 {
                    assert(values.drop_last()[i] == x);
                    assert(values.drop_last().contains(x));
                }
            }
            if values.drop_last().to_set().contains(x) {
                let i = choose|i: int|
                    0 <= i < values.drop_last().len() && values.drop_last()[i] == x;
                assert(values[i] == x);
            }
            if x == values.last() {
                assert(values.contains(x));
            }
        }
        assert(set_after_inserts(Set::empty(), values) =~= values.to_set());
        if values.no_duplicates() {
            values.unique_seq_to_set();
        }
    }
}

/// A value just inserted is contained; removing it right after takes it out
/// again, so a following membership test answers false.
pub proof fn lemma_insert_contains_remove(s: Set<int>, v: int)
    ensures
        s.insert(v).contains(v),
        !s.insert(v).remove(v).contains(v),
{
}

/// Inserting twice is inserting once: the second call finds the value
/// present, returns false, and leaves the set unchanged. Removing an absent
/// value returns false and alters neither the set nor its cardinality.
pub proof fn lemma_idempotence(s: Set<int>, v: int)
    ensures
        s.insert(v).contains(v),
        s.insert(v).insert(v) == s.insert(v),
        !s.contains(v) ==> s.remove(v) == s,
{
    assert(s.insert(v).insert(v) =~= s.insert(v));
    if !s.contains(v) {
        assert(s.remove(v) =~= s);
    }
}

} // verus!
