//! Ghost model of a prefix-keyed partition of the integer space.
//!
//! Every set variant stores an ordered sequence of groups, each keyed by a
//! prefix and holding the elements of one `span`-wide slice of the space.
//! This module gives that shape a single mathematical treatment: a sequence
//! of [`Part`]s with strictly increasing keys, whose element sets it relates
//! to their union.

use vstd::prelude::*;

verus! {

/// One keyed slice of the integer space: the ghost view of a chunk, of a
/// super-chunk, or of one nested map entry.
pub ghost struct Part {
    /// The prefix: elements lie in `[key * span, (key + 1) * span)`.
    pub key: int,
    /// The elements held, as absolute values.
    pub elems: Set<int>,
}

/// A part is well formed for `span`: finite and within the slice its key
/// selects. Whether a part may be empty is the owner's concern: the variants
/// drop a chunk the moment it empties.
pub open spec fn part_wf(p: Part, span: int) -> bool {
    &&& p.elems.finite()
    &&& 0 <= p.key
    &&& forall|x: int| p.elems.contains(x) ==> p.key * span <= x < p.key * span + span
}

/// All parts are well formed and the keys strictly increase.
pub open spec fn parts_wf(s: Seq<Part>, span: int) -> bool {
    &&& forall|i: int| 0 <= i < s.len() ==> part_wf(#[trigger] s[i], span)
    &&& forall|i: int, j: int| 0 <= i < j < s.len() ==> s[i].key < s[j].key
}

/// The union of the parts' element sets.
pub open spec fn parts_union(s: Seq<Part>) -> Set<int>
    decreases s.len(),
{
    if s.len() == 0 {
        Set::empty()
    } else {
        parts_union(s.drop_last()).union(s.last().elems)
    }
}

/// An element of the union is an element of some part, and conversely.
pub proof fn lemma_parts_union_contains(s: Seq<Part>, x: int)
    ensures
        parts_union(s).contains(x) <==> exists|i: int|
            0 <= i < s.len() && #[trigger] s[i].elems.contains(x),
    decreases s.len(),
{
    if s.len() > 0 {
        lemma_parts_union_contains(s.drop_last(), x);
        if parts_union(s).contains(x) {
            if s.last().elems.contains(x) {
                assert(s[s.len() - 1].elems.contains(x));
            } else {
                let i = choose|i: int|
                    0 <= i < s.drop_last().len() && #[trigger] s.drop_last()[i].elems.contains(x);
                assert(s[i].elems.contains(x));
            }
        }
        if exists|i: int| 0 <= i < s.len() && #[trigger] s[i].elems.contains(x) {
            let i = choose|i: int| 0 <= i < s.len() && #[trigger] s[i].elems.contains(x);
            if i < s.len() - 1 {
                assert(s.drop_last()[i].elems.contains(x));
            }
        }
    }
}

/// The union of well-formed parts is finite.
pub proof fn lemma_parts_union_finite(s: Seq<Part>, span: int)
    requires
        parts_wf(s, span),
    ensures
        parts_union(s).finite(),
    decreases s.len(),
{
    if s.len() > 0 {
        assert(parts_wf(s.drop_last(), span));
        lemma_parts_union_finite(s.drop_last(), span);
    }
}

/// Every element of a part below index `i` lies below the slice of part `i`.
pub proof fn lemma_parts_below(s: Seq<Part>, span: int, i: int, j: int, x: int)
    requires
        parts_wf(s, span),
        span >= 1,
        0 <= j < i < s.len(),
        s[j].elems.contains(x),
    ensures
        x < s[i].key * span,
{
    assert(s[j].key < s[i].key);
    assert(x < s[j].key * span + span);
    assert((s[j].key + 1) * span <= s[i].key * span) by {
        vstd::arithmetic::mul::lemma_mul_inequality(s[j].key + 1, s[i].key, span);
    }
    assert(s[j].key * span + span == (s[j].key + 1) * span) by {
        vstd::arithmetic::mul::lemma_mul_is_distributive_add_other_way(span, s[j].key, 1);
    }
}

/// The union of a strict prefix is disjoint from the next part's elements.
pub proof fn lemma_parts_prefix_disjoint(s: Seq<Part>, span: int, i: int)
    requires
        parts_wf(s, span),
        span >= 1,
        0 <= i < s.len(),
    ensures
        parts_union(s.take(i)).disjoint(s[i].elems),
{
    assert forall|x: int|
        parts_union(s.take(i)).contains(x) implies !s[i].elems.contains(x) by {
        lemma_parts_union_contains(s.take(i), x);
        let j = choose|j: int| 0 <= j < s.take(i).len() && #[trigger] s.take(i)[j].elems.contains(x);
        lemma_parts_below(s, span, i, j, x);
        assert(s[i].key * span <= x ==> false);
    }
}

/// Taking one more part adds exactly its elements.
pub proof fn lemma_parts_take_step(s: Seq<Part>, i: int)
    requires
        0 <= i < s.len(),
    ensures
        parts_union(s.take(i + 1)) == parts_union(s.take(i)).union(s[i].elems),
{
    assert(s.take(i + 1).drop_last() =~= s.take(i));
    assert(s.take(i + 1).last() == s[i]);
}

/// The whole sequence is its own full prefix.
pub proof fn lemma_parts_take_all(s: Seq<Part>)
    ensures
        parts_union(s.take(s.len() as int)) == parts_union(s),
{
    assert(s.take(s.len() as int) =~= s);
}

/// The union of a prefix, within the union of the whole.
pub proof fn lemma_parts_prefix_subset(s: Seq<Part>, i: int)
    requires
        0 <= i <= s.len(),
    ensures
        parts_union(s.take(i)).subset_of(parts_union(s)),
{
    assert forall|x: int| parts_union(s.take(i)).contains(x) implies parts_union(s).contains(
        x,
    ) by {
        lemma_parts_union_contains(s.take(i), x);
        let j = choose|j: int| 0 <= j < s.take(i).len() && #[trigger] s.take(i)[j].elems.contains(x);
        assert(s[j].elems.contains(x));
        lemma_parts_union_contains(s, x);
    }
}

/// Membership in the union goes through the part whose key is the prefix of
/// the sought value.
pub proof fn lemma_parts_key_contains(s: Seq<Part>, span: int, x: int)
    requires
        parts_wf(s, span),
        span >= 1,
        0 <= x,
    ensures
        parts_union(s).contains(x) <==> exists|i: int|
            0 <= i < s.len() && #[trigger] s[i].key == x / span && s[i].elems.contains(x),
{
    lemma_parts_union_contains(s, x);
    if parts_union(s).contains(x) {
        let i = choose|i: int| 0 <= i < s.len() && #[trigger] s[i].elems.contains(x);
        assert(x == s[i].key * span + (x - s[i].key * span));
        vstd::arithmetic::div_mod::lemma_fundamental_div_mod_converse(
            x,
            span,
            s[i].key,
            x - s[i].key * span,
        );
        assert(s[i].key == x / span);
    }
}

/// Two parts with one key are one part.
pub proof fn lemma_parts_key_unique(s: Seq<Part>, span: int, i: int, j: int)
    requires
        parts_wf(s, span),
        0 <= i < s.len(),
        0 <= j < s.len(),
        s[i].key == s[j].key,
    ensures
        i == j,
{
    if i < j {
        assert(s[i].key < s[j].key);
    } else if j < i {
        assert(s[j].key < s[i].key);
    }
}

/// Replacing the elements of one part, its key and slice kept, replaces them
/// in the union.
pub proof fn lemma_parts_update(s: Seq<Part>, span: int, i: int, p: Part)
    requires
        parts_wf(s, span),
        span >= 1,
        0 <= i < s.len(),
        p.key == s[i].key,
        part_wf(p, span),
    ensures
        parts_wf(s.update(i, p), span),
        parts_union(s.update(i, p)) == parts_union(s).difference(s[i].elems).union(p.elems),
{
    let t = s.update(i, p);
    assert forall|k: int| 0 <= k < t.len() implies part_wf(#[trigger] t[k], span) by {
        if k != i {
            assert(t[k] == s[k]);
        }
    }
    assert forall|a: int, b: int| 0 <= a < b < t.len() implies t[a].key < t[b].key by {
        assert(s[a].key < s[b].key);
    }
    assert forall|x: int|
        parts_union(t).contains(x) == parts_union(s).difference(s[i].elems).union(
            p.elems,
        ).contains(x) by {
        lemma_parts_union_contains(t, x);
        lemma_parts_union_contains(s, x);
        if parts_union(t).contains(x) {
            let k = choose|k: int| 0 <= k < t.len() && #[trigger] t[k].elems.contains(x);
            if k != i {
                assert(s[k].elems.contains(x));
                if s[i].elems.contains(x) {
                    lemma_parts_below_or_above(s, span, i, k, x);
                }
            }
        }
        if parts_union(s).difference(s[i].elems).union(p.elems).contains(x) {
            if p.elems.contains(x) {
                assert(t[i].elems.contains(x));
            } else {
                let k = choose|k: int| 0 <= k < s.len() && #[trigger] s[k].elems.contains(x);
                assert(k != i);
                assert(t[k].elems.contains(x));
            }
        }
    }
    assert(parts_union(t) =~= parts_union(s).difference(s[i].elems).union(p.elems));
}

/// Distinct parts hold distinct elements.
proof fn lemma_parts_below_or_above(s: Seq<Part>, span: int, i: int, k: int, x: int)
    requires
        parts_wf(s, span),
        span >= 1,
        0 <= i < s.len(),
        0 <= k < s.len(),
        i != k,
        s[k].elems.contains(x),
    ensures
        !s[i].elems.contains(x),
{
    if k < i {
        lemma_parts_below(s, span, i, k, x);
        assert(s[i].key * span <= x ==> false);
    } else {
        if s[i].elems.contains(x) {
            lemma_parts_below(s, span, k, i, x);
        }
    }
}

/// Inserting a new part at its ordered position adds its elements to the
/// union.
pub proof fn lemma_parts_insert(s: Seq<Part>, span: int, i: int, p: Part)
    requires
        parts_wf(s, span),
        span >= 1,
        0 <= i <= s.len(),
        part_wf(p, span),
        forall|j: int| 0 <= j < i ==> s[j].key < p.key,
        forall|j: int| i <= j < s.len() ==> p.key < s[j].key,
    ensures
        parts_wf(s.insert(i, p), span),
        parts_union(s.insert(i, p)) == parts_union(s).union(p.elems),
{
    let t = s.insert(i, p);
    assert forall|k: int| 0 <= k < t.len() implies part_wf(#[trigger] t[k], span) by {
        if k < i {
            assert(t[k] == s[k]);
        } else if k == i {
        } else {
            assert(t[k] == s[k - 1]);
        }
    }
    assert forall|a: int, b: int| 0 <= a < b < t.len() implies t[a].key < t[b].key by {
        if a < i && b < i {
            assert(s[a].key < s[b].key);
        } else if a < i && b == i {
        } else if a < i && b > i {
            assert(s[a].key < s[b - 1].key || a == b - 1);
        } else if a == i {
            assert(t[b] == s[b - 1]);
        } else {
            assert(s[a - 1].key < s[b - 1].key);
        }
    }
    assert forall|x: int|
        parts_union(t).contains(x) == parts_union(s).union(p.elems).contains(x) by {
        lemma_parts_union_contains(t, x);
        lemma_parts_union_contains(s, x);
        if parts_union(t).contains(x) {
            let k = choose|k: int| 0 <= k < t.len() && #[trigger] t[k].elems.contains(x);
            if k < i {
                assert(s[k].elems.contains(x));
            } else if k > i {
                assert(s[k - 1].elems.contains(x));
            }
        }
        if parts_union(s).contains(x) {
            let k = choose|k: int| 0 <= k < s.len() && #[trigger] s[k].elems.contains(x);
            if k < i {
                assert(t[k].elems.contains(x));
            } else {
                assert(t[k + 1].elems.contains(x));
            }
        }
        if p.elems.contains(x) {
            assert(t[i].elems.contains(x));
        }
    }
    assert(parts_union(t) =~= parts_union(s).union(p.elems));
}

/// Removing a part removes exactly its elements from the union.
pub proof fn lemma_parts_remove(s: Seq<Part>, span: int, i: int)
    requires
        parts_wf(s, span),
        span >= 1,
        0 <= i < s.len(),
    ensures
        parts_wf(s.remove(i), span),
        parts_union(s.remove(i)) == parts_union(s).difference(s[i].elems),
{
    let t = s.remove(i);
    assert forall|k: int| 0 <= k < t.len() implies part_wf(#[trigger] t[k], span) by {
        if k < i {
            assert(t[k] == s[k]);
        } else {
            assert(t[k] == s[k + 1]);
        }
    }
    assert forall|a: int, b: int| 0 <= a < b < t.len() implies t[a].key < t[b].key by {
        if b < i {
            assert(s[a].key < s[b].key);
        } else if a < i {
            assert(s[a].key < s[b + 1].key);
        } else {
            assert(s[a + 1].key < s[b + 1].key);
        }
    }
    assert forall|x: int|
        parts_union(t).contains(x) == parts_union(s).difference(s[i].elems).contains(x) by {
        lemma_parts_union_contains(t, x);
        lemma_parts_union_contains(s, x);
        if parts_union(t).contains(x) {
            let k = choose|k: int| 0 <= k < t.len() && #[trigger] t[k].elems.contains(x);
            if k < i {
                assert(s[k].elems.contains(x));
                lemma_parts_below_or_above(s, span, i, k, x);
            } else {
                assert(s[k + 1].elems.contains(x));
                lemma_parts_below_or_above(s, span, i, k + 1, x);
            }
        }
        if parts_union(s).contains(x) && !s[i].elems.contains(x) {
            let k = choose|k: int| 0 <= k < s.len() && #[trigger] s[k].elems.contains(x);
            if k < i {
                assert(t[k].elems.contains(x));
            } else {
                assert(k != i);
                assert(t[k - 1].elems.contains(x));
            }
        }
    }
    assert(parts_union(t) =~= parts_union(s).difference(s[i].elems));
}

/// A prefix of well-formed parts is well formed.
pub proof fn lemma_parts_take_wf(s: Seq<Part>, span: int, i: int)
    requires
        parts_wf(s, span),
        0 <= i <= s.len(),
    ensures
        parts_wf(s.take(i), span),
{
}

} // verus!
