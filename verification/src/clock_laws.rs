//! The algebraic laws of clock merging, greatest lower bounds and
//! subtraction, proved once for every clock.

use vstd::prelude::*;

use crate::vclock::{
    counter_of, descends, dominates, glb_map, merge_map, positive, subtract_map, Actor, Counter,
    VClock,
};
use vstd::std_specs::cmp::PartialOrdSpec;

verus! {

/// Merging clocks is commutative: the pointwise maximum does not depend on
/// the order of its operands.
pub proof fn lemma_merge_commutative<A: Actor>(a: &VClock<A>, b: &VClock<A>)
    ensures
        merge_map(a@, b@) == merge_map(b@, a@),
{
    assert(merge_map(a@, b@) =~= merge_map(b@, a@));
}

/// Merging clocks is associative.
pub proof fn lemma_merge_associative<A: Actor>(a: &VClock<A>, b: &VClock<A>, c: &VClock<A>)
    ensures
        merge_map(merge_map(a@, b@), c@) == merge_map(a@, merge_map(b@, c@)),
{
    assert(merge_map(merge_map(a@, b@), c@) =~= merge_map(a@, merge_map(b@, c@)));
}

/// Merging a clock with itself changes nothing.
pub proof fn lemma_merge_idempotent<A: Actor>(a: &VClock<A>)
    ensures
        merge_map(a@, a@) == a@,
{
    assert(merge_map(a@, a@) =~= a@);
}

/// A merged clock dominates both of its operands; under `partial_cmp` it
/// compares greater than or equal to each.
pub proof fn lemma_merge_dominates<A: Actor>(a: &VClock<A>, b: &VClock<A>, m: &VClock<A>)
    requires
        m@ == merge_map(a@, b@),
    ensures
        dominates(m@, a@),
        dominates(m@, b@),
        m.partial_cmp_spec(a) matches Some(
            core::cmp::Ordering::Greater
            | core::cmp::Ordering::Equal,
        ),
        m.partial_cmp_spec(b) matches Some(
            core::cmp::Ordering::Greater
            | core::cmp::Ordering::Equal,
        ),
{
    assert forall|v: A::V| #[trigger] a@.dom().contains(v) implies counter_of(m@, v) >= a@[v] by {
        assert(m@.dom().contains(v));
    }
    assert forall|v: A::V| #[trigger] b@.dom().contains(v) implies counter_of(m@, v) >= b@[v] by {
        assert(m@.dom().contains(v));
    }
}

/// The greatest lower bound of two clocks is dominated by both; under
/// `partial_cmp` it compares less than or equal to each operand whose
/// counters are all positive.
pub proof fn lemma_glb_below<A: Actor>(a: &VClock<A>, b: &VClock<A>, g: &VClock<A>)
    requires
        g@ == glb_map(a@, b@),
    ensures
        dominates(a@, g@),
        dominates(b@, g@),
        positive(a@) ==> (g.partial_cmp_spec(a) matches Some(
            core::cmp::Ordering::Less
            | core::cmp::Ordering::Equal,
        )),
        positive(b@) ==> (g.partial_cmp_spec(b) matches Some(
            core::cmp::Ordering::Less
            | core::cmp::Ordering::Equal,
        )),
{
    assert(dominates(a@, g@));
    assert forall|v: A::V| #[trigger] g@.dom().contains(v) implies counter_of(b@, v) >= g@[v] by {
        assert(counter_of(b@, v) > 0);
    }
    if positive(a@) && g@ != a@ && dominates(g@, a@) {
        assert forall|v: A::V| #[trigger] a@.dom().contains(v) implies g@.dom().contains(v)
            && g@[v] == a@[v] by {
            assert(counter_of(g@, v) >= a@[v]);
            assert(a@[v] >= 1);
        }
        assert(g@ =~= a@);
    }
    if positive(b@) && g@ != b@ && dominates(g@, b@) {
        assert forall|v: A::V| #[trigger] b@.dom().contains(v) implies g@.dom().contains(v)
            && g@[v] == b@[v] by {
            assert(counter_of(g@, v) >= b@[v]);
            assert(b@[v] >= 1);
        }
        assert forall|v: A::V| #[trigger] g@.dom().contains(v) implies b@.dom().contains(v)
            && g@[v] == b@[v] by {
            assert(counter_of(b@, v) > 0);
            assert(counter_of(b@, v) >= g@[v]);
            assert(counter_of(g@, v) >= b@[v]);
        }
        assert(g@ =~= b@);
    }
}

/// Truncating a clock against itself is a no-op, provided every stored
/// counter is positive (a clock that explicitly witnessed a zero counter
/// loses that entry, since a zero minimum is never stored).
pub proof fn lemma_truncate_self<A: Actor>(a: &VClock<A>)
    requires
        positive(a@),
    ensures
        glb_map(a@, a@) == a@,
{
    assert(glb_map(a@, a@) =~= a@);
}

/// Subtracting a clock from itself leaves the empty clock.
pub proof fn lemma_subtract_self<A: Actor>(a: &VClock<A>)
    ensures
        subtract_map(a@, a@) == Map::<A::V, Counter>::empty(),
{
    assert forall|v: A::V| !(#[trigger] subtract_map(a@, a@).dom().contains(v)) by {
        if a@.dom().contains(v) {
            assert(descends(a@, v, a@[v]));
        }
    }
    assert(subtract_map(a@, a@) =~= Map::<A::V, Counter>::empty());
}

/// Subtracting the empty clock is a no-op.
pub proof fn lemma_subtract_empty<A: Actor>(a: &VClock<A>)
    ensures
        subtract_map(a@, Map::<A::V, Counter>::empty()) == a@,
{
    assert(subtract_map(a@, Map::<A::V, Counter>::empty()) =~= a@);
}

} // verus!
