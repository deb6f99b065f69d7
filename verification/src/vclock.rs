//! A vector clock: a mapping from actors to monotonic counters, used to
//! compare the causal history of replicas.
//!
//! The abstract model of a clock is a `Map` from actor views to counters;
//! every operation's contract is stated over that map.

use vstd::prelude::*;

use crate::errors::Error;

verus! {

/// A counter tracks causality at one particular actor.
pub type Counter = u64;

/// Result of a three-way comparison of two actors.
pub enum ActorCmp {
    Less,
    Equal,
    Greater,
}

/// An actor is the identity of a replica or operation source.
///
/// Actors must carry a total order so that a clock can store its dots
/// canonically; the order is stated on the actor's view, together with the
/// laws that make it a total order, and an executable three-way comparison
/// that agrees with it.
pub trait Actor: View + Sized {
    /// The total order on actor views.
    spec fn le(a: Self::V, b: Self::V) -> bool;

    proof fn le_refl(x: Self::V)
        ensures
            Self::le(x, x),
    ;

    proof fn le_trans(x: Self::V, y: Self::V, z: Self::V)
        requires
            Self::le(x, y),
            Self::le(y, z),
        ensures
            Self::le(x, z),
    ;

    proof fn le_antisym(x: Self::V, y: Self::V)
        requires
            Self::le(x, y),
            Self::le(y, x),
        ensures
            x == y,
    ;

    proof fn le_total(x: Self::V, y: Self::V)
        ensures
            Self::le(x, y) || Self::le(y, x),
    ;

    /// Three-way comparison agreeing with the order on views.
    fn cmp_actors(&self, other: &Self) -> (c: ActorCmp)
        ensures
            (match c {
                ActorCmp::Less => Self::le(self@, other@) && self@ != other@,
                ActorCmp::Equal => self@ == other@,
                ActorCmp::Greater => Self::le(other@, self@) && self@ != other@,
            }),
    ;

    /// A copy of this actor with the same view.
    fn clone_actor(&self) -> (r: Self)
        ensures
            r@ == self@,
    ;
}

/// A dot is the causal stamp of a single mutation: one actor together with
/// the counter it had witnessed at that point.
#[derive(Debug)]
pub struct Dot<A: Actor> {
    pub actor: A,
    pub counter: Counter,
}

impl<A: Actor> Dot<A> {
    /// Build a dot from an actor and a counter.
    pub fn new(actor: A, counter: Counter) -> (r: Dot<A>)
        ensures
            r.actor@ == actor@,
            r.counter == counter,
    {
        Dot { actor, counter }
    }
}

impl<A: Actor> Clone for Dot<A> {
    fn clone(&self) -> (r: Self)
        ensures
            r.actor@ == self.actor@,
            r.counter == self.counter,
    {
        Dot { actor: self.actor.clone_actor(), counter: self.counter }
    }
}

/// Strict order on actor views induced by the total order.
pub open spec fn actor_lt<A: Actor>(x: A::V, y: A::V) -> bool {
    A::le(x, y) && x != y
}

/// A sequence of dots is sorted strictly by actor: canonical form of a clock.
pub open spec fn dot_seq_sorted<A: Actor>(s: Seq<Dot<A>>) -> bool {
    forall|i: int, j: int|
        0 <= i < j < s.len() ==> #[trigger] actor_lt::<A>(s[i].actor@, s[j].actor@)
}

/// The map that a sequence of dots denotes.
pub open spec fn dots_map<A: Actor>(s: Seq<Dot<A>>) -> Map<A::V, Counter>
    decreases s.len(),
{
    if s.len() == 0 {
        Map::empty()
    } else {
        dots_map(s.drop_last()).insert(s.last().actor@, s.last().counter)
    }
}

/// The counter a clock map holds for an actor; absent actors count as 0.
pub open spec fn counter_of<K>(m: Map<K, Counter>, a: K) -> Counter {
    if m.dom().contains(a) {
        m[a]
    } else {
        0
    }
}

/// The clock map stores, for `a`, a counter at least `c`.
pub open spec fn descends<K>(m: Map<K, Counter>, a: K, c: Counter) -> bool {
    m.dom().contains(a) && m[a] >= c
}

/// `m1` dominates `m2`: for every dot of `m2`, `m1`'s counter is at least as
/// large.
pub open spec fn dominates<K>(m1: Map<K, Counter>, m2: Map<K, Counter>) -> bool {
    forall|a: K| #[trigger] m2.dom().contains(a) ==> counter_of(m1, a) >= m2[a]
}

/// Pointwise maximum of two clock maps, over the union of their actors.
pub open spec fn merge_map<K>(m1: Map<K, Counter>, m2: Map<K, Counter>) -> Map<K, Counter> {
    Map::new(
        |a: K| m1.dom().contains(a) || m2.dom().contains(a),
        |a: K|
            if counter_of(m1, a) >= counter_of(m2, a) {
                counter_of(m1, a)
            } else {
                counter_of(m2, a)
            },
    )
}

/// Greatest lower bound of two clock maps: pointwise minimum over the actors
/// of `m1`, with zero minima omitted.
pub open spec fn glb_map<K>(m1: Map<K, Counter>, m2: Map<K, Counter>) -> Map<K, Counter> {
    Map::new(
        |a: K| m1.dom().contains(a) && m1[a] > 0 && counter_of(m2, a) > 0,
        |a: K|
            if m1[a] >= counter_of(m2, a) {
                counter_of(m2, a)
            } else {
                m1[a]
            },
    )
}

/// The dots of `m1` whose counter strictly exceeds the corresponding entry
/// of `m2`.
pub open spec fn dominating_map<K>(m1: Map<K, Counter>, m2: Map<K, Counter>) -> Map<K, Counter> {
    Map::new(
        |a: K| m1.dom().contains(a) && m1[a] > counter_of(m2, a),
        |a: K| m1[a],
    )
}

/// The dots present with exactly equal counters in both maps.
pub open spec fn intersect_map<K>(m1: Map<K, Counter>, m2: Map<K, Counter>) -> Map<K, Counter> {
    Map::new(
        |a: K| m1.dom().contains(a) && counter_of(m2, a) == m1[a],
        |a: K| m1[a],
    )
}

/// `m1` with every dot removed that `m2` dominates or equals.
pub open spec fn subtract_map<K>(m1: Map<K, Counter>, m2: Map<K, Counter>) -> Map<K, Counter> {
    Map::new(
        |a: K| m1.dom().contains(a) && !descends(m2, a, m1[a]),
        |a: K| m1[a],
    )
}

/// Every stored counter is at least 1 (the canonical state reached when no
/// zero counter was ever explicitly witnessed).
pub open spec fn positive<K>(m: Map<K, Counter>) -> bool {
    forall|a: K| #[trigger] m.dom().contains(a) ==> m[a] >= 1
}

/// A vector clock: a set of actors with the counter each has witnessed.
///
/// Its view is the map from actor views to stored counters; actors absent
/// from the map have an implicit counter of 0.
#[derive(Debug)]
pub struct VClock<A: Actor> {
    dots: Vec<Dot<A>>,
}

impl<A: Actor> View for VClock<A> {
    type V = Map<A::V, Counter>;

    closed spec fn view(&self) -> Map<A::V, Counter> {
        dots_map(self.dots@)
    }
}

impl<A: Actor> VClock<A> {
    /// The stored dots are strictly sorted by actor, so every clock value has
    /// exactly one representation.
    #[verifier::type_invariant]
    spec fn wf(self) -> bool {
        dot_seq_sorted(self.dots@)
    }

    /// A fresh, empty clock.
    pub fn new() -> (r: VClock<A>)
        ensures
            r@ == Map::<A::V, Counter>::empty(),
    {
        VClock { dots: Vec::new() }
    }
}

/// No two dots of the sequence name the same actor.
pub open spec fn dot_views_uniq<A: Actor>(s: Seq<Dot<A>>) -> bool {
    forall|i: int, j: int|
        0 <= i < j < s.len() ==> #[trigger] s[i].actor@ != #[trigger] s[j].actor@
}

proof fn lemma_sorted_uniq<A: Actor>(s: Seq<Dot<A>>)
    requires
        dot_seq_sorted(s),
    ensures
        dot_views_uniq(s),
{
    assert forall|i: int, j: int|
        0 <= i < j < s.len() implies #[trigger] s[i].actor@ != #[trigger] s[j].actor@ by {
        assert(actor_lt::<A>(s[i].actor@, s[j].actor@));
    }
}

proof fn lemma_dots_map_contains<A: Actor>(s: Seq<Dot<A>>, av: A::V)
    ensures
        dots_map(s).dom().contains(av) <==> exists|i: int|
            0 <= i < s.len() && #[trigger] s[i].actor@ == av,
    decreases s.len(),
{
    if s.len() == 0 {
    } else {
        lemma_dots_map_contains(s.drop_last(), av);
        if dots_map(s).dom().contains(av) {
            if av == s.last().actor@ {
                assert(s[s.len() - 1].actor@ == av);
            } else {
                let i = choose|i: int|
                    0 <= i < s.drop_last().len() && #[trigger] s.drop_last()[i].actor@ == av;
                assert(s[i].actor@ == av);
            }
        }
        if exists|i: int| 0 <= i < s.len() && #[trigger] s[i].actor@ == av {
            let i = choose|i: int| 0 <= i < s.len() && #[trigger] s[i].actor@ == av;
            if i < s.len() - 1 {
                assert(s.drop_last()[i].actor@ == av);
            }
        }
    }
}

proof fn lemma_dots_map_lookup<A: Actor>(s: Seq<Dot<A>>, i: int)
    requires
        dot_views_uniq(s),
        0 <= i < s.len(),
    ensures
        dots_map(s).dom().contains(s[i].actor@),
        dots_map(s)[s[i].actor@] == s[i].counter,
    decreases s.len(),
{
    if i == s.len() - 1 {
    } else {
        assert(s.drop_last()[i] == s[i]);
        lemma_dots_map_lookup(s.drop_last(), i);
        assert(s[i].actor@ != s[s.len() - 1].actor@);
    }
}

proof fn lemma_dots_map_insert<A: Actor>(s: Seq<Dot<A>>, i: int, d: Dot<A>)
    requires
        0 <= i <= s.len(),
        forall|j: int| 0 <= j < s.len() ==> #[trigger] s[j].actor@ != d.actor@,
    ensures
        dots_map(s.insert(i, d)) == dots_map(s).insert(d.actor@, d.counter),
    decreases s.len(),
{
    let t = s.insert(i, d);
    if i == s.len() {
        assert(t.drop_last() =~= s);
        assert(t.last() == d);
    } else {
        assert(t.last() == s.last());
        assert(t.drop_last() =~= s.drop_last().insert(i, d));
        lemma_dots_map_insert(s.drop_last(), i, d);
        assert(dots_map(t) == dots_map(s.drop_last()).insert(d.actor@, d.counter).insert(
            s.last().actor@,
            s.last().counter,
        ));
        assert(s[s.len() - 1].actor@ != d.actor@);
        assert(dots_map(s.drop_last()).insert(d.actor@, d.counter).insert(
            s.last().actor@,
            s.last().counter,
        ) =~= dots_map(s).insert(d.actor@, d.counter));
    }
}

proof fn lemma_dots_map_update<A: Actor>(s: Seq<Dot<A>>, i: int, d: Dot<A>)
    requires
        dot_views_uniq(s),
        0 <= i < s.len(),
        s[i].actor@ == d.actor@,
    ensures
        dots_map(s.update(i, d)) == dots_map(s).insert(d.actor@, d.counter),
    decreases s.len(),
{
    let t = s.update(i, d);
    if i == s.len() - 1 {
        assert(t.drop_last() =~= s.drop_last());
        assert(t.last() == d);
        assert(dots_map(s.drop_last()).insert(d.actor@, d.counter) =~= dots_map(s).insert(
            d.actor@,
            d.counter,
        ));
    } else {
        assert(t.last() == s.last());
        assert(t.drop_last() =~= s.drop_last().update(i, d));
        assert(s.drop_last()[i] == s[i]);
        lemma_dots_map_update(s.drop_last(), i, d);
        assert(s[i].actor@ != s[s.len() - 1].actor@);
        assert(dots_map(s.drop_last()).insert(d.actor@, d.counter).insert(
            s.last().actor@,
            s.last().counter,
        ) =~= dots_map(s).insert(d.actor@, d.counter));
    }
}

proof fn lemma_dots_map_remove<A: Actor>(s: Seq<Dot<A>>, i: int)
    requires
        dot_views_uniq(s),
        0 <= i < s.len(),
    ensures
        dots_map(s.remove(i)) == dots_map(s).remove(s[i].actor@),
    decreases s.len(),
{
    let t = s.remove(i);
    if i == s.len() - 1 {
        assert(t =~= s.drop_last());
        lemma_dots_map_contains(s.drop_last(), s[i].actor@);
        assert(forall|j: int|
            0 <= j < s.drop_last().len() ==> #[trigger] s.drop_last()[j].actor@ != s[i].actor@);
        assert(!dots_map(s.drop_last()).dom().contains(s[i].actor@));
        assert(dots_map(s).remove(s[i].actor@) =~= dots_map(s.drop_last()));
    } else {
        assert(t.last() == s.last());
        assert(t.drop_last() =~= s.drop_last().remove(i));
        assert(s.drop_last()[i] == s[i]);
        lemma_dots_map_remove(s.drop_last(), i);
        assert(s[i].actor@ != s[s.len() - 1].actor@);
        assert(dots_map(s.drop_last()).remove(s[i].actor@).insert(
            s.last().actor@,
            s.last().counter,
        ) =~= dots_map(s).remove(s[i].actor@));
    }
}

/// If every dot below `idx` is strictly before `av` and the dot at `idx`
/// (when present) is strictly after it, the actor is absent from the clock.
proof fn lemma_absent<A: Actor>(s: Seq<Dot<A>>, av: A::V, idx: int)
    requires
        dot_seq_sorted(s),
        0 <= idx <= s.len(),
        forall|j: int| 0 <= j < idx ==> actor_lt::<A>(#[trigger] s[j].actor@, av),
        idx < s.len() ==> actor_lt::<A>(av, s[idx].actor@),
    ensures
        !dots_map(s).dom().contains(av),
{
    assert forall|j: int| 0 <= j < s.len() implies #[trigger] s[j].actor@ != av by {
        if j < idx {
        } else if j == idx {
        } else {
            assert(actor_lt::<A>(s[idx].actor@, s[j].actor@));
            if s[j].actor@ == av {
                A::le_trans(av, s[idx].actor@, s[j].actor@);
                A::le_antisym(av, s[idx].actor@);
            }
        }
    }
    lemma_dots_map_contains(s, av);
}

impl<A: Actor> VClock<A> {
    /// Find the position of an actor in the sorted dot vector: the index of
    /// its dot when present, else the index where it would be inserted.
    fn locate(&self, actor: &A) -> (r: (usize, bool))
        ensures
            ({
                let (idx, found) = r;
                &&& idx <= self.dots@.len()
                &&& forall|j: int|
                    0 <= j < idx ==> actor_lt::<A>(#[trigger] self.dots@[j].actor@, actor@)
                &&& found ==> idx < self.dots@.len() && self.dots@[idx as int].actor@ == actor@
                    && self@.dom().contains(actor@) && self@[actor@] == self.dots@[
                    idx as int].counter
                &&& !found ==> (idx == self.dots@.len() || actor_lt::<A>(
                    actor@,
                    self.dots@[idx as int].actor@,
                )) && !self@.dom().contains(actor@)
            }),
    {
        let ghost s = self.dots@;
        proof {
            use_type_invariant(&*self);
            lemma_sorted_uniq(s);
        }
        let n = self.dots.len();
        let mut i: usize = 0;
        while i < n
            invariant
                dot_seq_sorted(s),
                dot_views_uniq(s),
                s == self.dots@,
                n == s.len(),
                i <= n,
                forall|j: int| 0 <= j < i ==> actor_lt::<A>(#[trigger] s[j].actor@, actor@),
            decreases n - i,
        {
            match self.dots[i].actor.cmp_actors(actor) {
                ActorCmp::Less => {
                    i = i + 1;
                },
                ActorCmp::Equal => {
                    proof {
                        lemma_dots_map_lookup(s, i as int);
                    }
                    return (i, true);
                },
                ActorCmp::Greater => {
                    proof {
                        lemma_absent(s, actor@, i as int);
                    }
                    return (i, false);
                },
            }
        }
        proof {
            lemma_absent(s, actor@, n as int);
        }
        (n, false)
    }

    /// The counter stored for this actor; actors never witnessed count as 0.
    pub fn get(&self, actor: &A) -> (r: Counter)
        ensures
            r == counter_of(self@, actor@),
    {
        let (i, found) = self.locate(actor);
        if found {
            self.dots[i].counter
        } else {
            0
        }
    }

    /// Store a new counter for an actor, provided it strictly exceeds the
    /// counter currently stored (actors not yet present store anything).
    pub fn witness(&mut self, actor: A, counter: Counter) -> (r: Result<(), Error>)
        ensures
            !descends(old(self)@, actor@, counter) ==> r == Ok::<(), Error>(()) && final(self)@
                == old(self)@.insert(actor@, counter),
            descends(old(self)@, actor@, counter) ==> r == Err::<(), Error>(Error::ConflictingDot)
                && final(self)@ == old(self)@,
    {
        let ghost s = self.dots@;
        proof {
            use_type_invariant(&*self);
            lemma_sorted_uniq(s);
        }
        let (i, found) = self.locate(&actor);
        if found {
            if self.dots[i].counter >= counter {
                Err(Error::ConflictingDot)
            } else {
                let d = Dot { actor, counter };
                proof {
                    lemma_dots_map_update(s, i as int, d);
                }
                let mut dots: Vec<Dot<A>> = Vec::new();
                core::mem::swap(&mut dots, &mut self.dots);
                dots.set(i, d);
                proof {
                    assert forall|p: int, q: int| 0 <= p < q < dots@.len() implies #[trigger]
                        actor_lt::<A>(dots@[p].actor@, dots@[q].actor@) by {
                        assert(dots@[p].actor@ == s[p].actor@);
                        assert(dots@[q].actor@ == s[q].actor@);
                        assert(actor_lt::<A>(s[p].actor@, s[q].actor@));
                    }
                }
                self.dots = dots;
                Ok(())
            }
        } else {
            let d = Dot { actor, counter };
            proof {
                lemma_dots_map_contains(s, d.actor@);
                assert(forall|j: int| 0 <= j < s.len() ==> #[trigger] s[j].actor@ != d.actor@);
                lemma_dots_map_insert(s, i as int, d);
            }
            let mut dots: Vec<Dot<A>> = Vec::new();
            core::mem::swap(&mut dots, &mut self.dots);
            dots.insert(i, d);
            proof {
                let t = dots@;
                assert(t =~= s.insert(i as int, d));
                assert forall|p: int, q: int| 0 <= p < q < t.len() implies #[trigger] actor_lt::<
                    A,
                >(t[p].actor@, t[q].actor@) by {
                    if q < i {
                        assert(actor_lt::<A>(s[p].actor@, s[q].actor@));
                    } else if p < i && q == i {
                        assert(actor_lt::<A>(s[p].actor@, actor@));
                    } else if p < i && q > i {
                        assert(actor_lt::<A>(s[p].actor@, s[q - 1].actor@));
                    } else if p == i {
                        assert(actor_lt::<A>(actor@, s[q - 1].actor@)) by {
                            if i < s.len() {
                                assert(actor_lt::<A>(actor@, s[i as int].actor@));
                                if i < q - 1 {
                                    assert(actor_lt::<A>(s[i as int].actor@, s[q - 1].actor@));
                                    A::le_trans(actor@, s[i as int].actor@, s[q - 1].actor@);
                                    if actor@ == s[q - 1].actor@ {
                                        A::le_antisym(actor@, s[i as int].actor@);
                                    }
                                }
                            }
                        }
                    } else {
                        assert(actor_lt::<A>(s[p - 1].actor@, s[q - 1].actor@));
                    }
                }
            }
            self.dots = dots;
            Ok(())
        }
    }

    /// Advance this actor's counter by one and return the new counter.
    pub fn increment(&mut self, actor: A) -> (r: Counter)
        requires
            counter_of(old(self)@, actor@) < Counter::MAX,
        ensures
            r == counter_of(old(self)@, actor@) + 1,
            final(self)@ == old(self)@.insert(actor@, r),
    {
        let next = self.get(&actor) + 1;
        let r = self.witness(actor, next);
        proof {
            assert(r is Ok);
        }
        next
    }
}

/// One step of merging: witnessing one further dot of the other clock moves
/// the merged map forward by exactly that dot.
proof fn lemma_merge_step<K>(m0: Map<K, Counter>, dm: Map<K, Counter>, av: K, c: Counter)
    requires
        !dm.dom().contains(av),
    ensures
        descends(merge_map(m0, dm), av, c) ==> merge_map(m0, dm.insert(av, c)) == merge_map(
            m0,
            dm,
        ),
        !descends(merge_map(m0, dm), av, c) ==> merge_map(m0, dm.insert(av, c)) == merge_map(
            m0,
            dm,
        ).insert(av, c),
{
    let cur = merge_map(m0, dm);
    let nxt = merge_map(m0, dm.insert(av, c));
    if descends(cur, av, c) {
        assert(nxt =~= cur);
    } else {
        assert(nxt =~= cur.insert(av, c));
    }
}

/// Extending the processed prefix by one dot inserts that dot into the
/// denoted map.
proof fn lemma_take_step<A: Actor>(s: Seq<Dot<A>>, k: int)
    requires
        0 <= k < s.len(),
    ensures
        dots_map(s.take(k + 1)) == dots_map(s.take(k)).insert(s[k].actor@, s[k].counter),
{
    assert(s.take(k + 1).drop_last() =~= s.take(k));
    assert(s.take(k + 1).last() == s[k]);
}

/// In a duplicate-free sequence the dot at `k` is absent from the map of the
/// prefix before it.
proof fn lemma_take_absent<A: Actor>(s: Seq<Dot<A>>, k: int)
    requires
        dot_views_uniq(s),
        0 <= k < s.len(),
    ensures
        !dots_map(s.take(k)).dom().contains(s[k].actor@),
{
    assert(forall|j: int|
        0 <= j < s.take(k).len() ==> #[trigger] s.take(k)[j].actor@ != s[k].actor@);
    lemma_dots_map_contains(s.take(k), s[k].actor@);
}

/// Two dot sequences with pointwise equal actor views and counters denote
/// the same map.
proof fn lemma_dots_map_congruence<A: Actor>(s1: Seq<Dot<A>>, s2: Seq<Dot<A>>)
    requires
        s1.len() == s2.len(),
        forall|i: int|
            0 <= i < s1.len() ==> (#[trigger] s1[i]).actor@ == s2[i].actor@ && s1[i].counter
                == s2[i].counter,
    ensures
        dots_map(s1) == dots_map(s2),
    decreases s1.len(),
{
    if s1.len() > 0 {
        assert(forall|i: int|
            0 <= i < s1.drop_last().len() ==> (#[trigger] s1.drop_last()[i]).actor@
                == s2.drop_last()[i].actor@ && s1.drop_last()[i].counter
                == s2.drop_last()[i].counter);
        lemma_dots_map_congruence(s1.drop_last(), s2.drop_last());
        assert(s1[s1.len() - 1].actor@ == s2[s2.len() - 1].actor@);
    }
}

/// Appending a dot strictly above everything drawn from the sorted source
/// keeps the output sorted; the provenance bound advances with it.
proof fn lemma_push_sorted<A: Actor>(out: Seq<Dot<A>>, src: Seq<Dot<A>>, k: int, d: Dot<A>)
    requires
        dot_seq_sorted(src),
        0 <= k < src.len(),
        d.actor@ == src[k].actor@,
        dot_seq_sorted(out),
        forall|t: int|
            0 <= t < out.len() ==> exists|j: int|
                0 <= j < k && (#[trigger] out[t]).actor@ == src[j].actor@,
    ensures
        dot_seq_sorted(out.push(d)),
{
    let o2 = out.push(d);
    assert forall|p: int, q: int| 0 <= p < q < o2.len() implies #[trigger] actor_lt::<A>(
        o2[p].actor@,
        o2[q].actor@,
    ) by {
        if q < out.len() {
            assert(actor_lt::<A>(out[p].actor@, out[q].actor@));
        } else {
            assert(out[p].actor@ == o2[p].actor@);
            let j = choose|j: int| 0 <= j < k && (#[trigger] out[p]).actor@ == src[j].actor@;
            assert(actor_lt::<A>(src[j].actor@, src[k].actor@));
        }
    }
}

/// Two sorted dot sequences denoting the same map are pointwise identical in
/// actor views and counters.
proof fn lemma_canonical<A: Actor>(s1: Seq<Dot<A>>, s2: Seq<Dot<A>>)
    requires
        dot_seq_sorted(s1),
        dot_seq_sorted(s2),
        dots_map(s1) == dots_map(s2),
    ensures
        s1.len() == s2.len(),
        forall|i: int|
            0 <= i < s1.len() ==> (#[trigger] s1[i]).actor@ == s2[i].actor@ && s1[i].counter
                == s2[i].counter,
    decreases s1.len(),
{
    lemma_sorted_uniq(s1);
    lemma_sorted_uniq(s2);
    if s1.len() == 0 {
        if s2.len() > 0 {
            lemma_dots_map_lookup(s2, s2.len() - 1);
        }
    } else if s2.len() == 0 {
        lemma_dots_map_lookup(s1, s1.len() - 1);
    } else {
        let l1 = s1.last();
        let l2 = s2.last();
        lemma_dots_map_lookup(s1, s1.len() - 1);
        lemma_dots_map_lookup(s2, s2.len() - 1);
        // the last actor is the maximum of the map's domain, so both lasts agree
        lemma_dots_map_contains(s1, l2.actor@);
        let i2 = choose|i: int| 0 <= i < s1.len() && #[trigger] s1[i].actor@ == l2.actor@;
        if i2 < s1.len() - 1 {
            assert(actor_lt::<A>(s1[i2].actor@, l1.actor@));
        } else {
            A::le_refl(l1.actor@);
        }
        lemma_dots_map_contains(s2, l1.actor@);
        let i1 = choose|i: int| 0 <= i < s2.len() && #[trigger] s2[i].actor@ == l1.actor@;
        if i1 < s2.len() - 1 {
            assert(actor_lt::<A>(s2[i1].actor@, l2.actor@));
        } else {
            A::le_refl(l2.actor@);
        }
        A::le_antisym(l1.actor@, l2.actor@);
        assert(l1.actor@ == l2.actor@);
        assert(l1.counter == l2.counter);
        // strip the shared last dot and recurse
        lemma_take_absent(s1, s1.len() - 1);
        lemma_take_absent(s2, s2.len() - 1);
        assert(s1.take(s1.len() - 1) =~= s1.drop_last());
        assert(s2.take(s2.len() - 1) =~= s2.drop_last());
        assert(dots_map(s1.drop_last()) =~= dots_map(s1).remove(l1.actor@));
        assert(dots_map(s2.drop_last()) =~= dots_map(s2).remove(l2.actor@));
        lemma_canonical(s1.drop_last(), s2.drop_last());
        assert(forall|i: int|
            0 <= i < s1.len() - 1 ==> (#[trigger] s1[i]).actor@ == s1.drop_last()[i].actor@
                && s1[i].counter == s1.drop_last()[i].counter);
        assert(forall|i: int|
            0 <= i < s2.len() - 1 ==> (#[trigger] s2[i]).actor@ == s2.drop_last()[i].actor@
                && s2[i].counter == s2.drop_last()[i].counter);
    }
}

proof fn lemma_glb_step<K>(dm: Map<K, Counter>, b: Map<K, Counter>, av: K, c: Counter)
    requires
        !dm.dom().contains(av),
    ensures
        ({
            let lo = if c >= counter_of(b, av) {
                counter_of(b, av)
            } else {
                c
            };
            glb_map(dm.insert(av, c), b) == if lo > 0 {
                glb_map(dm, b).insert(av, lo)
            } else {
                glb_map(dm, b)
            }
        }),
{
    let lo = if c >= counter_of(b, av) {
        counter_of(b, av)
    } else {
        c
    };
    if lo > 0 {
        assert(glb_map(dm.insert(av, c), b) =~= glb_map(dm, b).insert(av, lo));
    } else {
        assert(glb_map(dm.insert(av, c), b) =~= glb_map(dm, b));
    }
}

proof fn lemma_dominating_step<K>(dm: Map<K, Counter>, b: Map<K, Counter>, av: K, c: Counter)
    requires
        !dm.dom().contains(av),
    ensures
        c > counter_of(b, av) ==> dominating_map(dm.insert(av, c), b) == dominating_map(
            dm,
            b,
        ).insert(av, c),
        c <= counter_of(b, av) ==> dominating_map(dm.insert(av, c), b) == dominating_map(dm, b),
{
    if c > counter_of(b, av) {
        assert(dominating_map(dm.insert(av, c), b) =~= dominating_map(dm, b).insert(av, c));
    } else {
        assert(dominating_map(dm.insert(av, c), b) =~= dominating_map(dm, b));
    }
}

proof fn lemma_intersect_step<K>(dm: Map<K, Counter>, b: Map<K, Counter>, av: K, c: Counter)
    requires
        !dm.dom().contains(av),
    ensures
        c == counter_of(b, av) ==> intersect_map(dm.insert(av, c), b) == intersect_map(
            dm,
            b,
        ).insert(av, c),
        c != counter_of(b, av) ==> intersect_map(dm.insert(av, c), b) == intersect_map(dm, b),
{
    if c == counter_of(b, av) {
        assert(intersect_map(dm.insert(av, c), b) =~= intersect_map(dm, b).insert(av, c));
    } else {
        assert(intersect_map(dm.insert(av, c), b) =~= intersect_map(dm, b));
    }
}

proof fn lemma_subtract_step<K>(dm: Map<K, Counter>, b: Map<K, Counter>, av: K, c: Counter)
    requires
        !dm.dom().contains(av),
    ensures
        !descends(b, av, c) ==> subtract_map(dm.insert(av, c), b) == subtract_map(dm, b).insert(
            av,
            c,
        ),
        descends(b, av, c) ==> subtract_map(dm.insert(av, c), b) == subtract_map(dm, b),
{
    if !descends(b, av, c) {
        assert(subtract_map(dm.insert(av, c), b) =~= subtract_map(dm, b).insert(av, c));
    } else {
        assert(subtract_map(dm.insert(av, c), b) =~= subtract_map(dm, b));
    }
}

impl<A: Actor> VClock<A> {
    /// Merge another clock into this one: the result is the pointwise
    /// maximum over the actors of both.
    pub fn merge(&mut self, other: &VClock<A>)
        ensures
            final(self)@ == merge_map(old(self)@, other@),
    {
        let ghost m0 = self@;
        let ghost os = other.dots@;
        proof {
            use_type_invariant(other);
            lemma_sorted_uniq(os);
            assert(os.take(0) =~= Seq::<Dot<A>>::empty());
            assert(merge_map(m0, dots_map(os.take(0))) =~= m0);
        }
        let n = other.dots.len();
        let mut k: usize = 0;
        while k < n
            invariant
                dot_seq_sorted(os),
                dot_views_uniq(os),
                os == other.dots@,
                n == os.len(),
                k <= n,
                self@ == merge_map(m0, dots_map(os.take(k as int))),
            decreases n - k,
        {
            let actor = other.dots[k].actor.clone_actor();
            let counter = other.dots[k].counter;
            let ghost dmk = dots_map(os.take(k as int));
            proof {
                lemma_take_absent(os, k as int);
                lemma_take_step(os, k as int);
                lemma_merge_step(m0, dmk, os[k as int].actor@, os[k as int].counter);
            }
            let _ = self.witness(actor, counter);
            k = k + 1;
        }
        proof {
            assert(os.take(n as int) =~= os);
        }
    }

    /// Whether this clock stores, for the given actor, a counter at least as
    /// large as the given one.
    pub fn contains_descendent_element(&self, actor: &A, counter: &Counter) -> (r: bool)
        ensures
            r == descends(self@, actor@, *counter),
    {
        let (i, found) = self.locate(actor);
        if found {
            self.dots[i].counter >= *counter
        } else {
            false
        }
    }

    /// Whether the clock stores no dot at all.
    pub fn is_empty(&self) -> (r: bool)
        ensures
            r <==> self@.dom() == Set::<A::V>::empty(),
    {
        proof {
            use_type_invariant(&*self);
            if self.dots@.len() == 0 {
                assert(self@.dom() =~= Set::<A::V>::empty());
            } else {
                lemma_sorted_uniq(self.dots@);
                lemma_dots_map_lookup(self.dots@, 0);
            }
        }
        self.dots.len() == 0
    }

    /// The greatest lower bound of two clocks: the pointwise minimum of
    /// their counters, with actors whose minimum is 0 left out.
    pub fn glb(a: &VClock<A>, b: &VClock<A>) -> (r: VClock<A>)
        ensures
            r@ == glb_map(a@, b@),
    {
        let ghost src = a.dots@;
        proof {
            use_type_invariant(a);
            lemma_sorted_uniq(src);
            assert(src.take(0) =~= Seq::<Dot<A>>::empty());
            assert(glb_map(dots_map(src.take(0)), b@) =~= Map::<A::V, Counter>::empty());
        }
        let mut out: Vec<Dot<A>> = Vec::new();
        let n = a.dots.len();
        let mut k: usize = 0;
        while k < n
            invariant
                dot_seq_sorted(src),
                dot_views_uniq(src),
                src == a.dots@,
                n == src.len(),
                k <= n,
                dot_seq_sorted(out@),
                dots_map(out@) == glb_map(dots_map(src.take(k as int)), b@),
                forall|t: int|
                    0 <= t < out@.len() ==> exists|j: int|
                        0 <= j < k && (#[trigger] out@[t]).actor@ == src[j].actor@,
            decreases n - k,
        {
            let a_cnt = a.dots[k].counter;
            let b_cnt = b.get(&a.dots[k].actor);
            let low = if a_cnt >= b_cnt {
                b_cnt
            } else {
                a_cnt
            };
            proof {
                lemma_take_absent(src, k as int);
                lemma_take_step(src, k as int);
                lemma_glb_step(
                    dots_map(src.take(k as int)),
                    b@,
                    src[k as int].actor@,
                    src[k as int].counter,
                );
            }
            if low > 0 {
                let d = Dot { actor: a.dots[k].actor.clone_actor(), counter: low };
                proof {
                    lemma_push_sorted(out@, src, k as int, d);
                    assert(out@.push(d).drop_last() =~= out@);
                }
                out.push(d);
            }
            k = k + 1;
        }
        proof {
            assert(src.take(n as int) =~= src);
        }
        VClock { dots: out }
    }

    /// Truncate this clock to the greatest lower bound of itself and the
    /// other clock.
    pub fn truncate(&mut self, other: &VClock<A>)
        ensures
            final(self)@ == glb_map(old(self)@, other@),
    {
        let g = Self::glb(self, other);
        *self = g;
    }

    /// The dots of this clock whose counter strictly exceeds the entry
    /// stored by `dots` (entries absent there count as 0).
    pub fn dominating_dots(&self, dots: &VClock<A>) -> (r: VClock<A>)
        ensures
            r@ == dominating_map(self@, dots@),
    {
        let ghost src = self.dots@;
        proof {
            use_type_invariant(&*self);
            lemma_sorted_uniq(src);
            assert(src.take(0) =~= Seq::<Dot<A>>::empty());
            assert(dominating_map(dots_map(src.take(0)), dots@) =~= Map::<A::V, Counter>::empty());
        }
        let mut out: Vec<Dot<A>> = Vec::new();
        let n = self.dots.len();
        let mut k: usize = 0;
        while k < n
            invariant
                dot_seq_sorted(src),
                dot_views_uniq(src),
                src == self.dots@,
                n == src.len(),
                k <= n,
                dot_seq_sorted(out@),
                dots_map(out@) == dominating_map(dots_map(src.take(k as int)), dots@),
                forall|t: int|
                    0 <= t < out@.len() ==> exists|j: int|
                        0 <= j < k && (#[trigger] out@[t]).actor@ == src[j].actor@,
            decreases n - k,
        {
            let cnt = self.dots[k].counter;
            let other_cnt = dots.get(&self.dots[k].actor);
            proof {
                lemma_take_absent(src, k as int);
                lemma_take_step(src, k as int);
                lemma_dominating_step(
                    dots_map(src.take(k as int)),
                    dots@,
                    src[k as int].actor@,
                    src[k as int].counter,
                );
            }
            if cnt > other_cnt {
                let d = Dot { actor: self.dots[k].actor.clone_actor(), counter: cnt };
                proof {
                    lemma_push_sorted(out@, src, k as int, d);
                    assert(out@.push(d).drop_last() =~= out@);
                }
                out.push(d);
            }
            k = k + 1;
        }
        proof {
            assert(src.take(n as int) =~= src);
        }
        VClock { dots: out }
    }

    /// A clock holding the dots of this clock that dominate the
    /// corresponding entries of the other clock.
    pub fn dominating_vclock(&self, other: &VClock<A>) -> (r: VClock<A>)
        ensures
            r@ == dominating_map(self@, other@),
    {
        self.dominating_dots(other)
    }

    /// The dots stored with exactly the same counter in both clocks.
    pub fn intersection(&self, other: &VClock<A>) -> (r: VClock<A>)
        ensures
            r@ == intersect_map(self@, other@),
    {
        let ghost src = self.dots@;
        proof {
            use_type_invariant(&*self);
            lemma_sorted_uniq(src);
            assert(src.take(0) =~= Seq::<Dot<A>>::empty());
            assert(intersect_map(dots_map(src.take(0)), other@) =~= Map::<A::V, Counter>::empty());
        }
        let mut out: Vec<Dot<A>> = Vec::new();
        let n = self.dots.len();
        let mut k: usize = 0;
        while k < n
            invariant
                dot_seq_sorted(src),
                dot_views_uniq(src),
                src == self.dots@,
                n == src.len(),
                k <= n,
                dot_seq_sorted(out@),
                dots_map(out@) == intersect_map(dots_map(src.take(k as int)), other@),
                forall|t: int|
                    0 <= t < out@.len() ==> exists|j: int|
                        0 <= j < k && (#[trigger] out@[t]).actor@ == src[j].actor@,
            decreases n - k,
        {
            let cnt = self.dots[k].counter;
            let other_cnt = other.get(&self.dots[k].actor);
            proof {
                lemma_take_absent(src, k as int);
                lemma_take_step(src, k as int);
                lemma_intersect_step(
                    dots_map(src.take(k as int)),
                    other@,
                    src[k as int].actor@,
                    src[k as int].counter,
                );
            }
            if other_cnt == cnt {
                let d = Dot { actor: self.dots[k].actor.clone_actor(), counter: cnt };
                proof {
                    lemma_push_sorted(out@, src, k as int, d);
                    assert(out@.push(d).drop_last() =~= out@);
                }
                out.push(d);
            }
            k = k + 1;
        }
        proof {
            assert(src.take(n as int) =~= src);
        }
        VClock { dots: out }
    }

    /// Remove every dot of this clock that the other clock dominates or
    /// equals.
    pub fn subtract(&mut self, other: &VClock<A>)
        ensures
            final(self)@ == subtract_map(old(self)@, other@),
    {
        proof {
            use_type_invariant(&*self);
        }
        let mut src: Vec<Dot<A>> = Vec::new();
        core::mem::swap(&mut src, &mut self.dots);
        let ghost s = src@;
        proof {
            lemma_sorted_uniq(s);
            assert(s.take(0) =~= Seq::<Dot<A>>::empty());
            assert(subtract_map(dots_map(s.take(0)), other@) =~= Map::<A::V, Counter>::empty());
        }
        let mut out: Vec<Dot<A>> = Vec::new();
        let n = src.len();
        let mut k: usize = 0;
        while k < n
            invariant
                dot_seq_sorted(s),
                dot_views_uniq(s),
                s == src@,
                n == s.len(),
                k <= n,
                dot_seq_sorted(out@),
                dots_map(out@) == subtract_map(dots_map(s.take(k as int)), other@),
                forall|t: int|
                    0 <= t < out@.len() ==> exists|j: int|
                        0 <= j < k && (#[trigger] out@[t]).actor@ == s[j].actor@,
            decreases n - k,
        {
            let cnt = src[k].counter;
            let dominated = other.contains_descendent_element(&src[k].actor, &cnt);
            proof {
                lemma_take_absent(s, k as int);
                lemma_take_step(s, k as int);
                lemma_subtract_step(dots_map(s.take(k as int)), other@, s[k as int].actor@, cnt);
            }
            if !dominated {
                let d = Dot { actor: src[k].actor.clone_actor(), counter: cnt };
                proof {
                    lemma_push_sorted(out@, s, k as int, d);
                    assert(out@.push(d).drop_last() =~= out@);
                }
                out.push(d);
            }
            k = k + 1;
        }
        proof {
            assert(s.take(n as int) =~= s);
        }
        self.dots = out;
    }

    /// The dots of this clock, in ascending actor order.
    pub fn iter(&self) -> (r: Vec<Dot<A>>)
        ensures
            dot_seq_sorted(r@),
            dots_map(r@) == self@,
    {
        let ghost src = self.dots@;
        proof {
            use_type_invariant(&*self);
        }
        let mut out: Vec<Dot<A>> = Vec::new();
        let n = self.dots.len();
        let mut k: usize = 0;
        while k < n
            invariant
                dot_seq_sorted(src),
                src == self.dots@,
                n == src.len(),
                k <= n,
                out@.len() == k,
                forall|i: int|
                    0 <= i < k ==> (#[trigger] out@[i]).actor@ == src[i].actor@ && out@[i].counter
                        == src[i].counter,
            decreases n - k,
        {
            out.push(self.dots[k].clone());
            k = k + 1;
        }
        proof {
            lemma_dots_map_congruence(out@, src);
            assert forall|p: int, q: int| 0 <= p < q < out@.len() implies #[trigger] actor_lt::<
                A,
            >(out@[p].actor@, out@[q].actor@) by {
                assert(actor_lt::<A>(src[p].actor@, src[q].actor@));
            }
        }
        out
    }
}

/// The clock map reached by witnessing the pairs in order, ignoring
/// rejected dots.
pub open spec fn witness_fold<A: Actor>(
    m: Map<A::V, Counter>,
    s: Seq<(A, Counter)>,
) -> Map<A::V, Counter>
    decreases s.len(),
{
    if s.len() == 0 {
        m
    } else {
        let next = if descends(m, s.first().0@, s.first().1) {
            m
        } else {
            m.insert(s.first().0@, s.first().1)
        };
        witness_fold(next, s.drop_first())
    }
}

proof fn lemma_witness_fold_push<A: Actor>(
    m: Map<A::V, Counter>,
    s: Seq<(A, Counter)>,
    x: (A, Counter),
)
    ensures
        witness_fold(m, s.push(x)) == (if descends(witness_fold(m, s), x.0@, x.1) {
            witness_fold(m, s)
        } else {
            witness_fold(m, s).insert(x.0@, x.1)
        }),
    decreases s.len(),
{
    if s.len() == 0 {
        assert(s.push(x).first() == x);
        assert(s.push(x).drop_first() =~= Seq::<(A, Counter)>::empty());
        let stepped = if descends(m, x.0@, x.1) {
            m
        } else {
            m.insert(x.0@, x.1)
        };
        assert(witness_fold(stepped, s.push(x).drop_first()) == stepped);
        assert(witness_fold(m, s) == m);
    } else {
        assert(s.push(x).first() == s.first());
        assert(s.push(x).drop_first() =~= s.drop_first().push(x));
        let next = if descends(m, s.first().0@, s.first().1) {
            m
        } else {
            m.insert(s.first().0@, s.first().1)
        };
        lemma_witness_fold_push(next, s.drop_first(), x);
        assert(witness_fold(m, s.push(x)) == witness_fold(next, s.drop_first().push(x)));
        assert(witness_fold(m, s) == witness_fold(next, s.drop_first()));
    }
}

impl<A: Actor> VClock<A> {
    /// Build a clock by witnessing the given dots in order; dots that do
    /// not strictly advance an actor's counter are ignored.
    pub fn from_iter(pairs: Vec<(A, Counter)>) -> (r: VClock<A>)
        ensures
            r@ == witness_fold(Map::<A::V, Counter>::empty(), pairs@),
    {
        let ghost ps = pairs@;
        let mut clock = VClock::new();
        let n = pairs.len();
        let mut k: usize = 0;
        proof {
            assert(ps.take(0) =~= Seq::<(A, Counter)>::empty());
        }
        while k < n
            invariant
                ps == pairs@,
                n == ps.len(),
                k <= n,
                clock@ == witness_fold(Map::<A::V, Counter>::empty(), ps.take(k as int)),
            decreases n - k,
        {
            let actor = pairs[k].0.clone_actor();
            let counter = pairs[k].1;
            proof {
                assert(ps.take(k as int + 1) =~= ps.take(k as int).push(ps[k as int]));
                lemma_witness_fold_push(
                    Map::<A::V, Counter>::empty(),
                    ps.take(k as int),
                    ps[k as int],
                );
            }
            let _ = clock.witness(actor, counter);
            k = k + 1;
        }
        proof {
            assert(ps.take(n as int) =~= ps);
        }
        clock
    }
}

impl<A: Actor> Clone for VClock<A> {
    /// A copy of this clock denoting the same map.
    fn clone(&self) -> (r: Self)
        ensures
            r@ == self@,
    {
        VClock { dots: self.iter() }
    }
}

impl<A: Actor> PartialEq for VClock<A> {
    /// Two clocks are equal exactly when they denote the same map.
    fn eq(&self, other: &Self) -> (r: bool) {
        let ghost s1 = self.dots@;
        let ghost s2 = other.dots@;
        proof {
            use_type_invariant(&*self);
            use_type_invariant(other);
            lemma_sorted_uniq(s1);
            lemma_sorted_uniq(s2);
        }
        let n1 = self.dots.len();
        let n2 = other.dots.len();
        if n1 != n2 {
            proof {
                if self@ == other@ {
                    lemma_canonical(s1, s2);
                }
            }
            return false;
        }
        let mut k: usize = 0;
        while k < n1
            invariant
                dot_seq_sorted(s1),
                dot_seq_sorted(s2),
                s1 == self.dots@,
                s2 == other.dots@,
                n1 == s1.len(),
                n1 == s2.len(),
                k <= n1,
                forall|i: int|
                    0 <= i < k ==> (#[trigger] s1[i]).actor@ == s2[i].actor@ && s1[i].counter
                        == s2[i].counter,
            decreases n1 - k,
        {
            let same_actor = match self.dots[k].actor.cmp_actors(&other.dots[k].actor) {
                ActorCmp::Equal => true,
                _ => false,
            };
            if !same_actor || self.dots[k].counter != other.dots[k].counter {
                proof {
                    if self@ == other@ {
                        lemma_canonical(s1, s2);
                    }
                }
                return false;
            }
            k = k + 1;
        }
        proof {
            lemma_dots_map_congruence(s1, s2);
        }
        true
    }
}

impl<A: Actor> vstd::std_specs::cmp::PartialEqSpecImpl for VClock<A> {
    open spec fn obeys_eq_spec() -> bool {
        true
    }

    open spec fn eq_spec(&self, other: &VClock<A>) -> bool {
        self@ == other@
    }
}

impl<A: Actor> VClock<A> {
    /// Whether this clock dominates the other: for every dot stored by the
    /// other, this clock's counter is at least as large.
    fn dominates_check(&self, other: &VClock<A>) -> (r: bool)
        ensures
            r == dominates(self@, other@),
    {
        let ghost os = other.dots@;
        proof {
            use_type_invariant(other);
            lemma_sorted_uniq(os);
        }
        let n = other.dots.len();
        let mut k: usize = 0;
        while k < n
            invariant
                dot_seq_sorted(os),
                dot_views_uniq(os),
                os == other.dots@,
                n == os.len(),
                k <= n,
                forall|j: int|
                    0 <= j < k ==> counter_of(self@, (#[trigger] os[j]).actor@) >= os[j].counter,
            decreases n - k,
        {
            let mine = self.get(&other.dots[k].actor);
            if mine < other.dots[k].counter {
                proof {
                    lemma_dots_map_lookup(os, k as int);
                    assert(other@.dom().contains(os[k as int].actor@));
                    assert(counter_of(self@, os[k as int].actor@) < other@[os[k as int].actor@]);
                }
                return false;
            }
            k = k + 1;
        }
        proof {
            assert forall|a: A::V| #[trigger] other@.dom().contains(a) implies counter_of(
                self@,
                a,
            ) >= other@[a] by {
                lemma_dots_map_contains(os, a);
                let j = choose|j: int| 0 <= j < os.len() && #[trigger] os[j].actor@ == a;
                lemma_dots_map_lookup(os, j);
            }
        }
        true
    }

    /// True when neither clock dominates the other: the clocks have
    /// diverged and must be reconciled externally.
    pub fn concurrent(&self, other: &VClock<A>) -> (r: bool)
        ensures
            r == (vstd::std_specs::cmp::PartialOrdSpec::partial_cmp_spec(self, other)
                is None),
    {
        self.partial_cmp(other).is_none()
    }
}

impl<A: Actor> PartialOrd for VClock<A> {
    /// Clocks are partially ordered by dominance; clocks that each hold a
    /// dot the other lacks are unordered.
    fn partial_cmp(&self, other: &Self) -> (r: Option<core::cmp::Ordering>) {
        if self == other {
            Some(core::cmp::Ordering::Equal)
        } else if self.dominates_check(other) {
            Some(core::cmp::Ordering::Greater)
        } else if other.dominates_check(self) {
            Some(core::cmp::Ordering::Less)
        } else {
            None
        }
    }
}

impl<A: Actor> vstd::std_specs::cmp::PartialOrdSpecImpl for VClock<A> {
    open spec fn obeys_partial_cmp_spec() -> bool {
        true
    }

    open spec fn partial_cmp_spec(&self, other: &VClock<A>) -> Option<core::cmp::Ordering> {
        if self@ == other@ {
            Some(core::cmp::Ordering::Equal)
        } else if dominates(self@, other@) {
            Some(core::cmp::Ordering::Greater)
        } else if dominates(other@, self@) {
            Some(core::cmp::Ordering::Less)
        } else {
            None
        }
    }
}

} // verus!
