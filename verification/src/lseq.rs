//! The sequence CRDT: orchestrates inserts and deletes against the
//! allocation tree, allocates fresh identifiers between two neighbours, and
//! flattens the tree into the visible ordered sequence.

use vstd::prelude::*;

use crate::ctx::{AddCtx, ReadCtx, RmCtx};
use crate::errors::Error;
use crate::identifier::Identifier;
use crate::rng::{clone_rng, fresh_rng, rng_range_incl, seeded_rng};
use crate::tree::{
    clock_tree_rec, clone_level, delete_at, emit_before_children, entries_view, flatten_level,
    flatten_tree_rec, insert_walk, level_delete, level_insert, level_ok, level_stamps, merge_seq,
    probe_walk, stamps_tree_rec, target_free, walk_ok, EntryView, Siblings,
};
use crate::vclock::{Actor, Counter, VClock};
use vstd::arithmetic::mul::lemma_mul_inequality;
use vstd::arithmetic::power2::{
    lemma2_to64, lemma2_to64_rest, lemma_pow2_pos, lemma_pow2_strictly_increases, pow2,
};
use vstd::bits::lemma_u64_shl_is_mul;

verus! {

/// Largest random step consumed by one allocation.
pub const DEFAULT_STRATEGY_BOUNDARY: u8 = 10;

/// Arity of the root level; it doubles at every deeper level.
pub const DEFAULT_ROOT_BASE: u8 = 32;

/// The virtual identifier before every stored one.
pub const BEGIN_ID: u64 = 0;

/// The virtual identifier after every stored one.
pub const END_ID: u64 = u64::MAX;

/// The deepest level this machine can address: the arity at this depth
/// still fits in a 64-bit label.
pub const MAX_DEPTH: usize = 55;

/// How many times a collided label is redrawn before giving up.
pub const ALLOC_RETRIES: usize = 10;

/// The number of legal labels at the given depth: the root arity doubled
/// once per level.
pub open spec fn arity_spec(ra: int, d: nat) -> int {
    ra * pow2(d)
}

/// The label an identifier occupies at a depth, extending short identifiers
/// virtually with the highest legal label ("the end of this branch").
pub open spec fn vdigit(id: Seq<u64>, ra: int, d: nat) -> int {
    if d < id.len() {
        id[d as int] as int
    } else {
        arity_spec(ra, d) - 1
    }
}

/// The difference of the accumulated mixed-radix positions of `q` and `p`
/// through depth `d`, the radix at each depth being its arity.
pub open spec fn vdiff(p: Seq<u64>, q: Seq<u64>, ra: int, d: nat) -> int
    decreases d,
{
    if d == 0 {
        vdigit(q, ra, 0) - vdigit(p, ra, 0)
    } else {
        vdiff(p, q, ra, (d - 1) as nat) * arity_spec(ra, d) + vdigit(q, ra, d) - vdigit(
            p,
            ra,
            d,
        )
    }
}

/// Outcome of the gap search between two identifiers.
pub enum GapSearch {
    /// Room was found: the first depth with a positive gap, and the gap.
    Found { depth: nat, gap: int },
    /// The predecessor's position exceeds the successor's at some depth.
    Inverted,
    /// Both identifiers ran out (or the machine's depth limit was reached)
    /// without a gap.
    Exhausted,
}

/// The gap search itself: descend while the positions at the current depth
/// leave no room, fail on an inversion, stop when both identifiers are
/// exhausted or the depth limit is passed.
pub open spec fn find_spec(p: Seq<u64>, q: Seq<u64>, ra: int, d: nat) -> GapSearch
    decreases p.len() + q.len() + 2 - d,
{
    if d > p.len() && d > q.len() {
        GapSearch::Exhausted
    } else if d > MAX_DEPTH as nat {
        GapSearch::Exhausted
    } else {
        let df = vdiff(p, q, ra, d);
        if df < 0 {
            GapSearch::Inverted
        } else if df >= 2 {
            GapSearch::Found { depth: d, gap: df - 1 }
        } else {
            find_spec(p, q, ra, d + 1)
        }
    }
}

/// An interval clamped to what a 64-bit count can carry.
pub open spec fn clamp_u64(x: int) -> int {
    if x > u64::MAX as int {
        u64::MAX as int
    } else {
        x
    }
}

/// The reference label a new label is drawn against: the matching
/// endpoint's label at the allocation depth, or the edge of the branch when
/// that endpoint is shorter.
pub open spec fn gen_ref_spec(
    p: Seq<u64>,
    q: Seq<u64>,
    ra: int,
    depth: nat,
    strategy: bool,
) -> int {
    if strategy {
        if depth < p.len() {
            p[depth as int] as int
        } else {
            BEGIN_ID as int
        }
    } else {
        if depth < q.len() {
            q[depth as int] as int
        } else {
            arity_spec(ra, depth) - 1
        }
    }
}

/// An LSeq: a sequence CRDT over a tree of variable-length identifiers.
///
/// `boundary` bounds the random step of one allocation, `root_arity` is the
/// number of labels of the root level, and the tree holds one entry per
/// element. The generator for label selection is owned by the sequence.
#[derive(Debug)]
pub struct LSeq<V, A: Actor> {
    boundary: u8,
    root_arity: u8,
    tree: Siblings<V, A>,
    rng: rand::rngs::StdRng,
}

/// Operations exchanged between replicas.
#[derive(Debug, PartialEq)]
pub enum Op<V, A: Actor> {
    /// Insert a value between two optional neighbour identifiers.
    Insert {
        /// context of the operation
        clock: VClock<A>,
        /// the value to insert
        value: V,
        /// preceding atom id
        p: Option<Identifier>,
        /// succeeding atom id
        q: Option<Identifier>,
    },
    /// Delete the value addressed by an identifier.
    Delete {
        /// context of the operation
        clock: VClock<A>,
        /// the id of the atom to delete
        id: Identifier,
    },
}

impl<V: Copy, A: Actor> LSeq<V, A> {
    /// The model of the stored tree.
    pub closed spec fn tree_model(&self) -> Seq<EntryView<V, A::V>> {
        entries_view(self.tree.entries@)
    }

    /// The boundary this sequence allocates with.
    pub closed spec fn boundary_spec(&self) -> int {
        self.boundary as int
    }

    /// The arity of this sequence's root level.
    pub closed spec fn root_arity_spec(&self) -> int {
        self.root_arity as int
    }

    /// A valid sequence: a well-formed tree, a positive boundary, and a
    /// root arity of at least two (so that arities double meaningfully).
    pub closed spec fn wf(&self) -> bool {
        level_ok(self.tree_model()) && 1 <= self.boundary && 2 <= self.root_arity
    }

    /// Construct a new empty LSeq.
    pub fn new() -> (r: Self)
        ensures
            r.wf(),
            r.tree_model() == Seq::<EntryView<V, A::V>>::empty(),
            r.boundary_spec() == DEFAULT_STRATEGY_BOUNDARY as int,
            r.root_arity_spec() == DEFAULT_ROOT_BASE as int,
    {
        let r = LSeq {
            boundary: DEFAULT_STRATEGY_BOUNDARY,
            root_arity: DEFAULT_ROOT_BASE,
            tree: Siblings { entries: Vec::new() },
            rng: fresh_rng(),
        };
        proof {
            assert(r.tree_model() =~= Seq::<EntryView<V, A::V>>::empty());
        }
        r
    }

    /// Construct a new empty LSeq whose label draws are a fixed function
    /// of the seed, so that runs can be reproduced.
    pub fn new_with_seed(seed: u64) -> (r: Self)
        ensures
            r.wf(),
            r.tree_model() == Seq::<EntryView<V, A::V>>::empty(),
            r.boundary_spec() == DEFAULT_STRATEGY_BOUNDARY as int,
            r.root_arity_spec() == DEFAULT_ROOT_BASE as int,
    {
        let r = LSeq {
            boundary: DEFAULT_STRATEGY_BOUNDARY,
            root_arity: DEFAULT_ROOT_BASE,
            tree: Siblings { entries: Vec::new() },
            rng: seeded_rng(seed),
        };
        proof {
            assert(r.tree_model() =~= Seq::<EntryView<V, A::V>>::empty());
        }
        r
    }

    /// Children are emitted after their parent's value at even depths and
    /// before it at odd depths; this fixed alternation is the allocation
    /// strategy at each depth.
    fn get_deterministic_strategy(&self, depth: usize) -> (r: bool)
        ensures
            r == emit_before_children(depth as int),
    {
        depth % 2 == 0
    }

    /// Returns the arity used at a given depth.
    fn arity_at(&self, depth: usize) -> (r: u64)
        requires
            self.wf(),
            depth <= MAX_DEPTH,
        ensures
            r == arity_spec(self.root_arity_spec(), depth as nat),
            2 <= r,
    {
        proof {
            lemma2_to64();
            lemma2_to64_rest();
            lemma_pow2_pos(depth as nat);
            if (depth as nat) < 55 {
                lemma_pow2_strictly_increases(depth as nat, 55);
            }
            assert(pow2(depth as nat) <= pow2(55));
            lemma_mul_inequality(
                self.root_arity as int,
                255,
                pow2(depth as nat) as int,
            );
            lemma_mul_inequality(pow2(depth as nat) as int, pow2(55) as int, 255);
            assert(255 * pow2(depth as nat) == pow2(depth as nat) * 255) by {
                vstd::arithmetic::mul::lemma_mul_is_commutative(
                    255,
                    pow2(depth as nat) as int,
                );
            }
            assert(255 * pow2(55) == pow2(55) * 255) by {
                vstd::arithmetic::mul::lemma_mul_is_commutative(255, pow2(55) as int);
            }
            assert((self.root_arity as u64) * pow2(depth as nat) <= u64::MAX);
            lemma_u64_shl_is_mul(self.root_arity as u64, depth as u64);
            lemma_mul_inequality(2, self.root_arity as int, pow2(depth as nat) as int);
            assert(2 * pow2(depth as nat) >= 2) by {
                vstd::arithmetic::mul::lemma_mul_is_commutative(2, pow2(depth as nat) as int);
                lemma_mul_inequality(1, pow2(depth as nat) as int, 2);
            }
            assert((self.root_arity as int) * pow2(depth as nat) == 2 * pow2(depth as nat)
                || (self.root_arity as int) * pow2(depth as nat) > 2 * pow2(depth as nat)) by {
                vstd::arithmetic::mul::lemma_mul_is_commutative(
                    self.root_arity as int,
                    pow2(depth as nat) as int,
                );
                vstd::arithmetic::mul::lemma_mul_is_commutative(2, pow2(depth as nat) as int);
            }
        }
        (self.root_arity as u64) << (depth as u64)
    }

    /// Find the gap between `p` and `q` and the depth at which a new
    /// identifier can be generated: the first depth where the interval of
    /// their accumulated positions has room for one more.
    #[verifier::rlimit(30)]
    fn find_new_id_depth(&self, p: &Identifier, q: &Identifier) -> (r: Result<
        (usize, u64),
        Error,
    >)
        requires
            self.wf(),
        ensures
            ({
                let fr = find_spec(p@, q@, self.root_arity_spec(), 0);
                match fr {
                    GapSearch::Found { depth, gap } => r matches Ok(v) && v.0 == depth && v.1
                        == clamp_u64(gap),
                    GapSearch::Inverted => r == Err::<(usize, u64), Error>(Error::InvalidOrder),
                    GapSearch::Exhausted => r == Err::<(usize, u64), Error>(
                        Error::ExhaustedIdentifierSpace,
                    ),
                }
            }),
    {
        let ghost ra = self.root_arity_spec();
        let ghost fr = find_spec(p@, q@, ra, 0);
        let mut d: usize = 0;
        let mut prev: u64 = 0;
        let p_len = p.len();
        let q_len = q.len();
        loop
            invariant
                self.wf(),
                ra == self.root_arity_spec(),
                fr == find_spec(p@, q@, ra, 0),
                p_len == p@.len(),
                q_len == q@.len(),
                prev <= 1,
                prev as int == if d == 0 {
                    0int
                } else {
                    vdiff(p@, q@, ra, (d - 1) as nat)
                },
                d > 0 ==> 0 <= vdiff(p@, q@, ra, (d - 1) as nat) <= 1,
                fr == find_spec(p@, q@, ra, d as nat),
                d <= p_len + q_len + 1,
            decreases p@.len() + q@.len() + 2 - d,
        {
            if d > p_len && d > q_len {
                return Err(Error::ExhaustedIdentifierSpace);
            }
            if d > MAX_DEPTH {
                return Err(Error::ExhaustedIdentifierSpace);
            }
            let arity = self.arity_at(d);
            let vp: u64 = if d < p_len {
                p.at(d)
            } else {
                arity - 1
            };
            let vq: u64 = if d < q_len {
                q.at(d)
            } else {
                arity - 1
            };
            proof {
                assert(vp as int == vdigit(p@, ra, d as nat));
                assert(vq as int == vdigit(q@, ra, d as nat));
            }
            proof {
                lemma_mul_inequality(prev as int, 1, arity as int);
                vstd::arithmetic::mul::lemma_mul_nonnegative(prev as int, arity as int);
                vstd::arithmetic::mul::lemma_mul_basics(arity as int);
            }
            let cand: i128 = (prev as i128) * (arity as i128) + (vq as i128) - (vp as i128);
            proof {
                if d == 0 {
                    assert(prev as int == 0);
                    assert((prev as int) * (arity as int) == 0);
                    assert(cand as int == vdigit(q@, ra, 0) - vdigit(p@, ra, 0));
                    assert(cand as int == vdiff(p@, q@, ra, 0));
                } else {
                    assert(cand as int == vdiff(p@, q@, ra, d as nat));
                }
            }
            if cand < 0 {
                return Err(Error::InvalidOrder);
            }
            if cand >= 2 {
                let gap: i128 = cand - 1;
                let interval: u64 = if gap > u64::MAX as i128 {
                    u64::MAX
                } else {
                    gap as u64
                };
                return Ok((d, interval));
            }
            prev = cand as u64;
            d = d + 1;
        }
    }
}

/// When the gap search finds room, the depth lies within the machine's
/// limit and the gap is positive.
pub proof fn lemma_find_found_bounds(p: Seq<u64>, q: Seq<u64>, ra: int, d: nat)
    ensures
        find_spec(p, q, ra, d) matches GapSearch::Found { depth, gap } ==> d <= depth
            <= MAX_DEPTH as nat && gap >= 1,
    decreases p.len() + q.len() + 2 - d,
{
    if d > p.len() && d > q.len() {
    } else if d > MAX_DEPTH as nat {
    } else {
        let df = vdiff(p, q, ra, d);
        if df < 0 {
        } else if df >= 2 {
        } else {
            lemma_find_found_bounds(p, q, ra, d + 1);
        }
    }
}

/// Whether a label lies in the interval the generator draws from: just
/// above the reference under boundary-plus, just below it under
/// boundary-minus, clipped to the step and to the 64-bit label space.
pub open spec fn label_in_gen_range(label: u64, rf: int, step: int, strategy: bool) -> bool {
    if strategy {
        rf < label && label <= clamp_u64(rf + step)
    } else {
        gen_low(rf, step) <= label && label < rf
    }
}

/// The lower end of the boundary-minus interval, clipped at zero.
pub open spec fn gen_low(rf: int, step: int) -> int {
    if rf >= step {
        rf - step
    } else {
        0
    }
}

/// The strategy at an allocation depth: boundary-plus at even depths.
pub open spec fn alloc_strategy(depth: nat) -> bool {
    emit_before_children(depth as int)
}

/// The endpoint whose labels the tree walk follows.
pub open spec fn alloc_guide(pd: Seq<u64>, qd: Seq<u64>, depth: nat) -> Seq<u64> {
    if alloc_strategy(depth) {
        pd
    } else {
        qd
    }
}

/// The labels walked through on the way to the allocation depth.
pub open spec fn alloc_walk(pd: Seq<u64>, qd: Seq<u64>, depth: nat) -> Seq<u64> {
    alloc_guide(pd, qd, depth).take(depth as int)
}

/// The step actually used: the found interval, capped by the boundary.
pub open spec fn alloc_step(gap: int, boundary: int) -> int {
    if clamp_u64(gap) <= boundary {
        clamp_u64(gap)
    } else {
        boundary
    }
}

/// The reference label of the allocation.
pub open spec fn alloc_rf(pd: Seq<u64>, qd: Seq<u64>, ra: int, depth: nat) -> int {
    gen_ref_spec(pd, qd, ra, depth, alloc_strategy(depth))
}

/// No label at all can be drawn: the reference sits at the very edge of
/// the label space.
pub open spec fn alloc_degenerate(pd: Seq<u64>, qd: Seq<u64>, ra: int, depth: nat) -> bool {
    if alloc_strategy(depth) {
        alloc_rf(pd, qd, ra, depth) == u64::MAX as int
    } else {
        alloc_rf(pd, qd, ra, depth) == 0
    }
}

/// The guide reaches the allocation depth and its ancestors stand in the
/// tree.
pub open spec fn alloc_walkable<V, AV>(
    pre: Seq<EntryView<V, AV>>,
    pd: Seq<u64>,
    qd: Seq<u64>,
    depth: nat,
) -> bool {
    depth <= alloc_guide(pd, qd, depth).len() && walk_ok(pre, alloc_walk(pd, qd, depth))
}

/// The label is one the generator may draw for this allocation.
pub open spec fn alloc_label_ok(
    pd: Seq<u64>,
    qd: Seq<u64>,
    ra: int,
    boundary: int,
    depth: nat,
    gap: int,
    label: u64,
) -> bool {
    label_in_gen_range(
        label,
        alloc_rf(pd, qd, ra, depth),
        alloc_step(gap, boundary),
        alloc_strategy(depth),
    )
}

/// The tree after a successful allocation: the value inserted at the end
/// of the walk under some drawable, previously free label.
pub open spec fn alloc_success<V, AV>(
    pre: Seq<EntryView<V, AV>>,
    post: Seq<EntryView<V, AV>>,
    pd: Seq<u64>,
    qd: Seq<u64>,
    ra: int,
    boundary: int,
    stamp: Map<AV, Counter>,
    value: V,
    depth: nat,
    gap: int,
) -> bool {
    exists|label: u64|
        #[trigger] alloc_label_ok(pd, qd, ra, boundary, depth, gap, label) && target_free(
            pre,
            alloc_walk(pd, qd, depth),
            label,
        ) && post == level_insert(pre, alloc_walk(pd, qd, depth), label, stamp, value)
}

/// Every drawable label is free: allocation cannot collide.
pub open spec fn alloc_all_free<V, AV>(
    pre: Seq<EntryView<V, AV>>,
    pd: Seq<u64>,
    qd: Seq<u64>,
    ra: int,
    boundary: int,
    depth: nat,
    gap: int,
) -> bool {
    forall|label: u64|
        #[trigger] alloc_label_ok(pd, qd, ra, boundary, depth, gap, label) ==> target_free(
            pre,
            alloc_walk(pd, qd, depth),
            label,
        )
}

/// Some drawable label is occupied: a collision was possible.
pub open spec fn alloc_collision<V, AV>(
    pre: Seq<EntryView<V, AV>>,
    pd: Seq<u64>,
    qd: Seq<u64>,
    ra: int,
    boundary: int,
    depth: nat,
    gap: int,
) -> bool {
    exists|label: u64|
        #[trigger] alloc_label_ok(pd, qd, ra, boundary, depth, gap, label) && !target_free(
            pre,
            alloc_walk(pd, qd, depth),
            label,
        )
}

/// The allocation promises once the gap search has found room at `depth`
/// with interval `gap`.
pub open spec fn alloc_found_post<V, AV>(
    pre: Seq<EntryView<V, AV>>,
    post: Seq<EntryView<V, AV>>,
    pd: Seq<u64>,
    qd: Seq<u64>,
    ra: int,
    boundary: int,
    stamp: Map<AV, Counter>,
    value: V,
    r: Result<(), Error>,
    depth: nat,
    gap: int,
) -> bool {
    &&& (depth > alloc_guide(pd, qd, depth).len() ==> r == Err::<(), Error>(
        Error::StructuralInvariantViolation,
    ))
    &&& (depth <= alloc_guide(pd, qd, depth).len() && !walk_ok(pre, alloc_walk(pd, qd, depth))
        ==> r == Err::<(), Error>(Error::StructuralInvariantViolation))
    &&& (alloc_walkable(pre, pd, qd, depth) && alloc_degenerate(pd, qd, ra, depth) ==> r
        == Err::<(), Error>(Error::ExhaustedIdentifierSpace))
    &&& (r is Ok ==> alloc_walkable(pre, pd, qd, depth) && alloc_success(
        pre,
        post,
        pd,
        qd,
        ra,
        boundary,
        stamp,
        value,
        depth,
        gap,
    ))
    &&& (alloc_walkable(pre, pd, qd, depth) && !alloc_degenerate(pd, qd, ra, depth)
        && alloc_all_free(pre, pd, qd, ra, boundary, depth, gap) ==> r is Ok)
    &&& (r == Err::<(), Error>(Error::AllocationExhausted) ==> alloc_collision(
        pre,
        pd,
        qd,
        ra,
        boundary,
        depth,
        gap,
    ))
}

/// Everything allocation promises: which error comes on which input, that
/// any error leaves the tree untouched, and that success inserts the value
/// under some label drawn from the gap found between the neighbours.
pub open spec fn alloc_post<V, AV>(
    pre: Seq<EntryView<V, AV>>,
    post: Seq<EntryView<V, AV>>,
    pd: Seq<u64>,
    qd: Seq<u64>,
    ra: int,
    boundary: int,
    stamp: Map<AV, Counter>,
    value: V,
    r: Result<(), Error>,
) -> bool {
    let fr = find_spec(pd, qd, ra, 0);
    &&& (r matches Err(_) ==> post == pre)
    &&& (fr is Inverted ==> r == Err::<(), Error>(Error::InvalidOrder))
    &&& (fr is Exhausted ==> r == Err::<(), Error>(Error::ExhaustedIdentifierSpace))
    &&& ((fr matches GapSearch::Found { depth: _, gap: _ }) ==> alloc_found_post(
        pre,
        post,
        pd,
        qd,
        ra,
        boundary,
        stamp,
        value,
        r,
        fr->Found_depth,
        fr->Found_gap,
    ))
}

impl<V: Copy, A: Actor> LSeq<V, A> {
    /// Draw a fresh label at the allocation depth: above the predecessor's
    /// reference label under boundary-plus, below the successor's under
    /// boundary-minus, within the given step.
    fn gen_new_number(
        &mut self,
        depth: usize,
        strategy: bool,
        step: u64,
        p: &Identifier,
        q: &Identifier,
    ) -> (r: Result<u64, Error>)
        requires
            old(self).wf(),
            depth <= MAX_DEPTH,
            1 <= step,
        ensures
            final(self).wf(),
            final(self).tree_model() == old(self).tree_model(),
            final(self).boundary_spec() == old(self).boundary_spec(),
            final(self).root_arity_spec() == old(self).root_arity_spec(),
            ({
                let rf = gen_ref_spec(p@, q@, old(self).root_arity_spec(), depth as nat, strategy);
                let degenerate = if strategy {
                    rf == u64::MAX as int
                } else {
                    rf == 0
                };
                &&& (r is Err <==> degenerate)
                &&& (r matches Err(e) ==> e == Error::ExhaustedIdentifierSpace)
                &&& (r matches Ok(n) ==> label_in_gen_range(n, rf, step as int, strategy))
            }),
    {
        if strategy {
            let rf: u64 = if depth < p.len() {
                p.at(depth)
            } else {
                BEGIN_ID
            };
            if rf == u64::MAX {
                return Err(Error::ExhaustedIdentifierSpace);
            }
            let hi: u64 = if step > u64::MAX - rf {
                u64::MAX
            } else {
                rf + step
            };
            let n = rng_range_incl(&mut self.rng, rf + 1, hi);
            Ok(n)
        } else {
            let rf: u64 = if depth < q.len() {
                q.at(depth)
            } else {
                self.arity_at(depth) - 1
            };
            if rf == 0 {
                return Err(Error::ExhaustedIdentifierSpace);
            }
            let lo: u64 = if step > rf {
                0
            } else {
                rf - step
            };
            let n = rng_range_incl(&mut self.rng, lo, rf - 1);
            Ok(n)
        }
    }

    /// Allocate a new identifier between `p` and `q` and insert the value
    /// under it, redrawing a bounded number of times when the drawn label
    /// is already occupied. Any failure leaves the tree untouched.
    #[verifier::rlimit(40)]
    fn alloc_id(
        &mut self,
        p: &Identifier,
        q: &Identifier,
        clock: VClock<A>,
        value: V,
    ) -> (r: Result<(), Error>)
        requires
            old(self).wf(),
        ensures
            final(self).wf(),
            final(self).boundary_spec() == old(self).boundary_spec(),
            final(self).root_arity_spec() == old(self).root_arity_spec(),
            alloc_post(
                old(self).tree_model(),
                final(self).tree_model(),
                p@,
                q@,
                old(self).root_arity_spec(),
                old(self).boundary_spec(),
                clock@,
                value,
                r,
            ),
    {
        let ghost pre = self.tree_model();
        let ghost ra = self.root_arity_spec();
        let ghost bd = self.boundary_spec();
        let fd = self.find_new_id_depth(p, q);
        let (depth, interval) = match fd {
            Ok(x) => x,
            Err(e) => {
                return Err(e);
            },
        };
        let ghost gfr = find_spec(p@, q@, ra, 0);
        proof {
            lemma_find_found_bounds(p@, q@, ra, 0);
        }
        let ghost gdepth = gfr->Found_depth;
        let ghost ggap = gfr->Found_gap;
        let strategy = self.get_deterministic_strategy(depth);
        let bnd: u64 = self.boundary as u64;
        let step: u64 = if interval <= bnd {
            interval
        } else {
            bnd
        };
        proof {
            assert(strategy == alloc_strategy(gdepth));
            assert(step as int == alloc_step(ggap, bd));
        }
        let guide: &Identifier = if strategy {
            p
        } else {
            q
        };
        if depth > guide.len() {
            return Err(Error::StructuralInvariantViolation);
        }
        let ghost walk = alloc_walk(p@, q@, gdepth);
        proof {
            assert(walk =~= guide@.subrange(0, depth as int));
        }
        let (walk_exists, _) = probe_walk(&self.tree, guide, 0, depth, 0);
        if !walk_exists {
            return Err(Error::StructuralInvariantViolation);
        }
        let mut attempt: usize = 0;
        while attempt < ALLOC_RETRIES
            invariant
                self.wf(),
                self.tree_model() == pre,
                pre == old(self).tree_model(),
                ra == self.root_arity_spec(),
                ra == old(self).root_arity_spec(),
                bd == old(self).boundary_spec(),
                self.boundary_spec() == bd,
                old(self).wf(),
                find_spec(p@, q@, ra, 0) == gfr,
                gfr matches GapSearch::Found { depth: _, gap: _ },
                gdepth == gfr->Found_depth,
                ggap == gfr->Found_gap,
                gdepth == depth as nat,
                depth <= MAX_DEPTH,
                1 <= step,
                step as int == alloc_step(ggap, bd),
                strategy == alloc_strategy(gdepth),
                depth <= guide@.len(),
                guide@ == alloc_guide(p@, q@, gdepth),
                walk == alloc_walk(p@, q@, gdepth),
                walk == guide@.subrange(0, depth as int),
                alloc_walkable(pre, p@, q@, gdepth),
                walk_ok(pre, walk),
                attempt > 0 ==> alloc_collision(pre, p@, q@, ra, bd, gdepth, ggap),
                attempt > 0 ==> !alloc_degenerate(p@, q@, ra, gdepth),
            decreases ALLOC_RETRIES - attempt,
        {
            let gn = self.gen_new_number(depth, strategy, step, p, q);
            let n = match gn {
                Ok(n) => n,
                Err(e) => {
                    return Err(e);
                },
            };
            proof {
                assert(alloc_label_ok(p@, q@, ra, bd, gdepth, ggap, n));
                assert(!alloc_degenerate(p@, q@, ra, gdepth));
            }
            let (_, free) = probe_walk(&self.tree, guide, 0, depth, n);
            if free {
                insert_walk(&mut self.tree, guide, 0, depth, n, clock.clone(), value);
                proof {
                    assert(target_free(pre, walk, n));
                    assert(self.tree_model() == level_insert(pre, walk, n, clock@, value));
                    assert(alloc_success(pre, self.tree_model(), p@, q@, ra, bd, clock@, value,
                        gdepth, ggap)) by {
                        assert(alloc_label_ok(p@, q@, ra, bd, gdepth, ggap, n) && target_free(
                            pre,
                            alloc_walk(p@, q@, gdepth),
                            n,
                        ) && self.tree_model() == level_insert(
                            pre,
                            alloc_walk(p@, q@, gdepth),
                            n,
                            clock@,
                            value,
                        ));
                    }
                }
                return Ok(());
            }
            proof {
                assert(alloc_collision(pre, p@, q@, ra, bd, gdepth, ggap)) by {
                    assert(alloc_label_ok(p@, q@, ra, bd, gdepth, ggap, n) && !target_free(
                        pre,
                        alloc_walk(p@, q@, gdepth),
                        n,
                    ));
                }
            }
            attempt = attempt + 1;
        }
        Err(Error::AllocationExhausted)
    }

    /// Apply an operation to this replica's tree.
    ///
    /// An insertion with an empty causal context is a no-op; any error
    /// leaves the sequence exactly as it was. A deletion is always
    /// admitted; it removes nothing when the identifier addresses nothing,
    /// and discards the whole subtree of an entry that carries children.
    ///
    /// The label of an insertion is drawn by this replica's own generator,
    /// so two replicas applying the same insert operation may place the
    /// value under different identifiers; deletions, which carry their
    /// identifier, converge in any order (see the deletion lemmas of the
    /// tree module).
    pub fn apply(&mut self, op: Op<V, A>) -> (r: Result<(), Error>)
        requires
            old(self).wf(),
        ensures
            final(self).wf(),
            final(self).boundary_spec() == old(self).boundary_spec(),
            final(self).root_arity_spec() == old(self).root_arity_spec(),
            (match op {
                Op::Delete { clock, id } => r == Ok::<(), Error>(()) && final(self).tree_model()
                    == level_delete(old(self).tree_model(), id@),
                Op::Insert { clock, value, p, q } => {
                    let pd = match p {
                        Some(pi) => pi@,
                        None => seq![BEGIN_ID],
                    };
                    let qd = match q {
                        Some(qi) => qi@,
                        None => seq![END_ID],
                    };
                    if clock@.dom() == Set::<A::V>::empty() {
                        r == Ok::<(), Error>(()) && final(self).tree_model() == old(
                            self,
                        ).tree_model()
                    } else {
                        alloc_post(
                            old(self).tree_model(),
                            final(self).tree_model(),
                            pd,
                            qd,
                            old(self).root_arity_spec(),
                            old(self).boundary_spec(),
                            clock@,
                            value,
                            r,
                        )
                    }
                },
            }),
    {
        match op {
            Op::Insert { clock, value, p, q } => {
                if clock.is_empty() {
                    return Ok(());
                }
                let pid = match p {
                    Some(pi) => pi,
                    None => {
                        let mut path: Vec<u64> = Vec::new();
                        path.push(BEGIN_ID);
                        proof {
                            assert(path@ =~= seq![BEGIN_ID]);
                        }
                        Identifier::new(path.as_slice())
                    },
                };
                let qid = match q {
                    Some(qi) => qi,
                    None => {
                        let mut path: Vec<u64> = Vec::new();
                        path.push(END_ID);
                        proof {
                            assert(path@ =~= seq![END_ID]);
                        }
                        Identifier::new(path.as_slice())
                    },
                };
                self.alloc_id(&pid, &qid, clock, value)
            },
            Op::Delete { clock: _, id } => {
                delete_at(&mut self.tree, &id, 0);
                proof {
                    assert(id@.skip(0) =~= id@);
                }
                Ok(())
            },
        }
    }

    /// Build the operation inserting a value between `p` and `q` under the
    /// given causal context.
    pub fn insert(
        &self,
        value: V,
        p: Option<Identifier>,
        q: Option<Identifier>,
        ctx: AddCtx<A>,
    ) -> (r: Op<V, A>)
        ensures
            r == (Op::Insert { clock: ctx.clock, value, p, q }),
    {
        Op::Insert { clock: ctx.clock, value, p, q }
    }

    /// Build the operation deleting the value addressed by `id` under the
    /// given causal context.
    pub fn delete(&self, id: Identifier, ctx: RmCtx<A>) -> (r: Op<V, A>)
        ensures
            r == (Op::<V, A>::Delete { clock: ctx.clock, id }),
    {
        Op::Delete { clock: ctx.clock, id }
    }

    /// The causal context of this sequence: the merge of every stored
    /// entry's stamp.
    pub open spec fn clock_model(&self) -> Map<A::V, Counter> {
        merge_seq(Map::empty(), level_stamps(self.tree_model()))
    }

    /// The flattened output matches the model sequence pairwise.
    pub open spec fn flat_matches(out: Seq<(Identifier, V)>, model: Seq<(Seq<u64>, V)>) -> bool {
        &&& out.len() == model.len()
        &&& forall|i: int|
            0 <= i < out.len() ==> (#[trigger] out[i]).0@ == model[i].0 && out[i].1 == model[i].1
    }

    /// A clock with the latest counter of every actor that has touched
    /// this sequence.
    fn clock(&self) -> (r: VClock<A>)
        requires
            self.wf(),
        ensures
            r@ == self.clock_model(),
    {
        let mut acc = VClock::new();
        clock_tree_rec(&self.tree, &mut acc);
        acc
    }

    /// Flatten the tree into the ordered sequence of identifier and value
    /// pairs; the output is a function of the stored tree alone, so
    /// repeated calls on an unmodified sequence return identical results.
    pub fn flatten(&self) -> (r: Vec<(Identifier, V)>)
        requires
            self.wf(),
        ensures
            Self::flat_matches(r@, flatten_level(self.tree_model(), Seq::<u64>::empty())),
    {
        let mut out: Vec<(Identifier, V)> = Vec::new();
        let empty_path: Vec<u64> = Vec::new();
        let prefix = Identifier::new(empty_path.as_slice());
        proof {
            assert(prefix@ =~= Seq::<u64>::empty());
        }
        flatten_tree_rec(&self.tree, &prefix, &mut out);
        out
    }

    /// Read the whole sequence together with its causal context.
    pub fn read(&self) -> (r: ReadCtx<Vec<(Identifier, V)>, A>)
        requires
            self.wf(),
        ensures
            r.add_clock@ == self.clock_model(),
            r.rm_clock@ == self.clock_model(),
            Self::flat_matches(r.val@, flatten_level(self.tree_model(), Seq::<u64>::empty())),
    {
        let clock = self.clock();
        let sequence = self.flatten();
        ReadCtx { add_clock: clock.clone(), rm_clock: clock, val: sequence }
    }

    /// Retrieve the current read context without reading the values.
    pub fn read_ctx(&self) -> (r: ReadCtx<(), A>)
        requires
            self.wf(),
        ensures
            r.add_clock@ == self.clock_model(),
            r.rm_clock@ == self.clock_model(),
    {
        let clock = self.clock();
        ReadCtx { add_clock: clock.clone(), rm_clock: clock, val: () }
    }
}

impl<V: Copy, A: Actor> Clone for LSeq<V, A> {
    /// A replica copy: the same tree, boundary and root arity, with its
    /// own generator handle.
    fn clone(&self) -> (r: Self)
        ensures
            r.tree_model() == self.tree_model(),
            r.boundary_spec() == self.boundary_spec(),
            r.root_arity_spec() == self.root_arity_spec(),
            self.wf() ==> r.wf(),
    {
        LSeq {
            boundary: self.boundary,
            root_arity: self.root_arity,
            tree: clone_level(&self.tree),
            rng: clone_rng(&self.rng),
        }
    }
}

impl<V: Copy, A: Actor> Default for LSeq<V, A> {
    /// The default sequence is a fresh empty one.
    fn default() -> (r: Self)
        ensures
            r.wf(),
            r.tree_model() == Seq::<EntryView<V, A::V>>::empty(),
            r.boundary_spec() == DEFAULT_STRATEGY_BOUNDARY as int,
            r.root_arity_spec() == DEFAULT_ROOT_BASE as int,
    {
        Self::new()
    }
}

/// The stamp occurs, by value, somewhere in the list.
pub open spec fn stamp_in<AV>(x: Map<AV, Counter>, ys: Seq<Map<AV, Counter>>) -> bool {
    exists|j: int| 0 <= j < ys.len() && x == #[trigger] ys[j]
}

/// Whether every stamp of `xs` also occurs (by value) in `ys`.
fn stamps_contained<A: Actor>(xs: &Vec<VClock<A>>, ys: &Vec<VClock<A>>) -> (r: bool)
    ensures
        r == forall|i: int|
            0 <= i < xs@.len() ==> stamp_in((#[trigger] xs@[i])@, ys@.map_values(|y: VClock<A>| y@)),
{
    let ghost ym = ys@.map_values(|y: VClock<A>| y@);
    let n = xs.len();
    let mut i: usize = 0;
    while i < n
        invariant
            ym == ys@.map_values(|y: VClock<A>| y@),
            n == xs@.len(),
            i <= n,
            forall|t: int| 0 <= t < i ==> stamp_in((#[trigger] xs@[t])@, ym),
        decreases n - i,
    {
        let m = ys.len();
        let mut j: usize = 0;
        let mut found = false;
        while j < m
            invariant
                ym == ys@.map_values(|y: VClock<A>| y@),
                n == xs@.len(),
                m == ys@.len(),
                i < n,
                j <= m,
                found ==> stamp_in(xs@[i as int]@, ym),
                !found ==> forall|t: int| 0 <= t < j ==> xs@[i as int]@ != #[trigger] ym[t],
            decreases m - j,
        {
            if xs[i] == ys[j] {
                found = true;
                proof {
                    assert(ym[j as int] == ys@[j as int]@);
                }
            } else {
                proof {
                    assert(ym[j as int] == ys@[j as int]@);
                }
            }
            j = j + 1;
        }
        if !found {
            proof {
                assert(!stamp_in(xs@[i as int]@, ym));
            }
            return false;
        }
        i = i + 1;
    }
    true
}

impl<V: Copy, A: Actor> PartialEq for LSeq<V, A> {
    /// Two sequences are equal exactly when they hold the same set of
    /// causal stamps, irrespective of positions and values.
    fn eq(&self, other: &Self) -> (r: bool) {
        let ghost m1 = level_stamps(self.tree_model());
        let ghost m2 = level_stamps(other.tree_model());
        let mut s1: Vec<VClock<A>> = Vec::new();
        stamps_tree_rec(&self.tree, &mut s1);
        let mut s2: Vec<VClock<A>> = Vec::new();
        stamps_tree_rec(&other.tree, &mut s2);
        let fwd = stamps_contained(&s1, &s2);
        let bwd = stamps_contained(&s2, &s1);
        proof {
            assert(s1@.map_values(|y: VClock<A>| y@) =~= m1);
            assert(s2@.map_values(|y: VClock<A>| y@) =~= m2);
            if fwd && bwd {
                assert forall|m: Map<A::V, Counter>| m1.to_set().contains(m) implies m2.to_set()
                    .contains(m) by {
                    let i = choose|i: int| 0 <= i < m1.len() && m1[i] == m;
                    assert(s1@[i]@ == m);
                    assert(stamp_in(s1@[i]@, m2));
                    let j = choose|j: int| 0 <= j < m2.len() && s1@[i]@ == m2[j];
                    assert(m2.contains(m));
                }
                assert forall|m: Map<A::V, Counter>| m2.to_set().contains(m) implies m1.to_set()
                    .contains(m) by {
                    let i = choose|i: int| 0 <= i < m2.len() && m2[i] == m;
                    assert(s2@[i]@ == m);
                    assert(stamp_in(s2@[i]@, m1));
                    let j = choose|j: int| 0 <= j < m1.len() && s2@[i]@ == m1[j];
                    assert(m1.contains(m));
                }
                assert(m1.to_set() =~= m2.to_set());
            } else if !fwd {
                assert(exists|i: int| 0 <= i < s1@.len() && !stamp_in((#[trigger] s1@[i])@, m2));
                let i = choose|i: int| 0 <= i < s1@.len() && !stamp_in((#[trigger] s1@[i])@, m2);
                assert(m1[i] == s1@[i]@);
                assert(m1.contains(m1[i]));
                assert(m1.to_set().contains(m1[i]));
                assert(!m2.contains(m1[i]));
                assert(!m2.to_set().contains(m1[i]));
                assert(m1.to_set() != m2.to_set());
            } else {
                assert(exists|i: int| 0 <= i < s2@.len() && !stamp_in((#[trigger] s2@[i])@, m1));
                let i = choose|i: int| 0 <= i < s2@.len() && !stamp_in((#[trigger] s2@[i])@, m1);
                assert(m2[i] == s2@[i]@);
                assert(m2.contains(m2[i]));
                assert(m2.to_set().contains(m2[i]));
                assert(!m1.contains(m2[i]));
                assert(!m1.to_set().contains(m2[i]));
                assert(m1.to_set() != m2.to_set());
            }
        }
        fwd && bwd
    }
}

impl<V: Copy, A: Actor> vstd::std_specs::cmp::PartialEqSpecImpl for LSeq<V, A> {
    open spec fn obeys_eq_spec() -> bool {
        true
    }

    open spec fn eq_spec(&self, other: &LSeq<V, A>) -> bool {
        level_stamps(self.tree_model()).to_set() == level_stamps(other.tree_model()).to_set()
    }
}

/// Inserting one value into an empty sequence between the virtual ends
/// yields a one-element sequence holding exactly that value.
pub proof fn lemma_single_insert_flatten<V, AV>(label: u64, stamp: Map<AV, Counter>, value: V)
    ensures
        ({
            let post = level_insert(
                Seq::<EntryView<V, AV>>::empty(),
                Seq::<u64>::empty(),
                label,
                stamp,
                value,
            );
            flatten_level(post, Seq::<u64>::empty()) == seq![(seq![label], value)]
        }),
{
    let e = EntryView { label, stamp, atom: crate::tree::AtomView::<V, AV>::Leaf(value) };
    let post = level_insert(
        Seq::<EntryView<V, AV>>::empty(),
        Seq::<u64>::empty(),
        label,
        stamp,
        value,
    );
    assert(post =~= seq![e]);
    assert(post.drop_first() =~= Seq::<EntryView<V, AV>>::empty());
    assert(flatten_level(post.drop_first(), Seq::<u64>::empty()) == flatten_level(
        Seq::<EntryView<V, AV>>::empty(),
        Seq::<u64>::empty(),
    ));
    assert(Seq::<u64>::empty().push(label) =~= seq![label]);
    assert(post[0] == e);
    assert(crate::tree::flatten_entry(e, Seq::<u64>::empty()) =~= seq![(seq![label], value)]);
    assert(flatten_level(post, Seq::<u64>::empty()) =~= seq![(seq![label], value)]);
}

} // verus!
