//! Implementations of [`Actor`] for the usual identity types: unsigned and
//! signed integers, and strings.

use vstd::prelude::*;

use crate::vclock::{Actor, ActorCmp};
use vstd::utf8::{decode_utf8, encode_utf8, encode_utf8_decode_utf8};

verus! {

impl Actor for u8 {
    open spec fn le(a: u8, b: u8) -> bool {
        a <= b
    }

    proof fn le_refl(x: u8) {
    }

    proof fn le_trans(x: u8, y: u8, z: u8) {
    }

    proof fn le_antisym(x: u8, y: u8) {
    }

    proof fn le_total(x: u8, y: u8) {
    }

    fn cmp_actors(&self, other: &Self) -> (c: ActorCmp) {
        if *self < *other {
            ActorCmp::Less
        } else if *self == *other {
            ActorCmp::Equal
        } else {
            ActorCmp::Greater
        }
    }

    fn clone_actor(&self) -> (r: Self) {
        *self
    }
}

impl Actor for u32 {
    open spec fn le(a: u32, b: u32) -> bool {
        a <= b
    }

    proof fn le_refl(x: u32) {
    }

    proof fn le_trans(x: u32, y: u32, z: u32) {
    }

    proof fn le_antisym(x: u32, y: u32) {
    }

    proof fn le_total(x: u32, y: u32) {
    }

    fn cmp_actors(&self, other: &Self) -> (c: ActorCmp) {
        if *self < *other {
            ActorCmp::Less
        } else if *self == *other {
            ActorCmp::Equal
        } else {
            ActorCmp::Greater
        }
    }

    fn clone_actor(&self) -> (r: Self) {
        *self
    }
}

impl Actor for u64 {
    open spec fn le(a: u64, b: u64) -> bool {
        a <= b
    }

    proof fn le_refl(x: u64) {
    }

    proof fn le_trans(x: u64, y: u64, z: u64) {
    }

    proof fn le_antisym(x: u64, y: u64) {
    }

    proof fn le_total(x: u64, y: u64) {
    }

    fn cmp_actors(&self, other: &Self) -> (c: ActorCmp) {
        if *self < *other {
            ActorCmp::Less
        } else if *self == *other {
            ActorCmp::Equal
        } else {
            ActorCmp::Greater
        }
    }

    fn clone_actor(&self) -> (r: Self) {
        *self
    }
}

impl Actor for i8 {
    open spec fn le(a: i8, b: i8) -> bool {
        a <= b
    }

    proof fn le_refl(x: i8) {
    }

    proof fn le_trans(x: i8, y: i8, z: i8) {
    }

    proof fn le_antisym(x: i8, y: i8) {
    }

    proof fn le_total(x: i8, y: i8) {
    }

    fn cmp_actors(&self, other: &Self) -> (c: ActorCmp) {
        if *self < *other {
            ActorCmp::Less
        } else if *self == *other {
            ActorCmp::Equal
        } else {
            ActorCmp::Greater
        }
    }

    fn clone_actor(&self) -> (r: Self) {
        *self
    }
}

impl Actor for i32 {
    open spec fn le(a: i32, b: i32) -> bool {
        a <= b
    }

    proof fn le_refl(x: i32) {
    }

    proof fn le_trans(x: i32, y: i32, z: i32) {
    }

    proof fn le_antisym(x: i32, y: i32) {
    }

    proof fn le_total(x: i32, y: i32) {
    }

    fn cmp_actors(&self, other: &Self) -> (c: ActorCmp) {
        if *self < *other {
            ActorCmp::Less
        } else if *self == *other {
            ActorCmp::Equal
        } else {
            ActorCmp::Greater
        }
    }

    fn clone_actor(&self) -> (r: Self) {
        *self
    }
}

impl Actor for i64 {
    open spec fn le(a: i64, b: i64) -> bool {
        a <= b
    }

    proof fn le_refl(x: i64) {
    }

    proof fn le_trans(x: i64, y: i64, z: i64) {
    }

    proof fn le_antisym(x: i64, y: i64) {
    }

    proof fn le_total(x: i64, y: i64) {
    }

    fn cmp_actors(&self, other: &Self) -> (c: ActorCmp) {
        if *self < *other {
            ActorCmp::Less
        } else if *self == *other {
            ActorCmp::Equal
        } else {
            ActorCmp::Greater
        }
    }

    fn clone_actor(&self) -> (r: Self) {
        *self
    }
}

/// Lexicographic order on byte sequences: the prefix relation resolves ties.
pub open spec fn lex_le_bytes(a: Seq<u8>, b: Seq<u8>) -> bool
    decreases a.len(),
{
    if a.len() == 0 {
        true
    } else if b.len() == 0 {
        false
    } else if a[0] < b[0] {
        true
    } else if a[0] > b[0] {
        false
    } else {
        lex_le_bytes(a.drop_first(), b.drop_first())
    }
}

proof fn lemma_lex_refl(a: Seq<u8>)
    ensures
        lex_le_bytes(a, a),
    decreases a.len(),
{
    if a.len() > 0 {
        lemma_lex_refl(a.drop_first());
    }
}

proof fn lemma_lex_total(a: Seq<u8>, b: Seq<u8>)
    ensures
        lex_le_bytes(a, b) || lex_le_bytes(b, a),
    decreases a.len(),
{
    if a.len() > 0 && b.len() > 0 && a[0] == b[0] {
        lemma_lex_total(a.drop_first(), b.drop_first());
    }
}

proof fn lemma_lex_trans(a: Seq<u8>, b: Seq<u8>, c: Seq<u8>)
    requires
        lex_le_bytes(a, b),
        lex_le_bytes(b, c),
    ensures
        lex_le_bytes(a, c),
    decreases a.len(),
{
    if a.len() > 0 {
        if a[0] == b[0] && b[0] == c[0] {
            lemma_lex_trans(a.drop_first(), b.drop_first(), c.drop_first());
        }
    }
}

proof fn lemma_lex_antisym(a: Seq<u8>, b: Seq<u8>)
    requires
        lex_le_bytes(a, b),
        lex_le_bytes(b, a),
    ensures
        a == b,
    decreases a.len(),
{
    if a.len() == 0 {
        assert(a =~= b);
    } else {
        lemma_lex_antisym(a.drop_first(), b.drop_first());
        assert(a =~= seq![a[0]].add(a.drop_first()));
        assert(b =~= seq![b[0]].add(b.drop_first()));
    }
}

/// Skipping a shared prefix does not change the lexicographic comparison.
proof fn lemma_lex_skip(a: Seq<u8>, b: Seq<u8>, i: int)
    requires
        0 <= i <= a.len(),
        i <= b.len(),
        forall|j: int| 0 <= j < i ==> a[j] == b[j],
    ensures
        lex_le_bytes(a, b) == lex_le_bytes(a.skip(i), b.skip(i)),
    decreases i,
{
    if i == 0 {
        assert(a.skip(0) =~= a);
        assert(b.skip(0) =~= b);
    } else {
        assert(a[0] == b[0]);
        assert(a.drop_first().skip(i - 1) =~= a.skip(i));
        assert(b.drop_first().skip(i - 1) =~= b.skip(i));
        assert(forall|j: int| 0 <= j < i - 1 ==> a.drop_first()[j] == b.drop_first()[j]);
        lemma_lex_skip(a.drop_first(), b.drop_first(), i - 1);
    }
}

/// `encode_utf8` is injective: equal encodings come from equal texts.
proof fn lemma_encode_injective(x: Seq<char>, y: Seq<char>)
    requires
        encode_utf8(x) == encode_utf8(y),
    ensures
        x == y,
{
    encode_utf8_decode_utf8(x);
    encode_utf8_decode_utf8(y);
    assert(decode_utf8(encode_utf8(x)) == decode_utf8(encode_utf8(y)));
}

impl Actor for String {
    /// Strings are ordered by their UTF-8 encodings, compared byte by byte.
    open spec fn le(a: Seq<char>, b: Seq<char>) -> bool {
        lex_le_bytes(encode_utf8(a), encode_utf8(b))
    }

    proof fn le_refl(x: Seq<char>) {
        lemma_lex_refl(encode_utf8(x));
    }

    proof fn le_trans(x: Seq<char>, y: Seq<char>, z: Seq<char>) {
        lemma_lex_trans(encode_utf8(x), encode_utf8(y), encode_utf8(z));
    }

    proof fn le_antisym(x: Seq<char>, y: Seq<char>) {
        lemma_lex_antisym(encode_utf8(x), encode_utf8(y));
        lemma_encode_injective(x, y);
    }

    proof fn le_total(x: Seq<char>, y: Seq<char>) {
        lemma_lex_total(encode_utf8(x), encode_utf8(y));
    }

    fn cmp_actors(&self, other: &Self) -> (c: ActorCmp) {
        let ab = self.as_str().as_bytes();
        let bb = other.as_str().as_bytes();
        let ghost av = encode_utf8(self@);
        let ghost bv = encode_utf8(other@);
        let na = ab.len();
        let nb = bb.len();
        let mut i: usize = 0;
        let bound = if na <= nb {
            na
        } else {
            nb
        };
        while i < bound
            invariant
                ab@ == av,
                bb@ == bv,
                av == encode_utf8(self@),
                bv == encode_utf8(other@),
                na == av.len(),
                nb == bv.len(),
                bound == if na <= nb {
                    na
                } else {
                    nb
                },
                i <= bound,
                forall|j: int| 0 <= j < i ==> av[j] == bv[j],
            decreases bound - i,
        {
            if ab[i] < bb[i] {
                proof {
                    lemma_lex_skip(av, bv, i as int);
                    lemma_lex_skip(bv, av, i as int);
                    assert(av.skip(i as int)[0] == av[i as int]);
                    assert(bv.skip(i as int)[0] == bv[i as int]);
                    assert(lex_le_bytes(av, bv));
                    assert(av[i as int] != bv[i as int]);
                    if self@ == other@ {
                        assert(av == bv);
                    }
                }
                return ActorCmp::Less;
            }
            if ab[i] > bb[i] {
                proof {
                    lemma_lex_skip(av, bv, i as int);
                    lemma_lex_skip(bv, av, i as int);
                    assert(av.skip(i as int)[0] == av[i as int]);
                    assert(bv.skip(i as int)[0] == bv[i as int]);
                    assert(lex_le_bytes(bv, av));
                    if self@ == other@ {
                        assert(av == bv);
                    }
                }
                return ActorCmp::Greater;
            }
            i = i + 1;
        }
        if na == nb {
            proof {
                assert(av =~= bv);
                lemma_encode_injective(self@, other@);
            }
            ActorCmp::Equal
        } else if na < nb {
            proof {
                lemma_lex_skip(av, bv, na as int);
                assert(av.skip(na as int).len() == 0);
                assert(lex_le_bytes(av, bv));
                if self@ == other@ {
                    assert(av == bv);
                }
            }
            ActorCmp::Less
        } else {
            proof {
                lemma_lex_skip(bv, av, nb as int);
                assert(bv.skip(nb as int).len() == 0);
                assert(lex_le_bytes(bv, av));
                if self@ == other@ {
                    assert(av == bv);
                }
            }
            ActorCmp::Greater
        }
    }

    fn clone_actor(&self) -> (r: Self) {
        self.clone()
    }
}

} // verus!
