//! The allocation tree: each level is an ordered table from label to a
//! causal stamp and an atom; an atom is a value, optionally with a child
//! level of its own.
//!
//! The abstract model of a level is a sequence of [`EntryView`] records in
//! ascending label order; every tree operation's contract is stated over
//! that model.

use vstd::prelude::*;

use crate::identifier::Identifier;
use crate::vclock::{merge_map, Actor, Counter, VClock};

verus! {

/// Model of an atom: a value alone, or a value with a child level.
#[verifier::reject_recursive_types(AV)]
pub enum AtomView<V, AV> {
    Leaf(V),
    Node(V, Seq<EntryView<V, AV>>),
}

/// Model of one entry of a level: its label, the causal stamp recorded at
/// insertion, and the atom stored under it.
#[verifier::reject_recursive_types(AV)]
pub struct EntryView<V, AV> {
    pub label: u64,
    pub stamp: Map<AV, Counter>,
    pub atom: AtomView<V, AV>,
}

/// Labels of a level are strictly ascending.
pub open spec fn labels_sorted<V, AV>(es: Seq<EntryView<V, AV>>) -> bool {
    forall|i: int, j: int| 0 <= i < j < es.len() ==> (#[trigger] es[i]).label < (#[trigger] es[j]).label
}

/// Every atom of the level is well formed, entry by entry.
pub open spec fn entries_ok<V, AV>(es: Seq<EntryView<V, AV>>) -> bool
    decreases es, 0int,
{
    if es.len() == 0 {
        true
    } else {
        atom_ok(es[0].atom) && entries_ok(es.drop_first())
    }
}

/// A well-formed atom carries a well-formed child level, if any.
pub open spec fn atom_ok<V, AV>(a: AtomView<V, AV>) -> bool
    decreases a, 0int,
{
    match a {
        AtomView::Leaf(_) => true,
        AtomView::Node(_, ch) => level_ok(ch),
    }
}

/// A well-formed level: strictly ascending labels, well-formed children.
pub open spec fn level_ok<V, AV>(es: Seq<EntryView<V, AV>>) -> bool
    decreases es, 1int,
{
    labels_sorted(es) && entries_ok(es)
}

/// Some entry of the level carries this label.
pub open spec fn has_label<V, AV>(es: Seq<EntryView<V, AV>>, label: u64) -> bool {
    exists|i: int| 0 <= i < es.len() && (#[trigger] es[i]).label == label
}

/// The index of the entry carrying this label (meaningful when present).
pub open spec fn index_of<V, AV>(es: Seq<EntryView<V, AV>>, label: u64) -> int {
    choose|i: int| 0 <= i < es.len() && (#[trigger] es[i]).label == label
}

/// The position where a new entry with this label belongs: after every
/// smaller label.
pub open spec fn put_pos<V, AV>(es: Seq<EntryView<V, AV>>, label: u64) -> int
    decreases es.len(),
{
    if es.len() == 0 {
        0
    } else if label <= es[0].label {
        0
    } else {
        1 + put_pos(es.drop_first(), label)
    }
}

/// The level after removing the entry addressed by `path`: the walk follows
/// one label per depth through child levels; a path that addresses nothing
/// leaves the level unchanged. Removing an entry that carries children
/// discards its whole subtree: the descendants are not reparented.
pub open spec fn level_delete<V, AV>(
    es: Seq<EntryView<V, AV>>,
    path: Seq<u64>,
) -> Seq<EntryView<V, AV>>
    decreases path.len(),
{
    if path.len() == 0 || !has_label(es, path[0]) {
        es
    } else {
        let i = index_of(es, path[0]);
        if path.len() == 1 {
            es.remove(i)
        } else {
            match es[i].atom {
                AtomView::Leaf(_) => es,
                AtomView::Node(v, ch) => es.update(
                    i,
                    EntryView {
                        label: es[i].label,
                        stamp: es[i].stamp,
                        atom: AtomView::Node(v, level_delete(ch, path.drop_first())),
                    },
                ),
            }
        }
    }
}

/// The ancestors named by the walk exist: each walk label is present, and
/// an entry without children may stand only directly above the new level.
pub open spec fn walk_ok<V, AV>(es: Seq<EntryView<V, AV>>, walk: Seq<u64>) -> bool
    decreases walk.len(),
{
    if walk.len() == 0 {
        true
    } else if !has_label(es, walk[0]) {
        false
    } else {
        match es[index_of(es, walk[0])].atom {
            AtomView::Leaf(_) => walk.len() == 1,
            AtomView::Node(_, ch) => walk_ok(ch, walk.drop_first()),
        }
    }
}

/// The label at the end of the walk is not yet occupied.
pub open spec fn target_free<V, AV>(
    es: Seq<EntryView<V, AV>>,
    walk: Seq<u64>,
    label: u64,
) -> bool
    decreases walk.len(),
{
    if walk.len() == 0 {
        !has_label(es, label)
    } else if !has_label(es, walk[0]) {
        true
    } else {
        match es[index_of(es, walk[0])].atom {
            AtomView::Leaf(_) => true,
            AtomView::Node(_, ch) => target_free(ch, walk.drop_first(), label),
        }
    }
}

/// The level after inserting `(label, stamp, value)` at the end of the
/// walk, promoting a childless entry on the way into one with a fresh empty
/// child level. Meaningful when the walk exists and the label is free.
pub open spec fn level_insert<V, AV>(
    es: Seq<EntryView<V, AV>>,
    walk: Seq<u64>,
    label: u64,
    stamp: Map<AV, Counter>,
    value: V,
) -> Seq<EntryView<V, AV>>
    decreases walk.len(),
{
    if walk.len() == 0 {
        es.insert(
            put_pos(es, label),
            EntryView { label, stamp, atom: AtomView::Leaf(value) },
        )
    } else if !has_label(es, walk[0]) {
        es
    } else {
        let i = index_of(es, walk[0]);
        let v = match es[i].atom {
            AtomView::Leaf(v) => v,
            AtomView::Node(v, _) => v,
        };
        let ch = match es[i].atom {
            AtomView::Leaf(_) => Seq::<EntryView<V, AV>>::empty(),
            AtomView::Node(_, ch) => ch,
        };
        es.update(
            i,
            EntryView {
                label: es[i].label,
                stamp: es[i].stamp,
                atom: AtomView::Node(v, level_insert(ch, walk.drop_first(), label, stamp, value)),
            },
        )
    }
}

/// Whether children at this depth are emitted after their parent's own
/// value (even depths) or before it (odd depths).
pub open spec fn emit_before_children(depth: int) -> bool {
    depth % 2 == 0
}

/// The flattened form of one entry: its own identifier and value, together
/// with its flattened children, in the order the depth's parity dictates.
pub open spec fn flatten_entry<V, AV>(e: EntryView<V, AV>, prefix: Seq<u64>) -> Seq<(Seq<u64>, V)>
    decreases e,
{
    let id = prefix.push(e.label);
    match e.atom {
        AtomView::Leaf(v) => seq![(id, v)],
        AtomView::Node(v, ch) => {
            if emit_before_children(prefix.len() + 1 as int) {
                seq![(id, v)] + flatten_level(ch, id)
            } else {
                flatten_level(ch, id) + seq![(id, v)]
            }
        },
    }
}

/// The flattened form of a level: entries in label order, each with its
/// descendants.
pub open spec fn flatten_level<V, AV>(
    es: Seq<EntryView<V, AV>>,
    prefix: Seq<u64>,
) -> Seq<(Seq<u64>, V)>
    decreases es,
{
    if es.len() == 0 {
        Seq::empty()
    } else {
        flatten_entry(es[0], prefix) + flatten_level(es.drop_first(), prefix)
    }
}

/// The causal stamps of one entry and its descendants, in traversal order.
pub open spec fn entry_stamps<V, AV>(e: EntryView<V, AV>) -> Seq<Map<AV, Counter>>
    decreases e,
{
    match e.atom {
        AtomView::Leaf(_) => seq![e.stamp],
        AtomView::Node(_, ch) => seq![e.stamp] + level_stamps(ch),
    }
}

/// The causal stamps of every entry of the level and its descendants.
pub open spec fn level_stamps<V, AV>(es: Seq<EntryView<V, AV>>) -> Seq<Map<AV, Counter>>
    decreases es,
{
    if es.len() == 0 {
        Seq::empty()
    } else {
        entry_stamps(es[0]) + level_stamps(es.drop_first())
    }
}

/// Merge a sequence of stamps into an accumulator, left to right.
pub open spec fn merge_seq<AV>(m: Map<AV, Counter>, s: Seq<Map<AV, Counter>>) -> Map<AV, Counter>
    decreases s.len(),
{
    if s.len() == 0 {
        m
    } else {
        merge_seq(merge_map(m, s.first()), s.drop_first())
    }
}

/// An atom of the tree: a terminal value, or a value that has acquired a
/// child level of its own.
#[derive(Debug)]
pub(crate) enum Atom<V, A: Actor> {
    Leaf(V),
    Node(V, Siblings<V, A>),
}

/// One stored entry of a level.
#[derive(Debug)]
pub(crate) struct SibEntry<V, A: Actor> {
    pub label: u64,
    pub clock: VClock<A>,
    pub atom: Atom<V, A>,
}

/// One level of the tree: entries in strictly ascending label order.
#[derive(Debug)]
pub(crate) struct Siblings<V, A: Actor> {
    pub entries: Vec<SibEntry<V, A>>,
}

/// Model of an atom.
pub(crate) open spec fn atom_view<V, A: Actor>(a: Atom<V, A>) -> AtomView<V, A::V>
    decreases a,
{
    match a {
        Atom::Leaf(v) => AtomView::Leaf(v),
        Atom::Node(v, s) => AtomView::Node(v, entries_view(s.entries@)),
    }
}

/// Model of one stored entry.
pub(crate) open spec fn entry_view<V, A: Actor>(e: SibEntry<V, A>) -> EntryView<V, A::V>
    decreases e,
{
    EntryView { label: e.label, stamp: e.clock@, atom: atom_view(e.atom) }
}

/// Model of a stored level.
pub(crate) open spec fn entries_view<V, A: Actor>(es: Seq<SibEntry<V, A>>) -> Seq<
    EntryView<V, A::V>,
>
    decreases es,
{
    if es.len() == 0 {
        Seq::empty()
    } else {
        seq![entry_view(es[0])] + entries_view(es.drop_first())
    }
}

/// The model of a stored level has one model entry per stored entry.
pub(crate) proof fn lemma_entries_view_index<V, A: Actor>(es: Seq<SibEntry<V, A>>)
    ensures
        entries_view(es).len() == es.len(),
        forall|i: int|
            0 <= i < es.len() ==> #[trigger] entries_view(es)[i] == entry_view(es[i]),
    decreases es,
{
    if es.len() > 0 {
        lemma_entries_view_index(es.drop_first());
        assert(forall|i: int| 1 <= i < es.len() ==> es.drop_first()[i - 1] == #[trigger] es[i]);
        assert forall|i: int|
            0 <= i < es.len() implies #[trigger] entries_view(es)[i] == entry_view(es[i]) by {
            if i > 0 {
                assert(entries_view(es.drop_first())[i - 1] == entry_view(es.drop_first()[i - 1]));
            }
        }
    }
}

/// A level is entry-wise well formed exactly when every atom in it is.
pub(crate) proof fn lemma_entries_ok_iff<V, AV>(es: Seq<EntryView<V, AV>>)
    ensures
        entries_ok(es) <==> (forall|i: int|
            0 <= i < es.len() ==> atom_ok((#[trigger] es[i]).atom)),
    decreases es,
{
    if es.len() > 0 {
        lemma_entries_ok_iff(es.drop_first());
        assert(forall|i: int| 1 <= i < es.len() ==> es.drop_first()[i - 1] == #[trigger] es[i]);
        if atom_ok(es[0].atom) && entries_ok(es.drop_first()) {
            assert forall|i: int| 0 <= i < es.len() implies atom_ok(
                (#[trigger] es[i]).atom,
            ) by {
                if i > 0 {
                    assert(atom_ok(es.drop_first()[i - 1].atom));
                }
            }
        }
        if forall|i: int| 0 <= i < es.len() ==> atom_ok((#[trigger] es[i]).atom) {
            assert forall|i: int|
                0 <= i < es.drop_first().len() implies atom_ok(
                (#[trigger] es.drop_first()[i]).atom,
            ) by {
                assert(es.drop_first()[i] == es[i + 1]);
            }
        }
    }
}

/// Characterize `put_pos` by the bounds the search loop establishes.
pub(crate) proof fn lemma_put_pos_char<V, AV>(es: Seq<EntryView<V, AV>>, label: u64, p: int)
    requires
        0 <= p <= es.len(),
        forall|j: int| 0 <= j < p ==> (#[trigger] es[j]).label < label,
        p < es.len() ==> label <= es[p].label,
    ensures
        put_pos(es, label) == p,
    decreases p,
{
    if es.len() == 0 {
    } else if p == 0 {
    } else {
        assert(es[0].label < label);
        assert(forall|j: int|
            0 <= j < p - 1 ==> (#[trigger] es.drop_first()[j]).label == es[j + 1].label);
        lemma_put_pos_char(es.drop_first(), label, p - 1);
    }
}

/// Find a label in a sorted level: the index of its entry when present,
/// else the index where an entry with it would be inserted.
pub(crate) fn find_label<V, A: Actor>(entries: &Vec<SibEntry<V, A>>, label: u64) -> (r: (
    usize,
    bool,
))
    requires
        labels_sorted(entries_view(entries@)),
    ensures
        ({
            let ev = entries_view(entries@);
            let (idx, found) = r;
            &&& idx <= ev.len()
            &&& forall|j: int| 0 <= j < idx ==> (#[trigger] ev[j]).label < label
            &&& found ==> idx < ev.len() && ev[idx as int].label == label && has_label(ev, label)
                && index_of(ev, label) == idx
            &&& !found ==> (idx == ev.len() || label < ev[idx as int].label) && !has_label(
                ev,
                label,
            )
            &&& put_pos(ev, label) == idx
        }),
{
    let ghost ev = entries_view(entries@);
    proof {
        lemma_entries_view_index(entries@);
    }
    let n = entries.len();
    let mut i: usize = 0;
    while i < n
        invariant
            labels_sorted(ev),
            ev == entries_view(entries@),
            entries_view(entries@).len() == entries@.len(),
            forall|k: int|
                0 <= k < entries@.len() ==> entries_view(entries@)[k] == entry_view(
                    #[trigger] entries@[k],
                ),
            n == ev.len(),
            i <= n,
            forall|j: int| 0 <= j < i ==> (#[trigger] ev[j]).label < label,
        decreases n - i,
    {
        let cur = entries[i].label;
        proof {
            assert(ev[i as int].label == cur);
        }
        if cur == label {
            proof {
                assert(ev[i as int].label == label);
                let w = index_of(ev, label);
                assert(0 <= w < ev.len() && ev[w].label == label);
                if w < i as int {
                    assert(ev[w].label < ev[i as int].label);
                } else if w > i as int {
                    assert(ev[i as int].label < ev[w].label);
                }
                lemma_put_pos_char(ev, label, i as int);
            }
            return (i, true);
        }
        if cur > label {
            proof {
                assert forall|j: int| 0 <= j < ev.len() implies (#[trigger] ev[j]).label
                    != label by {
                    if j > i as int {
                        assert(ev[i as int].label < ev[j].label);
                    }
                }
                lemma_put_pos_char(ev, label, i as int);
            }
            return (i, false);
        }
        i = i + 1;
    }
    proof {
        assert forall|j: int| 0 <= j < ev.len() implies (#[trigger] ev[j]).label != label by {}
        lemma_put_pos_char(ev, label, n as int);
    }
    (n, false)
}

/// Remove the entry addressed by the rest of the identifier, walking down
/// from depth `d`; an identifier that addresses nothing leaves the tree
/// unchanged.
pub(crate) fn delete_at<V, A: Actor>(sib: &mut Siblings<V, A>, id: &Identifier, d: usize)
    requires
        d <= id@.len(),
        level_ok(entries_view(old(sib).entries@)),
    ensures
        entries_view(final(sib).entries@) == level_delete(
            entries_view(old(sib).entries@),
            id@.skip(d as int),
        ),
        level_ok(entries_view(final(sib).entries@)),
    decreases id@.len() - d,
{
    let ghost ev = entries_view(sib.entries@);
    let ghost path = id@.skip(d as int);
    proof {
        lemma_entries_view_index(sib.entries@);
        lemma_entries_ok_iff(ev);
    }
    if d == id.len() {
        return ;
    }
    let lbl = id.at(d);
    proof {
        assert(path[0] == lbl);
    }
    let (i, found) = find_label(&sib.entries, lbl);
    if !found {
        return ;
    }
    proof {
        assert(index_of(ev, lbl) == i as int);
    }
    if d + 1 == id.len() {
        let ghost pre = sib.entries@;
        sib.entries.remove(i);
        proof {
            assert(path.len() == 1);
            lemma_entries_view_index(sib.entries@);
            assert(entries_view(sib.entries@) =~= ev.remove(i as int));
            lemma_entries_ok_iff(ev.remove(i as int));
            assert forall|k: int| 0 <= k < ev.remove(i as int).len() implies atom_ok(
                (#[trigger] ev.remove(i as int)[k]).atom,
            ) by {
                if k < i as int {
                    assert(atom_ok(ev[k].atom));
                } else {
                    assert(atom_ok(ev[k + 1].atom));
                }
            }
        }
    } else {
        let entry = sib.entries.remove(i);
        let SibEntry { label: elbl, clock: eclock, atom: eatom } = entry;
        match eatom {
            Atom::Leaf(v) => {
                let back = SibEntry { label: elbl, clock: eclock, atom: Atom::Leaf(v) };
                proof {
                    assert(entry_view(back) == ev[i as int]);
                }
                sib.entries.insert(i, back);
                proof {
                    lemma_entries_view_index(sib.entries@);
                    assert(entries_view(sib.entries@) =~= ev);
                }
            },
            Atom::Node(v, mut ch) => {
                proof {
                    assert(atom_ok(ev[i as int].atom));
                }
                delete_at(&mut ch, id, d + 1);
                proof {
                    assert(id@.skip(d as int + 1) =~= path.drop_first());
                }
                let back = SibEntry { label: elbl, clock: eclock, atom: Atom::Node(v, ch) };
                sib.entries.insert(i, back);
                proof {
                    lemma_entries_view_index(sib.entries@);
                    assert(entries_view(sib.entries@) =~= ev.update(i as int, entry_view(back)));
                    assert(entry_view(back) == EntryView {
                        label: ev[i as int].label,
                        stamp: ev[i as int].stamp,
                        atom: AtomView::Node(
                            v,
                            level_delete(
                                match ev[i as int].atom {
                                    AtomView::Node(_, c) => c,
                                    AtomView::Leaf(_) => Seq::empty(),
                                },
                                path.drop_first(),
                            ),
                        ),
                    });
                    let post = ev.update(i as int, entry_view(back));
                    lemma_entries_ok_iff(post);
                    assert forall|k: int| 0 <= k < post.len() implies atom_ok(
                        (#[trigger] post[k]).atom,
                    ) by {
                        if k != i as int {
                            assert(atom_ok(ev[k].atom));
                        }
                    }
                }
            },
        }
    }
}

/// Check, without touching the tree, that the ancestors the walk names are
/// present and that the target label is free.
pub(crate) fn probe_walk<V, A: Actor>(
    sib: &Siblings<V, A>,
    guide: &Identifier,
    d: usize,
    depth: usize,
    label: u64,
) -> (r: (bool, bool))
    requires
        d <= depth,
        depth <= guide@.len(),
        level_ok(entries_view(sib.entries@)),
    ensures
        r.0 == walk_ok(entries_view(sib.entries@), guide@.subrange(d as int, depth as int)),
        r.1 == target_free(
            entries_view(sib.entries@),
            guide@.subrange(d as int, depth as int),
            label,
        ),
    decreases depth - d,
{
    let ghost ev = entries_view(sib.entries@);
    let ghost walk = guide@.subrange(d as int, depth as int);
    proof {
        lemma_entries_view_index(sib.entries@);
        lemma_entries_ok_iff(ev);
    }
    if d == depth {
        let (_, found) = find_label(&sib.entries, label);
        (true, !found)
    } else {
        let lbl = guide.at(d);
        proof {
            assert(walk[0] == lbl);
        }
        let (i, found) = find_label(&sib.entries, lbl);
        if !found {
            (false, true)
        } else {
            proof {
                assert(index_of(ev, lbl) == i as int);
                assert(atom_ok(ev[i as int].atom));
            }
            match &sib.entries[i].atom {
                Atom::Leaf(_) => (d + 1 == depth, true),
                Atom::Node(_, ch) => {
                    proof {
                        assert(guide@.subrange(d as int + 1, depth as int) =~= walk.drop_first());
                    }
                    probe_walk(ch, guide, d + 1, depth, label)
                },
            }
        }
    }
}

/// Insert `(label, clock, value)` at the end of the walk, promoting a
/// childless ancestor into one with a fresh empty child level on the way.
pub(crate) fn insert_walk<V, A: Actor>(
    sib: &mut Siblings<V, A>,
    guide: &Identifier,
    d: usize,
    depth: usize,
    label: u64,
    clock: VClock<A>,
    value: V,
)
    requires
        d <= depth,
        depth <= guide@.len(),
        level_ok(entries_view(old(sib).entries@)),
        walk_ok(entries_view(old(sib).entries@), guide@.subrange(d as int, depth as int)),
        target_free(
            entries_view(old(sib).entries@),
            guide@.subrange(d as int, depth as int),
            label,
        ),
    ensures
        entries_view(final(sib).entries@) == level_insert(
            entries_view(old(sib).entries@),
            guide@.subrange(d as int, depth as int),
            label,
            clock@,
            value,
        ),
        level_ok(entries_view(final(sib).entries@)),
    decreases depth - d,
{
    let ghost ev = entries_view(sib.entries@);
    let ghost walk = guide@.subrange(d as int, depth as int);
    proof {
        lemma_entries_view_index(sib.entries@);
        lemma_entries_ok_iff(ev);
    }
    if d == depth {
        let (i, found) = find_label(&sib.entries, label);
        proof {
            assert(!found);
        }
        let fresh = SibEntry { label, clock, atom: Atom::Leaf(value) };
        sib.entries.insert(i, fresh);
        proof {
            lemma_entries_view_index(sib.entries@);
            let post = ev.insert(i as int, entry_view(fresh));
            assert(entries_view(sib.entries@) =~= post);
            assert forall|p: int, q: int| 0 <= p < q < post.len() implies (#[trigger] post[p]).label
                < (#[trigger] post[q]).label by {
                if q < i as int {
                    assert(ev[p].label < ev[q].label);
                } else if p < i as int && q == i as int {
                    assert(ev[p].label < label);
                } else if p < i as int && q > i as int {
                    assert(ev[p].label < ev[q - 1].label);
                    assert(label < ev[q - 1].label || ev[q - 1].label >= label);
                } else if p == i as int {
                    assert(label < ev[q - 1].label);
                } else {
                    assert(ev[p - 1].label < ev[q - 1].label);
                }
            }
            lemma_entries_ok_iff(post);
            assert forall|k: int| 0 <= k < post.len() implies atom_ok(
                (#[trigger] post[k]).atom,
            ) by {
                if k < i as int {
                    assert(atom_ok(ev[k].atom));
                } else if k > i as int {
                    assert(atom_ok(ev[k - 1].atom));
                }
            }
        }
    } else {
        let lbl = guide.at(d);
        proof {
            assert(walk[0] == lbl);
        }
        let (i, found) = find_label(&sib.entries, lbl);
        proof {
            assert(found);
            assert(index_of(ev, lbl) == i as int);
            assert(atom_ok(ev[i as int].atom));
        }
        let entry = sib.entries.remove(i);
        let SibEntry { label: elbl, clock: eclock, atom: eatom } = entry;
        let (v, mut ch) = match eatom {
            Atom::Leaf(v) => (v, Siblings { entries: Vec::new() }),
            Atom::Node(v, ch) => (v, ch),
        };
        proof {
            assert(guide@.subrange(d as int + 1, depth as int) =~= walk.drop_first());
            if ev[i as int].atom is Leaf {
                assert(walk.len() == 1);
                assert(entries_view(ch.entries@) =~= Seq::<EntryView<V, A::V>>::empty());
            }
        }
        insert_walk(&mut ch, guide, d + 1, depth, label, clock, value);
        let back = SibEntry { label: elbl, clock: eclock, atom: Atom::Node(v, ch) };
        sib.entries.insert(i, back);
        proof {
            lemma_entries_view_index(sib.entries@);
            let post = ev.update(i as int, entry_view(back));
            assert(entries_view(sib.entries@) =~= post);
            assert(post == level_insert(ev, walk, label, clock@, value));
            lemma_entries_ok_iff(post);
            assert forall|k: int| 0 <= k < post.len() implies atom_ok(
                (#[trigger] post[k]).atom,
            ) by {
                if k != i as int {
                    assert(atom_ok(ev[k].atom));
                }
            }
        }
    }
}

/// In a level with ascending labels, the entry carrying a label sits at
/// exactly one index, and `index_of` names it.
proof fn lemma_index_of_val<V, AV>(es: Seq<EntryView<V, AV>>, l: u64, i: int)
    requires
        labels_sorted(es),
        0 <= i < es.len(),
        es[i].label == l,
    ensures
        has_label(es, l),
        index_of(es, l) == i,
{
    assert(has_label(es, l));
    let j = index_of(es, l);
    assert(0 <= j < es.len() && es[j].label == l);
    if j < i {
        assert(es[j].label < es[i].label);
    } else if j > i {
        assert(es[i].label < es[j].label);
    }
}

proof fn lemma_sorted_remove<V, AV>(es: Seq<EntryView<V, AV>>, i: int)
    requires
        labels_sorted(es),
        0 <= i < es.len(),
    ensures
        labels_sorted(es.remove(i)),
{
    let t = es.remove(i);
    assert forall|p: int, q: int| 0 <= p < q < t.len() implies (#[trigger] t[p]).label < (
    #[trigger] t[q]).label by {
        if q < i {
            assert(es[p].label < es[q].label);
        } else if p < i {
            assert(es[p].label < es[q + 1].label);
        } else {
            assert(es[p + 1].label < es[q + 1].label);
        }
    }
}

proof fn lemma_sorted_update<V, AV>(es: Seq<EntryView<V, AV>>, i: int, e: EntryView<V, AV>)
    requires
        labels_sorted(es),
        0 <= i < es.len(),
        e.label == es[i].label,
    ensures
        labels_sorted(es.update(i, e)),
{
    let t = es.update(i, e);
    assert forall|p: int, q: int| 0 <= p < q < t.len() implies (#[trigger] t[p]).label < (
    #[trigger] t[q]).label by {
        assert(t[p].label == es[p].label);
        assert(t[q].label == es[q].label);
        assert(es[p].label < es[q].label);
    }
}

/// A deletion never introduces a label: a label absent from the level is
/// still absent afterwards.
proof fn lemma_delete_keeps_absent<V, AV>(es: Seq<EntryView<V, AV>>, path: Seq<u64>, l: u64)
    requires
        labels_sorted(es),
        !has_label(es, l),
    ensures
        !has_label(level_delete(es, path), l),
{
    if path.len() == 0 || !has_label(es, path[0]) {
    } else {
        let i = index_of(es, path[0]);
        assert(0 <= i < es.len() && es[i].label == path[0]);
        let t = level_delete(es, path);
        assert forall|j: int| 0 <= j < t.len() implies (#[trigger] t[j]).label != l by {
            if path.len() == 1 {
                if j < i {
                    assert(t[j] == es[j]);
                } else {
                    assert(t[j] == es[j + 1]);
                }
            } else {
                match es[i].atom {
                    AtomView::Leaf(_) => {},
                    AtomView::Node(_, _) => {
                        assert(t[j].label == es[j].label);
                    },
                }
            }
        }
    }
}

/// Deleting two identifiers yields the same tree in either order: the
/// deletion fragment of replica convergence.
pub proof fn lemma_delete_commutes<V, AV>(es: Seq<EntryView<V, AV>>, d1: Seq<u64>, d2: Seq<u64>)
    requires
        level_ok(es),
    ensures
        level_delete(level_delete(es, d1), d2) == level_delete(level_delete(es, d2), d1),
    decreases d1.len() + d2.len(), 1int,
{
    lemma_entries_ok_iff(es);
    if d1.len() == 0 || d2.len() == 0 {
    } else if !has_label(es, d1[0]) {
        lemma_delete_keeps_absent(es, d2, d1[0]);
    } else if !has_label(es, d2[0]) {
        lemma_delete_keeps_absent(es, d1, d2[0]);
    } else {
        let i1 = index_of(es, d1[0]);
        let i2 = index_of(es, d2[0]);
        assert(0 <= i1 < es.len() && es[i1].label == d1[0]);
        assert(0 <= i2 < es.len() && es[i2].label == d2[0]);
        if d1[0] == d2[0] {
            lemma_index_of_val(es, d1[0], i2);
            assert(i1 == i2);
            lemma_delete_same_head(es, d1, d2, i1);
        } else {
            assert(i1 != i2);
            lemma_delete_diff_head(es, d1, d2, i1, i2);
        }
    }
}

/// Both deletions start at the same label of this level.
proof fn lemma_delete_same_head<V, AV>(
    es: Seq<EntryView<V, AV>>,
    d1: Seq<u64>,
    d2: Seq<u64>,
    i: int,
)
    requires
        level_ok(es),
        d1.len() > 0,
        d2.len() > 0,
        d1[0] == d2[0],
        has_label(es, d1[0]),
        index_of(es, d1[0]) == i,
        0 <= i < es.len(),
        es[i].label == d1[0],
    ensures
        level_delete(level_delete(es, d1), d2) == level_delete(level_delete(es, d2), d1),
    decreases d1.len() + d2.len(), 0int,
{
    lemma_entries_ok_iff(es);
    if d1.len() == 1 && d2.len() == 1 {
        // both remove the same entry; the second delete finds nothing
        let t = es.remove(i);
        lemma_sorted_remove(es, i);
        assert forall|j: int| 0 <= j < t.len() implies (#[trigger] t[j]).label != d1[0] by {
            if j < i {
                assert(es[j].label < es[i].label);
            } else {
                assert(es[i].label < es[j + 1].label);
            }
        }
        assert(!has_label(t, d2[0]));
    } else if d1.len() == 1 {
        // remove against a deeper delete below the same entry
        match es[i].atom {
            AtomView::Leaf(_) => {
                let t = es.remove(i);
                lemma_sorted_remove(es, i);
                assert forall|j: int| 0 <= j < t.len() implies (#[trigger] t[j]).label
                    != d2[0] by {
                    if j < i {
                        assert(es[j].label < es[i].label);
                    } else {
                        assert(es[i].label < es[j + 1].label);
                    }
                }
                assert(!has_label(t, d2[0]));
            },
            AtomView::Node(v, ch) => {
                let e2 = EntryView {
                    label: es[i].label,
                    stamp: es[i].stamp,
                    atom: AtomView::Node(v, level_delete(ch, d2.drop_first())),
                };
                let u = es.update(i, e2);
                // after the remove, the label is gone and the deep delete
                // finds nothing
                let t = es.remove(i);
                lemma_sorted_remove(es, i);
                assert forall|j: int| 0 <= j < t.len() implies (#[trigger] t[j]).label
                    != d2[0] by {
                    if j < i {
                        assert(es[j].label < es[i].label);
                    } else {
                        assert(es[i].label < es[j + 1].label);
                    }
                }
                assert(!has_label(t, d2[0]));
                // after the deep delete, the remove still strikes the entry
                lemma_sorted_update(es, i, e2);
                lemma_index_of_val(u, d1[0], i);
                assert(u.remove(i) =~= es.remove(i));
            },
        }
    } else if d2.len() == 1 {
        match es[i].atom {
            AtomView::Leaf(_) => {
                let t = es.remove(i);
                lemma_sorted_remove(es, i);
                assert forall|j: int| 0 <= j < t.len() implies (#[trigger] t[j]).label
                    != d1[0] by {
                    if j < i {
                        assert(es[j].label < es[i].label);
                    } else {
                        assert(es[i].label < es[j + 1].label);
                    }
                }
                assert(!has_label(t, d1[0]));
            },
            AtomView::Node(v, ch) => {
                let e1 = EntryView {
                    label: es[i].label,
                    stamp: es[i].stamp,
                    atom: AtomView::Node(v, level_delete(ch, d1.drop_first())),
                };
                let u = es.update(i, e1);
                lemma_sorted_update(es, i, e1);
                lemma_index_of_val(u, d2[0], i);
                assert(u.remove(i) =~= es.remove(i));
                let t = es.remove(i);
                lemma_sorted_remove(es, i);
                assert forall|j: int| 0 <= j < t.len() implies (#[trigger] t[j]).label
                    != d1[0] by {
                    if j < i {
                        assert(es[j].label < es[i].label);
                    } else {
                        assert(es[i].label < es[j + 1].label);
                    }
                }
                assert(!has_label(t, d1[0]));
            },
        }
    } else {
        // both descend below the same entry
        match es[i].atom {
            AtomView::Leaf(_) => {},
            AtomView::Node(v, ch) => {
                assert(atom_ok(es[i].atom));
                lemma_delete_commutes(ch, d1.drop_first(), d2.drop_first());
                let e1 = EntryView {
                    label: es[i].label,
                    stamp: es[i].stamp,
                    atom: AtomView::Node(v, level_delete(ch, d1.drop_first())),
                };
                let u1 = es.update(i, e1);
                lemma_sorted_update(es, i, e1);
                lemma_index_of_val(u1, d2[0], i);
                let e12 = EntryView {
                    label: es[i].label,
                    stamp: es[i].stamp,
                    atom: AtomView::Node(
                        v,
                        level_delete(level_delete(ch, d1.drop_first()), d2.drop_first()),
                    ),
                };
                assert(level_delete(level_delete(es, d1), d2) =~= es.update(i, e12));
                let e2 = EntryView {
                    label: es[i].label,
                    stamp: es[i].stamp,
                    atom: AtomView::Node(v, level_delete(ch, d2.drop_first())),
                };
                let u2 = es.update(i, e2);
                lemma_sorted_update(es, i, e2);
                lemma_index_of_val(u2, d1[0], i);
                let e21 = EntryView {
                    label: es[i].label,
                    stamp: es[i].stamp,
                    atom: AtomView::Node(
                        v,
                        level_delete(level_delete(ch, d2.drop_first()), d1.drop_first()),
                    ),
                };
                assert(level_delete(level_delete(es, d2), d1) =~= es.update(i, e21));
                assert(e12 == e21);
            },
        }
    }
}

/// The deletions start at different labels of this level.
#[verifier::rlimit(60)]
proof fn lemma_delete_diff_head<V, AV>(
    es: Seq<EntryView<V, AV>>,
    d1: Seq<u64>,
    d2: Seq<u64>,
    i1: int,
    i2: int,
)
    requires
        level_ok(es),
        d1.len() > 0,
        d2.len() > 0,
        d1[0] != d2[0],
        has_label(es, d1[0]),
        has_label(es, d2[0]),
        index_of(es, d1[0]) == i1,
        index_of(es, d2[0]) == i2,
        0 <= i1 < es.len(),
        0 <= i2 < es.len(),
        es[i1].label == d1[0],
        es[i2].label == d2[0],
        i1 != i2,
    ensures
        level_delete(level_delete(es, d1), d2) == level_delete(level_delete(es, d2), d1),
{
    lemma_entries_ok_iff(es);
    let one = delete_one(es, d1, i1);
    let two = delete_one(es, d2, i2);
    assert(level_delete(es, d1) == one);
    assert(level_delete(es, d2) == two);
    // after the first deletion, the other entry is untouched and keeps its
    // label; locate it again and take the second step there
    lemma_delete_one_other(es, d1, i1, i2);
    lemma_delete_one_other(es, d2, i2, i1);
    let j2 = other_index(es, d1, i1, i2);
    let j1 = other_index(es, d2, i2, i1);
    assert(level_delete(one, d2) == delete_one(one, d2, j2));
    assert(level_delete(two, d1) == delete_one(two, d1, j1));
    assert(delete_one(one, d2, j2) =~= delete_one(two, d1, j1));
}

/// One deletion step at a located entry: the level that results.
spec fn delete_one<V, AV>(es: Seq<EntryView<V, AV>>, d: Seq<u64>, i: int) -> Seq<
    EntryView<V, AV>,
> {
    if d.len() == 1 {
        es.remove(i)
    } else {
        match es[i].atom {
            AtomView::Leaf(_) => es,
            AtomView::Node(v, ch) => es.update(
                i,
                EntryView {
                    label: es[i].label,
                    stamp: es[i].stamp,
                    atom: AtomView::Node(v, level_delete(ch, d.drop_first())),
                },
            ),
        }
    }
}

/// Where an entry at `other` lands after one deletion step at `i`.
spec fn other_index<V, AV>(es: Seq<EntryView<V, AV>>, d: Seq<u64>, i: int, other: int) -> int {
    if d.len() == 1 && i < other {
        other - 1
    } else {
        other
    }
}

/// After one deletion step at `i`, the entry at another index is unchanged
/// (at its possibly shifted position), and it is the unique carrier of its
/// label.
proof fn lemma_delete_one_other<V, AV>(es: Seq<EntryView<V, AV>>, d: Seq<u64>, i: int, other: int)
    requires
        labels_sorted(es),
        d.len() > 0,
        has_label(es, d[0]),
        index_of(es, d[0]) == i,
        0 <= i < es.len(),
        es[i].label == d[0],
        0 <= other < es.len(),
        other != i,
    ensures
        ({
            let t = delete_one(es, d, i);
            let j = other_index(es, d, i, other);
            &&& level_delete(es, d) == delete_one(es, d, i)
            &&& 0 <= j < t.len()
            &&& t[j] == es[other]
            &&& labels_sorted(t)
            &&& has_label(t, es[other].label)
            &&& index_of(t, es[other].label) == j
        }),
{
    let t = delete_one(es, d, i);
    let j = other_index(es, d, i, other);
    if d.len() == 1 {
        lemma_sorted_remove(es, i);
        assert(t[j] == es[other]);
        lemma_index_of_val(t, es[other].label, j);
    } else {
        match es[i].atom {
            AtomView::Leaf(_) => {
                lemma_index_of_val(t, es[other].label, other);
            },
            AtomView::Node(v, ch) => {
                let e = EntryView {
                    label: es[i].label,
                    stamp: es[i].stamp,
                    atom: AtomView::Node(v, level_delete(ch, d.drop_first())),
                };
                lemma_sorted_update(es, i, e);
                assert(t[j] == es[other]);
                lemma_index_of_val(t, es[other].label, j);
            },
        }
    }
}

/// Deleting the same identifier twice is the same as deleting it once: the
/// idempotence of deletion.
pub proof fn lemma_delete_idempotent<V, AV>(es: Seq<EntryView<V, AV>>, d: Seq<u64>)
    requires
        level_ok(es),
    ensures
        level_delete(level_delete(es, d), d) == level_delete(es, d),
    decreases d.len(),
{
    lemma_entries_ok_iff(es);
    if d.len() == 0 || !has_label(es, d[0]) {
        if d.len() > 0 && !has_label(es, d[0]) {
            lemma_delete_keeps_absent(es, d, d[0]);
        }
    } else {
        let i = index_of(es, d[0]);
        assert(0 <= i < es.len() && es[i].label == d[0]);
        if d.len() == 1 {
            let t = es.remove(i);
            lemma_sorted_remove(es, i);
            assert forall|j: int| 0 <= j < t.len() implies (#[trigger] t[j]).label != d[0] by {
                if j < i {
                    assert(es[j].label < es[i].label);
                } else {
                    assert(es[i].label < es[j + 1].label);
                }
            }
            assert(!has_label(t, d[0]));
        } else {
            match es[i].atom {
                AtomView::Leaf(_) => {},
                AtomView::Node(v, ch) => {
                    assert(atom_ok(es[i].atom));
                    lemma_delete_idempotent(ch, d.drop_first());
                    let e1 = EntryView {
                        label: es[i].label,
                        stamp: es[i].stamp,
                        atom: AtomView::Node(v, level_delete(ch, d.drop_first())),
                    };
                    let u = es.update(i, e1);
                    lemma_sorted_update(es, i, e1);
                    lemma_index_of_val(u, d[0], i);
                    let e2 = EntryView {
                        label: u[i].label,
                        stamp: u[i].stamp,
                        atom: AtomView::Node(
                            v,
                            level_delete(level_delete(ch, d.drop_first()), d.drop_first()),
                        ),
                    };
                    assert(level_delete(u, d) =~= u.update(i, e2));
                    assert(u.update(i, e2) =~= u);
                },
            }
        }
    }
}

/// Flattening distributes over concatenation of levels.
proof fn lemma_flatten_level_concat<V, AV>(
    s1: Seq<EntryView<V, AV>>,
    s2: Seq<EntryView<V, AV>>,
    prefix: Seq<u64>,
)
    ensures
        flatten_level(s1 + s2, prefix) == flatten_level(s1, prefix) + flatten_level(s2, prefix),
    decreases s1.len(),
{
    if s1.len() == 0 {
        assert(s1 + s2 =~= s2);
        assert(flatten_level(s1, prefix) + flatten_level(s2, prefix) =~= flatten_level(
            s2,
            prefix,
        ));
    } else {
        assert((s1 + s2).drop_first() =~= s1.drop_first() + s2);
        assert((s1 + s2)[0] == s1[0]);
        assert((s1 + s2).len() > 0);
        lemma_flatten_level_concat(s1.drop_first(), s2, prefix);
        assert(flatten_entry(s1[0], prefix) + (flatten_level(s1.drop_first(), prefix)
            + flatten_level(s2, prefix)) =~= (flatten_entry(s1[0], prefix) + flatten_level(
            s1.drop_first(),
            prefix,
        )) + flatten_level(s2, prefix));
    }
}

/// One more processed entry appends exactly its flattened form.
proof fn lemma_flatten_level_take_step<V, AV>(es: Seq<EntryView<V, AV>>, k: int, prefix: Seq<u64>)
    requires
        0 <= k < es.len(),
    ensures
        flatten_level(es.take(k + 1), prefix) == flatten_level(es.take(k), prefix)
            + flatten_entry(es[k], prefix),
{
    assert(es.take(k + 1) =~= es.take(k) + seq![es[k]]);
    lemma_flatten_level_concat(es.take(k), seq![es[k]], prefix);
    let single = seq![es[k]];
    assert(single[0] == es[k]);
    assert(single.drop_first() =~= Seq::<EntryView<V, AV>>::empty());
    assert(flatten_level(single.drop_first(), prefix) == flatten_level(
        Seq::<EntryView<V, AV>>::empty(),
        prefix,
    ));
    assert(flatten_level(single, prefix) =~= flatten_entry(es[k], prefix));
}

/// Stamp collection distributes over concatenation of levels.
proof fn lemma_level_stamps_concat<V, AV>(s1: Seq<EntryView<V, AV>>, s2: Seq<EntryView<V, AV>>)
    ensures
        level_stamps(s1 + s2) == level_stamps(s1) + level_stamps(s2),
    decreases s1.len(),
{
    if s1.len() == 0 {
        assert(s1 + s2 =~= s2);
        assert(level_stamps(s1) + level_stamps(s2) =~= level_stamps(s2));
    } else {
        assert((s1 + s2).drop_first() =~= s1.drop_first() + s2);
        assert((s1 + s2)[0] == s1[0]);
        assert((s1 + s2).len() > 0);
        lemma_level_stamps_concat(s1.drop_first(), s2);
        assert(entry_stamps(s1[0]) + (level_stamps(s1.drop_first()) + level_stamps(s2)) =~= (
        entry_stamps(s1[0]) + level_stamps(s1.drop_first())) + level_stamps(s2));
    }
}

/// One more processed entry appends exactly its stamps.
proof fn lemma_level_stamps_take_step<V, AV>(es: Seq<EntryView<V, AV>>, k: int)
    requires
        0 <= k < es.len(),
    ensures
        level_stamps(es.take(k + 1)) == level_stamps(es.take(k)) + entry_stamps(es[k]),
{
    assert(es.take(k + 1) =~= es.take(k) + seq![es[k]]);
    lemma_level_stamps_concat(es.take(k), seq![es[k]]);
    let single = seq![es[k]];
    assert(single[0] == es[k]);
    assert(single.drop_first() =~= Seq::<EntryView<V, AV>>::empty());
    assert(level_stamps(single.drop_first()) == level_stamps(Seq::<EntryView<V, AV>>::empty()));
    assert(level_stamps(single) =~= entry_stamps(es[k]));
}

/// Merging a concatenation of stamp lists merges them in turn.
proof fn lemma_merge_seq_concat<AV>(
    m: Map<AV, Counter>,
    s1: Seq<Map<AV, Counter>>,
    s2: Seq<Map<AV, Counter>>,
)
    ensures
        merge_seq(m, s1 + s2) == merge_seq(merge_seq(m, s1), s2),
    decreases s1.len(),
{
    if s1.len() == 0 {
        assert(s1 + s2 =~= s2);
    } else {
        assert((s1 + s2).drop_first() =~= s1.drop_first() + s2);
        assert((s1 + s2).first() == s1.first());
        assert((s1 + s2).len() > 0);
        lemma_merge_seq_concat(merge_map(m, s1.first()), s1.drop_first(), s2);
    }
}

/// A copy of a level: every label, stamp and atom denotes the same model.
pub(crate) fn clone_level<V: Copy, A: Actor>(sib: &Siblings<V, A>) -> (r: Siblings<V, A>)
    ensures
        entries_view(r.entries@) == entries_view(sib.entries@),
    decreases *sib,
{
    let ghost src = sib.entries@;
    proof {
        lemma_entries_view_index(src);
    }
    let mut out: Vec<SibEntry<V, A>> = Vec::new();
    let n = sib.entries.len();
    let mut k: usize = 0;
    while k < n
        invariant
            src == sib.entries@,
            entries_view(src).len() == src.len(),
            forall|t: int|
                0 <= t < src.len() ==> #[trigger] entries_view(src)[t] == entry_view(src[t]),
            n == src.len(),
            k <= n,
            out@.len() == k,
            forall|t: int| 0 <= t < k ==> entry_view(#[trigger] out@[t]) == entry_view(src[t]),
        decreases n - k,
    {
        let entry = &sib.entries[k];
        let atom = match &entry.atom {
            Atom::Leaf(v) => Atom::Leaf(*v),
            Atom::Node(v, ch) => {
                proof {
                    assert(decreases_to!(*sib => sib.entries));
                    assert(decreases_to!(sib.entries => sib.entries@));
                    assert(decreases_to!(sib.entries@ => sib.entries@[k as int]));
                    assert(decreases_to!(sib.entries@[k as int] => sib.entries@[k as int].atom));
                    assert(decreases_to!(sib.entries@[k as int].atom => *ch));
                }
                Atom::Node(*v, clone_level(ch))
            },
        };
        let copy = SibEntry { label: entry.label, clock: entry.clock.clone(), atom };
        proof {
            assert(entry_view(copy) == entry_view(src[k as int]));
        }
        out.push(copy);
        k = k + 1;
    }
    let r = Siblings { entries: out };
    proof {
        lemma_entries_view_index(r.entries@);
        assert(entries_view(r.entries@) =~= entries_view(src));
    }
    r
}

/// Flatten the tree below `prefix` onto the end of `out`, children before
/// or after their parent's own value as the depth's parity dictates.
pub(crate) fn flatten_tree_rec<V: Copy, A: Actor>(
    sib: &Siblings<V, A>,
    prefix: &Identifier,
    out: &mut Vec<(Identifier, V)>,
)
    requires
        level_ok(entries_view(sib.entries@)),
    ensures
        ({
            let res = flatten_level(entries_view(sib.entries@), prefix@);
            &&& final(out)@.len() == old(out)@.len() + res.len()
            &&& forall|i: int| 0 <= i < old(out)@.len() ==> final(out)@[i] == old(out)@[i]
            &&& forall|i: int|
                old(out)@.len() <= i < final(out)@.len() ==> ((#[trigger] final(out)@[i]).0@
                    == res[i - old(out)@.len()].0 && final(out)@[i].1 == res[i - old(out)@.len()].1)
        }),
    decreases *sib,
{
    let ghost ev = entries_view(sib.entries@);
    let ghost base = out@;
    proof {
        lemma_entries_view_index(sib.entries@);
        lemma_entries_ok_iff(ev);
        assert(ev.take(0) =~= Seq::<EntryView<V, A::V>>::empty());
    }
    let n = sib.entries.len();
    let mut k: usize = 0;
    while k < n
        invariant
            level_ok(ev),
            ev == entries_view(sib.entries@),
            entries_view(sib.entries@).len() == sib.entries@.len(),
            forall|t: int|
                0 <= t < sib.entries@.len() ==> #[trigger] entries_view(sib.entries@)[t]
                    == entry_view(sib.entries@[t]),
            forall|t: int| 0 <= t < ev.len() ==> atom_ok((#[trigger] ev[t]).atom),
            n == ev.len(),
            k <= n,
            out@.len() == base.len() + flatten_level(ev.take(k as int), prefix@).len(),
            forall|i: int| 0 <= i < base.len() ==> out@[i] == base[i],
            forall|i: int|
                base.len() <= i < out@.len() ==> ((#[trigger] out@[i]).0@ == flatten_level(
                    ev.take(k as int),
                    prefix@,
                )[i - base.len()].0 && out@[i].1 == flatten_level(ev.take(k as int), prefix@)[i
                    - base.len()].1),
        decreases n - k,
    {
        let ghost part = flatten_level(ev.take(k as int), prefix@);
        proof {
            lemma_flatten_level_take_step(ev, k as int, prefix@);
        }
        let mut new_prefix = prefix.clone();
        new_prefix.push(sib.entries[k].label);
        let emit_first = prefix.len() % 2 == 1;
        proof {
            assert(ev[k as int] == entry_view(sib.entries@[k as int]));
            assert(new_prefix@ =~= prefix@.push(ev[k as int].label));
            assert(emit_first == emit_before_children(prefix@.len() + 1 as int)) by {
                assert(prefix@.len() % 2 == 1 <==> (prefix@.len() + 1 as int) % 2 == 0);
            }
        }
        match &sib.entries[k].atom {
            Atom::Leaf(v) => {
                let val = *v;
                out.push((new_prefix, val));
                proof {
                    assert(ev[k as int].atom == AtomView::<V, A::V>::Leaf(val));
                    let fe = flatten_entry(ev[k as int], prefix@);
                    assert(fe == seq![(prefix@.push(ev[k as int].label), val)]);
                    let part2 = flatten_level(ev.take(k as int + 1), prefix@);
                    assert(part2 == part + fe);
                    assert(out@.len() == base.len() + part2.len());
                    assert forall|i: int|
                        base.len() <= i < out@.len() implies ((#[trigger] out@[i]).0@ == part2[i
                        - base.len()].0 && out@[i].1 == part2[i - base.len()].1) by {
                        if i < base.len() + part.len() {
                            assert(part2[i - base.len()] == part[i - base.len()]);
                        } else {
                            assert(part2[i - base.len()] == fe[0]);
                        }
                    }
                }
            },
            Atom::Node(v, ch) => {
                let val = *v;
                proof {
                    assert(atom_ok(ev[k as int].atom));
                    assert(ev[k as int].atom == AtomView::Node(val, entries_view(ch.entries@)));
                    assert(decreases_to!(*sib => sib.entries));
                    assert(decreases_to!(sib.entries => sib.entries@));
                    assert(decreases_to!(sib.entries@ => sib.entries@[k as int]));
                    assert(decreases_to!(sib.entries@[k as int] => sib.entries@[k as int].atom));
                    assert(decreases_to!(sib.entries@[k as int].atom => *ch));
                }
                let ghost chev = entries_view(ch.entries@);
                let ghost cid = new_prefix@;
                if emit_first {
                    out.push((new_prefix.clone(), val));
                    flatten_tree_rec(ch, &new_prefix, out);
                    proof {
                        let cs = flatten_level(chev, cid);
                        let fe = flatten_entry(ev[k as int], prefix@);
                        assert(fe == seq![(cid, val)] + cs);
                        let part2 = flatten_level(ev.take(k as int + 1), prefix@);
                        assert(part2 == part + fe);
                        assert(out@.len() == base.len() + part2.len());
                        assert forall|i: int|
                            base.len() <= i < out@.len() implies ((#[trigger] out@[i]).0@ == part2[
                            i - base.len()].0 && out@[i].1 == part2[i - base.len()].1) by {
                            if i < base.len() + part.len() {
                                assert(part2[i - base.len()] == part[i - base.len()]);
                            } else if i == base.len() + part.len() {
                                assert(part2[i - base.len()] == fe[0]);
                                assert(fe[0] == (cid, val));
                            } else {
                                assert(part2[i - base.len()] == fe[i - base.len() - part.len()]);
                                assert(fe[i - base.len() - part.len()] == cs[i - base.len()
                                    - part.len() - 1]);
                            }
                        }
                    }
                } else {
                    flatten_tree_rec(ch, &new_prefix, out);
                    out.push((new_prefix, val));
                    proof {
                        let cs = flatten_level(chev, cid);
                        let fe = flatten_entry(ev[k as int], prefix@);
                        assert(fe == cs + seq![(cid, val)]);
                        let part2 = flatten_level(ev.take(k as int + 1), prefix@);
                        assert(part2 == part + fe);
                        assert(out@.len() == base.len() + part2.len());
                        assert forall|i: int|
                            base.len() <= i < out@.len() implies ((#[trigger] out@[i]).0@ == part2[
                            i - base.len()].0 && out@[i].1 == part2[i - base.len()].1) by {
                            if i < base.len() + part.len() {
                                assert(part2[i - base.len()] == part[i - base.len()]);
                            } else if i < base.len() + part.len() + cs.len() {
                                assert(part2[i - base.len()] == fe[i - base.len() - part.len()]);
                                assert(fe[i - base.len() - part.len()] == cs[i - base.len()
                                    - part.len()]);
                            } else {
                                assert(part2[i - base.len()] == fe[cs.len() as int]);
                                assert(fe[cs.len() as int] == (cid, val));
                            }
                        }
                    }
                }
            },
        }
        k = k + 1;
    }
    proof {
        assert(ev.take(n as int) =~= ev);
    }
}

/// Every identifier flattened out of one entry extends the entry's own
/// identifier, and no two of them are equal.
proof fn lemma_flatten_entry_ids<V, AV>(e: EntryView<V, AV>, prefix: Seq<u64>)
    requires
        atom_ok(e.atom),
    ensures
        forall|k: int|
            0 <= k < flatten_entry(e, prefix).len() ==> ((#[trigger] flatten_entry(e, prefix)[
            k]).0.len() > prefix.len() && flatten_entry(e, prefix)[k].0.take(
                prefix.len() + 1 as int,
            ) == prefix.push(e.label)),
        forall|k1: int, k2: int|
            0 <= k1 < k2 < flatten_entry(e, prefix).len() ==> (#[trigger] flatten_entry(
                e,
                prefix,
            )[k1]).0 != (#[trigger] flatten_entry(e, prefix)[k2]).0,
    decreases e,
{
    let id = prefix.push(e.label);
    let fe = flatten_entry(e, prefix);
    match e.atom {
        AtomView::Leaf(_) => {
            assert(fe[0].0 == id);
            assert(id.take(prefix.len() + 1 as int) =~= id);
        },
        AtomView::Node(_, ch) => {
            assert(level_ok(ch));
            lemma_flatten_level_ids(ch, id);
            let cs = flatten_level(ch, id);
            assert(id.take(prefix.len() + 1 as int) =~= id);
            assert forall|k: int| 0 <= k < fe.len() implies ((#[trigger] fe[k]).0.len()
                > prefix.len() && fe[k].0.take(prefix.len() + 1 as int) == id) by {
                if emit_before_children(prefix.len() + 1 as int) {
                    if k > 0 {
                        assert(fe[k].0 == cs[k - 1].0);
                        assert(cs[k - 1].0.take(id.len() as int) == id);
                    }
                } else {
                    if k < cs.len() {
                        assert(fe[k].0 == cs[k].0);
                        assert(cs[k].0.take(id.len() as int) == id);
                    } else {
                        assert(fe[k].0 == id);
                    }
                }
            }
            assert forall|k1: int, k2: int| 0 <= k1 < k2 < fe.len() implies (#[trigger] fe[
            k1]).0 != (#[trigger] fe[k2]).0 by {
                if emit_before_children(prefix.len() + 1 as int) {
                    if k1 == 0 {
                        // the parent's identifier is strictly shorter than
                        // any of its children's
                        assert(fe[k2].0 == cs[k2 - 1].0);
                        assert(cs[k2 - 1].0.len() > id.len());
                        assert(fe[k1].0.len() == id.len());
                    } else {
                        assert(fe[k1].0 == cs[k1 - 1].0);
                        assert(fe[k2].0 == cs[k2 - 1].0);
                        assert(cs[k1 - 1].0 != cs[k2 - 1].0);
                    }
                } else {
                    if k2 == cs.len() {
                        assert(fe[k1].0 == cs[k1].0);
                        assert(cs[k1].0.len() > id.len());
                        assert(fe[k2].0.len() == id.len());
                    } else {
                        assert(fe[k1].0 == cs[k1].0);
                        assert(fe[k2].0 == cs[k2].0);
                        assert(cs[k1].0 != cs[k2].0);
                    }
                }
            }
        },
    }
}

/// Every identifier flattened out of a level extends the level's prefix by
/// one of its labels, and no two of them are equal: the visible sequence
/// never shows the same position twice.
pub proof fn lemma_flatten_level_ids<V, AV>(es: Seq<EntryView<V, AV>>, prefix: Seq<u64>)
    requires
        level_ok(es),
    ensures
        forall|k: int|
            0 <= k < flatten_level(es, prefix).len() ==> ((#[trigger] flatten_level(es, prefix)[
            k]).0.len() > prefix.len() && flatten_level(es, prefix)[k].0.take(
                prefix.len() as int,
            ) == prefix && (exists|t: int|
                0 <= t < es.len() && flatten_level(es, prefix)[k].0[prefix.len() as int] == (
                #[trigger] es[t]).label)),
        forall|k1: int, k2: int|
            0 <= k1 < k2 < flatten_level(es, prefix).len() ==> (#[trigger] flatten_level(
                es,
                prefix,
            )[k1]).0 != (#[trigger] flatten_level(es, prefix)[k2]).0,
    decreases es,
{
    lemma_entries_ok_iff(es);
    if es.len() == 0 {
    } else {
        let fl = flatten_level(es, prefix);
        let fe = flatten_entry(es[0], prefix);
        let rest = es.drop_first();
        let fr = flatten_level(rest, prefix);
        assert(atom_ok(es[0].atom));
        lemma_flatten_entry_ids(es[0], prefix);
        assert(level_ok(rest)) by {
            assert(forall|i: int| 1 <= i < es.len() ==> es.drop_first()[i - 1] == #[trigger] es[i]);
        }
        lemma_flatten_level_ids(rest, prefix);
        let id = prefix.push(es[0].label);
        // identifiers from the head entry start with the head's label,
        // those from the rest with some strictly larger label
        assert forall|k: int| 0 <= k < fe.len() implies (#[trigger] fe[k]).0[prefix.len() as int]
            == es[0].label && fe[k].0.take(prefix.len() as int) == prefix by {
            assert(fe[k].0.take(prefix.len() + 1 as int) == id);
            assert(fe[k].0.take(prefix.len() + 1 as int)[prefix.len() as int] == fe[k].0[prefix.len() as int]);
            assert(id[prefix.len() as int] == es[0].label);
            assert(fe[k].0.take(prefix.len() as int) =~= fe[k].0.take(prefix.len() + 1 as int).take(
                prefix.len() as int,
            ));
            assert(id.take(prefix.len() as int) =~= prefix);
        }
        assert forall|k: int| 0 <= k < fl.len() implies ((#[trigger] fl[k]).0.len() > prefix.len()
            && fl[k].0.take(prefix.len() as int) == prefix && (exists|t: int|
            0 <= t < es.len() && fl[k].0[prefix.len() as int] == (#[trigger] es[t]).label)) by {
            if k < fe.len() {
                assert(fl[k] == fe[k]);
                assert(fl[k].0[prefix.len() as int] == es[0].label);
            } else {
                assert(fl[k] == fr[k - fe.len()]);
                let t0 = choose|t: int|
                    0 <= t < rest.len() && fr[k - fe.len()].0[prefix.len() as int] == (
                    #[trigger] rest[t]).label;
                assert(es[t0 + 1] == rest[t0]);
            }
        }
        assert forall|k1: int, k2: int| 0 <= k1 < k2 < fl.len() implies (#[trigger] fl[k1]).0 != (
        #[trigger] fl[k2]).0 by {
            if k2 < fe.len() {
                assert(fl[k1] == fe[k1] && fl[k2] == fe[k2]);
            } else if k1 >= fe.len() {
                assert(fl[k1] == fr[k1 - fe.len()] && fl[k2] == fr[k2 - fe.len()]);
            } else {
                assert(fl[k1] == fe[k1] && fl[k2] == fr[k2 - fe.len()]);
                assert(fl[k1].0[prefix.len() as int] == es[0].label);
                let t0 = choose|t: int|
                    0 <= t < rest.len() && fr[k2 - fe.len()].0[prefix.len() as int] == (
                    #[trigger] rest[t]).label;
                assert(rest[t0] == es[t0 + 1]);
                assert(es[0].label < es[t0 + 1].label);
            }
        }
    }
}

proof fn lemma_put_pos_bounds<V, AV>(es: Seq<EntryView<V, AV>>, label: u64)
    ensures
        0 <= put_pos(es, label) <= es.len(),
    decreases es.len(),
{
    if es.len() > 0 && label > es[0].label {
        lemma_put_pos_bounds(es.drop_first(), label);
    }
}

/// A level flattens to one entry's worth more after an insertion: the
/// visible sequence grows by exactly one element.
pub proof fn lemma_insert_grows<V, AV>(
    es: Seq<EntryView<V, AV>>,
    walk: Seq<u64>,
    label: u64,
    stamp: Map<AV, Counter>,
    value: V,
    prefix: Seq<u64>,
)
    requires
        level_ok(es),
        walk_ok(es, walk),
        target_free(es, walk, label),
    ensures
        flatten_level(level_insert(es, walk, label, stamp, value), prefix).len() == flatten_level(
            es,
            prefix,
        ).len() + 1,
    decreases walk.len(),
{
    lemma_entries_ok_iff(es);
    if walk.len() == 0 {
        let p = put_pos(es, label);
        lemma_put_pos_bounds(es, label);
        let e = EntryView { label, stamp, atom: AtomView::<V, AV>::Leaf(value) };
        assert(es.insert(p, e) =~= es.take(p) + (seq![e] + es.skip(p)));
        assert(es =~= es.take(p) + es.skip(p));
        lemma_flatten_level_concat(es.take(p), seq![e] + es.skip(p), prefix);
        lemma_flatten_level_concat(seq![e], es.skip(p), prefix);
        lemma_flatten_level_concat(es.take(p), es.skip(p), prefix);
        let single = seq![e];
        assert(single[0] == e);
        assert(single.drop_first() =~= Seq::<EntryView<V, AV>>::empty());
        assert(flatten_level(single.drop_first(), prefix) == flatten_level(
            Seq::<EntryView<V, AV>>::empty(),
            prefix,
        ));
        assert(flatten_level(single, prefix) =~= flatten_entry(e, prefix));
        assert(flatten_entry(e, prefix).len() == 1);
    } else {
        let i = index_of(es, walk[0]);
        assert(0 <= i < es.len() && es[i].label == walk[0]);
        assert(atom_ok(es[i].atom));
        let v0 = match es[i].atom {
            AtomView::Leaf(v) => v,
            AtomView::Node(v, _) => v,
        };
        let ch = match es[i].atom {
            AtomView::Leaf(_) => Seq::<EntryView<V, AV>>::empty(),
            AtomView::Node(_, c) => c,
        };
        let ch2 = level_insert(ch, walk.drop_first(), label, stamp, value);
        match es[i].atom {
            AtomView::Leaf(_) => {
                // the walk ends here: the fresh child level receives one leaf
                assert(walk.len() == 1);
                assert(walk.drop_first() =~= Seq::<u64>::empty());
                lemma_single_level_insert_len(ch2, label, stamp, value);
            },
            AtomView::Node(_, c) => {
                assert(level_ok(c));
                lemma_insert_grows(
                    c,
                    walk.drop_first(),
                    label,
                    stamp,
                    value,
                    prefix.push(es[i].label),
                );
            },
        }
        let e2 = EntryView {
            label: es[i].label,
            stamp: es[i].stamp,
            atom: AtomView::Node(v0, ch2),
        };
        let u = es.update(i, e2);
        assert(u =~= es.take(i) + (seq![e2] + es.skip(i + 1)));
        assert(es =~= es.take(i) + (seq![es[i]] + es.skip(i + 1)));
        lemma_flatten_level_concat(es.take(i), seq![e2] + es.skip(i + 1), prefix);
        lemma_flatten_level_concat(seq![e2], es.skip(i + 1), prefix);
        lemma_flatten_level_concat(es.take(i), seq![es[i]] + es.skip(i + 1), prefix);
        lemma_flatten_level_concat(seq![es[i]], es.skip(i + 1), prefix);
        let s2 = seq![e2];
        assert(s2[0] == e2);
        assert(s2.drop_first() =~= Seq::<EntryView<V, AV>>::empty());
        assert(flatten_level(s2.drop_first(), prefix) == flatten_level(
            Seq::<EntryView<V, AV>>::empty(),
            prefix,
        ));
        assert(flatten_level(s2, prefix) =~= flatten_entry(e2, prefix));
        let s1 = seq![es[i]];
        assert(s1[0] == es[i]);
        assert(s1.drop_first() =~= Seq::<EntryView<V, AV>>::empty());
        assert(flatten_level(s1.drop_first(), prefix) == flatten_level(
            Seq::<EntryView<V, AV>>::empty(),
            prefix,
        ));
        assert(flatten_level(s1, prefix) =~= flatten_entry(es[i], prefix));
        // the updated entry flattens to one element more than the old one,
        // whichever side of its children the parent's value is emitted on
        let id = prefix.push(es[i].label);
        match es[i].atom {
            AtomView::Leaf(_) => {
                assert(flatten_entry(es[i], prefix).len() == 1);
                assert(flatten_entry(e2, prefix).len() == 1 + flatten_level(ch2, id).len());
            },
            AtomView::Node(_, c) => {
                assert(flatten_entry(es[i], prefix).len() == 1 + flatten_level(c, id).len());
                assert(flatten_entry(e2, prefix).len() == 1 + flatten_level(ch2, id).len());
            },
        }
    }
}

/// Inserting into a level along an empty walk grows its flattened form to
/// one element when the level is empty.
proof fn lemma_single_level_insert_len<V, AV>(
    post: Seq<EntryView<V, AV>>,
    label: u64,
    stamp: Map<AV, Counter>,
    value: V,
)
    requires
        post == level_insert(
            Seq::<EntryView<V, AV>>::empty(),
            Seq::<u64>::empty(),
            label,
            stamp,
            value,
        ),
    ensures
        forall|prefix: Seq<u64>| #[trigger] flatten_level(post, prefix).len() == 1,
{
    let e = EntryView { label, stamp, atom: AtomView::<V, AV>::Leaf(value) };
    assert(post =~= seq![e]);
    assert forall|prefix: Seq<u64>| #[trigger] flatten_level(post, prefix).len() == 1 by {
        assert(post[0] == e);
        assert(post.drop_first() =~= Seq::<EntryView<V, AV>>::empty());
        assert(flatten_level(post.drop_first(), prefix) == flatten_level(
            Seq::<EntryView<V, AV>>::empty(),
            prefix,
        ));
        assert(flatten_entry(e, prefix).len() == 1);
    }
}

/// Merge every causal stamp of the tree into the accumulator.
pub(crate) fn clock_tree_rec<V, A: Actor>(sib: &Siblings<V, A>, acc: &mut VClock<A>)
    requires
        level_ok(entries_view(sib.entries@)),
    ensures
        final(acc)@ == merge_seq(old(acc)@, level_stamps(entries_view(sib.entries@))),
    decreases *sib,
{
    let ghost ev = entries_view(sib.entries@);
    let ghost base = acc@;
    proof {
        lemma_entries_view_index(sib.entries@);
        lemma_entries_ok_iff(ev);
        assert(ev.take(0) =~= Seq::<EntryView<V, A::V>>::empty());
    }
    let n = sib.entries.len();
    let mut k: usize = 0;
    while k < n
        invariant
            level_ok(ev),
            ev == entries_view(sib.entries@),
            entries_view(sib.entries@).len() == sib.entries@.len(),
            forall|t: int|
                0 <= t < sib.entries@.len() ==> #[trigger] entries_view(sib.entries@)[t]
                    == entry_view(sib.entries@[t]),
            forall|t: int| 0 <= t < ev.len() ==> atom_ok((#[trigger] ev[t]).atom),
            n == ev.len(),
            k <= n,
            acc@ == merge_seq(base, level_stamps(ev.take(k as int))),
        decreases n - k,
    {
        let ghost part = level_stamps(ev.take(k as int));
        let ghost before = acc@;
        proof {
            assert(ev[k as int] == entry_view(sib.entries@[k as int]));
            lemma_level_stamps_take_step(ev, k as int);
        }
        acc.merge(&sib.entries[k].clock);
        proof {
            let single = seq![ev[k as int].stamp];
            assert(single.first() == ev[k as int].stamp);
            assert(single.drop_first() =~= Seq::<Map<A::V, Counter>>::empty());
            assert(merge_seq(merge_map(before, ev[k as int].stamp), single.drop_first())
                == merge_map(before, ev[k as int].stamp));
            assert(merge_seq(before, single) == merge_map(before, ev[k as int].stamp));
            assert(acc@ == merge_seq(before, single));
        }
        match &sib.entries[k].atom {
            Atom::Leaf(_) => {
                proof {
                    let single = seq![ev[k as int].stamp];
                    assert(entry_stamps(ev[k as int]) =~= single);
                    lemma_merge_seq_concat(base, part, single);
                    assert(acc@ == merge_seq(base, level_stamps(ev.take(k as int + 1))));
                }
            },
            Atom::Node(_, ch) => {
                proof {
                    assert(atom_ok(ev[k as int].atom));
                    assert(decreases_to!(*sib => sib.entries));
                    assert(decreases_to!(sib.entries => sib.entries@));
                    assert(decreases_to!(sib.entries@ => sib.entries@[k as int]));
                    assert(decreases_to!(sib.entries@[k as int] => sib.entries@[k as int].atom));
                    assert(decreases_to!(sib.entries@[k as int].atom => *ch));
                }
                clock_tree_rec(ch, acc);
                proof {
                    let single = seq![ev[k as int].stamp];
                    let cs = level_stamps(entries_view(ch.entries@));
                    assert(entry_stamps(ev[k as int]) =~= single + cs);
                    lemma_merge_seq_concat(base, part, single + cs);
                    lemma_merge_seq_concat(merge_seq(base, part), single, cs);
                    assert(acc@ == merge_seq(base, level_stamps(ev.take(k as int + 1))));
                }
            },
        }
        k = k + 1;
    }
    proof {
        assert(ev.take(n as int) =~= ev);
    }
}

/// Collect a copy of every causal stamp of the tree, in traversal order.
pub(crate) fn stamps_tree_rec<V, A: Actor>(sib: &Siblings<V, A>, out: &mut Vec<VClock<A>>)
    ensures
        ({
            let res = level_stamps(entries_view(sib.entries@));
            &&& final(out)@.len() == old(out)@.len() + res.len()
            &&& forall|i: int| 0 <= i < old(out)@.len() ==> final(out)@[i] == old(out)@[i]
            &&& forall|i: int|
                old(out)@.len() <= i < final(out)@.len() ==> (#[trigger] final(out)@[i])@ == res[i
                    - old(out)@.len()]
        }),
    decreases *sib,
{
    let ghost ev = entries_view(sib.entries@);
    let ghost base = out@;
    proof {
        lemma_entries_view_index(sib.entries@);
        assert(ev.take(0) =~= Seq::<EntryView<V, A::V>>::empty());
    }
    let n = sib.entries.len();
    let mut k: usize = 0;
    while k < n
        invariant
            ev == entries_view(sib.entries@),
            entries_view(sib.entries@).len() == sib.entries@.len(),
            forall|t: int|
                0 <= t < sib.entries@.len() ==> #[trigger] entries_view(sib.entries@)[t]
                    == entry_view(sib.entries@[t]),
            n == ev.len(),
            k <= n,
            out@.len() == base.len() + level_stamps(ev.take(k as int)).len(),
            forall|i: int| 0 <= i < base.len() ==> out@[i] == base[i],
            forall|i: int|
                base.len() <= i < out@.len() ==> (#[trigger] out@[i])@ == level_stamps(
                    ev.take(k as int),
                )[i - base.len()],
        decreases n - k,
    {
        let ghost part = level_stamps(ev.take(k as int));
        proof {
            assert(ev[k as int] == entry_view(sib.entries@[k as int]));
            lemma_level_stamps_take_step(ev, k as int);
        }
        out.push(sib.entries[k].clock.clone());
        match &sib.entries[k].atom {
            Atom::Leaf(_) => {
                proof {
                    let es_k = entry_stamps(ev[k as int]);
                    assert(es_k =~= seq![ev[k as int].stamp]);
                    let part2 = level_stamps(ev.take(k as int + 1));
                    assert(part2 == part + es_k);
                    assert forall|i: int|
                        base.len() <= i < out@.len() implies (#[trigger] out@[i])@ == part2[i
                        - base.len()] by {
                        if i < base.len() + part.len() {
                            assert(part2[i - base.len()] == part[i - base.len()]);
                        } else {
                            assert(part2[i - base.len()] == es_k[0]);
                        }
                    }
                }
            },
            Atom::Node(_, ch) => {
                proof {
                    assert(decreases_to!(*sib => sib.entries));
                    assert(decreases_to!(sib.entries => sib.entries@));
                    assert(decreases_to!(sib.entries@ => sib.entries@[k as int]));
                    assert(decreases_to!(sib.entries@[k as int] => sib.entries@[k as int].atom));
                    assert(decreases_to!(sib.entries@[k as int].atom => *ch));
                }
                stamps_tree_rec(ch, out);
                proof {
                    let cs = level_stamps(entries_view(ch.entries@));
                    let es_k = entry_stamps(ev[k as int]);
                    assert(es_k =~= seq![ev[k as int].stamp] + cs);
                    let part2 = level_stamps(ev.take(k as int + 1));
                    assert(part2 == part + es_k);
                    assert(out@.len() == base.len() + part2.len());
                    assert forall|i: int|
                        base.len() <= i < out@.len() implies (#[trigger] out@[i])@ == part2[i
                        - base.len()] by {
                        if i < base.len() + part.len() {
                            assert(part2[i - base.len()] == part[i - base.len()]);
                        } else if i == base.len() + part.len() {
                            assert(part2[i - base.len()] == es_k[0]);
                            assert(es_k[0] == ev[k as int].stamp);
                        } else {
                            assert(part2[i - base.len()] == es_k[i - base.len() - part.len()]);
                            assert(es_k[i - base.len() - part.len()] == cs[i - base.len()
                                - part.len() - 1]);
                        }
                    }
                }
            },
        }
        k = k + 1;
    }
    proof {
        assert(ev.take(n as int) =~= ev);
    }
}

} // verus!
