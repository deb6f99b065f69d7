use crdts::errors::Error;
use crdts::identifier::Identifier;
use crdts::lseq::{LSeq, Op};
use crdts::vclock::VClock;

#[test]
fn test_default() {
    let seq = LSeq::<u64, u64>::default();
    assert_eq!(seq, LSeq::<u64, u64>::new());
    assert_eq!(seq.read().val.len(), 0);
}

#[test]
fn test_insert() {
    let mut seq = LSeq::<char, u64>::new_with_seed(11);
    let actor = 100;

    // Insert A to [] (between BEGIN and END)
    let add_ctx = seq.read_ctx().derive_add_ctx(actor);
    seq.apply(seq.insert('A', None, None, add_ctx.clone())).unwrap();

    let current_seq = seq.read().val;
    println!("SEQ [A]: {:?}", current_seq);
    assert_eq!(current_seq.len(), 1);
    assert_eq!(current_seq[0].1, 'A');

    // Insert B to [A] (between A and END)
    let add_ctx = seq.read_ctx().derive_add_ctx(actor);
    let (id_of_a, _) = &current_seq[0];
    seq.apply(seq.insert('B', Some(id_of_a.clone()), None, add_ctx.clone())).unwrap();

    let current_seq = seq.read().val;
    println!("SEQ [A, B]: {:?}", current_seq);
    assert_eq!(current_seq.len(), 2);
    assert_eq!(current_seq[0].1, 'A');
    assert_eq!(current_seq[1].1, 'B');
}

#[test]
fn test_delete() {
    let mut seq = LSeq::<char, u64>::new_with_seed(12);
    let actor = 100;

    // Insert A to [] (between BEGIN and END)
    let add_ctx = seq.read_ctx().derive_add_ctx(actor);
    seq.apply(seq.insert('A', None, None, add_ctx.clone())).unwrap();

    let current_seq = seq.read().val;
    println!("SEQ [A]: {:?}", current_seq);
    assert_eq!(current_seq.len(), 1);
    assert_eq!(current_seq[0].1, 'A');

    // Insert B to [A] (between A and END)
    let add_ctx = seq.read_ctx().derive_add_ctx(actor);
    let (id_of_a, _) = &current_seq[0];
    seq.apply(seq.insert('B', Some(id_of_a.clone()), None, add_ctx.clone())).unwrap();

    let current_seq = seq.read().val;
    println!("SEQ [A, B]: {:?}", current_seq);
    assert_eq!(current_seq.len(), 2);
    assert_eq!(current_seq[0].1, 'A');
    assert_eq!(current_seq[1].1, 'B');

    // Delete B from [A, B]
    let rm_ctx = seq.read_ctx().derive_rm_ctx();
    let (id_of_b, _) = &current_seq[1];
    seq.apply(seq.delete(id_of_b.clone(), rm_ctx.clone())).unwrap();

    let current_seq = seq.read().val;
    println!("SEQ [A]: {:?}", current_seq);
    assert_eq!(current_seq.len(), 1);
    assert_eq!(current_seq[0].1, 'A');
}

#[test]
fn test_several_insertions() {
    let mut seq = LSeq::<char, u64>::new_with_seed(13);
    let actor = 100;

    // Insert A to [] (between BEGIN and END)
    let add_ctx = seq.read_ctx().derive_add_ctx(actor);
    let op = seq.insert('A', None, None, add_ctx.clone());
    assert_eq!(
        op,
        Op::Insert {
            clock: add_ctx.clock,
            value: 'A',
            p: None,
            q: None
        }
    );
    seq.apply(op).unwrap();

    // Insert B to [A] (between BEGIN and A)
    let current_seq = seq.read().val;
    println!("SEQ [A]: {:?}", current_seq);
    assert_eq!(current_seq.len(), 1);
    let (id_of_a, _) = &current_seq[0];

    let add_ctx = seq.read_ctx().derive_add_ctx(actor);
    let op = seq.insert('B', None, Some(id_of_a.clone()), add_ctx.clone());
    seq.apply(op).unwrap();

    // Insert C to [B, A] (between B and A)
    let current_seq = seq.read().val;
    println!("SEQ [B, A]: {:?}", current_seq);
    assert_eq!(current_seq.len(), 2);
    let (id_of_b, _) = &current_seq[0];
    let (id_of_a, _) = &current_seq[1];

    let add_ctx = seq.read_ctx().derive_add_ctx(actor);
    let op = seq.insert(
        'C',
        Some(id_of_b.clone()),
        Some(id_of_a.clone()),
        add_ctx.clone(),
    );
    seq.apply(op).unwrap();

    // Insert D to [B, C, A] (between C and A)
    let current_seq = seq.read().val;
    println!("SEQ [B, C, A]: {:?}", current_seq);
    assert_eq!(current_seq.len(), 3);
    let (id_of_c, _) = &current_seq[1];
    let (id_of_a, _) = &current_seq[2];

    let add_ctx = seq.read_ctx().derive_add_ctx(actor);
    let op = seq.insert(
        'D',
        Some(id_of_c.clone()),
        Some(id_of_a.clone()),
        add_ctx.clone(),
    );
    seq.apply(op).unwrap();

    // Insert E to [B, C, D, A] (between B and C)
    let current_seq = seq.read().val;
    println!("SEQ [B, C, D, A]: {:?}", current_seq);
    assert_eq!(current_seq.len(), 4);
    let (id_of_b, _) = &current_seq[0];
    let (id_of_c, _) = &current_seq[1];

    let add_ctx = seq.read_ctx().derive_add_ctx(actor);
    let op = seq.insert(
        'E',
        Some(id_of_b.clone()),
        Some(id_of_c.clone()),
        add_ctx.clone(),
    );
    seq.apply(op).unwrap();

    // Insert F to [B, E, C, D, A] (between D and A)
    let current_seq = seq.read().val;
    println!("SEQ [B, E, C, D, A]: {:?}", current_seq);
    assert_eq!(current_seq.len(), 5);
    let (id_of_d, _) = &current_seq[3];
    let (id_of_a, _) = &current_seq[4];

    let add_ctx = seq.read_ctx().derive_add_ctx(actor);
    let op = seq.insert(
        'F',
        Some(id_of_d.clone()),
        Some(id_of_a.clone()),
        add_ctx.clone(),
    );
    seq.apply(op).unwrap();

    // Test final length
    let current_seq = seq.read().val;
    println!("FINAL SEQ: {:?}", current_seq);
    assert_eq!(current_seq.len(), 6);
}

#[test]
fn test_append() {
    let mut seq = LSeq::<char, u64>::new_with_seed(14);
    let actor = 100;

    // Append A to [] (between BEGIN and END)
    let add_ctx = seq.read_ctx().derive_add_ctx(actor);
    let op = seq.insert('A', None, None, add_ctx.clone());
    seq.apply(op).unwrap();

    // Append B to [A] (between A and END)
    let current_seq = seq.read().val;
    println!("SEQ [A]: {:?}", current_seq);
    assert_eq!(current_seq.len(), 1);
    let (id_of_a, _) = &current_seq[0];

    let add_ctx = seq.read_ctx().derive_add_ctx(actor);
    let op = seq.insert('B', Some(id_of_a.clone()), None, add_ctx.clone());
    seq.apply(op).unwrap();

    // Append C to [A, B] (between B and END)
    let current_seq = seq.read().val;
    println!("SEQ [A, B]: {:?}", current_seq);
    assert_eq!(current_seq.len(), 2);
    let (id_of_b, _) = &current_seq[1];

    let add_ctx = seq.read_ctx().derive_add_ctx(actor);
    let op = seq.insert('C', Some(id_of_b.clone()), None, add_ctx.clone());
    seq.apply(op).unwrap();

    // Append D to [A, B, C] (between C and END)
    let current_seq = seq.read().val;
    println!("SEQ [A, B, C]: {:?}", current_seq);
    assert_eq!(current_seq.len(), 3);
    let (id_of_c, _) = &current_seq[2];

    let add_ctx = seq.read_ctx().derive_add_ctx(actor);
    let op = seq.insert('D', Some(id_of_c.clone()), None, add_ctx.clone());
    seq.apply(op).unwrap();

    // Test final length
    let current_seq = seq.read().val;
    println!("FINAL SEQ: {:?}", current_seq);
    assert_eq!(current_seq.len(), 4);
}

#[test]
fn test_insert_at_begining() {
    let mut seq = LSeq::<char, u64>::new_with_seed(15);
    let actor = 100;

    // Insert A to [] (between BEGIN and END)
    let add_ctx = seq.read_ctx().derive_add_ctx(actor);
    let op = seq.insert('A', None, None, add_ctx.clone());
    seq.apply(op).unwrap();

    // Insert B to [A] (between BEGIN and A)
    let current_seq = seq.read().val;
    println!("SEQ [A]: {:?}", current_seq);
    assert_eq!(current_seq.len(), 1);
    let (id_of_a, _) = &current_seq[0];

    let add_ctx = seq.read_ctx().derive_add_ctx(actor);
    let op = seq.insert('B', None, Some(id_of_a.clone()), add_ctx.clone());
    seq.apply(op).unwrap();

    // Insert C to [B, A] (between BEGIN and B)
    let current_seq = seq.read().val;
    println!("SEQ [B, A]: {:?}", current_seq);
    assert_eq!(current_seq.len(), 2);
    let (id_of_b, _) = &current_seq[0];

    let add_ctx = seq.read_ctx().derive_add_ctx(actor);
    let op = seq.insert('C', None, Some(id_of_b.clone()), add_ctx.clone());
    seq.apply(op).unwrap();

    // Insert D to [C, B, A] (between BEGIN and C)
    let current_seq = seq.read().val;
    println!("SEQ [C, B, A]: {:?}", current_seq);
    assert_eq!(current_seq.len(), 3);
    let (id_of_c, _) = &current_seq[0];

    let add_ctx = seq.read_ctx().derive_add_ctx(actor);
    let op = seq.insert('D', None, Some(id_of_c.clone()), add_ctx.clone());
    seq.apply(op).unwrap();

    // Test final length
    let current_seq = seq.read().val;
    println!("FINAL SEQ: {:?}", current_seq);
    assert_eq!(current_seq.len(), 4);
}

#[test]
fn test_single_insert_into_empty() {
    let mut seq = LSeq::<char, u64>::new_with_seed(16);
    let add_ctx = seq.read_ctx().derive_add_ctx(42);
    seq.apply(seq.insert('X', None, None, add_ctx)).unwrap();

    let current_seq = seq.read().val;
    assert_eq!(current_seq.len(), 1);
    assert_eq!(current_seq[0].1, 'X');
}

#[test]
fn test_sequence_of_inserts_and_delete() {
    // [A], then B after A, then C before A, then delete B
    let mut seq = LSeq::<char, u64>::new_with_seed(17);
    let actor = 7;

    let add_ctx = seq.read_ctx().derive_add_ctx(actor);
    seq.apply(seq.insert('A', None, None, add_ctx)).unwrap();
    let v = seq.read().val;
    assert_eq!(v.iter().map(|e| e.1).collect::<Vec<_>>(), vec!['A']);

    let id_of_a = v[0].0.clone();
    let add_ctx = seq.read_ctx().derive_add_ctx(actor);
    seq.apply(seq.insert('B', Some(id_of_a.clone()), None, add_ctx)).unwrap();
    let v = seq.read().val;
    assert_eq!(v.iter().map(|e| e.1).collect::<Vec<_>>(), vec!['A', 'B']);

    let id_of_a = v[0].0.clone();
    let add_ctx = seq.read_ctx().derive_add_ctx(actor);
    seq.apply(seq.insert('C', None, Some(id_of_a), add_ctx)).unwrap();
    let v = seq.read().val;
    assert_eq!(v.iter().map(|e| e.1).collect::<Vec<_>>(), vec!['C', 'A', 'B']);

    let id_of_b = v[2].0.clone();
    let rm_ctx = seq.read_ctx().derive_rm_ctx();
    seq.apply(seq.delete(id_of_b, rm_ctx)).unwrap();
    let v = seq.read().val;
    assert_eq!(v.iter().map(|e| e.1).collect::<Vec<_>>(), vec!['C', 'A']);
}

#[test]
fn test_invalid_order_rejected_unchanged() {
    let mut seq = LSeq::<char, u64>::new_with_seed(18);
    let actor = 3;

    let add_ctx = seq.read_ctx().derive_add_ctx(actor);
    seq.apply(seq.insert('A', None, None, add_ctx)).unwrap();
    let add_ctx = seq.read_ctx().derive_add_ctx(actor);
    seq.apply(seq.insert('B', None, None, add_ctx)).unwrap();

    let before = seq.read().val;
    assert_eq!(before.len(), 2);
    let first = before[0].0.clone();
    let second = before[1].0.clone();

    // predecessor after successor: rejected, sequence unchanged
    let add_ctx = seq.read_ctx().derive_add_ctx(actor);
    let op = seq.insert('C', Some(second), Some(first), add_ctx);
    assert_eq!(seq.apply(op), Err(Error::InvalidOrder));

    let after = seq.read().val;
    assert_eq!(after.len(), before.len());
    for (b, a) in before.iter().zip(after.iter()) {
        assert_eq!(b.0, a.0);
        assert_eq!(b.1, a.1);
    }
}

#[test]
fn test_equal_neighbours_exhausted() {
    let mut seq = LSeq::<char, u64>::new();
    let add_ctx = seq.read_ctx().derive_add_ctx(1);
    let op = seq.insert(
        'Z',
        Some(Identifier::new(&[5])),
        Some(Identifier::new(&[5])),
        add_ctx,
    );
    assert_eq!(seq.apply(op), Err(Error::ExhaustedIdentifierSpace));
    assert_eq!(seq.read().val.len(), 0);
}

#[test]
fn test_missing_ancestor_rejected() {
    let mut seq = LSeq::<char, u64>::new_with_seed(19);
    let add_ctx = seq.read_ctx().derive_add_ctx(1);
    seq.apply(seq.insert('A', None, None, add_ctx)).unwrap();

    // neighbours one label apart force a deeper allocation, whose walk
    // needs an ancestor entry that the tree does not hold
    let add_ctx = seq.read_ctx().derive_add_ctx(1);
    let op = seq.insert(
        'B',
        Some(Identifier::new(&[20])),
        Some(Identifier::new(&[21])),
        add_ctx,
    );
    assert_eq!(seq.apply(op), Err(Error::StructuralInvariantViolation));
    assert_eq!(seq.read().val.len(), 1);
}

#[test]
fn test_flatten_is_stable() {
    let mut seq = LSeq::<char, u64>::new_with_seed(20);
    let actor = 9;
    for value in ['A', 'B', 'C', 'D', 'E'] {
        let current = seq.read().val;
        let last = current.last().map(|e| e.0.clone());
        let add_ctx = seq.read_ctx().derive_add_ctx(actor);
        seq.apply(seq.insert(value, last, None, add_ctx)).unwrap();
    }

    let once = seq.flatten();
    let twice = seq.flatten();
    assert_eq!(once.len(), twice.len());
    for (x, y) in once.iter().zip(twice.iter()) {
        assert_eq!(x.0, y.0);
        assert_eq!(x.1, y.1);
    }
}

#[test]
fn test_stress_same_gap_distinct_ids() {
    // keep appending after the last element: identifiers stay pairwise
    // distinct and the requested order is kept
    let mut seq = LSeq::<u64, u64>::new_with_seed(21);
    let actor = 11;
    for value in 0..50u64 {
        let current = seq.read().val;
        let last = current.last().map(|e| e.0.clone());
        let add_ctx = seq.read_ctx().derive_add_ctx(actor);
        seq.apply(seq.insert(value, last, None, add_ctx)).unwrap();
    }

    let current = seq.read().val;
    assert_eq!(current.len(), 50);
    for (i, entry) in current.iter().enumerate() {
        assert_eq!(entry.1, i as u64);
    }
    for i in 0..current.len() {
        for j in (i + 1)..current.len() {
            assert!(current[i].0 != current[j].0);
        }
    }
}

#[test]
fn test_full_root_gap_allocation_exhausted() {
    // only labels 1..=10 can ever be drawn between BEGIN and END at the
    // root under the default boundary, so an 11th element cannot fit
    let mut seq = LSeq::<u64, u64>::new_with_seed(22);
    let actor = 2;
    let mut successes = 0u64;
    let mut attempts = 0u64;
    while successes < 10 {
        attempts += 1;
        assert!(attempts < 100000);
        let add_ctx = seq.read_ctx().derive_add_ctx(actor);
        match seq.apply(seq.insert(successes, None, None, add_ctx)) {
            Ok(()) => successes += 1,
            Err(Error::AllocationExhausted) => {},
            Err(other) => panic!("unexpected error: {:?}", other),
        }
    }
    assert_eq!(seq.read().val.len(), 10);

    let add_ctx = seq.read_ctx().derive_add_ctx(actor);
    let op = seq.insert(99, None, None, add_ctx);
    assert_eq!(seq.apply(op), Err(Error::AllocationExhausted));
    assert_eq!(seq.read().val.len(), 10);
}

#[test]
fn test_empty_context_insert_is_noop() {
    let mut seq = LSeq::<char, u64>::new();
    let op = Op::Insert {
        clock: VClock::new(),
        value: 'A',
        p: None,
        q: None,
    };
    assert_eq!(seq.apply(op), Ok(()));
    assert_eq!(seq.read().val.len(), 0);
}

#[test]
fn test_delete_absent_id_is_noop() {
    let mut seq = LSeq::<char, u64>::new_with_seed(23);
    let add_ctx = seq.read_ctx().derive_add_ctx(5);
    seq.apply(seq.insert('A', None, None, add_ctx)).unwrap();

    let rm_ctx = seq.read_ctx().derive_rm_ctx();
    let op = seq.delete(Identifier::new(&[63, 63]), rm_ctx);
    assert_eq!(seq.apply(op), Ok(()));
    assert_eq!(seq.read().val.len(), 1);
}

#[test]
fn test_stamp_set_equality() {
    let mut left = LSeq::<char, u64>::new_with_seed(26);
    let mut right = LSeq::<char, u64>::new_with_seed(26);
    assert_eq!(left, right);

    let add_ctx = left.read_ctx().derive_add_ctx(1);
    left.apply(left.insert('A', None, None, add_ctx.clone())).unwrap();
    assert!(left != right);

    // same causal stamp on the other replica, even with another value
    right
        .apply(right.insert('B', None, None, add_ctx))
        .unwrap();
    assert_eq!(left, right);
}

#[test]
fn test_delete_order_convergence() {
    // two replicas that receive the same deletions in different orders
    // converge to the same sequence
    let mut base = LSeq::<char, u64>::new_with_seed(24);
    let actor = 8;
    for value in ['A', 'B', 'C', 'D'] {
        let current = base.read().val;
        let last = current.last().map(|e| e.0.clone());
        let add_ctx = base.read_ctx().derive_add_ctx(actor);
        base.apply(base.insert(value, last, None, add_ctx)).unwrap();
    }
    let current = base.read().val;
    let id_b = current[1].0.clone();
    let id_d = current[3].0.clone();

    let mut replica1 = base.clone();
    let mut replica2 = base.clone();
    assert_eq!(replica1, replica2);

    let rm1 = base.read_ctx().derive_rm_ctx();
    let del_b = base.delete(id_b, rm1);
    let rm2 = base.read_ctx().derive_rm_ctx();
    let del_d = base.delete(id_d, rm2);

    let (del_b2, del_d2) = match (&del_b, &del_d) {
        (Op::Delete { clock: c1, id: i1 }, Op::Delete { clock: c2, id: i2 }) => (
            Op::<char, u64>::Delete { clock: c1.clone(), id: i1.clone() },
            Op::<char, u64>::Delete { clock: c2.clone(), id: i2.clone() },
        ),
        _ => unreachable!(),
    };

    replica1.apply(del_b).unwrap();
    replica1.apply(del_d).unwrap();
    replica2.apply(del_d2).unwrap();
    replica2.apply(del_b2).unwrap();

    let v1 = replica1.read().val;
    let v2 = replica2.read().val;
    assert_eq!(v1.len(), 2);
    assert_eq!(v1.len(), v2.len());
    for (x, y) in v1.iter().zip(v2.iter()) {
        assert_eq!(x.0, y.0);
        assert_eq!(x.1, y.1);
    }
    assert_eq!(replica1, replica2);
}

#[test]
fn test_delete_twice_idempotent() {
    let mut seq = LSeq::<char, u64>::new_with_seed(25);
    let actor = 4;
    for value in ['A', 'B', 'C'] {
        let current = seq.read().val;
        let last = current.last().map(|e| e.0.clone());
        let add_ctx = seq.read_ctx().derive_add_ctx(actor);
        seq.apply(seq.insert(value, last, None, add_ctx)).unwrap();
    }
    let id_b = seq.read().val[1].0.clone();

    let rm = seq.read_ctx().derive_rm_ctx();
    seq.apply(seq.delete(id_b.clone(), rm)).unwrap();
    let after_once = seq.read().val;

    let rm = seq.read_ctx().derive_rm_ctx();
    seq.apply(seq.delete(id_b, rm)).unwrap();
    let after_twice = seq.read().val;

    assert_eq!(after_once.len(), 2);
    assert_eq!(after_once.len(), after_twice.len());
    for (x, y) in after_once.iter().zip(after_twice.iter()) {
        assert_eq!(x.0, y.0);
        assert_eq!(x.1, y.1);
    }
}
