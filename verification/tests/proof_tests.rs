use metamath_proof::{ProofStyle, ProofTree, ProofTreeArray, RPNStep, StatementAddress};

fn addr(segment: u32, index: u32) -> StatementAddress {
    StatementAddress { segment, index }
}

/// An independent FNV-1a implementation, to check the hashing the store uses.
fn fnv1a_reference(bytes: &[u8]) -> u64 {
    let mut h: u64 = 0xcbf29ce484222325;
    for &b in bytes {
        h ^= b as u64;
        h = h.wrapping_mul(0x100000001b3);
    }
    h
}

fn le8(w: u64) -> Vec<u8> {
    w.to_le_bytes().to_vec()
}

/// Builds the scenario graph: A (leaf), B (leaf), C = apply(A, B),
/// D = apply(C, C), QED = D.
fn scenario() -> (ProofTreeArray, Vec<StatementAddress>) {
    let mut arr = ProofTreeArray::new(false);
    let a = addr(0, 1);
    let b = addr(0, 2);
    let c = addr(0, 3);
    let d = addr(0, 4);
    let ia = arr.build(a, vec![], &[], 0, 0);
    let ib = arr.build(b, vec![], &[], 0, 0);
    let ic = arr.build(c, vec![ia, ib], &[], 0, 0);
    let id = arr.build(d, vec![ic, ic], &[], 0, 0);
    assert_eq!((ia, ib, ic, id), (0, 1, 2, 3));
    arr.qed = id;
    (arr, vec![a, b, c, d])
}

#[test]
fn dedup_idempotence() {
    let mut arr = ProofTreeArray::new(false);
    let a = addr(3, 7);
    let i1 = arr.build(a, vec![], &[], 0, 0);
    let count_after_first = arr.trees.len();
    let i2 = arr.build(a, vec![], &[], 0, 0);
    assert_eq!(i1, i2);
    assert_eq!(arr.trees.len(), count_after_first);
    assert_eq!(arr.trees.len(), 1);
    let ic1 = arr.build(addr(3, 8), vec![i1], &[], 0, 0);
    let ic2 = arr.build(addr(3, 8), vec![i1], &[], 0, 0);
    assert_eq!(ic1, ic2);
    assert_eq!(arr.trees.len(), 2);
}

#[test]
fn hash_consistency() {
    let arr = ProofTreeArray::new(false);
    let t1 = ProofTree::new(&arr, addr(1, 2), vec![]);
    let t2 = ProofTree::new(&arr, addr(1, 2), vec![]);
    let t3 = ProofTree::new(&arr, addr(1, 3), vec![]);
    assert_eq!(t1.hash, t2.hash);
    assert_ne!(t1.hash, t3.hash);
}

#[test]
fn structural_hash_matches_fnv1a() {
    let arr = ProofTreeArray::new(false);
    let a = addr(5, 9);
    let t = ProofTree::new(&arr, a, vec![]);
    let mut bytes = Vec::new();
    bytes.extend_from_slice(&le8(5));
    bytes.extend_from_slice(&le8(9));
    assert_eq!(t.hash, fnv1a_reference(&bytes));

    let mut arr2 = ProofTreeArray::new(false);
    let ia = arr2.build(a, vec![], &[], 0, 0);
    let t2 = ProofTree::new(&arr2, addr(5, 10), vec![ia]);
    let mut bytes2 = Vec::new();
    bytes2.extend_from_slice(&le8(5));
    bytes2.extend_from_slice(&le8(10));
    bytes2.extend_from_slice(&le8(t.hash));
    assert_eq!(t2.hash, fnv1a_reference(&bytes2));
}

#[test]
fn index_finds_existing_nodes() {
    let mut arr = ProofTreeArray::new(false);
    let ia = arr.build(addr(0, 1), vec![], &[], 0, 0);
    let present = ProofTree::new(&arr, addr(0, 1), vec![]);
    let absent = ProofTree::new(&arr, addr(0, 2), vec![]);
    assert_eq!(arr.index(&present), Some(ia));
    assert_eq!(arr.index(&absent), None);
}

#[test]
fn scenario_count_parents() {
    let (arr, _) = scenario();
    assert_eq!(arr.count_parents(), vec![1, 1, 2, 0]);
}

#[test]
fn scenario_compacted_encoding() {
    let (arr, addrs) = scenario();
    let parents = arr.count_parents();
    let steps = arr.to_rpn(&parents, false);
    assert_eq!(
        steps,
        vec![
            RPNStep::Normal { fwdref: 0, addr: addrs[0], hyp: None },
            RPNStep::Normal { fwdref: 0, addr: addrs[1], hyp: None },
            RPNStep::Normal { fwdref: 1, addr: addrs[2], hyp: None },
            RPNStep::Backref { backref: 1, hyp: None },
            RPNStep::Normal { fwdref: 0, addr: addrs[3], hyp: None },
        ]
    );
}

#[test]
fn scenario_indent() {
    let (mut arr, _) = scenario();
    arr.calc_indent();
    assert_eq!(arr.indent(), &vec![2, 2, 1, 0]);
    // idempotent: recomputing gives the same distances
    arr.calc_indent();
    assert_eq!(arr.indent(), &vec![2, 2, 1, 0]);
}

/// An independent breadth-first search, to check `calc_indent` against.
fn bfs_reference(arr: &ProofTreeArray) -> Vec<u16> {
    let n = arr.trees.len();
    let mut dist = vec![u16::MAX; n];
    dist[arr.qed] = 0;
    let mut queue = std::collections::VecDeque::new();
    queue.push_back(arr.qed);
    while let Some(v) = queue.pop_front() {
        for &c in &arr.trees[v].children {
            if dist[c] == u16::MAX {
                dist[c] = dist[v] + 1;
                queue.push_back(c);
            }
        }
    }
    dist
}

#[test]
fn indent_equals_bfs_distance() {
    // a diamond with an extra chain and an unreachable node
    let mut arr = ProofTreeArray::new(false);
    let ia = arr.build(addr(0, 1), vec![], &[], 0, 0);
    let ib = arr.build(addr(0, 2), vec![ia], &[], 0, 0);
    let ic = arr.build(addr(0, 3), vec![ia], &[], 0, 0);
    let id = arr.build(addr(0, 4), vec![ib, ic, ia], &[], 0, 0);
    let _stray = arr.build(addr(0, 9), vec![ib], &[], 0, 0);
    let iq = arr.build(addr(0, 5), vec![id], &[], 0, 0);
    arr.qed = iq;
    arr.calc_indent();
    assert_eq!(arr.indent(), &bfs_reference(&arr));
    // shortest path to A is direct through D, not through B or C
    assert_eq!(arr.indent()[ia], 2);
    // the stray parent is unreachable from QED
    assert_eq!(arr.indent()[4], u16::MAX);
}

#[test]
fn streaming_full_unfolding() {
    let (arr, addrs) = scenario();
    let mut it = arr.normal_iter(false);
    let mut got = Vec::new();
    while let Some(s) = it.next() {
        got.push(s);
    }
    let norm = |i: usize| RPNStep::Normal { fwdref: 0, addr: addrs[i], hyp: None };
    // D's shared child C is fully re-expanded on its second visit
    assert_eq!(got, vec![norm(0), norm(1), norm(2), norm(0), norm(1), norm(2), norm(3)]);
}

#[test]
fn streaming_early_termination() {
    let (arr, addrs) = scenario();
    let mut it = arr.normal_iter(false);
    assert_eq!(it.next(), Some(RPNStep::Normal { fwdref: 0, addr: addrs[0], hyp: None }));
    assert_eq!(it.next(), Some(RPNStep::Normal { fwdref: 0, addr: addrs[1], hyp: None }));
    // dropping the iterator here is fine; nothing to clean up
}

#[test]
fn streaming_compacted_agree_without_sharing() {
    // a plain tree: no node has in-degree above one
    let mut arr = ProofTreeArray::new(false);
    let ia = arr.build(addr(0, 1), vec![], &[], 0, 0);
    let ib = arr.build(addr(0, 2), vec![], &[], 0, 0);
    let ic = arr.build(addr(0, 3), vec![ia, ib], &[], 0, 0);
    let ie = arr.build(addr(0, 6), vec![], &[], 0, 0);
    let id = arr.build(addr(0, 4), vec![ic, ie], &[], 0, 0);
    arr.qed = id;
    let parents = arr.count_parents();
    assert!(parents.iter().all(|&p| p <= 1));
    let compacted = arr.to_rpn(&parents, false);
    let mut it = arr.normal_iter(false);
    let mut streamed = Vec::new();
    while let Some(s) = it.next() {
        streamed.push(s);
    }
    assert_eq!(compacted, streamed);
}

#[test]
fn labeling_consistency() {
    let (arr, addrs) = scenario();
    let parents = arr.count_parents();
    let labeled = arr.to_rpn(&parents, true);
    assert_eq!(
        labeled,
        vec![
            RPNStep::Normal { fwdref: 0, addr: addrs[0], hyp: Some((addrs[2], 0)) },
            RPNStep::Normal { fwdref: 0, addr: addrs[1], hyp: Some((addrs[2], 1)) },
            RPNStep::Normal { fwdref: 1, addr: addrs[2], hyp: Some((addrs[3], 0)) },
            RPNStep::Backref { backref: 1, hyp: Some((addrs[3], 1)) },
            RPNStep::Normal { fwdref: 0, addr: addrs[3], hyp: None },
        ]
    );
    // every step but the final QED one carries a hypothesis slot
    for (i, s) in labeled.iter().enumerate() {
        let hyp = match s {
            RPNStep::Normal { hyp, .. } => hyp,
            RPNStep::Backref { hyp, .. } => hyp,
        };
        assert_eq!(hyp.is_some(), i != labeled.len() - 1);
    }
    // without labeling no step carries one
    for s in arr.to_rpn(&parents, false) {
        let hyp = match s {
            RPNStep::Normal { hyp, .. } => hyp,
            RPNStep::Backref { hyp, .. } => hyp,
        };
        assert!(hyp.is_none());
    }
    // streaming mode labels the same way
    let mut it = arr.normal_iter(true);
    let mut hyps = Vec::new();
    while let Some(s) = it.next() {
        match s {
            RPNStep::Normal { hyp, .. } => hyps.push(hyp),
            RPNStep::Backref { .. } => panic!("streaming mode never emits a backreference"),
        }
    }
    assert_eq!(hyps.len(), 7);
    assert!(hyps[..6].iter().all(|h| h.is_some()));
    assert!(hyps[6].is_none());
}

#[test]
fn backreference_soundness_on_shared_graph() {
    // two shared interior nodes force two backreference numbers
    let mut arr = ProofTreeArray::new(false);
    let ia = arr.build(addr(0, 1), vec![], &[], 0, 0);
    let ic = arr.build(addr(0, 3), vec![ia], &[], 0, 0);
    let id = arr.build(addr(0, 4), vec![ic, ic], &[], 0, 0);
    let ie = arr.build(addr(0, 5), vec![id, id, ic], &[], 0, 0);
    arr.qed = ie;
    let parents = arr.count_parents();
    let steps = arr.to_rpn(&parents, false);
    let mut introduced = Vec::new();
    for s in &steps {
        match s {
            RPNStep::Normal { fwdref, .. } => {
                if *fwdref != 0 {
                    // introduced in strictly increasing order 1, 2, ...
                    assert_eq!(*fwdref, introduced.len() + 1);
                    introduced.push(*fwdref);
                }
            }
            RPNStep::Backref { backref, .. } => {
                // every target was introduced earlier
                assert!(introduced.contains(backref));
            }
        }
    }
    assert_eq!(introduced, vec![1, 2]);
    // and every introduced number is actually reused later
    let mut used = Vec::new();
    for s in &steps {
        if let RPNStep::Backref { backref, .. } = s {
            used.push(*backref);
        }
    }
    for n in introduced {
        assert!(used.contains(&n));
    }
}

#[test]
fn leaf_exemption() {
    // the leaf A is referenced three times but never backreferenced
    let mut arr = ProofTreeArray::new(false);
    let ia = arr.build(addr(0, 1), vec![], &[], 0, 0);
    let ib = arr.build(addr(0, 2), vec![ia, ia], &[], 0, 0);
    let ic = arr.build(addr(0, 3), vec![ib, ia], &[], 0, 0);
    arr.qed = ic;
    let parents = arr.count_parents();
    assert_eq!(parents[ia], 3);
    let a = addr(0, 1);
    for s in arr.to_rpn(&parents, false) {
        match s {
            RPNStep::Normal { fwdref, addr: sa, .. } => {
                if sa == a {
                    assert_eq!(fwdref, 0);
                }
            }
            RPNStep::Backref { .. } => panic!("only the leaf is shared, so no backreference"),
        }
    }
}

#[test]
fn formula_decoding() {
    let mut arr = ProofTreeArray::new(true);
    // 0xC1 and 0xC2 are 'A' and 'B' with the high bit set; 'x' is verbatim
    let pool: &[u8] = &[0xC1, 0xC2, b'x', 0xC1, 0xC2];
    let i0 = arr.build(addr(0, 1), vec![], pool, 0, 3);
    let i1 = arr.build(addr(0, 2), vec![], pool, 3, 5);
    let i2 = arr.build(addr(0, 3), vec![], pool, 0, 0);
    let exprs = arr.exprs().expect("expression caching is enabled");
    // verbatim final byte: nothing is trimmed
    assert_eq!(exprs[i0], b"A B x".to_vec());
    // high-bit final byte: the trailing separator is trimmed
    assert_eq!(exprs[i1], b"A B".to_vec());
    // empty range: empty formula
    assert_eq!(exprs[i2], Vec::<u8>::new());
    // a deduplicated insertion caches nothing new
    let again = arr.build(addr(0, 1), vec![], pool, 0, 3);
    assert_eq!(again, i0);
    assert_eq!(arr.exprs().unwrap().len(), 3);
}

#[test]
fn exprs_disabled() {
    let mut arr = ProofTreeArray::new(false);
    arr.build(addr(0, 1), vec![], &[], 0, 0);
    assert!(arr.exprs().is_none());
}

#[test]
fn push_accumulates_hypotheses() {
    let mut arr = ProofTreeArray::new(false);
    let ia = arr.build(addr(0, 1), vec![], &[], 0, 0);
    let ib = arr.build(addr(0, 2), vec![], &[], 0, 0);
    let mut hyps = Vec::new();
    arr.push(&mut hyps, ia);
    arr.push(&mut hyps, ib);
    assert_eq!(hyps, vec![ia, ib]);
}

#[test]
fn default_enables_exprs() {
    let arr = ProofTreeArray::default();
    assert!(arr.exprs().is_some());
    assert_eq!(arr.trees.len(), 0);
    assert_eq!(arr.qed, 0);
}

#[test]
fn proof_styles() {
    assert!(!ProofStyle::Compressed.explicit());
    assert!(ProofStyle::Compressed.packed());
    assert!(!ProofStyle::Normal.explicit());
    assert!(!ProofStyle::Normal.packed());
    assert!(!ProofStyle::Packed.explicit());
    assert!(ProofStyle::Packed.packed());
    assert!(ProofStyle::Explicit.explicit());
    assert!(!ProofStyle::Explicit.packed());
    assert!(ProofStyle::PackedExplicit.explicit());
    assert!(ProofStyle::PackedExplicit.packed());
}
