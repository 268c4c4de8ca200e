//! The proof object model: structurally hashed proof nodes and the
//! deduplicating, append-only array that stores a proof in step order.

use vstd::prelude::*;

use crate::hashing::{fnv1a_bytes, fnv1a_seq, le_bytes, push_le_bytes, words_bytes};
use crate::indent::{has_path, indent_correct, lemma_dist_minimal, lemma_path_bound, lemma_path_snoc, reachable};
use std::collections::HashMap;

verus! {

broadcast use vstd::std_specs::hash::group_hash_axioms;

/// The address of a statement in the database, an opaque label attached to
/// each proof step: a segment number and a statement index within it.
#[derive(Copy, Clone, Debug, PartialEq, Eq, Structural)]
pub struct StatementAddress {
    /// The segment the statement lives in.
    pub segment: u32,
    /// The index of the statement within its segment.
    pub index: u32,
}

/// A tree structure for storing proofs and grammar derivations.
#[derive(Clone, Debug)]
pub struct ProofTree {
    /// The axiom/theorem being applied at the root.
    pub address: StatementAddress,
    /// The hypotheses in database order, indexes into the parent `ProofTreeArray`.
    pub children: Vec<usize>,
    /// The precomputed structural hash for this tree.
    pub hash: u64,
}

impl ProofTree {
    /// The stored structural hash of this node.
    pub open spec fn spec_hash(self) -> u64 {
        self.hash
    }
}

/// The hashes already stored for the given child indices.
pub open spec fn child_hashes(ts: Seq<ProofTree>, children: Seq<usize>) -> Seq<u64> {
    children.map(|j: int, c: usize| ts[c as int].spec_hash())
}

/// The structural hash of a node description `(addr, children)` against the
/// node sequence `ts`: the FNV-1a hash of the address followed by the
/// already-computed hashes of each child.
pub open spec fn desc_hash(ts: Seq<ProofTree>, addr: StatementAddress, children: Seq<usize>) -> u64 {
    fnv1a_seq(
        le_bytes(addr.segment as u64) + le_bytes(addr.index as u64) + words_bytes(
            child_hashes(ts, children),
        ),
    )
}

/// Every child index points at a node appended strictly earlier, so the
/// store is a DAG by construction.
pub open spec fn nodes_wf(ts: Seq<ProofTree>) -> bool {
    forall|i: int, j: int|
        0 <= i < ts.len() && 0 <= j < ts[i].children@.len() ==> (#[trigger] ts[i].children@[j] as int)
            < i
}

/// Every stored hash is the structural hash of its own description, and no
/// two stored nodes share a hash (descriptions are coalesced on insertion).
pub open spec fn hashes_wf(ts: Seq<ProofTree>) -> bool {
    &&& forall|i: int|
        0 <= i < ts.len() ==> (#[trigger] ts[i].spec_hash()) == desc_hash(
            ts,
            ts[i].address,
            ts[i].children@,
        )
    &&& forall|i: int, j: int|
        0 <= i < j < ts.len() ==> (#[trigger] ts[i].spec_hash()) != (#[trigger] ts[j].spec_hash())
}

/// All of `children` are indices of nodes present in `ts`.
pub open spec fn children_in_range(ts: Seq<ProofTree>, children: Seq<usize>) -> bool {
    forall|j: int| 0 <= j < children.len() ==> (#[trigger] children[j] as int) < ts.len()
}

/// Some node of `ts` carries the hash `h`.
pub open spec fn has_hash(ts: Seq<ProofTree>, h: u64) -> bool {
    exists|i: int| 0 <= i < ts.len() && (#[trigger] ts[i].spec_hash()) == h
}

/// How one insertion changes the node sequence: if the description's hash is
/// already present the sequence is unchanged and `i` is the hash's index;
/// otherwise the description is appended at `i == ts0.len()`.
pub open spec fn insert_effect(
    ts0: Seq<ProofTree>,
    ts1: Seq<ProofTree>,
    addr: StatementAddress,
    children: Seq<usize>,
    i: int,
) -> bool {
    let h = desc_hash(ts0, addr, children);
    if has_hash(ts0, h) {
        &&& ts1 == ts0
        &&& 0 <= i < ts0.len()
        &&& ts0[i].spec_hash() == h
    } else {
        &&& i == ts0.len()
        &&& ts1.len() == ts0.len() + 1
        &&& forall|k: int| 0 <= k < ts0.len() ==> ts1[k] == ts0[k]
        &&& ts1[i].address == addr
        &&& ts1[i].children@ == children
        &&& ts1[i].spec_hash() == h
    }
}

/// A description's hash does not depend on nodes appended after its children.
pub proof fn lemma_desc_hash_prefix(
    ts0: Seq<ProofTree>,
    ts1: Seq<ProofTree>,
    addr: StatementAddress,
    children: Seq<usize>,
)
    requires
        children_in_range(ts0, children),
        ts0.len() <= ts1.len(),
        forall|k: int| 0 <= k < ts0.len() ==> ts1[k] == ts0[k],
    ensures
        desc_hash(ts1, addr, children) == desc_hash(ts0, addr, children),
{
    assert(child_hashes(ts1, children) =~= child_hashes(ts0, children));
}

/// Dedup idempotence: inserting the same description `(addr, children)`
/// twice returns the same index both times, and the second insertion leaves
/// the store unchanged, so the node count grows at most once.
pub proof fn lemma_dedup_idempotent(
    ts0: Seq<ProofTree>,
    ts1: Seq<ProofTree>,
    ts2: Seq<ProofTree>,
    addr: StatementAddress,
    children: Seq<usize>,
    i1: int,
    i2: int,
)
    requires
        children_in_range(ts0, children),
        hashes_wf(ts1),
        insert_effect(ts0, ts1, addr, children, i1),
        insert_effect(ts1, ts2, addr, children, i2),
    ensures
        i2 == i1,
        ts2 == ts1,
        ts1.len() <= ts0.len() + 1,
{
    let h = desc_hash(ts0, addr, children);
    lemma_desc_hash_prefix(ts0, ts1, addr, children);
    assert(desc_hash(ts1, addr, children) == h);
    assert(0 <= i1 < ts1.len() && ts1[i1].spec_hash() == h);
    assert(has_hash(ts1, h));
    assert(ts2 == ts1);
    assert(ts1[i2].spec_hash() == h);
    if i1 != i2 {
        assert(ts1[i1].spec_hash() != ts1[i2].spec_hash());
    }
}

/// Hash consistency: in a well-formed store, two nodes with equal address
/// and equal child sequences are the same node — equal descriptions always
/// receive equal hashes and are coalesced to one index.
pub proof fn lemma_hash_consistency(ts: Seq<ProofTree>, i: int, j: int)
    requires
        hashes_wf(ts),
        0 <= i < ts.len(),
        0 <= j < ts.len(),
        ts[i].address == ts[j].address,
        ts[i].children@ == ts[j].children@,
    ensures
        i == j,
{
    assert(ts[i].spec_hash() == desc_hash(ts, ts[i].address, ts[i].children@));
    assert(ts[j].spec_hash() == desc_hash(ts, ts[j].address, ts[j].children@));
    if i != j {
        if i < j {
            assert(ts[i].spec_hash() != ts[j].spec_hash());
        } else {
            assert(ts[j].spec_hash() != ts[i].spec_hash());
        }
    }
}

impl ProofTree {
    /// Create a new proof tree using the given address and children, hashing
    /// the address together with the already-stored hashes of each child.
    pub fn new(parent: &ProofTreeArray, address: StatementAddress, children: Vec<usize>) -> (r:
        ProofTree)
        requires
            children_in_range(parent.trees@, children@),
        ensures
            r.address == address,
            r.children@ == children@,
            r.spec_hash() == desc_hash(parent.trees@, address, children@),
    {
        let ghost prefix = le_bytes(address.segment as u64) + le_bytes(address.index as u64);
        let mut bytes: Vec<u8> = Vec::new();
        push_le_bytes(&mut bytes, address.segment as u64);
        push_le_bytes(&mut bytes, address.index as u64);
        assert(bytes@ =~= prefix);
        let mut j: usize = 0;
        while j < children.len()
            invariant
                children_in_range(parent.trees@, children@),
                j <= children@.len(),
                prefix == le_bytes(address.segment as u64) + le_bytes(address.index as u64),
                bytes@ == prefix + words_bytes(child_hashes(parent.trees@, children@.take(j as int))),
            decreases children@.len() - j,
        {
            let ix = children[j];
            push_le_bytes(&mut bytes, parent.trees[ix].hash);
            j += 1;
            proof {
                let cs = children@.take(j as int);
                let hs = child_hashes(parent.trees@, cs);
                let hs0 = child_hashes(parent.trees@, children@.take(j - 1));
                assert(cs.drop_last() =~= children@.take(j - 1));
                assert(hs.drop_last() =~= hs0);
                assert(hs.last() == parent.trees@[children@[j - 1] as int].spec_hash());
                assert(bytes@ =~= prefix + words_bytes(hs));
            }
        }
        proof {
            assert(children@.take(children@.len() as int) =~= children@);
        }
        let hash = fnv1a_bytes(&bytes);
        ProofTree { address, children, hash }
    }
}

/// An array of proof trees, used to collect steps of a proof in proof order.
#[derive(Debug)]
pub struct ProofTreeArray {
    /// The dedup index: structural hash to node index.
    pub map: HashMap<u64, usize>,
    /// The list of proof trees.
    pub trees: Vec<ProofTree>,
    /// The uncompressed strings for each proof tree, kept only if expression
    /// construction is enabled.
    pub exprs: Option<Vec<Vec<u8>>>,
    /// The QED step.
    pub qed: usize,
    /// The distance from each step to the QED step.
    pub indent: Vec<u16>,
}

impl ProofTreeArray {
    /// The cached formula bytes per node, if caching is enabled.
    pub open spec fn spec_exprs(self) -> Option<Seq<Seq<u8>>> {
        match self.exprs {
            Some(es) => Some(es@.map(|i: int, e: Vec<u8>| e@)),
            None => None,
        }
    }

    /// The last computed indentation values.
    pub open spec fn spec_indent(self) -> Seq<u16> {
        self.indent@
    }

    /// The dedup index is exactly the stored hashes, each mapped to its node.
    pub open spec fn map_wf(self) -> bool {
        &&& forall|h: u64|
            self.map@.contains_key(h) ==> (#[trigger] self.map@[h] as int) < self.trees@.len()
                && self.trees@[self.map@[h] as int].spec_hash() == h
        &&& forall|i: int|
            0 <= i < self.trees@.len() ==> self.map@.contains_key(
                #[trigger] self.trees@[i].spec_hash(),
            ) && self.map@[self.trees@[i].spec_hash()] as int == i
    }

    /// Well-formedness: the store is a DAG of correctly hashed, deduplicated
    /// nodes, with one cached formula per node when caching is enabled.
    pub open spec fn wf(self) -> bool {
        &&& nodes_wf(self.trees@)
        &&& hashes_wf(self.trees@)
        &&& self.map_wf()
        &&& match self.spec_exprs() {
            Some(es) => es.len() == self.trees@.len(),
            None => true,
        }
    }

    /// Constructs a new empty `ProofTreeArray`. If `enable_exprs` is true, it
    /// will construct and cache an expression for each step.
    pub fn new(enable_exprs: bool) -> (r: Self)
        ensures
            r.wf(),
            r.trees@.len() == 0,
            r.qed == 0,
            r.spec_indent().len() == 0,
            r.spec_exprs() == if enable_exprs {
                Some(Seq::<Seq<u8>>::empty())
            } else {
                None::<Seq<Seq<u8>>>
            },
    {
        let r = Self {
            map: HashMap::new(),
            trees: Vec::new(),
            exprs: if enable_exprs {
                Some(Vec::new())
            } else {
                None
            },
            qed: 0,
            indent: Vec::new(),
        };
        proof {
            if enable_exprs {
                assert(r.spec_exprs() =~= Some(Seq::<Seq<u8>>::empty()));
            }
        }
        r
    }

    /// Get the index of a proof tree in the array, going by its structural
    /// hash alone.
    pub fn index(&self, tree: &ProofTree) -> (r: Option<usize>)
        requires
            self.wf(),
        ensures
            match r {
                Some(i) => i < self.trees@.len() && self.trees@[i as int].spec_hash()
                    == tree.spec_hash(),
                None => !has_hash(self.trees@, tree.spec_hash()),
            },
    {
        match self.map.get(&tree.hash) {
            Some(i) => Some(*i),
            None => None,
        }
    }

    /// Get the minimum distance from each step to the QED step, as last
    /// computed by `calc_indent`.
    pub fn indent(&self) -> (r: &Vec<u16>)
        ensures
            r@ == self.spec_indent(),
    {
        &self.indent
    }

    /// Returns the list of cached expressions, one per proof tree, if
    /// expression construction is enabled.
    pub fn exprs(&self) -> (r: Option<&Vec<Vec<u8>>>)
        ensures
            match r {
                Some(es) => self.spec_exprs() == Some(es@.map(|i: int, e: Vec<u8>| e@)),
                None => self.spec_exprs() is None,
            },
    {
        self.exprs.as_ref()
    }

    /// Appends one obtained hypothesis index to an accumulator of
    /// hypotheses; the store itself is untouched.
    pub fn push(&mut self, hyps: &mut Vec<usize>, hyp: usize)
        ensures
            final(hyps)@ == old(hyps)@.push(hyp),
            *final(self) == *old(self),
    {
        hyps.push(hyp);
    }

    /// Insert a node described by `(addr, trees)` in the store: if a node
    /// with the same structural hash is already present its index is
    /// returned and nothing changes; otherwise the node is appended, and its
    /// formula is decoded from `pool[expr_start..expr_end]` and cached when
    /// caching is enabled.
    pub fn build(
        &mut self,
        addr: StatementAddress,
        trees: Vec<usize>,
        pool: &[u8],
        expr_start: usize,
        expr_end: usize,
    ) -> (r: usize)
        requires
            old(self).wf(),
            children_in_range(old(self).trees@, trees@),
            old(self).spec_exprs() is Some ==> expr_start <= expr_end <= pool@.len(),
        ensures
            final(self).wf(),
            insert_effect(old(self).trees@, final(self).trees@, addr, trees@, r as int),
            r < final(self).trees@.len(),
            final(self).qed == old(self).qed,
            final(self).spec_indent() == old(self).spec_indent(),
            match old(self).spec_exprs() {
                None => final(self).spec_exprs() is None,
                Some(es) => final(self).spec_exprs() == if has_hash(
                    old(self).trees@,
                    desc_hash(old(self).trees@, addr, trees@),
                ) {
                    Some(es)
                } else {
                    Some(es.push(decode_expr(pool@.subrange(expr_start as int, expr_end as int))))
                },
            },
    {
        let tree = ProofTree::new(self, addr, trees);
        match self.index(&tree) {
            Some(ix) => ix,
            None => {
                let ix = self.trees.len();
                self.map.insert(tree.hash, ix);
                proof {
                    assert(self.trees@ == old(self).trees@);
                }
                self.trees.push(tree);
                if self.exprs.is_some() {
                    let u_expr = decode_formula(pool, expr_start, expr_end);
                    match &mut self.exprs {
                        Some(es) => es.push(u_expr),
                        None => {},
                    }
                }
                proof {
                    let ts0 = old(self).trees@;
                    let ts1 = self.trees@;
                    lemma_desc_hash_prefix(ts0, ts1, addr, ts1[ix as int].children@);
                    assert forall|i: int, j: int|
                        0 <= i < ts1.len() && 0 <= j < ts1[i].children@.len() implies (
                    #[trigger] ts1[i].children@[j] as int) < i by {
                        if i < ts0.len() {
                            assert(ts1[i] == ts0[i]);
                        }
                    }
                    assert forall|i: int|
                        0 <= i < ts1.len() implies (#[trigger] ts1[i].spec_hash()) == desc_hash(
                        ts1,
                        ts1[i].address,
                        ts1[i].children@,
                    ) by {
                        if i < ts0.len() {
                            assert(ts1[i] == ts0[i]);
                            lemma_desc_hash_prefix(ts0, ts1, ts0[i].address, ts0[i].children@);
                        }
                    }
                    assert forall|i: int, j: int| 0 <= i < j < ts1.len() implies (
                    #[trigger] ts1[i].spec_hash()) != (#[trigger] ts1[j].spec_hash()) by {
                        if j < ts0.len() {
                            assert(ts1[i] == ts0[i] && ts1[j] == ts0[j]);
                        } else {
                            assert(ts1[i] == ts0[i]);
                            assert(!has_hash(ts0, ts1[j].spec_hash()));
                        }
                    }
                    match old(self).spec_exprs() {
                        Some(es) => {
                            assert(self.spec_exprs() =~= Some(
                                es.push(
                                    decode_expr(pool@.subrange(expr_start as int, expr_end as int)),
                                ),
                            ));
                        },
                        None => {},
                    }
                }
                ix
            },
        }
    }
}

/// The number of occurrences of `t` in the child list `cs`.
pub open spec fn occ(cs: Seq<usize>, t: int) -> nat
    decreases cs.len(),
{
    if cs.len() == 0 {
        0
    } else {
        occ(cs.drop_last(), t) + if cs.last() as int == t {
            1nat
        } else {
            0nat
        }
    }
}

/// The number of references to `t` from the children lists of the first `n`
/// nodes of `ts`.
pub open spec fn occ_upto(ts: Seq<ProofTree>, t: int, n: int) -> nat
    decreases n,
{
    if n <= 0 {
        0
    } else {
        occ_upto(ts, t, n - 1) + occ(ts[n - 1].children@, t)
    }
}

/// The in-degree of node `t`: how many times any node lists it as a child.
pub open spec fn in_degree(ts: Seq<ProofTree>, t: int) -> nat {
    occ_upto(ts, t, ts.len() as int)
}

/// The number of child references held by the first `n` nodes of `ts`.
pub open spec fn edges_upto(ts: Seq<ProofTree>, n: int) -> nat
    decreases n,
{
    if n <= 0 {
        0
    } else {
        edges_upto(ts, n - 1) + ts[n - 1].children@.len()
    }
}

/// The number of child references in the whole store.
pub open spec fn total_edges(ts: Seq<ProofTree>) -> nat {
    edges_upto(ts, ts.len() as int)
}

proof fn lemma_occ_le_len(cs: Seq<usize>, t: int)
    ensures
        occ(cs, t) <= cs.len(),
    decreases cs.len(),
{
    if cs.len() > 0 {
        lemma_occ_le_len(cs.drop_last(), t);
    }
}

proof fn lemma_occ_upto_bound(ts: Seq<ProofTree>, t: int, n: int)
    requires
        n <= ts.len(),
    ensures
        occ_upto(ts, t, n) <= edges_upto(ts, n),
    decreases n,
{
    if n > 0 {
        lemma_occ_upto_bound(ts, t, n - 1);
        lemma_occ_le_len(ts[n - 1].children@, t);
    }
}

proof fn lemma_edges_upto_mono(ts: Seq<ProofTree>, a: int, b: int)
    requires
        0 <= a <= b,
    ensures
        edges_upto(ts, a) <= edges_upto(ts, b),
    decreases b - a,
{
    if a < b {
        lemma_edges_upto_mono(ts, a, b - 1);
    }
}

impl ProofTreeArray {
    /// Get the number of parents of each step in the proof: `out[t]` is the
    /// number of child references pointing at `t`.
    pub fn count_parents(&self) -> (out: Vec<usize>)
        requires
            self.wf(),
            total_edges(self.trees@) <= usize::MAX,
        ensures
            out@.len() == self.trees@.len(),
            forall|t: int|
                0 <= t < self.trees@.len() ==> #[trigger] out@[t] == in_degree(self.trees@, t),
    {
        let ghost ts = self.trees@;
        let n = self.trees.len();
        let mut out: Vec<usize> = Vec::new();
        while out.len() < n
            invariant
                out@.len() <= n,
                forall|t: int| 0 <= t < out@.len() ==> #[trigger] out@[t] == 0,
            decreases n - out@.len(),
        {
            out.push(0);
        }
        let mut i: usize = 0;
        while i < n
            invariant
                self.wf(),
                ts == self.trees@,
                total_edges(ts) <= usize::MAX,
                i <= n,
                n == ts.len(),
                out@.len() == n,
                forall|t: int| 0 <= t < n ==> #[trigger] out@[t] == occ_upto(ts, t, i as int),
            decreases n - i,
        {
            let clen = self.trees[i].children.len();
            let mut j: usize = 0;
            while j < clen
                invariant
                    self.wf(),
                    ts == self.trees@,
                    total_edges(ts) <= usize::MAX,
                    i < n,
                    n == ts.len(),
                    out@.len() == n,
                    j <= clen,
                    clen == ts[i as int].children@.len(),
                    forall|t: int|
                        0 <= t < n ==> #[trigger] out@[t] == occ_upto(ts, t, i as int) + occ(
                            ts[i as int].children@.take(j as int),
                            t,
                        ),
                decreases clen - j,
            {
                let hix = self.trees[i].children[j];
                proof {
                    assert((ts[i as int].children@[j as int] as int) < i);
                    let pref = ts[i as int].children@.take(j as int);
                    lemma_occ_le_len(pref, hix as int);
                    lemma_occ_upto_bound(ts, hix as int, i as int);
                    lemma_edges_upto_mono(ts, i as int + 1, n as int);
                    assert(edges_upto(ts, i as int + 1) == edges_upto(ts, i as int) + clen);
                    assert(out@[hix as int] < usize::MAX);
                }
                let v = out[hix];
                out[hix] = v + 1;
                j += 1;
                proof {
                    let pref1 = ts[i as int].children@.take(j as int);
                    assert(pref1.drop_last() =~= ts[i as int].children@.take(j - 1));
                    assert(pref1.last() == ts[i as int].children@[j - 1]);
                    assert forall|t: int| 0 <= t < n implies #[trigger] out@[t] == occ_upto(
                        ts,
                        t,
                        i as int,
                    ) + occ(pref1, t) by {
                        assert(occ(pref1, t) == occ(ts[i as int].children@.take(j - 1), t) + if hix
                            as int == t {
                            1nat
                        } else {
                            0nat
                        });
                    }
                }
            }
            i += 1;
            proof {
                assert(ts[i - 1].children@.take(clen as int) =~= ts[i - 1].children@);
            }
        }
        out
    }

    /// Finds the shortest distance from the `qed` step to each node in the
    /// proof tree, in edges, by relaxing the out-edges of every node in
    /// decreasing index order (children always precede their parents, so this
    /// agrees with a breadth-first search from `qed`). Unreachable nodes keep
    /// the sentinel `u16::MAX`. Idempotent: only the stored distances change.
    #[verifier::rlimit(100)]
    #[verifier::spinoff_prover]
    pub fn calc_indent(&mut self)
        requires
            old(self).wf(),
            old(self).qed < old(self).trees@.len(),
            old(self).trees@.len() < 0xffff,
        ensures
            final(self).wf(),
            final(self).trees@ == old(self).trees@,
            final(self).qed == old(self).qed,
            final(self).map@ == old(self).map@,
            final(self).spec_exprs() == old(self).spec_exprs(),
            final(self).spec_indent().len() == old(self).trees@.len(),
            forall|m: int|
                0 <= m < old(self).trees@.len() ==> indent_correct(
                    old(self).trees@,
                    old(self).qed as int,
                    m,
                    #[trigger] final(self).spec_indent()[m],
                ),
    {
        let ghost ts = self.trees@;
        let ghost qed = self.qed as int;
        let n = self.trees.len();
        let mut dist: Vec<u16> = Vec::new();
        while dist.len() < n
            invariant
                dist@.len() <= n,
                forall|m: int| 0 <= m < dist@.len() ==> #[trigger] dist@[m] == 0xffffu16,
            decreases n - dist@.len(),
        {
            dist.push(0xffff);
        }
        dist[self.qed] = 0;
        proof {
            crate::indent::lemma_path_zero(ts, qed);
        }
        let mut ix = self.qed + 1;
        while ix > 0
            invariant
                ts == self.trees@,
                qed == self.qed as int,
                nodes_wf(ts),
                n == ts.len(),
                dist@.len() == n,
                ix <= qed + 1,
                qed < n < 0xffff,
                dist@[qed] == 0,
                forall|m: int|
                    0 <= m < n && #[trigger] dist@[m] != 0xffff ==> has_path(
                        ts,
                        qed,
                        m,
                        dist@[m] as nat,
                    ),
                forall|p: int, j: int|
                    ix <= p < n && dist@[p] != 0xffff && 0 <= j < ts[p].children@.len() ==> dist@[(
                    #[trigger] ts[p].children@[j]) as int] as int <= dist@[p] + 1,
            decreases ix,
        {
            ix -= 1;
            if dist[ix] != 0xffff {
                let d = dist[ix];
                proof {
                    lemma_path_bound(ts, qed, ix as int, d as nat);
                }
                let clen = self.trees[ix].children.len();
                let mut j: usize = 0;
                while j < clen
                    invariant
                        ts == self.trees@,
                        qed == self.qed as int,
                        nodes_wf(ts),
                        n == ts.len(),
                        dist@.len() == n,
                        ix < n,
                        j <= clen,
                        qed < n < 0xffff,
                        clen == ts[ix as int].children@.len(),
                        dist@[ix as int] == d,
                        d != 0xffff,
                        d as int + ix as int <= qed,
                        dist@[qed] == 0,
                        forall|m: int|
                            0 <= m < n && #[trigger] dist@[m] != 0xffff ==> has_path(
                                ts,
                                qed,
                                m,
                                dist@[m] as nat,
                            ),
                        forall|p: int, jj: int|
                            ix + 1 <= p < n && dist@[p] != 0xffff && 0 <= jj
                                < ts[p].children@.len() ==> dist@[(
                            #[trigger] ts[p].children@[jj]) as int] as int <= dist@[p] + 1,
                        forall|jj: int|
                            0 <= jj < j ==> dist@[(#[trigger] ts[ix as int].children@[jj]) as int]
                                as int <= d + 1,
                    decreases clen - j,
                {
                    let c = self.trees[ix].children[j];
                    proof {
                        assert((ts[ix as int].children@[j as int] as int) < ix);
                    }
                    let dc = dist[c];
                    if d + 1 < dc {
                        dist[c] = d + 1;
                        proof {
                            lemma_path_snoc(ts, qed, ix as int, d as nat, j as int);
                            assert(has_path(ts, qed, c as int, (d as nat + 1) as nat));
                            assert(dist@[c as int] as nat == d as nat + 1);
                        }
                    }
                    j += 1;
                }
            }
        }
        proof {
            assert forall|m: int| 0 <= m < n implies indent_correct(ts, qed, m, dist@[m]) by {
                if reachable(ts, qed, m) {
                    let k = choose|k: nat| has_path(ts, qed, m, k);
                    lemma_dist_minimal(ts, qed, dist@, m, k);
                    lemma_path_bound(ts, qed, m, k);
                    assert(dist@[m] as int <= k && k <= qed);
                    assert(dist@[m] != 0xffff);
                    assert(has_path(ts, qed, m, dist@[m] as nat));
                    assert forall|k2: nat| #[trigger] has_path(ts, qed, m, k2) implies dist@[m]
                        as nat <= k2 by {
                        lemma_dist_minimal(ts, qed, dist@, m, k2);
                    }
                } else {
                    if dist@[m] != 0xffff {
                        assert(has_path(ts, qed, m, dist@[m] as nat));
                        assert(reachable(ts, qed, m));
                    }
                }
            }
        }
        self.indent = dist;
    }
}

impl Default for ProofTreeArray {
    /// An empty store with expression caching enabled.
    fn default() -> (r: Self)
        ensures
            r.wf(),
            r.trees@.len() == 0,
            r.qed == 0,
            r.spec_indent().len() == 0,
            r.spec_exprs() == Some(Seq::<Seq<u8>>::empty()),
    {
        Self::new(true)
    }
}

/// One decoded byte of a formula: a byte with its high bit set denotes a
/// math symbol, emitted with the high bit cleared and followed by a
/// separator; other bytes are emitted verbatim.
pub open spec fn expand_byte(b: u8) -> Seq<u8> {
    if b < 128 {
        seq![b]
    } else {
        seq![(b & 0x7f) as u8, 32u8]
    }
}

/// The decoding of a formula byte range, before trailing-separator trimming.
pub open spec fn decode_body(s: Seq<u8>) -> Seq<u8>
    decreases s.len(),
{
    if s.len() == 0 {
        Seq::empty()
    } else {
        decode_body(s.drop_last()) + expand_byte(s.last())
    }
}

/// The decoded formula: the expansion of every byte, with the trailing
/// separator, if one was produced, trimmed.
pub open spec fn decode_expr(s: Seq<u8>) -> Seq<u8> {
    if s.len() > 0 && s.last() >= 128 {
        decode_body(s).drop_last()
    } else {
        decode_body(s)
    }
}

/// Reconstructs a human-readable formula from the byte range
/// `pool[start..end]`, expanding high-bit symbol bytes.
fn decode_formula(pool: &[u8], start: usize, end: usize) -> (r: Vec<u8>)
    requires
        start <= end <= pool@.len(),
    ensures
        r@ == decode_expr(pool@.subrange(start as int, end as int)),
{
    let mut out: Vec<u8> = Vec::new();
    let mut i = start;
    while i < end
        invariant
            start <= i <= end <= pool@.len(),
            out@ == decode_body(pool@.subrange(start as int, i as int)),
        decreases end - i,
    {
        let b = pool[i];
        if b < 128 {
            out.push(b);
        } else {
            out.push(b & 0x7f);
            out.push(32);
        }
        i += 1;
        proof {
            let sub = pool@.subrange(start as int, i as int);
            assert(sub.drop_last() =~= pool@.subrange(start as int, i - 1));
            assert(sub.last() == pool@[i - 1]);
            assert(out@ =~= decode_body(sub));
        }
    }
    proof {
        assert(pool@.subrange(start as int, i as int) == pool@.subrange(
            start as int,
            end as int,
        ));
    }
    if end > start && pool[end - 1] >= 128 {
        proof {
            let s = pool@.subrange(start as int, end as int);
            assert(s.last() == pool@[end - 1]);
            assert(decode_body(s).len() > 0);
        }
        out.pop();
    }
    out
}

} // verus!
