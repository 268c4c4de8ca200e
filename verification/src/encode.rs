//! Step encoders: the compacting (backreferencing) RPN encoder and the lazy
//! streaming encoder, both specified against the same post-order traversal
//! of the proof DAG.

use vstd::prelude::*;

use crate::indent::reachable;
use crate::tree::{nodes_wf, ProofTree, ProofTreeArray, StatementAddress};

verus! {

/// A strongly typed representation of one step of an RPN proof.
#[derive(Copy, Clone, Debug, PartialEq, Eq)]
pub enum RPNStep {
    /// A "normal" step is one that defines a new formula not seen before in
    /// this proof.
    Normal {
        /// A number by which to refer to this step in later steps, or zero
        /// if it is not going to be reused.
        fwdref: usize,
        /// The theorem being applied at this step.
        addr: StatementAddress,
        /// The address of the parent of this step, and the index of this
        /// hypothesis among its siblings; `None` outside explicit mode and
        /// for the root step.
        hyp: Option<(StatementAddress, usize)>,
    },
    /// A backreference step, which copies the subtree and formula from a
    /// previously derived subtree.
    Backref {
        /// A reference to the previously numbered step.
        backref: usize,
        /// The address of the parent of this step, and the index of this
        /// hypothesis among its siblings; `None` outside explicit mode and
        /// for the root step.
        hyp: Option<(StatementAddress, usize)>,
    },
}

impl RPNStep {
    /// The hypothesis label attached to this step.
    pub open spec fn hyp_of(self) -> Option<(StatementAddress, usize)> {
        match self {
            RPNStep::Normal { fwdref, addr, hyp } => hyp,
            RPNStep::Backref { backref, hyp } => hyp,
        }
    }

    /// The forward-reference number this step introduces, zero if none.
    pub open spec fn fwdref_of(self) -> usize {
        match self {
            RPNStep::Normal { fwdref, addr, hyp } => fwdref,
            RPNStep::Backref { backref, hyp } => 0,
        }
    }
}

/// The state threaded through a compacting traversal: each node's assigned
/// backreference number (zero meaning none yet), and how many numbers have
/// been handed out so far.
pub ghost struct EncState {
    /// Assigned backreference numbers, one slot per node.
    pub backrefs: Seq<usize>,
    /// How many backreference numbers exist.
    pub count: nat,
}

/// The nodes that already carry a backreference number.
pub open spec fn assigned_set(b: Seq<usize>) -> Set<int> {
    Set::new(|i: int| 0 <= i < b.len() && b[i] != 0)
}

/// Encoder-state sanity: one slot per node, the counter counts the assigned
/// nodes, only non-leaf nodes are ever assigned, and no number beyond the
/// counter is in use.
pub open spec fn st_inv(ts: Seq<ProofTree>, st: EncState) -> bool {
    &&& st.backrefs.len() == ts.len()
    &&& st.count == assigned_set(st.backrefs).len()
    &&& forall|i: int|
        0 <= i < ts.len() && #[trigger] st.backrefs[i] != 0 ==> ts[i].children@.len() > 0
    &&& forall|i: int| 0 <= i < ts.len() ==> #[trigger] st.backrefs[i] <= st.count
    &&& forall|i: int, j: int|
        0 <= i < j < ts.len() && st.backrefs[i] != 0 ==> #[trigger] st.backrefs[i]
            != #[trigger] st.backrefs[j]
}

/// The compacted emission for the subtree rooted at `step`, visited with
/// encoder state `st`: a backreference if `step` already has a number,
/// otherwise the emissions of all children in order followed by a `Normal`
/// step, which receives the next number when `step` is shared (more than one
/// parent) and is not a leaf.
pub open spec fn emit_at(
    ts: Seq<ProofTree>,
    parents: Seq<usize>,
    expl: bool,
    step: int,
    hyp: Option<(StatementAddress, usize)>,
    st: EncState,
) -> (Seq<RPNStep>, EncState)
    decreases step, 1int, 0int,
        when nodes_wf(ts) && 0 <= step < ts.len()
{
    if st.backrefs[step] != 0 {
        (seq![RPNStep::Backref { backref: st.backrefs[step], hyp }], st)
    } else {
        let (outc, st1) = emit_children(ts, parents, expl, step, 0, st);
        if parents[step] > 1 && ts[step].children@.len() > 0 {
            let num = (st1.count + 1) as usize;
            (
                outc.push(RPNStep::Normal { fwdref: num, addr: ts[step].address, hyp }),
                EncState { backrefs: st1.backrefs.update(step, num), count: st1.count + 1 },
            )
        } else {
            (outc.push(RPNStep::Normal { fwdref: 0, addr: ts[step].address, hyp }), st1)
        }
    }
}

/// The compacted emissions of the children of `parent` from position `j`
/// onward, threading the encoder state left to right.
pub open spec fn emit_children(
    ts: Seq<ProofTree>,
    parents: Seq<usize>,
    expl: bool,
    parent: int,
    j: int,
    st: EncState,
) -> (Seq<RPNStep>, EncState)
    decreases parent, 0int, ts[parent].children@.len() - j,
        when nodes_wf(ts) && 0 <= parent < ts.len() && 0 <= j
{
    if j >= ts[parent].children@.len() {
        (Seq::empty(), st)
    } else {
        let c = ts[parent].children@[j] as int;
        let hypc = if expl {
            Some((ts[parent].address, j as usize))
        } else {
            None
        };
        let (out1, st1) = emit_at(ts, parents, expl, c, hypc, st);
        let (out2, st2) = emit_children(ts, parents, expl, parent, j + 1, st1);
        (out1 + out2, st2)
    }
}

/// The encoder state before any step is emitted.
pub open spec fn initial_state(n: nat) -> EncState {
    EncState { backrefs: Seq::new(n, |i: int| 0usize), count: 0 }
}

/// The whole compacted encoding of the proof rooted at `qed`.
pub open spec fn rpn_encoding(ts: Seq<ProofTree>, parents: Seq<usize>, expl: bool, qed: int) -> Seq<
    RPNStep,
> {
    emit_at(ts, parents, expl, qed, None, initial_state(ts.len())).0
}

proof fn lemma_assigned_card(b: Seq<usize>)
    ensures
        assigned_set(b).finite(),
        assigned_set(b).len() <= b.len(),
{
    let r = vstd::set_lib::set_int_range(0, b.len() as int);
    vstd::set_lib::lemma_int_range(0, b.len() as int);
    assert(assigned_set(b).subset_of(r));
    vstd::set_lib::lemma_len_subset(assigned_set(b), r);
}

proof fn lemma_assigned_card_without(b: Seq<usize>, x: int)
    requires
        0 <= x < b.len(),
        b[x] == 0,
    ensures
        assigned_set(b).finite(),
        assigned_set(b).len() < b.len(),
{
    let r = vstd::set_lib::set_int_range(0, b.len() as int);
    vstd::set_lib::lemma_int_range(0, b.len() as int);
    let r2 = r.remove(x);
    vstd::set::axiom_set_remove_len(r, x);
    assert(assigned_set(b).subset_of(r2));
    vstd::set_lib::lemma_len_subset(assigned_set(b), r2);
    vstd::set_lib::lemma_len_subset(assigned_set(b), r);
}

/// How one node's emission changes the encoder state: the invariant is kept,
/// numbers never disappear or change, the counter never decreases, nodes
/// above `step` are untouched, and any fresh number is above the old counter.
pub proof fn lemma_emit_at_state(
    ts: Seq<ProofTree>,
    parents: Seq<usize>,
    expl: bool,
    step: int,
    hyp: Option<(StatementAddress, usize)>,
    st: EncState,
)
    requires
        nodes_wf(ts),
        ts.len() <= usize::MAX,
        0 <= step < ts.len(),
        st_inv(ts, st),
    ensures
        ({
            let (out, st1) = emit_at(ts, parents, expl, step, hyp, st);
            &&& st_inv(ts, st1)
            &&& st1.count >= st.count
            &&& forall|i: int|
                0 <= i < ts.len() && #[trigger] st.backrefs[i] != 0 ==> st1.backrefs[i]
                    == st.backrefs[i]
            &&& forall|i: int|
                0 <= i < ts.len() && #[trigger] st1.backrefs[i] != st.backrefs[i] ==> st.backrefs[i]
                    == 0 && st1.backrefs[i] > st.count
            &&& forall|i: int| step < i < ts.len() ==> #[trigger] st1.backrefs[i] == st.backrefs[i]
            &&& out.len() >= 1
        }),
    decreases step, 1int, 0int,
{
    if st.backrefs[step] != 0 {
    } else {
        lemma_emit_children_state(ts, parents, expl, step, 0, st);
        let (outc, st1) = emit_children(ts, parents, expl, step, 0, st);
        if parents[step] > 1 && ts[step].children@.len() > 0 {
            let num = (st1.count + 1) as usize;
            let b2 = st1.backrefs.update(step, num);
            lemma_assigned_card_without(st1.backrefs, step);
            assert(st1.count < ts.len() <= usize::MAX);
            assert(num == st1.count + 1);
            assert(num != 0);
            assert(assigned_set(b2) =~= assigned_set(st1.backrefs).insert(step));
            vstd::set::axiom_set_insert_len(assigned_set(st1.backrefs), step);
            assert(assigned_set(b2).len() == st1.count + 1);
        }
    }
}

/// How a run of child emissions changes the encoder state; the same clauses
/// as [`lemma_emit_at_state`], with everything at or above `parent` untouched.
pub proof fn lemma_emit_children_state(
    ts: Seq<ProofTree>,
    parents: Seq<usize>,
    expl: bool,
    parent: int,
    j: int,
    st: EncState,
)
    requires
        nodes_wf(ts),
        ts.len() <= usize::MAX,
        0 <= parent < ts.len(),
        0 <= j,
        st_inv(ts, st),
    ensures
        ({
            let (out, st1) = emit_children(ts, parents, expl, parent, j, st);
            &&& st_inv(ts, st1)
            &&& st1.count >= st.count
            &&& forall|i: int|
                0 <= i < ts.len() && #[trigger] st.backrefs[i] != 0 ==> st1.backrefs[i]
                    == st.backrefs[i]
            &&& forall|i: int|
                0 <= i < ts.len() && #[trigger] st1.backrefs[i] != st.backrefs[i] ==> st.backrefs[i]
                    == 0 && st1.backrefs[i] > st.count
            &&& forall|i: int| parent <= i < ts.len() ==> #[trigger] st1.backrefs[i]
                == st.backrefs[i]
        }),
    decreases parent, 0int, ts[parent].children@.len() - j,
{
    if j >= ts[parent].children@.len() {
    } else {
        let c = ts[parent].children@[j] as int;
        assert(c < parent);
        let hypc = if expl {
            Some((ts[parent].address, j as usize))
        } else {
            None
        };
        lemma_emit_at_state(ts, parents, expl, c, hypc, st);
        let (out1, st1) = emit_at(ts, parents, expl, c, hypc, st);
        lemma_emit_children_state(ts, parents, expl, parent, j + 1, st1);
    }
}

impl ProofTreeArray {
    /// Write the proof as an RPN sequence with backrefs: the post-order
    /// traversal from the QED step in which a shared non-leaf subtree is
    /// emitted once, numbered, and thereafter referenced by number.
    pub fn to_rpn(&self, parents: &[usize], explicit: bool) -> (out: Vec<RPNStep>)
        requires
            self.wf(),
            self.qed < self.trees@.len(),
            parents@.len() == self.trees@.len(),
        ensures
            out@ == rpn_encoding(self.trees@, parents@, explicit, self.qed as int),
    {
        let n = self.trees.len();
        proof {
            assert(self.trees@.len() <= usize::MAX);
        }
        let mut out: Vec<RPNStep> = Vec::new();
        let mut backrefs: Vec<usize> = Vec::new();
        while backrefs.len() < n
            invariant
                backrefs@.len() <= n,
                forall|i: int| 0 <= i < backrefs@.len() ==> #[trigger] backrefs@[i] == 0,
            decreases n - backrefs@.len(),
        {
            backrefs.push(0);
        }
        let mut count: usize = 0;
        proof {
            assert(backrefs@ =~= initial_state(self.trees@.len()).backrefs);
            assert(assigned_set(backrefs@) =~= Set::<int>::empty());
            assert(st_inv(self.trees@, EncState { backrefs: backrefs@, count: count as nat }));
        }
        output_step(self, parents, explicit, self.qed, None, &mut out, &mut backrefs, &mut count);
        out
    }
}

/// One step of the compacting traversal: emits the subtree at `step` into
/// `out`, updating the backreference table and counter exactly as the
/// specification traversal does.
fn output_step(
    arr: &ProofTreeArray,
    parents: &[usize],
    expl: bool,
    step: usize,
    hyp: Option<(StatementAddress, usize)>,
    out: &mut Vec<RPNStep>,
    backrefs: &mut Vec<usize>,
    count: &mut usize,
)
    requires
        nodes_wf(arr.trees@),
        arr.trees@.len() <= usize::MAX,
        step < arr.trees@.len(),
        parents@.len() == arr.trees@.len(),
        st_inv(arr.trees@, EncState { backrefs: old(backrefs)@, count: *old(count) as nat }),
    ensures
        ({
            let (o, st1) = emit_at(
                arr.trees@,
                parents@,
                expl,
                step as int,
                hyp,
                EncState { backrefs: old(backrefs)@, count: *old(count) as nat },
            );
            &&& final(out)@ == old(out)@ + o
            &&& final(backrefs)@ == st1.backrefs
            &&& *final(count) as nat == st1.count
            &&& st_inv(arr.trees@, st1)
        }),
    decreases step,
{
    let ghost ts = arr.trees@;
    let ghost st0 = EncState { backrefs: backrefs@, count: *count as nat };
    let b = backrefs[step];
    if b != 0 {
        out.push(RPNStep::Backref { backref: b, hyp });
        proof {
            assert(final(out)@ =~= old(out)@ + emit_at(ts, parents@, expl, step as int, hyp, st0).0);
        }
    } else {
        let clen = arr.trees[step].children.len();
        let ghost full = emit_children(ts, parents@, expl, step as int, 0, st0);
        proof {
            lemma_emit_children_state(ts, parents@, expl, step as int, 0, st0);
        }
        let ghost base = out@;
        let mut j: usize = 0;
        while j < clen
            invariant
                nodes_wf(ts),
                ts == arr.trees@,
                ts.len() <= usize::MAX,
                step < ts.len(),
                parents@.len() == ts.len(),
                j <= clen,
                clen == ts[step as int].children@.len(),
                full == emit_children(ts, parents@, expl, step as int, 0, st0),
                st_inv(ts, EncState { backrefs: backrefs@, count: *count as nat }),
                backrefs@[step as int] == 0,
                out@.len() >= base.len(),
                out@.subrange(0, base.len() as int) == base,
                ({
                    let cur = EncState { backrefs: backrefs@, count: *count as nat };
                    let rest = emit_children(ts, parents@, expl, step as int, j as int, cur);
                    &&& full.0 == out@.subrange(base.len() as int, out@.len() as int) + rest.0
                    &&& full.1 == rest.1
                }),
            decreases clen - j,
        {
            let hix = arr.trees[step].children[j];
            proof {
                assert((ts[step as int].children@[j as int] as int) < step);
            }
            let n_hyp = if expl {
                Some((arr.trees[step].address, j))
            } else {
                None
            };
            let ghost cur = EncState { backrefs: backrefs@, count: *count as nat };
            output_step(arr, parents, expl, hix, n_hyp, out, backrefs, count);
            proof {
                lemma_emit_at_state(ts, parents@, expl, hix as int, n_hyp, cur);
            }
            j += 1;
            proof {
                let cur2 = EncState { backrefs: backrefs@, count: *count as nat };
                let (o1, s1) = emit_at(ts, parents@, expl, hix as int, n_hyp, cur);
                assert(s1 == cur2);
                let rest_old = emit_children(ts, parents@, expl, step as int, j - 1, cur);
                let rest_new = emit_children(ts, parents@, expl, step as int, j as int, cur2);
                assert(rest_old.0 == o1 + rest_new.0 && rest_old.1 == rest_new.1);
                assert(full.0 =~= out@.subrange(base.len() as int, out@.len() as int)
                    + rest_new.0);
                assert(out@.subrange(0, base.len() as int) =~= base);
            }
        }
        proof {
            let cur = EncState { backrefs: backrefs@, count: *count as nat };
            assert(emit_children(ts, parents@, expl, step as int, j as int, cur).0
                =~= Seq::<RPNStep>::empty());
            assert(full.0 =~= out@.subrange(base.len() as int, out@.len() as int));
            assert(full.1 == cur);
        }
        let fwdref: usize;
        if parents[step] > 1 && clen > 0 {
            proof {
                lemma_assigned_card_without(backrefs@, step as int);
                assert((*count as int) < ts.len());
            }
            let c = *count + 1;
            *count = c;
            backrefs[step] = c;
            fwdref = c;
            proof {
                assert(assigned_set(backrefs@) =~= assigned_set(full.1.backrefs).insert(
                    step as int,
                ));
                vstd::set::axiom_set_insert_len(assigned_set(full.1.backrefs), step as int);
                lemma_assigned_card(full.1.backrefs);
            }
        } else {
            fwdref = 0;
        }
        out.push(RPNStep::Normal { fwdref, addr: arr.trees[step].address, hyp });
        proof {
            let (o, st1) = emit_at(ts, parents@, expl, step as int, hyp, st0);
            assert(out@ =~= base + o);
            assert(backrefs@ =~= st1.backrefs);
        }
    }
}

/// The full, uncompacted emission for the subtree at `step`: every child
/// subtree in order, re-expanded on every visit, followed by a `Normal` step
/// for the node itself, never carrying a forward reference.
pub open spec fn unfold_at(
    ts: Seq<ProofTree>,
    expl: bool,
    step: int,
    hyp: Option<(StatementAddress, usize)>,
) -> Seq<RPNStep>
    decreases step, 1int, 0int,
        when nodes_wf(ts) && 0 <= step < ts.len()
{
    unfold_children(ts, expl, step, 0).push(
        RPNStep::Normal { fwdref: 0, addr: ts[step].address, hyp },
    )
}

/// The uncompacted emissions of the children of `parent` from position `j`.
pub open spec fn unfold_children(ts: Seq<ProofTree>, expl: bool, parent: int, j: int) -> Seq<
    RPNStep,
>
    decreases parent, 0int, ts[parent].children@.len() - j,
        when nodes_wf(ts) && 0 <= parent < ts.len() && 0 <= j
{
    if j >= ts[parent].children@.len() {
        Seq::empty()
    } else {
        let c = ts[parent].children@[j] as int;
        let hypc = if expl {
            Some((ts[parent].address, j as usize))
        } else {
            None
        };
        unfold_at(ts, expl, c, hypc) + unfold_children(ts, expl, parent, j + 1)
    }
}

/// The walk frames are in range, every non-top frame's counter points at the
/// child whose frame sits above it, and the top counter is at most one past
/// the last child.
pub open spec fn iter_wf(ts: Seq<ProofTree>, stack: Seq<(usize, usize)>) -> bool {
    &&& forall|k: int| 0 <= k < stack.len() ==> (#[trigger] stack[k].0 as int) < ts.len()
    &&& forall|k: int|
        0 <= k < stack.len() - 1 ==> (#[trigger] stack[k].1 as int) < ts[stack[k].0 as int].children@.len()
            && ts[stack[k].0 as int].children@[stack[k].1 as int] == stack[k + 1].0
    &&& stack.len() > 0 ==> stack.last().1 as int <= ts[stack.last().0 as int].children@.len()
}

/// The steps a walk with the given stack still has to produce: the top
/// frame's unexpanded children, then its node, then each lower frame resumed
/// one child further on. On the top frame the child at the current counter
/// is still pending; on lower frames it is the frame above.
pub open spec fn rem_stack(
    ts: Seq<ProofTree>,
    expl: bool,
    stack: Seq<(usize, usize)>,
    first: bool,
) -> Seq<RPNStep>
    decreases stack.len(),
{
    if stack.len() == 0 {
        Seq::empty()
    } else {
        let ix = stack.last().0 as int;
        let start = if first {
            stack.last().1 as int
        } else {
            stack.last().1 + 1
        };
        let hyp = if stack.len() >= 2 && expl {
            Some((ts[stack[stack.len() - 2].0 as int].address, stack[stack.len() - 2].1))
        } else {
            None
        };
        unfold_children(ts, expl, ix, start).push(
            RPNStep::Normal { fwdref: 0, addr: ts[ix].address, hyp },
        ) + rem_stack(ts, expl, stack.drop_last(), false)
    }
}

/// Descending into the pending child leaves the remaining steps unchanged.
proof fn lemma_rem_push(ts: Seq<ProofTree>, expl: bool, stack: Seq<(usize, usize)>)
    requires
        nodes_wf(ts),
        iter_wf(ts, stack),
        stack.len() > 0,
        (stack.last().1 as int) < ts[stack.last().0 as int].children@.len(),
    ensures
        ({
            let hix = ts[stack.last().0 as int].children@[stack.last().1 as int];
            rem_stack(ts, expl, stack.push((hix, 0usize)), true) == rem_stack(ts, expl, stack, true)
        }),
{
    let ix = stack.last().0 as int;
    let c = stack.last().1 as int;
    let hix = ts[ix].children@[c];
    let s2 = stack.push((hix, 0usize));
    assert(s2.drop_last() =~= stack);
    assert(s2.last() == (hix, 0usize));
    assert(s2[s2.len() - 2] == stack.last());
    let hypc = if expl {
        Some((ts[ix].address, c as usize))
    } else {
        None
    };
    assert(c as usize == stack.last().1);
    let top_node = RPNStep::Normal { fwdref: 0, addr: ts[hix as int].address, hyp: hypc };
    assert(rem_stack(ts, expl, s2, true) == unfold_children(ts, expl, hix as int, 0).push(top_node)
        + rem_stack(ts, expl, stack, false));
    assert(unfold_children(ts, expl, ix, c) == unfold_at(ts, expl, hix as int, hypc)
        + unfold_children(ts, expl, ix, c + 1));
    assert(unfold_at(ts, expl, hix as int, hypc) == unfold_children(ts, expl, hix as int, 0).push(
        top_node,
    ));
    let hyp_ix = if stack.len() >= 2 && expl {
        Some((ts[stack[stack.len() - 2].0 as int].address, stack[stack.len() - 2].1))
    } else {
        None
    };
    let ix_node = RPNStep::Normal { fwdref: 0, addr: ts[ix].address, hyp: hyp_ix };
    assert(rem_stack(ts, expl, stack, true) == unfold_children(ts, expl, ix, c).push(ix_node)
        + rem_stack(ts, expl, stack.drop_last(), false));
    assert(rem_stack(ts, expl, stack, false) == unfold_children(ts, expl, ix, c + 1).push(ix_node)
        + rem_stack(ts, expl, stack.drop_last(), false));
    assert(rem_stack(ts, expl, s2, true) =~= rem_stack(ts, expl, stack, true));
}

/// An iterator which loops over the steps of the proof in tree order (with
/// repetition for duplicate subtrees).
#[derive(Debug)]
pub struct NormalIter<'a> {
    /// The proof being walked.
    pub arr: &'a ProofTreeArray,
    /// Whether hypothesis labels are attached to each step.
    pub explicit: bool,
    /// The walk stack: a node and the index of its next unexpanded child.
    pub stack: Vec<(usize, usize)>,
}

impl<'a> NormalIter<'a> {
    /// The walk is well formed over its proof array.
    pub open spec fn wf_iter(self) -> bool {
        &&& nodes_wf(self.arr.trees@)
        &&& iter_wf(self.arr.trees@, self.stack@)
    }

    /// The steps this walk has yet to produce.
    pub open spec fn remaining(self) -> Seq<RPNStep> {
        rem_stack(self.arr.trees@, self.explicit, self.stack@, true)
    }

    /// Produce the next step of the proof in normal/uncompressed order, or
    /// `None` once the walk is exhausted. Each call performs one unit of
    /// progress, so consumption can stop early at no cost.
    pub fn next(&mut self) -> (r: Option<RPNStep>)
        requires
            old(self).wf_iter(),
        ensures
            final(self).wf_iter(),
            final(self).arr == old(self).arr,
            final(self).explicit == old(self).explicit,
            match r {
                Some(s) => old(self).remaining() == seq![s] + final(self).remaining(),
                None => old(self).remaining().len() == 0 && final(self).remaining().len() == 0,
            },
    {
        let ghost ts = self.arr.trees@;
        loop
            invariant
                self.wf_iter(),
                ts == self.arr.trees@,
                self.arr == old(self).arr,
                self.explicit == old(self).explicit,
                rem_stack(ts, self.explicit, self.stack@, true) == old(self).remaining(),
            decreases (if self.stack@.len() == 0 {
                0int
            } else {
                self.stack@.last().0 as int + 1
            }),
        {
            let sl = self.stack.len();
            if sl == 0 {
                return None;
            }
            let (ix, c) = self.stack[sl - 1];
            let clen = self.arr.trees[ix].children.len();
            if c < clen {
                let hix = self.arr.trees[ix].children[c];
                let ghost s_prev = self.stack@;
                proof {
                    lemma_rem_push(ts, self.explicit, s_prev);
                    assert((ts[ix as int].children@[c as int] as int) < ix);
                }
                self.stack.push((hix, 0));
                proof {
                    assert(self.stack@ =~= s_prev.push((hix, 0usize)));
                    assert forall|k: int| 0 <= k < self.stack@.len() - 1 implies (
                    #[trigger] self.stack@[k].1 as int) < ts[self.stack@[k].0 as int].children@.len()
                        && ts[self.stack@[k].0 as int].children@[self.stack@[k].1 as int]
                        == self.stack@[k + 1].0 by {
                        if k < s_prev.len() - 1 {
                            assert(s_prev[k] == self.stack@[k]);
                        } else {
                            assert(self.stack@[k] == (ix, c));
                        }
                    }
                    assert(iter_wf(ts, self.stack@));
                }
            } else {
                let ghost s_old = self.stack@;
                let addr = self.arr.trees[ix].address;
                self.stack.pop();
                proof {
                    assert(self.stack@ =~= s_old.drop_last());
                }
                let hyp: Option<(StatementAddress, usize)>;
                if self.stack.len() > 0 {
                    let sl2 = self.stack.len();
                    let (lix, i) = self.stack[sl2 - 1];
                    hyp = if self.explicit {
                        Some((self.arr.trees[lix].address, i))
                    } else {
                        None
                    };
                    let cl2 = self.arr.trees[lix].children.len();
                    proof {
                        assert(s_old[sl2 - 1] == (lix, i));
                        assert((i as int) < ts[lix as int].children@.len());
                    }
                    self.stack[sl2 - 1] = (lix, i + 1);
                } else {
                    hyp = None;
                }
                let step = RPNStep::Normal { fwdref: 0, addr, hyp };
                proof {
                    let stk2 = self.stack@;
                    assert(unfold_children(ts, self.explicit, ix as int, c as int)
                        =~= Seq::<RPNStep>::empty());
                    assert(rem_stack(ts, self.explicit, s_old, true) == seq![step] + rem_stack(
                        ts,
                        self.explicit,
                        s_old.drop_last(),
                        false,
                    ));
                    if s_old.len() >= 2 {
                        let sd = s_old.drop_last();
                        assert(stk2 =~= sd.update(sd.len() - 1, (sd.last().0, (sd.last().1 + 1) as usize)));
                        assert(stk2.drop_last() =~= sd.drop_last());
                        assert(stk2.last().0 == sd.last().0 && stk2.last().1 == sd.last().1 + 1);
                        if stk2.len() >= 2 {
                            assert(stk2[stk2.len() - 2] == sd[sd.len() - 2]);
                        }
                        assert(rem_stack(ts, self.explicit, stk2, true) =~= rem_stack(
                            ts,
                            self.explicit,
                            sd,
                            false,
                        ));
                        assert(iter_wf(ts, stk2));
                    } else {
                        assert(stk2.len() == 0);
                        assert(rem_stack(ts, self.explicit, s_old.drop_last(), false).len() == 0);
                    }
                }
                return Some(step);
            }
        }
    }
}

impl ProofTreeArray {
    /// Produce an iterator over the steps of the proof in normal or
    /// uncompressed mode. (Because this can potentially be *very* long, the
    /// steps are not stored but streamed.)
    pub fn normal_iter(&self, explicit: bool) -> (it: NormalIter<'_>)
        requires
            self.wf(),
            self.qed < self.trees@.len(),
        ensures
            it.wf_iter(),
            it.arr == self,
            it.explicit == explicit,
            it.remaining() == unfold_at(
                self.trees@,
                explicit,
                self.qed as int,
                None::<(StatementAddress, usize)>,
            ),
    {
        let mut stack: Vec<(usize, usize)> = Vec::new();
        stack.push((self.qed, 0));
        let it = NormalIter { arr: self, explicit, stack };
        proof {
            let ts = self.trees@;
            let q = self.qed as int;
            let stk = it.stack@;
            assert(stk.len() == 1 && stk.last() == (self.qed, 0usize));
            assert(stk.drop_last() =~= Seq::<(usize, usize)>::empty());
            let node = RPNStep::Normal {
                fwdref: 0,
                addr: ts[q].address,
                hyp: None::<(StatementAddress, usize)>,
            };
            assert(rem_stack(ts, explicit, stk.drop_last(), false) =~= Seq::<RPNStep>::empty());
            assert(rem_stack(ts, explicit, stk, true) == unfold_children(ts, explicit, q, 0).push(
                node,
            ) + rem_stack(ts, explicit, stk.drop_last(), false));
            assert(unfold_at(ts, explicit, q, None::<(StatementAddress, usize)>)
                == unfold_children(ts, explicit, q, 0).push(node));
            assert(it.remaining() =~= unfold_at(
                ts,
                explicit,
                q,
                None::<(StatementAddress, usize)>,
            ));
        }
        it
    }
}

impl RPNStep {
    /// Whether this step is a backreference.
    pub open spec fn is_backref_step(self) -> bool {
        self is Backref
    }

    /// The backreference target of this step, zero for a normal step.
    pub open spec fn backref_target(self) -> usize {
        match self {
            RPNStep::Normal { fwdref, addr, hyp } => 0,
            RPNStep::Backref { backref, hyp } => backref,
        }
    }
}

/// The hypothesis labels an emission carries: every step of it ends with the
/// label handed down for the node itself, inner steps are labeled exactly in
/// explicit mode.
pub proof fn lemma_emit_at_hyps(
    ts: Seq<ProofTree>,
    parents: Seq<usize>,
    expl: bool,
    step: int,
    hyp: Option<(StatementAddress, usize)>,
    st: EncState,
)
    requires
        nodes_wf(ts),
        0 <= step < ts.len(),
    ensures
        ({
            let (out, st1) = emit_at(ts, parents, expl, step, hyp, st);
            &&& out.len() >= 1
            &&& out.last().hyp_of() == hyp
            &&& expl ==> forall|k: int|
                0 <= k < out.len() - 1 ==> (#[trigger] out[k].hyp_of()) is Some
            &&& (!expl && hyp is None) ==> forall|k: int|
                0 <= k < out.len() ==> (#[trigger] out[k].hyp_of()) is None
        }),
    decreases step, 1int, 0int,
{
    if st.backrefs[step] != 0 {
    } else {
        lemma_emit_children_hyps(ts, parents, expl, step, 0, st);
        let (outc, st1) = emit_children(ts, parents, expl, step, 0, st);
        let (out, _) = emit_at(ts, parents, expl, step, hyp, st);
        assert(out.last().hyp_of() == hyp);
        assert forall|k: int| 0 <= k < out.len() - 1 implies out[k] == outc[k] by {}
    }
}

/// The hypothesis labels of a run of child emissions: in explicit mode every
/// step carries a label, otherwise none does.
pub proof fn lemma_emit_children_hyps(
    ts: Seq<ProofTree>,
    parents: Seq<usize>,
    expl: bool,
    parent: int,
    j: int,
    st: EncState,
)
    requires
        nodes_wf(ts),
        0 <= parent < ts.len(),
        0 <= j,
    ensures
        ({
            let (out, st1) = emit_children(ts, parents, expl, parent, j, st);
            &&& expl ==> forall|k: int| 0 <= k < out.len() ==> (#[trigger] out[k].hyp_of()) is Some
            &&& !expl ==> forall|k: int| 0 <= k < out.len() ==> (#[trigger] out[k].hyp_of()) is None
        }),
    decreases parent, 0int, ts[parent].children@.len() - j,
{
    if j >= ts[parent].children@.len() {
    } else {
        let c = ts[parent].children@[j] as int;
        assert(c < parent);
        let hypc = if expl {
            Some((ts[parent].address, j as usize))
        } else {
            None
        };
        lemma_emit_at_hyps(ts, parents, expl, c, hypc, st);
        let (out1, st1) = emit_at(ts, parents, expl, c, hypc, st);
        lemma_emit_children_hyps(ts, parents, expl, parent, j + 1, st1);
        if expl {
            let (out, _) = emit_children(ts, parents, expl, parent, j, st);
            assert forall|k: int| 0 <= k < out.len() implies (#[trigger] out[k].hyp_of())
                is Some by {
                if k < out1.len() - 1 {
                    assert(out[k] == out1[k]);
                } else if k == out1.len() - 1 {
                    assert(out[k] == out1.last());
                }
            }
        }
    }
}

/// Labeling consistency for a whole encoding: with labeling on, every step
/// except the final QED step carries a hypothesis label and the final step
/// carries none; with labeling off, no step carries one.
pub proof fn lemma_labeling_consistency(ts: Seq<ProofTree>, parents: Seq<usize>, qed: int)
    requires
        nodes_wf(ts),
        0 <= qed < ts.len(),
    ensures
        ({
            let out = rpn_encoding(ts, parents, true, qed);
            &&& out.len() >= 1
            &&& out.last().hyp_of() is None
            &&& forall|k: int| 0 <= k < out.len() - 1 ==> (#[trigger] out[k].hyp_of()) is Some
        }),
        ({
            let out = rpn_encoding(ts, parents, false, qed);
            forall|k: int| 0 <= k < out.len() ==> (#[trigger] out[k].hyp_of()) is None
        }),
{
    lemma_emit_at_hyps(ts, parents, true, qed, None, initial_state(ts.len()));
    lemma_emit_at_hyps(ts, parents, false, qed, None, initial_state(ts.len()));
}

/// With no subtree shared, the compacting emission never assigns a number
/// and coincides with the streaming emission, state included.
pub proof fn lemma_emit_at_no_sharing(
    ts: Seq<ProofTree>,
    parents: Seq<usize>,
    expl: bool,
    step: int,
    hyp: Option<(StatementAddress, usize)>,
    st: EncState,
)
    requires
        nodes_wf(ts),
        0 <= step < ts.len(),
        st.backrefs.len() == ts.len(),
        forall|i: int| 0 <= i < ts.len() ==> (#[trigger] st.backrefs[i]) == 0,
        forall|i: int| 0 <= i < ts.len() ==> (#[trigger] parents[i]) <= 1,
    ensures
        emit_at(ts, parents, expl, step, hyp, st) == (unfold_at(ts, expl, step, hyp), st),
    decreases step, 1int, 0int,
{
    lemma_emit_children_no_sharing(ts, parents, expl, step, 0, st);
    let (outc, st1) = emit_children(ts, parents, expl, step, 0, st);
    assert(outc == unfold_children(ts, expl, step, 0) && st1 == st);
    let (out, st2) = emit_at(ts, parents, expl, step, hyp, st);
    assert(out == unfold_at(ts, expl, step, hyp));
}

/// Child-run version of [`lemma_emit_at_no_sharing`].
pub proof fn lemma_emit_children_no_sharing(
    ts: Seq<ProofTree>,
    parents: Seq<usize>,
    expl: bool,
    parent: int,
    j: int,
    st: EncState,
)
    requires
        nodes_wf(ts),
        0 <= parent < ts.len(),
        0 <= j,
        st.backrefs.len() == ts.len(),
        forall|i: int| 0 <= i < ts.len() ==> (#[trigger] st.backrefs[i]) == 0,
        forall|i: int| 0 <= i < ts.len() ==> (#[trigger] parents[i]) <= 1,
    ensures
        emit_children(ts, parents, expl, parent, j, st) == (
            unfold_children(ts, expl, parent, j),
            st,
        ),
    decreases parent, 0int, ts[parent].children@.len() - j,
{
    if j >= ts[parent].children@.len() {
    } else {
        let c = ts[parent].children@[j] as int;
        assert(c < parent);
        let hypc = if expl {
            Some((ts[parent].address, j as usize))
        } else {
            None
        };
        lemma_emit_at_no_sharing(ts, parents, expl, c, hypc, st);
        lemma_emit_children_no_sharing(ts, parents, expl, parent, j + 1, st);
    }
}

/// Streaming/compacted agreement: on a proof in which no node has more than
/// one incoming reference, the compacted encoding equals the streamed,
/// fully unfolded one, step for step (every forward reference is zero).
pub proof fn lemma_streaming_compacted_agree(
    ts: Seq<ProofTree>,
    parents: Seq<usize>,
    expl: bool,
    qed: int,
)
    requires
        nodes_wf(ts),
        0 <= qed < ts.len(),
        forall|i: int| 0 <= i < ts.len() ==> (#[trigger] parents[i]) <= 1,
    ensures
        rpn_encoding(ts, parents, expl, qed) == unfold_at(
            ts,
            expl,
            qed,
            None::<(StatementAddress, usize)>,
        ),
{
    lemma_emit_at_no_sharing(ts, parents, expl, qed, None, initial_state(ts.len()));
}

/// Some step of `out` introduces the forward-reference number `n`.
pub open spec fn introduces(out: Seq<RPNStep>, n: nat) -> bool {
    exists|k: int| 0 <= k < out.len() && (#[trigger] out[k].fwdref_of()) as nat == n
}

/// Numbering facts for one node's emission: fresh forward-reference numbers
/// lie strictly between the old and new counter values, are introduced in
/// increasing order and cover that range without gaps; every backreference
/// targets a number at most the counter at its position, and that number
/// belongs to an assigned, non-leaf node.
pub proof fn lemma_emit_at_numbering(
    ts: Seq<ProofTree>,
    parents: Seq<usize>,
    expl: bool,
    step: int,
    hyp: Option<(StatementAddress, usize)>,
    st: EncState,
)
    requires
        nodes_wf(ts),
        ts.len() <= usize::MAX,
        0 <= step < ts.len(),
        st_inv(ts, st),
    ensures
        ({
            let (out, st1) = emit_at(ts, parents, expl, step, hyp, st);
            &&& forall|k: int|
                0 <= k < out.len() && (#[trigger] out[k].fwdref_of()) != 0 ==> st.count
                    < out[k].fwdref_of() as nat <= st1.count
            &&& forall|n: nat| st.count < n <= st1.count ==> #[trigger] introduces(out, n)
            &&& forall|k1: int, k2: int|
                0 <= k1 < k2 < out.len() && out[k1].fwdref_of() != 0 && out[k2].fwdref_of() != 0
                    ==> (#[trigger] out[k1].fwdref_of()) < (#[trigger] out[k2].fwdref_of())
            &&& forall|k: int|
                0 <= k < out.len() && (#[trigger] out[k].is_backref_step()) ==> {
                    &&& 1 <= out[k].backref_target()
                    &&& out[k].backref_target() as nat <= st.count || exists|k2: int|
                        0 <= k2 < k && (#[trigger] out[k2].fwdref_of()) == out[k].backref_target()
                    &&& exists|i: int|
                        0 <= i < ts.len() && (#[trigger] st1.backrefs[i]) == out[k].backref_target()
                            && ts[i].children@.len() > 0
                }
        }),
    decreases step, 1int, 0int,
{
    lemma_emit_at_state(ts, parents, expl, step, hyp, st);
    let (out, st1) = emit_at(ts, parents, expl, step, hyp, st);
    if st.backrefs[step] != 0 {
        assert(out.len() == 1);
        assert(out[0].is_backref_step());
        assert(out[0].backref_target() == st.backrefs[step]);
        assert(st1.backrefs[step] == st.backrefs[step]);
    } else {
        lemma_emit_children_state(ts, parents, expl, step, 0, st);
        lemma_emit_children_numbering(ts, parents, expl, step, 0, st);
        let (outc, stc) = emit_children(ts, parents, expl, step, 0, st);
        if parents[step] > 1 && ts[step].children@.len() > 0 {
            let num = (stc.count + 1) as usize;
            assert(stc.count < ts.len() <= usize::MAX) by {
                lemma_assigned_card_without(stc.backrefs, step);
            }
            assert(num as nat == stc.count + 1 && num != 0);
            assert(out == outc.push(RPNStep::Normal { fwdref: num, addr: ts[step].address, hyp }));
            assert(out[out.len() - 1].fwdref_of() == num);
            assert forall|k: int| 0 <= k < out.len() && (#[trigger] out[k].fwdref_of()) != 0
                implies st.count < out[k].fwdref_of() as nat <= st1.count by {
                if k < outc.len() {
                    assert(out[k] == outc[k]);
                }
            }
            assert forall|n: nat| st.count < n <= st1.count implies #[trigger] introduces(
                out,
                n,
            ) by {
                if n <= stc.count {
                    assert(introduces(outc, n));
                    let k = choose|k: int|
                        0 <= k < outc.len() && (#[trigger] outc[k].fwdref_of()) as nat == n;
                    assert(out[k].fwdref_of() as nat == n);
                } else {
                    assert(out[out.len() - 1].fwdref_of() as nat == n);
                }
            }
            assert forall|k1: int, k2: int|
                0 <= k1 < k2 < out.len() && out[k1].fwdref_of() != 0 && out[k2].fwdref_of() != 0
                implies (#[trigger] out[k1].fwdref_of()) < (#[trigger] out[k2].fwdref_of()) by {
                if k2 < outc.len() {
                    assert(out[k1] == outc[k1] && out[k2] == outc[k2]);
                } else {
                    assert(out[k1] == outc[k1]);
                    assert(outc[k1].fwdref_of() as nat <= stc.count);
                }
            }
            assert forall|k: int| 0 <= k < out.len() && (#[trigger] out[k].is_backref_step())
                implies {
                &&& 1 <= out[k].backref_target()
                &&& out[k].backref_target() as nat <= st.count || exists|k2: int|
                    0 <= k2 < k && (#[trigger] out[k2].fwdref_of()) == out[k].backref_target()
                &&& exists|i: int|
                    0 <= i < ts.len() && (#[trigger] st1.backrefs[i]) == out[k].backref_target()
                        && ts[i].children@.len() > 0
            } by {
                assert(k < outc.len() && out[k] == outc[k]);
                if outc[k].backref_target() as nat > st.count {
                    let k2 = choose|k2: int|
                        0 <= k2 < k && (#[trigger] outc[k2].fwdref_of()) == outc[k].backref_target();
                    assert(out[k2].fwdref_of() == out[k].backref_target());
                }
                let i = choose|i: int|
                    0 <= i < ts.len() && (#[trigger] stc.backrefs[i]) == outc[k].backref_target()
                        && ts[i].children@.len() > 0;
                assert(stc.backrefs[step] == st.backrefs[step]);
                assert(i != step);
                assert(st1.backrefs[i] == stc.backrefs[i]);
            }
        } else {
            assert(out == outc.push(RPNStep::Normal { fwdref: 0, addr: ts[step].address, hyp }));
            assert(st1 == stc);
            assert forall|k: int| 0 <= k < out.len() && (#[trigger] out[k].fwdref_of()) != 0
                implies st.count < out[k].fwdref_of() as nat <= st1.count by {
                if k < outc.len() {
                    assert(out[k] == outc[k]);
                }
            }
            assert forall|n: nat| st.count < n <= st1.count implies #[trigger] introduces(
                out,
                n,
            ) by {
                assert(introduces(outc, n));
                let k = choose|k: int|
                    0 <= k < outc.len() && (#[trigger] outc[k].fwdref_of()) as nat == n;
                assert(out[k].fwdref_of() as nat == n);
            }
            assert forall|k1: int, k2: int|
                0 <= k1 < k2 < out.len() && out[k1].fwdref_of() != 0 && out[k2].fwdref_of() != 0
                implies (#[trigger] out[k1].fwdref_of()) < (#[trigger] out[k2].fwdref_of()) by {
                assert(out[k1] == outc[k1] && k2 < outc.len() && out[k2] == outc[k2]);
            }
            assert forall|k: int| 0 <= k < out.len() && (#[trigger] out[k].is_backref_step())
                implies {
                &&& 1 <= out[k].backref_target()
                &&& out[k].backref_target() as nat <= st.count || exists|k2: int|
                    0 <= k2 < k && (#[trigger] out[k2].fwdref_of()) == out[k].backref_target()
                &&& exists|i: int|
                    0 <= i < ts.len() && (#[trigger] st1.backrefs[i]) == out[k].backref_target()
                        && ts[i].children@.len() > 0
            } by {
                assert(k < outc.len() && out[k] == outc[k]);
                if outc[k].backref_target() as nat > st.count {
                    let k2 = choose|k2: int|
                        0 <= k2 < k && (#[trigger] outc[k2].fwdref_of()) == outc[k].backref_target();
                    assert(out[k2].fwdref_of() == out[k].backref_target());
                }
            }
        }
    }
}

/// Child-run version of [`lemma_emit_at_numbering`].
pub proof fn lemma_emit_children_numbering(
    ts: Seq<ProofTree>,
    parents: Seq<usize>,
    expl: bool,
    parent: int,
    j: int,
    st: EncState,
)
    requires
        nodes_wf(ts),
        ts.len() <= usize::MAX,
        0 <= parent < ts.len(),
        0 <= j,
        st_inv(ts, st),
    ensures
        ({
            let (out, st1) = emit_children(ts, parents, expl, parent, j, st);
            &&& forall|k: int|
                0 <= k < out.len() && (#[trigger] out[k].fwdref_of()) != 0 ==> st.count
                    < out[k].fwdref_of() as nat <= st1.count
            &&& forall|n: nat| st.count < n <= st1.count ==> #[trigger] introduces(out, n)
            &&& forall|k1: int, k2: int|
                0 <= k1 < k2 < out.len() && out[k1].fwdref_of() != 0 && out[k2].fwdref_of() != 0
                    ==> (#[trigger] out[k1].fwdref_of()) < (#[trigger] out[k2].fwdref_of())
            &&& forall|k: int|
                0 <= k < out.len() && (#[trigger] out[k].is_backref_step()) ==> {
                    &&& 1 <= out[k].backref_target()
                    &&& out[k].backref_target() as nat <= st.count || exists|k2: int|
                        0 <= k2 < k && (#[trigger] out[k2].fwdref_of()) == out[k].backref_target()
                    &&& exists|i: int|
                        0 <= i < ts.len() && (#[trigger] st1.backrefs[i]) == out[k].backref_target()
                            && ts[i].children@.len() > 0
                }
        }),
    decreases parent, 0int, ts[parent].children@.len() - j,
{
    if j >= ts[parent].children@.len() {
    } else {
        let c = ts[parent].children@[j] as int;
        assert(c < parent);
        let hypc = if expl {
            Some((ts[parent].address, j as usize))
        } else {
            None
        };
        lemma_emit_at_state(ts, parents, expl, c, hypc, st);
        lemma_emit_at_numbering(ts, parents, expl, c, hypc, st);
        let (out1, st1) = emit_at(ts, parents, expl, c, hypc, st);
        lemma_emit_children_state(ts, parents, expl, parent, j + 1, st1);
        lemma_emit_children_numbering(ts, parents, expl, parent, j + 1, st1);
        let (out2, st2) = emit_children(ts, parents, expl, parent, j + 1, st1);
        let (out, stz) = emit_children(ts, parents, expl, parent, j, st);
        assert(out == out1 + out2 && stz == st2);
        assert forall|k: int| 0 <= k < out.len() && (#[trigger] out[k].fwdref_of()) != 0
            implies st.count < out[k].fwdref_of() as nat <= st2.count by {
            if k < out1.len() {
                assert(out[k] == out1[k]);
            } else {
                assert(out[k] == out2[k - out1.len()]);
            }
        }
        assert forall|n: nat| st.count < n <= st2.count implies #[trigger] introduces(out, n) by {
            if n <= st1.count {
                assert(introduces(out1, n));
                let k = choose|k: int|
                    0 <= k < out1.len() && (#[trigger] out1[k].fwdref_of()) as nat == n;
                assert(out[k].fwdref_of() as nat == n);
            } else {
                assert(introduces(out2, n));
                let k = choose|k: int|
                    0 <= k < out2.len() && (#[trigger] out2[k].fwdref_of()) as nat == n;
                assert(out[out1.len() + k].fwdref_of() as nat == n);
            }
        }
        assert forall|k1: int, k2: int|
            0 <= k1 < k2 < out.len() && out[k1].fwdref_of() != 0 && out[k2].fwdref_of() != 0
            implies (#[trigger] out[k1].fwdref_of()) < (#[trigger] out[k2].fwdref_of()) by {
            if k2 < out1.len() {
                assert(out[k1] == out1[k1] && out[k2] == out1[k2]);
            } else if k1 >= out1.len() {
                assert(out[k1] == out2[k1 - out1.len()] && out[k2] == out2[k2 - out1.len()]);
            } else {
                assert(out[k1] == out1[k1] && out[k2] == out2[k2 - out1.len()]);
                assert(out1[k1].fwdref_of() as nat <= st1.count);
                assert(st1.count < out2[k2 - out1.len()].fwdref_of() as nat);
            }
        }
        assert forall|k: int| 0 <= k < out.len() && (#[trigger] out[k].is_backref_step()) implies {
            &&& 1 <= out[k].backref_target()
            &&& out[k].backref_target() as nat <= st.count || exists|k2: int|
                0 <= k2 < k && (#[trigger] out[k2].fwdref_of()) == out[k].backref_target()
            &&& exists|i: int|
                0 <= i < ts.len() && (#[trigger] st2.backrefs[i]) == out[k].backref_target()
                    && ts[i].children@.len() > 0
        } by {
            if k < out1.len() {
                assert(out[k] == out1[k]);
                if out1[k].backref_target() as nat > st.count {
                    let k2 = choose|k2: int|
                        0 <= k2 < k && (#[trigger] out1[k2].fwdref_of()) == out1[k].backref_target();
                    assert(out[k2].fwdref_of() == out[k].backref_target());
                }
                let i = choose|i: int|
                    0 <= i < ts.len() && (#[trigger] st1.backrefs[i]) == out1[k].backref_target()
                        && ts[i].children@.len() > 0;
                assert(st1.backrefs[i] != 0);
                assert(st2.backrefs[i] == st1.backrefs[i]);
            } else {
                let kk = k - out1.len();
                assert(out[k] == out2[kk]);
                if out2[kk].backref_target() as nat > st.count {
                    if out2[kk].backref_target() as nat <= st1.count {
                        assert(introduces(out1, out2[kk].backref_target() as nat));
                        let k2 = choose|k2: int|
                            0 <= k2 < out1.len() && (#[trigger] out1[k2].fwdref_of()) as nat
                                == out2[kk].backref_target() as nat;
                        assert(out[k2].fwdref_of() == out[k].backref_target());
                    } else {
                        let k2 = choose|k2: int|
                            0 <= k2 < kk && (#[trigger] out2[k2].fwdref_of()) == out2[kk].backref_target();
                        assert(out[out1.len() + k2].fwdref_of() == out[k].backref_target());
                        assert(out1.len() + k2 < k);
                    }
                }
            }
        }
    }
}

/// Backreference soundness for a whole encoding: every backreference step's
/// target was introduced by an earlier normal step of the same sequence, the
/// introduced numbers are exactly 1, 2, ... in order of first use, and every
/// target belongs to a non-leaf node (leaf exemption).
pub proof fn lemma_backref_soundness(ts: Seq<ProofTree>, parents: Seq<usize>, expl: bool, qed: int)
    requires
        nodes_wf(ts),
        ts.len() <= usize::MAX,
        0 <= qed < ts.len(),
    ensures
        ({
            let out = rpn_encoding(ts, parents, expl, qed);
            let st1 = emit_at(ts, parents, expl, qed, None, initial_state(ts.len())).1;
            &&& forall|k: int|
                0 <= k < out.len() && (#[trigger] out[k].is_backref_step()) ==> exists|k2: int|
                    0 <= k2 < k && (#[trigger] out[k2].fwdref_of()) == out[k].backref_target()
                        && out[k2].fwdref_of() != 0
            &&& forall|k1: int, k2: int|
                0 <= k1 < k2 < out.len() && out[k1].fwdref_of() != 0 && out[k2].fwdref_of() != 0
                    ==> (#[trigger] out[k1].fwdref_of()) < (#[trigger] out[k2].fwdref_of())
            &&& forall|k: int|
                0 <= k < out.len() && (#[trigger] out[k].fwdref_of()) != 0 ==> 1 <= out[k].fwdref_of()
                    as nat <= st1.count
            &&& forall|n: nat| 1 <= n <= st1.count ==> #[trigger] introduces(out, n)
            &&& forall|k: int|
                0 <= k < out.len() && (#[trigger] out[k].is_backref_step()) ==> exists|i: int|
                    0 <= i < ts.len() && (#[trigger] st1.backrefs[i]) == out[k].backref_target()
                        && ts[i].children@.len() > 0
        }),
{
    let st0 = initial_state(ts.len());
    assert(assigned_set(st0.backrefs) =~= Set::<int>::empty());
    assert(st_inv(ts, st0));
    lemma_emit_at_numbering(ts, parents, expl, qed, None, st0);
    let out = rpn_encoding(ts, parents, expl, qed);
    assert forall|k: int| 0 <= k < out.len() && (#[trigger] out[k].is_backref_step())
        implies exists|k2: int|
        0 <= k2 < k && (#[trigger] out[k2].fwdref_of()) == out[k].backref_target()
            && out[k2].fwdref_of() != 0 by {
        assert(out[k].backref_target() as nat > 0);
        let k2 = choose|k2: int|
            0 <= k2 < k && (#[trigger] out[k2].fwdref_of()) == out[k].backref_target();
        assert(out[k2].fwdref_of() != 0);
    }
}

/// Leaf exemption: a node with no children never receives a backreference
/// number, whatever its in-degree.
pub proof fn lemma_leaf_exemption(ts: Seq<ProofTree>, parents: Seq<usize>, expl: bool, qed: int)
    requires
        nodes_wf(ts),
        ts.len() <= usize::MAX,
        0 <= qed < ts.len(),
    ensures
        ({
            let st1 = emit_at(ts, parents, expl, qed, None, initial_state(ts.len())).1;
            forall|i: int|
                0 <= i < ts.len() && ts[i].children@.len() == 0 ==> (#[trigger] st1.backrefs[i])
                    == 0
        }),
{
    let st0 = initial_state(ts.len());
    assert(assigned_set(st0.backrefs) =~= Set::<int>::empty());
    assert(st_inv(ts, st0));
    lemma_emit_at_state(ts, parents, expl, qed, None, st0);
}

/// Node `p` is shared (more than one incoming reference, by the supplied
/// per-node counts) and not a leaf: exactly the nodes eligible for a
/// backreference number.
pub open spec fn shared_non_leaf(ts: Seq<ProofTree>, parents: Seq<usize>, p: int) -> bool {
    &&& 0 <= p < ts.len()
    &&& parents[p] > 1
    &&& ts[p].children@.len() > 0
}

/// The encoder state is closed under reachability: below any node that
/// already has a number, every eligible node has one too.
pub open spec fn closed_st(
    ts: Seq<ProofTree>,
    parents: Seq<usize>,
    st: EncState,
) -> bool {
    forall|i: int, p: int|
        0 <= i < ts.len() && #[trigger] st.backrefs[i] != 0 && #[trigger] reachable(ts, i, p)
            && shared_non_leaf(ts, parents, p) ==> st.backrefs[p] != 0
}

/// After a node is emitted, every eligible node reachable from it has a
/// number, and the state stays closed.
pub proof fn lemma_emit_at_assigns(
    ts: Seq<ProofTree>,
    parents: Seq<usize>,
    expl: bool,
    step: int,
    hyp: Option<(StatementAddress, usize)>,
    st: EncState,
)
    requires
        nodes_wf(ts),
        ts.len() <= usize::MAX,
        0 <= step < ts.len(),
        st_inv(ts, st),
        closed_st(ts, parents, st),
    ensures
        ({
            let (out, st1) = emit_at(ts, parents, expl, step, hyp, st);
            &&& closed_st(ts, parents, st1)
            &&& forall|p: int|
                #[trigger] reachable(ts, step, p) && shared_non_leaf(ts, parents, p)
                    ==> st1.backrefs[p] != 0
        }),
    decreases step, 1int, 0int,
{
    lemma_emit_at_state(ts, parents, expl, step, hyp, st);
    let (out, st1) = emit_at(ts, parents, expl, step, hyp, st);
    if st.backrefs[step] != 0 {
        assert forall|p: int|
            #[trigger] reachable(ts, step, p) && shared_non_leaf(ts, parents, p)
            implies st1.backrefs[p] != 0 by {
            assert(st.backrefs[step] != 0 && reachable(ts, step, p));
        }
    } else {
        lemma_emit_children_state(ts, parents, expl, step, 0, st);
        lemma_emit_children_assigns(ts, parents, expl, step, 0, st);
        let (outc, stc) = emit_children(ts, parents, expl, step, 0, st);
        assert(stc.backrefs[step] == st.backrefs[step]);
        if parents[step] > 1 && ts[step].children@.len() > 0 {
            let num = (stc.count + 1) as usize;
            lemma_assigned_card_without(stc.backrefs, step);
            assert(stc.count < ts.len() <= usize::MAX);
            assert(num != 0);
            assert(st1.backrefs == stc.backrefs.update(step, num));
        } else {
            assert(st1 == stc);
        }
        assert forall|p: int|
            #[trigger] reachable(ts, step, p) && shared_non_leaf(ts, parents, p)
            implies st1.backrefs[p] != 0 by {
            if p == step {
                assert(st1.backrefs[step] != 0);
            } else {
                crate::indent::lemma_reach_step(ts, step, p);
                let j = choose|j: int|
                    0 <= j < ts[step].children@.len() && reachable(
                        ts,
                        (#[trigger] ts[step].children@[j]) as int,
                        p,
                    );
                assert(stc.backrefs[p] != 0);
            }
        }
        assert forall|i: int, p: int|
            0 <= i < ts.len() && #[trigger] st1.backrefs[i] != 0 && #[trigger] reachable(ts, i, p)
                && shared_non_leaf(ts, parents, p) implies st1.backrefs[p] != 0 by {
            if i == step && st.backrefs[step] == 0 && stc.backrefs[step] == 0 {
                assert(reachable(ts, step, p));
            } else {
                assert(stc.backrefs[i] != 0);
                assert(stc.backrefs[p] != 0);
            }
        }
    }
}

/// Child-run version of [`lemma_emit_at_assigns`].
pub proof fn lemma_emit_children_assigns(
    ts: Seq<ProofTree>,
    parents: Seq<usize>,
    expl: bool,
    parent: int,
    j: int,
    st: EncState,
)
    requires
        nodes_wf(ts),
        ts.len() <= usize::MAX,
        0 <= parent < ts.len(),
        0 <= j,
        st_inv(ts, st),
        closed_st(ts, parents, st),
    ensures
        ({
            let (out, st2) = emit_children(ts, parents, expl, parent, j, st);
            &&& closed_st(ts, parents, st2)
            &&& forall|jj: int, p: int|
                j <= jj < ts[parent].children@.len() && #[trigger] reachable(
                    ts,
                    (#[trigger] ts[parent].children@[jj]) as int,
                    p,
                ) && shared_non_leaf(ts, parents, p) ==> st2.backrefs[p] != 0
        }),
    decreases parent, 0int, ts[parent].children@.len() - j,
{
    if j >= ts[parent].children@.len() {
    } else {
        let c = ts[parent].children@[j] as int;
        assert(c < parent);
        let hypc = if expl {
            Some((ts[parent].address, j as usize))
        } else {
            None
        };
        lemma_emit_at_state(ts, parents, expl, c, hypc, st);
        lemma_emit_at_assigns(ts, parents, expl, c, hypc, st);
        let (out1, st1) = emit_at(ts, parents, expl, c, hypc, st);
        lemma_emit_children_state(ts, parents, expl, parent, j + 1, st1);
        lemma_emit_children_assigns(ts, parents, expl, parent, j + 1, st1);
        let (out2, st2) = emit_children(ts, parents, expl, parent, j + 1, st1);
        assert forall|jj: int, p: int|
            j <= jj < ts[parent].children@.len() && #[trigger] reachable(
                ts,
                (#[trigger] ts[parent].children@[jj]) as int,
                p,
            ) && shared_non_leaf(ts, parents, p) implies st2.backrefs[p] != 0 by {
            if jj == j {
                assert(st1.backrefs[p] != 0);
            }
        }
    }
}

/// Every shared, non-leaf node reachable from the QED step receives a
/// backreference number during the compacted encoding, and that number is
/// introduced by a `Normal` step of the output.
pub proof fn lemma_shared_nodes_numbered(
    ts: Seq<ProofTree>,
    parents: Seq<usize>,
    expl: bool,
    qed: int,
)
    requires
        nodes_wf(ts),
        ts.len() <= usize::MAX,
        0 <= qed < ts.len(),
    ensures
        ({
            let out = rpn_encoding(ts, parents, expl, qed);
            let st1 = emit_at(ts, parents, expl, qed, None, initial_state(ts.len())).1;
            forall|p: int|
                #[trigger] reachable(ts, qed, p) && shared_non_leaf(ts, parents, p) ==> {
                    &&& st1.backrefs[p] != 0
                    &&& introduces(out, st1.backrefs[p] as nat)
                }
        }),
{
    let st0 = initial_state(ts.len());
    assert(assigned_set(st0.backrefs) =~= Set::<int>::empty());
    assert(st_inv(ts, st0));
    lemma_emit_at_state(ts, parents, expl, qed, None, st0);
    lemma_emit_at_assigns(ts, parents, expl, qed, None, st0);
    lemma_emit_at_numbering(ts, parents, expl, qed, None, st0);
}

} // verus!
