//! Liveness of virtual registers over the flat representation, and the pass
//! manager that runs analyses by name.
use vstd::prelude::*;
use crate::ir::{wf_ir, wf_op, IROp, Operand};

verus! {

/// Registers read by an operation.
pub open spec fn op_uses(op: IROp) -> Set<usize> {
    match op {
        IROp::Mix((Operand::VirtualRegister(a), Operand::VirtualRegister(b), _)) => set![a, b],
        _ => Set::empty(),
    }
}

/// Register written by an operation.
pub open spec fn op_def(op: IROp) -> usize {
    match op {
        IROp::Store((_, Operand::VirtualRegister(d))) => d,
        IROp::Mix((_, _, Operand::VirtualRegister(d))) => d,
        _ => 0,
    }
}

/// Registers live after operation `i`: those that a later operation reads
/// before any later operation writes them.
pub open spec fn live_out(ops: Seq<IROp>, i: int) -> Set<usize>
    decreases ops.len() - i, 0nat,
{
    if i < 0 || i + 1 >= ops.len() {
        Set::empty()
    } else {
        live_in(ops, i + 1)
    }
}

/// Registers live before operation `i`.
pub open spec fn live_in(ops: Seq<IROp>, i: int) -> Set<usize>
    decreases ops.len() - i, 1nat,
{
    if 0 <= i < ops.len() {
        live_out(ops, i).remove(op_def(ops[i])).union(op_uses(ops[i]))
    } else {
        Set::empty()
    }
}

/// Every register live after an operation of a well-formed sequence is an
/// earlier or the same operation's register.
pub proof fn lemma_live_out_bounded(ops: Seq<IROp>, i: int)
    requires
        wf_ir(ops),
        0 <= i < ops.len(),
    ensures
        forall|v: usize| #[trigger] live_out(ops, i).contains(v) ==> v <= i,
    decreases ops.len() - i,
{
    if i + 1 < ops.len() {
        lemma_live_out_bounded(ops, i + 1);
        assert(wf_op(ops[i + 1], i + 1));
        assert(op_def(ops[i + 1]) == (i + 1) as usize);
        assert(live_out(ops, i) == live_out(ops, i + 1).remove(op_def(ops[i + 1])).union(
            op_uses(ops[i + 1]),
        ));
    } else {
        assert(live_out(ops, i) == Set::<usize>::empty());
    }
}

proof fn lemma_push_contains(s: Seq<usize>, v: usize)
    ensures
        forall|x: usize| #[trigger] s.push(v).contains(x) <==> (s.contains(x) || x == v),
{
    assert forall|x: usize| #[trigger] s.push(v).contains(x) <==> (s.contains(x) || x == v) by {
        if s.push(v).contains(x) {
            let j = choose|j: int| 0 <= j < s.push(v).len() && s.push(v)[j] == x;
            if j < s.len() {
                assert(s[j] == x);
            }
        }
        if s.contains(x) {
            let j = choose|j: int| 0 <= j < s.len() && s[j] == x;
            assert(s.push(v)[j] == x);
        }
        if x == v {
            assert(s.push(v)[s.len() as int] == x);
        }
    }
}

/// The live registers as a strictly increasing list.
pub open spec fn lists_set(v: Seq<usize>, s: Set<usize>) -> bool {
    &&& forall|x: usize| #[trigger] v.contains(x) <==> s.contains(x)
    &&& forall|a: int, b: int| 0 <= a < b < v.len() ==> v[a] < v[b]
}

/// Result of an analysis pass: one register set per operation.
#[derive(Debug)]
pub struct AnalysisResult {
    pub sets_per_ir: Vec<Vec<usize>>,
}

/// Liveness analysis: the registers live after each operation.
#[derive(Debug, Clone, Copy)]
pub struct LivenessAnalysis {}

impl LivenessAnalysis {
    pub fn new() -> (r: Self) {
        LivenessAnalysis {}
    }

    pub fn pass_name(&self) -> (r: &'static str)
        ensures
            r@ == seq!['l', 'i', 'v', 'e', 'n', 'e', 's', 's'],
    {
        proof { reveal_strlit("liveness"); }
        "liveness"
    }

    /// The registers live after each operation, each set as a strictly
    /// increasing list.
    pub fn analyze(&self, ir_to_pass_over: &Vec<IROp>) -> (r: AnalysisResult)
        requires
            wf_ir(ir_to_pass_over@),
        ensures
            r.sets_per_ir@.len() == ir_to_pass_over@.len(),
            forall|i: int|
                0 <= i < r.sets_per_ir@.len() ==> lists_set(
                    #[trigger] r.sets_per_ir@[i]@,
                    live_out(ir_to_pass_over@, i),
                ),
    {
        let ghost ops = ir_to_pass_over@;
        let n = ir_to_pass_over.len();
        let mut live: Vec<bool> = Vec::new();
        let mut t: usize = 0;
        while t < n
            invariant
                t <= n,
                live@.len() == t,
                forall|v: int| 0 <= v < t ==> !live@[v],
            decreases n - t,
        {
            live.push(false);
            t = t + 1;
        }
        let mut rev: Vec<Vec<usize>> = Vec::new();
        let mut i: usize = n;
        while i > 0
            invariant
                n == ops.len(),
                ops == ir_to_pass_over@,
                wf_ir(ops),
                i <= n,
                live@.len() == n,
                rev@.len() == n - i,
                forall|v: int| 0 <= v < n ==> (live@[v] <==> live_out(ops, i - 1).contains(v as usize)),
                forall|k: int|
                    0 <= k < rev@.len() ==> lists_set(
                        #[trigger] rev@[k]@,
                        live_out(ops, n - 1 - k),
                    ),
            decreases i,
        {
            let ix = i - 1;
            proof {
                lemma_live_out_bounded(ops, ix as int);
            }
            let set = bitmap_list(&live);
            rev.push(set);
            // Step from the registers live after `ix` to those live before it.
            let op = ir_to_pass_over[ix];
            proof {
                assert(wf_op(ops[ix as int], ix as int));
            }
            live.set(ix, false);
            match op {
                IROp::Mix((Operand::VirtualRegister(a), Operand::VirtualRegister(b), _)) => {
                    live.set(a, true);
                    live.set(b, true);
                },
                _ => {},
            }
            proof {
                if ix > 0 {
                    assert(live_out(ops, ix - 1) == live_in(ops, ix as int));
                    assert forall|v: int| 0 <= v < n implies (live@[v] <==> live_out(
                        ops,
                        ix - 1,
                    ).contains(v as usize)) by {
                        assert(op_def(ops[ix as int]) == ix);
                    }
                }
            }
            i = ix;
        }
        let mut out: Vec<Vec<usize>> = Vec::new();
        while rev.len() > 0
            invariant
                n == ops.len(),
                out@.len() + rev@.len() == n,
                forall|k: int|
                    0 <= k < rev@.len() ==> lists_set(
                        #[trigger] rev@[k]@,
                        live_out(ops, n - 1 - k),
                    ),
                forall|k: int|
                    0 <= k < out@.len() ==> lists_set(#[trigger] out@[k]@, live_out(ops, k)),
            decreases rev@.len(),
        {
            let set = rev.pop().unwrap();
            out.push(set);
        }
        AnalysisResult { sets_per_ir: out }
    }
}

/// The indices of the `true` entries, in increasing order.
fn bitmap_list(live: &Vec<bool>) -> (r: Vec<usize>)
    ensures
        forall|x: usize| #[trigger] r@.contains(x) <==> (x < live@.len() && live@[x as int]),
        forall|a: int, b: int| 0 <= a < b < r@.len() ==> r@[a] < r@[b],
{
    let mut r: Vec<usize> = Vec::new();
    let mut v: usize = 0;
    while v < live.len()
        invariant
            v <= live@.len(),
            forall|x: usize| #[trigger] r@.contains(x) <==> (x < v && live@[x as int]),
            forall|a: int, b: int| 0 <= a < b < r@.len() ==> r@[a] < r@[b],
            forall|a: int| 0 <= a < r@.len() ==> r@[a] < v,
        decreases live@.len() - v,
    {
        if live[v] {
            let ghost prev = r@;
            r.push(v);
            proof {
                lemma_push_contains(prev, v);
            }
        } else {
            assert forall|x: usize| #[trigger] r@.contains(x) <==> (x < v + 1 && live@[x as int]) by {
                if x == v {
                    if r@.contains(x) {
                        let j = choose|j: int| 0 <= j < r@.len() && r@[j] == x;
                        assert(r@[j] < v);
                    }
                }
            }
        }
        v = v + 1;
    }
    r
}

/// Which analysis a pass manager runs.
#[derive(Debug, Clone, Copy, PartialEq, Eq, Structural)]
pub enum AnalysisPassKind {
    Liveness,
}

/// Runs registered analyses over one operation sequence.
pub struct IRPassManager {
    pub ir_to_pass_over: Vec<IROp>,
    pub analysis_passes: Vec<AnalysisPassKind>,
}

impl IRPassManager {
    pub fn new(ir_to_pass_over: Vec<IROp>, analysis_passes: Vec<AnalysisPassKind>) -> (r: Self)
        ensures
            r.ir_to_pass_over == ir_to_pass_over,
            r.analysis_passes == analysis_passes,
    {
        IRPassManager { ir_to_pass_over, analysis_passes }
    }

    pub fn register_analysis_pass(&mut self, pass_to_register: AnalysisPassKind)
        ensures
            final(self).ir_to_pass_over == old(self).ir_to_pass_over,
            final(self).analysis_passes@ == old(self).analysis_passes@.push(pass_to_register),
    {
        self.analysis_passes.push(pass_to_register);
    }

    /// The result of each registered pass, in order of registration.
    pub fn apply_analysis_passes(&self) -> (r: Vec<(AnalysisPassKind, AnalysisResult)>)
        requires
            wf_ir(self.ir_to_pass_over@),
        ensures
            r@.len() == self.analysis_passes@.len(),
            forall|k: int|
                0 <= k < r@.len() ==> (#[trigger] r@[k]).0 == self.analysis_passes@[k] && (
                r@[k].1.sets_per_ir@.len() == self.ir_to_pass_over@.len() && forall|i: int|
                    0 <= i < r@[k].1.sets_per_ir@.len() ==> lists_set(
                        #[trigger] r@[k].1.sets_per_ir@[i]@,
                        live_out(self.ir_to_pass_over@, i),
                    )),
    {
        let mut results: Vec<(AnalysisPassKind, AnalysisResult)> = Vec::new();
        let mut k: usize = 0;
        while k < self.analysis_passes.len()
            invariant
                k <= self.analysis_passes@.len(),
                wf_ir(self.ir_to_pass_over@),
                results@.len() == k,
                forall|j: int|
                    0 <= j < k ==> (#[trigger] results@[j]).0 == self.analysis_passes@[j] && (
                    results@[j].1.sets_per_ir@.len() == self.ir_to_pass_over@.len() && forall|
                        i: int,
                    |
                        0 <= i < results@[j].1.sets_per_ir@.len() ==> lists_set(
                            #[trigger] results@[j].1.sets_per_ir@[i]@,
                            live_out(self.ir_to_pass_over@, i),
                        )),
            decreases self.analysis_passes@.len() - k,
        {
            let kind = self.analysis_passes[k];
            let result = match kind {
                AnalysisPassKind::Liveness => LivenessAnalysis::new().analyze(&self.ir_to_pass_over),
            };
            results.push((kind, result));
            k = k + 1;
        }
        results
    }
}

} // verus!
