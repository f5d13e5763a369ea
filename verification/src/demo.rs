use vstd::prelude::*;
use crate::error::XimError;
use crate::executor::{Executor, reports};
use crate::ir::{Instruction, OpCode, XimGraph};
use crate::machine::{Fault, MachineState, prepared, run, last_state, write_range, lemma_run_out_len};
use crate::planner::{MemoryPlanner, planned_size, plan_extent, extents_fit};

verus! {

// The benchmark programs: element-wise arithmetic over three input tensors,
// and an optimizer step over weights, gradients and moments.

/// The length of the benchmark tensors.
pub const DEMO_TENSOR_LEN: u32 = 1000000;

/// The inference benchmark: `(a + b) * c` over tensors at 0, 1e6 and 2e6,
/// in Q8.8, or in Q2.6 with `use_i8`.
pub open spec fn inference_ops(use_i8: bool) -> Seq<OpCode> {
    let n = DEMO_TENSOR_LEN;
    if use_i8 {
        seq![
            OpCode::LoadVarVec8(0, 0, n),
            OpCode::LoadVarVec8(1000000, 1000000, n),
            OpCode::LoadVarVec8(2000000, 2000000, n),
            OpCode::AddVec8(0, 1000000, 3000000, n),
            OpCode::MulVec8(3000000, 2000000, 4000000, n),
            OpCode::StoreVec8(4000000, 0, n),
        ]
    } else {
        seq![
            OpCode::LoadVarVec(0, 0, n),
            OpCode::LoadVarVec(1000000, 1000000, n),
            OpCode::LoadVarVec(2000000, 2000000, n),
            OpCode::AddVec(0, 1000000, 3000000, n),
            OpCode::MulVec(3000000, 2000000, 4000000, n),
            OpCode::StoreVec(4000000, 0, n),
        ]
    }
}

/// The training benchmark: weights, gradients and moments at 0, 1e6, 2e6
/// and 3e6, one optimizer step (AIO with i32 moments with `use_aio`, else
/// AdamW), then the new weights are output.
pub open spec fn training_ops(use_aio: bool) -> Seq<OpCode> {
    let n = DEMO_TENSOR_LEN;
    seq![
        OpCode::LoadVarVec(0, 0, n),
        OpCode::LoadVarVec(1000000, 1000000, n),
        OpCode::LoadVarVec(2000000, 2000000, n),
        OpCode::LoadVarVec(3000000, 3000000, n),
        if use_aio {
            OpCode::AIOStep(0, 1000000, 2000000, 3000000, n, 2)
        } else {
            OpCode::AdamWStep(0, 1000000, 2000000, 3000000, n)
        },
        OpCode::StoreVec(0, 0, n),
    ]
}

/// A planned graph of the given instructions.
fn planned_graph(ops: Vec<OpCode>) -> (g: XimGraph)
    requires
        extents_fit(ops@),
    ensures
        g.ops() == ops@,
        g.memory_size == planned_size(ops@),
        g.variable_map@ == Map::<String, u32>::empty(),
{
    let mut g = XimGraph::new();
    let mut k: usize = 0;
    while k < ops.len()
        invariant
            k <= ops@.len(),
            g.ops() == ops@.take(k as int),
            g.instructions@.len() == k,
            g.variable_map@ == Map::<String, u32>::empty(),
        decreases ops.len() - k,
    {
        let ghost before = g.instructions@;
        g.add_instruction(ops[k]);
        assert(g.instructions@ == before.push(Instruction { op: ops@[k as int] }));
        assert(g.ops() =~= ops@.take(k + 1)) by {
            assert(g.ops().len() == k + 1);
            assert forall|j: int| 0 <= j < k + 1 implies #[trigger] g.ops()[j] == ops@.take(k + 1)[j] by {
                if j < k {
                    assert(g.instructions@[j] == before[j]);
                }
            }
        }
        k += 1;
    }
    assert(ops@.take(k as int) =~= ops@);
    MemoryPlanner::plan(&mut g);
    g
}

/// The inference benchmark graph, planned.
pub fn inference_graph(use_i8: bool) -> (g: XimGraph)
    ensures
        g.ops() == inference_ops(use_i8),
        g.memory_size == planned_size(inference_ops(use_i8)),
        g.memory_size == 5000000,
{
    let n = DEMO_TENSOR_LEN;
    let ops = if use_i8 {
        vec![
            OpCode::LoadVarVec8(0, 0, n),
            OpCode::LoadVarVec8(1000000, 1000000, n),
            OpCode::LoadVarVec8(2000000, 2000000, n),
            OpCode::AddVec8(0, 1000000, 3000000, n),
            OpCode::MulVec8(3000000, 2000000, 4000000, n),
            OpCode::StoreVec8(4000000, 0, n),
        ]
    } else {
        vec![
            OpCode::LoadVarVec(0, 0, n),
            OpCode::LoadVarVec(1000000, 1000000, n),
            OpCode::LoadVarVec(2000000, 2000000, n),
            OpCode::AddVec(0, 1000000, 3000000, n),
            OpCode::MulVec(3000000, 2000000, 4000000, n),
            OpCode::StoreVec(4000000, 0, n),
        ]
    };
    assert(ops@ =~= inference_ops(use_i8));
    proof {
        reveal_with_fuel(planned_size, 7);
        let s = inference_ops(use_i8);
        assert(s.drop_last() =~= s.take(5));
        assert(s.take(5).drop_last() =~= s.take(4));
        assert(s.take(4).drop_last() =~= s.take(3));
        assert(s.take(3).drop_last() =~= s.take(2));
        assert(s.take(2).drop_last() =~= s.take(1));
        assert(s.take(1).drop_last() =~= s.take(0));
    }
    planned_graph(ops)
}

/// The training benchmark graph, planned.
pub fn training_graph(use_aio: bool) -> (g: XimGraph)
    ensures
        g.ops() == training_ops(use_aio),
        g.memory_size == planned_size(training_ops(use_aio)),
        g.memory_size == 4000000,
{
    let n = DEMO_TENSOR_LEN;
    let step = if use_aio {
        OpCode::AIOStep(0, 1000000, 2000000, 3000000, n, 2)
    } else {
        OpCode::AdamWStep(0, 1000000, 2000000, 3000000, n)
    };
    let ops = vec![
        OpCode::LoadVarVec(0, 0, n),
        OpCode::LoadVarVec(1000000, 1000000, n),
        OpCode::LoadVarVec(2000000, 2000000, n),
        OpCode::LoadVarVec(3000000, 3000000, n),
        step,
        OpCode::StoreVec(0, 0, n),
    ];
    assert(ops@ =~= training_ops(use_aio));
    proof {
        reveal_with_fuel(planned_size, 7);
        let s = training_ops(use_aio);
        assert(s.drop_last() =~= s.take(5));
        assert(s.take(5).drop_last() =~= s.take(4));
        assert(s.take(4).drop_last() =~= s.take(3));
        assert(s.take(3).drop_last() =~= s.take(2));
        assert(s.take(2).drop_last() =~= s.take(1));
        assert(s.take(1).drop_last() =~= s.take(0));
    }
    planned_graph(ops)
}

/// `iterations` runs of a program on a persistent machine, the outputs of
/// each run written over the front of the inputs of the next.  Returns the
/// machine and the inputs after the last run.
pub open spec fn train_runs(s: MachineState, ops: Seq<OpCode>, size: nat, inp: Seq<i16>, iterations: nat)
    -> Result<(MachineState, Seq<i16>), Fault>
    decreases iterations,
{
    if iterations == 0 {
        Ok((s, inp))
    } else {
        match train_runs(s, ops, size, inp, (iterations - 1) as nat) {
            Ok(p) => match run(prepared(p.0, ops, size), ops, p.1) {
                Ok(t) => Ok((t, write_range(p.1, 0, t.out))),
                Err(f) => Err(f),
            },
            Err(f) => Err(f),
        }
    }
}

/// The machine and inputs that `iterations` runs leave: those after the
/// last run, or, where a run fails, the machine as that run left it and the
/// inputs it ran on.
pub open spec fn train_left(s: MachineState, ops: Seq<OpCode>, size: nat, inp: Seq<i16>, iterations: nat)
    -> (MachineState, Seq<i16>)
    decreases iterations,
{
    if iterations == 0 {
        (s, inp)
    } else {
        match train_runs(s, ops, size, inp, (iterations - 1) as nat) {
            Ok(p) => match run(prepared(p.0, ops, size), ops, p.1) {
                Ok(t) => (t, write_range(p.1, 0, t.out)),
                Err(_) => (last_state(prepared(p.0, ops, size), ops, p.1), p.1),
            },
            Err(_) => train_left(s, ops, size, inp, (iterations - 1) as nat),
        }
    }
}

/// Writes `outputs` over the front of `inputs`.
fn feed_back(inputs: &mut Vec<i16>, outputs: &[i16])
    requires
        outputs@.len() <= old(inputs)@.len(),
    ensures
        final(inputs)@ == write_range(old(inputs)@, 0, outputs@),
{
    let ghost v0 = inputs@;
    let mut i: usize = 0;
    while i < outputs.len()
        invariant
            outputs@.len() <= v0.len(),
            i <= outputs@.len(),
            inputs@.len() == v0.len(),
            forall|k: int| 0 <= k < v0.len() ==> #[trigger] inputs@[k] == (if k < i { outputs@[k] } else { v0[k] }),
        decreases outputs.len() - i,
    {
        inputs.set(i, outputs[i]);
        i += 1;
    }
    assert(inputs@ =~= write_range(v0, 0, outputs@));
}

/// Runs `graph` `iterations` times, writing each run's outputs over the
/// front of the inputs of the next.  Stops at the first failing run.
pub fn train(
    executor: &mut Executor,
    graph: &XimGraph,
    inputs: &mut Vec<i16>,
    outputs: &mut Vec<i16>,
    iterations: usize,
) -> (r: Result<(), XimError>)
    requires
        old(outputs)@.len() <= old(inputs)@.len(),
    ensures
        match train_runs(old(executor).state(old(outputs)@), graph.ops(), graph.memory_size as nat, old(inputs)@, iterations as nat) {
            Ok(p) => r is Ok && final(executor).state(final(outputs)@) == p.0 && final(inputs)@ == p.1,
            Err(f) => r matches Err(e) && reports(e, f),
        },
        (final(executor).state(final(outputs)@), final(inputs)@) == train_left(
            old(executor).state(old(outputs)@),
            graph.ops(),
            graph.memory_size as nat,
            old(inputs)@,
            iterations as nat,
        ),
{
    let ghost s0 = executor.state(outputs@);
    let ghost i0 = inputs@;
    let ghost ops = graph.ops();
    let ghost size = graph.memory_size as nat;
    let mut it: usize = 0;
    while it < iterations
        invariant
            it <= iterations,
            s0 == old(executor).state(old(outputs)@),
            i0 == old(inputs)@,
            ops == graph.ops(),
            size == graph.memory_size as nat,
            outputs@.len() <= inputs@.len(),
            train_runs(s0, ops, size, i0, it as nat) == Ok::<(MachineState, Seq<i16>), Fault>((executor.state(outputs@), inputs@)),
        decreases iterations - it,
    {
        let ghost before = executor.state(outputs@);
        let ghost inp = inputs@;
        let ghost rr = run(prepared(before, ops, size), ops, inp);
        let res = executor.execute(graph, inputs.as_slice(), outputs.as_mut_slice());
        match res {
            Ok(()) => {},
            Err(e) => {
                proof {
                    assert(rr is Err);
                    assert(train_runs(s0, ops, size, i0, (it + 1) as nat)
                        == Err::<(MachineState, Seq<i16>), Fault>(rr->Err_0));
                    lemma_train_runs_stop(s0, ops, size, i0, (it + 1) as nat, (iterations - it - 1) as nat);
                    lemma_train_left_stop(s0, ops, size, i0, (it + 1) as nat, (iterations - it - 1) as nat);
                }
                return Err(e);
            },
        }
        proof {
            lemma_run_out_len(prepared(before, ops, size), ops, inp);
        }
        feed_back(inputs, outputs.as_slice());
        it += 1;
    }
    proof {
        lemma_train_left_ok(s0, ops, size, i0, it as nat);
    }
    Ok(())
}

/// Where all runs succeed, training leaves what they compute.
proof fn lemma_train_left_ok(s: MachineState, ops: Seq<OpCode>, size: nat, inp: Seq<i16>, n: nat)
    requires
        train_runs(s, ops, size, inp, n) is Ok,
    ensures
        train_left(s, ops, size, inp, n) == train_runs(s, ops, size, inp, n)->Ok_0,
{
}

/// Once a run fails, the later iterations leave what it left.
proof fn lemma_train_left_stop(s: MachineState, ops: Seq<OpCode>, size: nat, inp: Seq<i16>, n: nat, extra: nat)
    requires
        train_runs(s, ops, size, inp, n) is Err,
    ensures
        train_left(s, ops, size, inp, n + extra) == train_left(s, ops, size, inp, n),
    decreases extra,
{
    if extra > 0 {
        lemma_train_left_stop(s, ops, size, inp, n, (extra - 1) as nat);
        lemma_train_runs_stop(s, ops, size, inp, n, (extra - 1) as nat);
    }
}

/// Once a run fails, the later iterations fail with it.
proof fn lemma_train_runs_stop(s: MachineState, ops: Seq<OpCode>, size: nat, inp: Seq<i16>, n: nat, extra: nat)
    requires
        train_runs(s, ops, size, inp, n) is Err,
    ensures
        train_runs(s, ops, size, inp, n + extra) == train_runs(s, ops, size, inp, n),
    decreases extra,
{
    if extra > 0 {
        lemma_train_runs_stop(s, ops, size, inp, n, (extra - 1) as nat);
    }
}

} // verus!
