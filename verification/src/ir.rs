use vstd::prelude::*;
use std::collections::HashMap;
use crate::planner::{MemoryPlanner, extents_fit, planned_size};

verus! {

/// The XIM bytecode.  Offsets address the engine's scratchpad memory,
/// `var_id`/`output_id` address the input and output buffers.
#[derive(Debug, Clone, Copy, PartialEq, Eq, Structural)]
pub enum OpCode {
    /// LoadVar(var_id, dst_offset)
    LoadVar(u32, u32),
    /// Store(src_offset, output_id)
    Store(u32, u32),
    /// Add(lhs_offset, rhs_offset, dst_offset)
    Add(u32, u32, u32),
    /// Sub(lhs_offset, rhs_offset, dst_offset)
    Sub(u32, u32, u32),
    /// Mul(lhs_offset, rhs_offset, dst_offset)
    Mul(u32, u32, u32),
    /// AddVec(lhs_offset, rhs_offset, dst_offset, len)
    AddVec(u32, u32, u32, u32),
    /// MulVec(lhs_offset, rhs_offset, dst_offset, len)
    MulVec(u32, u32, u32, u32),
    /// LoadVarVec(var_id, dst_offset, len)
    LoadVarVec(u32, u32, u32),
    /// StoreVec(src_offset, output_id, len)
    StoreVec(u32, u32, u32),
    /// GradAdd(lhs_offset, rhs_offset, dst_offset, len)
    GradAdd(u32, u32, u32, u32),
    /// GradMul(lhs_offset, rhs_offset, dst_offset, len)
    GradMul(u32, u32, u32, u32),
    /// AdamWStep(weight_offset, grad_offset, m_offset, v_offset, len)
    AdamWStep(u32, u32, u32, u32, u32),
    /// LoadVarVec8(var_id, dst_offset, len)
    LoadVarVec8(u32, u32, u32),
    /// StoreVec8(src_offset, output_id, len)
    StoreVec8(u32, u32, u32),
    /// AddVec8(lhs_offset, rhs_offset, dst_offset, len)
    AddVec8(u32, u32, u32, u32),
    /// MulVec8(lhs_offset, rhs_offset, dst_offset, len)
    MulVec8(u32, u32, u32, u32),
    /// AIOStep(weight_offset, grad_offset, m_offset, v_offset, len, precision);
    /// precision 2 keeps the moments in i32 memory, any other value in i16 memory.
    AIOStep(u32, u32, u32, u32, u32, u8),
    /// BlockScale(src_offset, dst_offset, len): one scale per block of 32 values.
    BlockScale(u32, u32, u32),
    /// AIOStepBlock(weight_offset, grad_offset, m_offset, v_offset, scale_offset, len)
    AIOStepBlock(u32, u32, u32, u32, u32, u32),
    /// FillVec(value, dst_offset, len)
    FillVec(i16, u32, u32),
    /// AddScalarVec(lhs_offset, value, dst_offset, len)
    AddScalarVec(u32, i16, u32, u32),
    /// MulScalarVec(lhs_offset, value, dst_offset, len)
    MulScalarVec(u32, i16, u32, u32),
}

#[derive(Debug, Clone, Copy, PartialEq, Eq, Structural)]
pub struct Instruction {
    pub op: OpCode,
}

/// A compiled XIM program.
#[derive(Debug, Clone)]
pub struct XimGraph {
    /// Mapping of variable names to their IDs
    pub variable_map: HashMap<String, u32>,
    /// Flattened instructions
    pub instructions: Vec<Instruction>,
    /// Required scratchpad memory size
    pub memory_size: usize,
}

/// The opcodes of a sequence of instructions.
pub open spec fn ops_of(instrs: Seq<Instruction>) -> Seq<OpCode> {
    instrs.map_values(|i: Instruction| i.op)
}

impl XimGraph {
    /// The program of the graph, as a sequence of opcodes.
    pub open spec fn ops(&self) -> Seq<OpCode> {
        ops_of(self.instructions@)
    }

    pub fn new() -> (g: Self)
        ensures
            g.variable_map@ == Map::<String, u32>::empty(),
            g.instructions@ == Seq::<Instruction>::empty(),
            g.memory_size == 0,
    {
        XimGraph { variable_map: HashMap::new(), instructions: Vec::new(), memory_size: 0 }
    }

    pub fn add_instruction(&mut self, op: OpCode)
        ensures
            final(self).instructions@ == old(self).instructions@.push(Instruction { op }),
            final(self).variable_map@ == old(self).variable_map@,
            final(self).memory_size == old(self).memory_size,
    {
        self.instructions.push(Instruction { op });
    }
}

/// Builds a graph one instruction at a time.
pub struct XimBuilder {
    pub graph: XimGraph,
}

impl XimBuilder {
    pub fn new() -> (b: Self)
        ensures
            b.graph.variable_map@ == Map::<String, u32>::empty(),
            b.graph.instructions@ == Seq::<Instruction>::empty(),
            b.graph.memory_size == 0,
    {
        XimBuilder { graph: XimGraph::new() }
    }

    pub fn add_op(&mut self, op: OpCode)
        ensures
            final(self).graph.instructions@ == old(self).graph.instructions@.push(Instruction { op }),
            final(self).graph.variable_map@ == old(self).graph.variable_map@,
            final(self).graph.memory_size == old(self).graph.memory_size,
    {
        self.graph.add_instruction(op);
    }

    /// Plans the graph's memory and returns it.
    pub fn finalize(self) -> (g: XimGraph)
        requires
            extents_fit(self.graph.ops()),
        ensures
            g.instructions@ == self.graph.instructions@,
            g.variable_map@ == self.graph.variable_map@,
            g.memory_size == planned_size(self.graph.ops()),
    {
        let mut graph = self.graph;
        MemoryPlanner::plan(&mut graph);
        graph
    }
}

} // verus!
