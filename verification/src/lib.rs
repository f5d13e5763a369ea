pub mod error;
pub mod ir;
pub mod autograd;
pub mod quant;
pub mod kernels;
pub mod machine;
pub mod exec_ops;
pub mod executor;
pub mod planner;
pub mod pipeline;
pub mod aot;
pub mod jit;
pub mod fusion;
pub mod merge;
pub mod engine;
pub mod demo;
pub mod loader;
pub mod laws;

pub use error::XimError;
pub use ir::{Instruction, OpCode, XimBuilder, XimGraph};
pub use autograd::{StochasticQuantizer, Xorshift32};
pub use quant::Quantizer;
pub use executor::Executor;
pub use planner::{FusedOp, KernelFuser, LoopFuser, MemoryPlanner, OptimizedInstruction, SuperFuser};
pub use pipeline::PipelineExecutor;
pub use aot::AotCompiler;
