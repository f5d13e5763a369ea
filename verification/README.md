# xim

An integer deep-learning engine on 16-bit fixed point (Q8.8), with i8 (Q2.6)
and i32 paths, verified with Verus.

- `src/` is the verified library: the bytecode (`ir`), the semantics of every
  instruction (`machine`, `kernels`) and the interpreter that implements them
  (`exec_ops`, `executor`), the three fusion stages and the memory planner
  (`planner`), the layer pipeline (`pipeline`), the kernel source generator
  (`aot`), the JIT kernel program (`jit`), what its fused loops compute
  (`fusion`) and what the loops that kernel fusion merges compute
  (`merge`), the engine buffers (`engine`),
  the benchmark programs (`demo`), the random rounding source (`autograd`),
  Q8.8 to Q2.6 conversion (`quant`) and the laws that tie them together
  (`laws`).
- `app/` is the program around it: the command line, graph files (serde and
  bincode), f32 conversions, memory-mapped inputs, rustc and the loaded AOT
  kernels, the lowering of the JIT kernel program to Cranelift, the threaded
  pipeline and the Python bindings.
- `tests/` runs the library on concrete programs.
