use xim::{AotCompiler, Instruction, OpCode, XimGraph};

const HEADER: &str = r#"
use std::thread;

#[no_mangle]
pub unsafe extern "C" fn xim_aot_execute(mem_ptr: *mut i16, inputs_ptr: *const i16, outputs_ptr: *mut i16) {
    let mem_usize = mem_ptr as usize;
    let inputs_usize = inputs_ptr as usize;
    let outputs_usize = outputs_ptr as usize;
"#;

fn loop_head(len: u32) -> String {
    format!("
    // Fused Loop (XLA-style)
    let num_threads = std::thread::available_parallelism().map(|n| n.get()).unwrap_or(1);
    let chunk_size = {len} / num_threads + 1;
    thread::scope(|s| {{
        for t in 0..num_threads {{
            s.spawn(move || {{
                let m = mem_usize as *mut i16;
                let start = t * chunk_size;
                let end = (start + chunk_size).min({len});
                if start < end {{
                    for i in start..end {{
                        let mut regs = [0i16; 64]; // Virtual registers for fusion
")
}

const LOOP_END: &str = "                    }\n                }\n            });\n        }\n    });\n";

fn graph(ops: &[OpCode]) -> XimGraph {
    let mut g = XimGraph::new();
    g.instructions = ops.iter().map(|op| Instruction { op: *op }).collect();
    g
}

#[test]
fn empty_graph_gives_bare_kernel() {
    let code = AotCompiler::generate_source(&graph(&[]));
    assert_eq!(code, format!("{HEADER}}}\n"));
}

#[test]
fn kernel_source_of_small_program() {
    let code = AotCompiler::generate_source(&graph(&[
        OpCode::LoadVarVec(0, 0, 2),
        OpCode::AddVec(0, 0, 2, 2),
        OpCode::MulVec(2, 0, 12, 2),
        OpCode::FillVec(-5, 4, 2),
        OpCode::StoreVec(12, 1, 2),
    ]));
    let mut expected = String::from(HEADER);
    expected.push_str("
    // LoadVarVec
    std::ptr::copy_nonoverlapping((inputs_usize as *const i16).add(0), (mem_usize as *mut i16).add(0), 2);
");
    expected.push_str(&loop_head(2));
    expected.push_str("                        regs[0] = *m.add(0 + i);\n");
    expected.push_str("                        regs[1] = regs[0].saturating_add(regs[0]);\n");
    expected.push_str("                        *m.add(2 + i) = regs[1];\n");
    expected.push_str("                        regs[2] = (((regs[1] as i32) * (regs[0] as i32)) >> 8).clamp(-32768, 32767) as i16;\n");
    expected.push_str("                        *m.add(12 + i) = regs[2];\n");
    expected.push_str(LOOP_END);
    expected.push_str("    // Raw Op: FillVec(-5, 4, 2)\n");
    expected.push_str("
    // StoreVec
    std::ptr::copy_nonoverlapping((mem_usize as *const i16).add(12), (outputs_usize as *mut i16).add(1), 2);
");
    expected.push_str("}\n");
    assert_eq!(code, expected);
}

#[test]
fn raw_comment_matches_debug_text() {
    let ops = [
        OpCode::LoadVar(3, 7),
        OpCode::AIOStep(1, 20, 300, 4000, 50000, 2),
        OpCode::AIOStepBlock(0, 1, 2, 3, 4, 4294967295),
        OpCode::BlockScale(10, 0, 64),
        OpCode::LoadVarVec8(0, 1, 2),
    ];
    let code = AotCompiler::generate_source(&graph(&ops));
    let mut expected = String::from(HEADER);
    for op in ops {
        expected.push_str(&format!("    // Raw Op: {:?}\n", op));
    }
    expected.push_str("}\n");
    assert_eq!(code, expected);
}

#[test]
fn scalar_constants_and_adamw_emit_no_lines() {
    // Only loads, stores, additions and multiplications have a line.
    let code = AotCompiler::generate_source(&graph(&[OpCode::AddScalarVec(0, 3, 4, 16), OpCode::AdamWStep(0, 16, 32, 48, 16)]));
    let mut expected = String::from(HEADER);
    expected.push_str(&loop_head(16));
    expected.push_str("                        regs[0] = *m.add(0 + i);\n");
    expected.push_str("                        regs[2] = regs[0].saturating_add(regs[1]);\n");
    expected.push_str("                        *m.add(4 + i) = regs[2];\n");
    expected.push_str("                        regs[3] = *m.add(16 + i);\n");
    expected.push_str("                        regs[4] = *m.add(32 + i);\n");
    expected.push_str("                        regs[5] = *m.add(48 + i);\n");
    expected.push_str("                        *m.add(0 + i) = regs[0];\n");
    expected.push_str("                        *m.add(32 + i) = regs[4];\n");
    expected.push_str("                        *m.add(48 + i) = regs[5];\n");
    expected.push_str(LOOP_END);
    expected.push_str("}\n");
    assert_eq!(code, expected);
}
