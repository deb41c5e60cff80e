use disasm::control_flow_graph::{BlockId, ControlFlowGraph};
use disasm::data_flow_analysis::{Definition, GraphDataFlow};
use disasm::low_ir::Arg;

// 0: frame; [100] = 2 + 3; if [100] goto 12;
// 9: output [100]; halt
// 12: [100] = 1; output [100]; halt
fn program() -> Vec<i128> {
    vec![109, 1, 1101, 2, 3, 100, 1005, 100, 12, 4, 100, 99, 1101, 0, 1, 100, 4, 100, 99]
}

#[test]
fn reaching_definitions_and_liveness() {
    let prog = program();
    let cfg = ControlFlowGraph::<Arg>::build_from(&prog, 0).unwrap();
    let flow = GraphDataFlow::build_for(&cfg);
    let ids: Vec<usize> = flow.block_defs.iter().map(|(id, _)| id.addr()).collect();
    assert_eq!(ids, vec![0, 9, 12]);
    let d0 = Definition { instruction_addr: 2, arg: Arg::Mem(100), block: BlockId(0) };
    let d12 = Definition { instruction_addr: 12, arg: Arg::Mem(100), block: BlockId(12) };

    let entry = &flow.block_defs[0].1;
    assert_eq!(entry.gen_set, vec![(Arg::Mem(100), d0)]);
    assert!(entry.use_set.is_empty());
    assert_eq!(entry.defs_out, vec![d0]);
    assert_eq!(entry.live_out, vec![Arg::Mem(100)]);
    assert!(entry.live_in.is_empty());

    let fall = &flow.block_defs[1].1;
    assert_eq!(fall.defs_in, vec![d0]);
    assert_eq!(fall.use_set, vec![Arg::Mem(100)]);
    assert_eq!(fall.live_in, vec![Arg::Mem(100)]);

    let jumped = &flow.block_defs[2].1;
    assert_eq!(jumped.defs_in, vec![d0]);
    assert_eq!(jumped.defs_out, vec![d12]);
    assert!(jumped.live_in.is_empty());
}

#[test]
fn entry_frame_defines_slots() {
    // function at 2 with a frame of 2 words: outputs [R-1] and returns
    let prog: Vec<i128> = vec![0, 0, 109, 2, 204, -1, 109, -2, 2106, 0, 0];
    let cfg = ControlFlowGraph::<Arg>::build_from(&prog, 2).unwrap();
    let flow = GraphDataFlow::build_for(&cfg);
    let entry = &flow.block_defs[0].1;
    let slots: Vec<Arg> = entry.gen_set.iter().map(|(a, _)| *a).collect();
    assert_eq!(slots, vec![Arg::RelativeMem(0), Arg::RelativeMem(-1)]);
    assert_eq!(entry.use_set, vec![Arg::RelativeMem(-1), Arg::RelativeMem(0)]);
}
