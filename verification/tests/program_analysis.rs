use disasm::control_flow_graph::FunctionId;
use disasm::low_ir::Arg;
use disasm::program_analysis::ProgramAnalysis;

// 0: frame 1; [R+0] = 9 (return address); goto 20
// 9: output [R+1] (the callee's result); halt
// 20: frame 2; output [R-1] (the argument); R -= 2; goto [R]
fn program() -> Vec<i128> {
    let mut prog: Vec<i128> = vec![0; 29];
    let caller: Vec<i128> = vec![109, 1, 21101, 0, 9, 0, 1105, 1, 20, 204, 1, 99];
    prog[..caller.len()].copy_from_slice(&caller);
    let callee: Vec<i128> = vec![109, 2, 204, -1, 109, -2, 2106, 0, 0];
    prog[20..29].copy_from_slice(&callee);
    prog
}

#[test]
fn analyses_caller_and_callee() {
    let prog = program();
    let pa = ProgramAnalysis::build(&prog);
    let ids: Vec<FunctionId> = pa.control_flows.iter().map(|(id, _)| *id).collect();
    assert_eq!(ids, vec![FunctionId(0), FunctionId(20)]);
    let flow_ids: Vec<FunctionId> = pa.data_flows.iter().map(|(id, _)| *id).collect();
    assert_eq!(flow_ids, ids);

    assert_eq!(pa.function_infos.len(), 1);
    let (callee, info) = &pa.function_infos[0];
    assert_eq!(*callee, FunctionId(20));
    assert_eq!(info.function_id, FunctionId(20));
    assert_eq!(info.stack_size, 2);
    assert_eq!(info.args, vec![Arg::RelativeMem(1)]);
    assert_eq!(info.return_vars, vec![Arg::RelativeMem(1)]);
    assert!(info.local_vars.is_empty());

    assert_eq!(pa.call_graph.len(), 1);
    assert_eq!(pa.call_graph[0].0, FunctionId(0));
    assert_eq!(pa.call_graph[0].1, vec![FunctionId(20)]);
}

#[test]
fn program_without_calls_has_no_infos() {
    let prog: Vec<i128> = vec![109, 1, 1005, 20, 8, 104, 1, 99, 104, 2, 99];
    let pa = ProgramAnalysis::build(&prog);
    assert_eq!(pa.control_flows.len(), 1);
    assert!(pa.function_infos.is_empty());
    assert!(pa.call_graph.is_empty());
}

// R += 5; [R+2] = [R+3] + [R+4]; [R+2] = [R+3] + [R+4]; and the program ends.
#[test]
fn program_running_off_its_end_has_function_zero() {
    let prog: Vec<i128> = vec![109, 5, 22201, 3, 4, 2, 22201, 3, 4, 2];
    let pa = ProgramAnalysis::build(&prog);
    let ids: Vec<FunctionId> = pa.control_flows.iter().map(|(id, _)| *id).collect();
    assert_eq!(ids, vec![FunctionId(0)]);
    let flow_ids: Vec<FunctionId> = pa.data_flows.iter().map(|(id, _)| *id).collect();
    assert_eq!(flow_ids, ids);
    let cfg = &pa.control_flows[0].1;
    assert_eq!(cfg.blocks.len(), 1);
    assert_eq!(cfg.blocks[0].1.span.start, 0);
    assert_eq!(cfg.blocks[0].1.span.end, 10);
    assert_eq!(cfg.blocks[0].1.ops.len(), 3);
}
