use disasm::control_flow_graph::{FunctionId, NextKind};
use disasm::low_ir::Arg;
use disasm::program_analysis::ProgramAnalysis;
use disasm::ssa_form::{SSAArg, SSAArgKind, SSAGraph, convert_to_ssa};
use disasm::assembler::compile;

fn ssa_main_rel(offset: i128, version: usize) -> SSAArg {
    SSAArg::new(FunctionId::new(0), SSAArgKind::RelativeMem(offset), version)
}

fn ssa_main_val(val: i128, version: usize) -> SSAArg {
    SSAArg::new(FunctionId::new(0), SSAArgKind::Value(val), version)
}

fn ssa_main_deref(addr: usize, deref_version: usize) -> SSAArg {
    SSAArg::new(FunctionId::new(0), SSAArgKind::Deref { addr, deref_version }, 0)
}

#[test]
fn test_ssa_arg_creation() {
    let func_id = FunctionId::new(0);
    let ssa_arg = ssa_main_rel(0, 1);

    assert_eq!(ssa_arg.scope, func_id);
    assert_eq!(ssa_arg.version, 1);
}

#[test]
fn test_ssa_arg_display() {
    // Test immediate value
    let imm_arg = ssa_main_val(42, 0);
    assert_eq!(imm_arg.to_text(), "42");

    // Test register
    let reg_arg = ssa_main_rel(2, 3);
    assert_eq!(reg_arg.to_text(), "[R+2]_3");

    // Test deref
    let deref_arg = ssa_main_deref(0x100, 2);
    assert_eq!(deref_arg.to_text(), "[[256]_2]");
}

#[test]
fn test_ssa_arg_display_with_deref() {
    // Test immediate value
    let imm_arg = ssa_main_val(42, 0);
    assert_eq!(imm_arg.to_text(), "42");

    // Test register
    let reg_arg = ssa_main_rel(2, 3);
    assert_eq!(reg_arg.to_text(), "[R+2]_3");

    // Test deref
    let deref_arg = ssa_main_deref(0x100, 2);
    assert_eq!(deref_arg.to_text(), "[[256]_2]");
}

#[test]
fn test_ssa_arg_display_with_deref_and_version() {
    // Test immediate value
    let imm_arg = ssa_main_val(42, 0);
    assert_eq!(imm_arg.to_text(), "42");

    // Test register
    let reg_arg = ssa_main_rel(2, 3);
    assert_eq!(reg_arg.to_text(), "[R+2]_3");

    // Test deref
    let deref_arg = ssa_main_deref(0x100, 2);
    assert_eq!(deref_arg.to_text(), "[[256]_2]");
}

#[test]
fn ssa_arg_text_of_memory_and_negative_offsets() {
    let mem = SSAArg::new(FunctionId::new(3), SSAArgKind::Mem(15), 2);
    assert_eq!(mem.to_text(), "[15]_2");
    let neg = ssa_main_rel(-4, 1);
    assert_eq!(neg.to_text(), "[R-4]_1");
    let base = ssa_main_rel(0, 0);
    assert_eq!(base.to_text(), "[R]_0");
}

#[test]
fn ssa_kind_from_arg_starts_pointer_versions_at_zero() {
    assert_eq!(
        SSAArgKind::from_arg(Arg::Deref(7)),
        SSAArgKind::Deref { addr: 7, deref_version: 0 }
    );
    assert_eq!(SSAArgKind::from_arg(Arg::Value(5)), SSAArgKind::Value(5));
    assert_eq!(ssa_main_rel(2, 1).as_arg(), Arg::RelativeMem(2));
    assert_eq!(ssa_main_val(9, 0).value(), Some(9));
    assert_eq!(ssa_main_rel(9, 0).relative_mem(), Some(9));
}

// 0: frame; if [200] goto 12
// 5: [100] = 1 + 0; goto 16
// 12: [100] = 2 + 0
// 16: output [100]; halt
fn join_program() -> Vec<i128> {
    vec![109, 1, 1005, 200, 12, 1101, 1, 0, 100, 1105, 1, 16, 1101, 2, 0, 100, 4, 100, 99]
}

#[test]
fn join_of_two_definitions_gets_a_phi_function() {
    let prog = join_program();
    let pa = ProgramAnalysis::build(&prog);
    assert_eq!(pa.control_flows.len(), 1);
    let cf = &pa.control_flows[0].1;
    let df = &pa.data_flows[0].1;
    let ssa = convert_to_ssa(&pa, cf, df);
    assert!(ssa.debug_markers.is_empty());
    let ids: Vec<usize> = ssa.cfg.blocks.iter().map(|(id, _)| id.0).collect();
    let cf_ids: Vec<usize> = cf.blocks.iter().map(|(id, _)| id.0).collect();
    assert_eq!(ids, cf_ids);
    let join = &ssa.cfg.blocks.iter().find(|(id, _)| id.0 == 16).unwrap().1;
    assert_eq!(join.ops.len(), 3);
    assert_eq!(join.ops[0].0, 16);
    // each of the two definitions reaching the join makes a phi output at
    // 16; the one kept is numbered after the one replaced
    assert_eq!(join.ops[0].1.to_text(), "[100]_3 = φ([100]_1, [100]_0)");
    assert_eq!(join.ops[1].1.to_text(), "output([100]_3)");
    assert_eq!(join.ops[2].1.to_text(), "halt");
    let left = &ssa.cfg.blocks.iter().find(|(id, _)| id.0 == 5).unwrap().1;
    assert_eq!(left.ops[0].1.to_text(), "[100]_0 = 1");
    let right = &ssa.cfg.blocks.iter().find(|(id, _)| id.0 == 12).unwrap().1;
    assert_eq!(right.ops[0].1.to_text(), "[100]_1 = 2");
}

#[test]
fn straight_line_code_has_no_phi_functions() {
    let prog: Vec<i128> = vec![109, 1, 1101, 2, 3, 100, 4, 100, 99];
    let pa = ProgramAnalysis::build(&prog);
    let cf = &pa.control_flows[0].1;
    let ssa = convert_to_ssa(&pa, cf, &pa.data_flows[0].1);
    let texts: Vec<String> = ssa.cfg.blocks[0].1.ops.iter().map(|(_, op)| op.to_text()).collect();
    assert_eq!(texts, vec!["R += 1".to_string(), "[100]_0 = 2 + 3".to_string(), "output([100]_0)".to_string(), "halt".to_string()]);
    assert!(matches!(ssa.cfg.blocks[0].1.next, NextKind::Halt));
}

fn ssa_main_mem(addr: i128, version: usize) -> SSAArg {
    SSAArg::new(FunctionId::new(0), SSAArgKind::Mem(addr), version)
}

struct TestContext {
    ssa_graphs: Vec<(FunctionId, SSAGraph)>,
}

impl TestContext {
    fn new(code: &str) -> Self {
        let binary = compile(code).unwrap();
        let program = ProgramAnalysis::build(&binary);
        let mut ssa_graphs = Vec::new();
        for (function_id, cflow) in &program.control_flows {
            let data_flow = &program.data_flows.iter().find(|(f, _)| f == function_id).unwrap().1;
            let ssa = convert_to_ssa(&program, cflow, data_flow);
            ssa_graphs.push((*function_id, ssa));
        }
        TestContext { ssa_graphs }
    }

    fn assert_marker_at_main(&self, marker: char, expected: SSAArg) {
        let graph = &self.ssa_graphs.iter().find(|(f, _)| *f == FunctionId::new(0)).expect("no main function").1;
        match graph.debug_markers.iter().find(|(_, v)| *v == marker) {
            Some((ssa, _)) => assert_eq!(*ssa, expected, "For marker '{}", marker),
            None => panic!("Marker '{}' not found in function 0", marker),
        }
    }
}

#[test]
fn test_basic_versioning() {
    let ctx = TestContext::new(
        r#"
            R += 5
            'b [R+2] = 'a [R+3] + [R+4]
            'c [R+2] = [R+3] + [R+4]
        "#,
    );
    ctx.assert_marker_at_main('a', ssa_main_rel(3, 0));
    ctx.assert_marker_at_main('b', ssa_main_rel(2, 0));
    ctx.assert_marker_at_main('c', ssa_main_rel(2, 1));
}

#[test]
fn test_deref_versioning() {
    let ctx = TestContext::new(
        r#"
            R += 5
            ptr = 500
            'a ptr = ptr + [R+2]
            'b ptr = ptr + [R+3]
            'd [R+1] = 'c *ptr
            "#,
    );
    ctx.assert_marker_at_main('a', ssa_main_mem(15, 1));
    ctx.assert_marker_at_main('b', ssa_main_mem(15, 2));
    ctx.assert_marker_at_main('c', ssa_main_deref(15, 2));
    ctx.assert_marker_at_main('d', ssa_main_rel(1, 0));
}

#[test]
fn test_incr_write_after_read() {
    let ctx = TestContext::new(
        r#"
            R += 5
            output('a [R-1])
            'b [R-1] = 17
            "#,
    );
    ctx.assert_marker_at_main('a', ssa_main_rel(-1, 0));
    ctx.assert_marker_at_main('b', ssa_main_rel(-1, 1));
}
