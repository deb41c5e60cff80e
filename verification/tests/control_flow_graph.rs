use disasm::control_flow_graph::{Block, BlockId, Condition, ControlFlowGraph, NextKind, PredecessorKind};
use disasm::low_ir::GenericInstruction;
use disasm::low_ir::{Arg, Span};

fn ids(g: &ControlFlowGraph<Arg>) -> Vec<usize> {
    g.blocks.iter().map(|(id, _)| id.addr()).collect()
}

#[test]
fn builds_blocks_of_a_branch() {
    // frame; if [20] != 0 goto 8; output 1; halt; 8: output 2; halt
    let prog: Vec<i128> = vec![109, 1, 1005, 20, 8, 104, 1, 99, 104, 2, 99];
    let g = ControlFlowGraph::<Arg>::build_from(&prog, 0).unwrap();
    assert_eq!(g.start, BlockId(0));
    assert_eq!(g.stack_size, 0);
    assert_eq!(ids(&g), vec![0, 5, 8]);
    let entry = &g.blocks[0].1;
    assert_eq!(entry.span, Span::new(0, 5));
    assert_eq!(entry.next_blocks(), vec![BlockId(8), BlockId(5)]);
    match entry.next {
        NextKind::Condition(c) => {
            assert_eq!(c.from_block, BlockId(0));
            assert!(c.matches);
            assert_eq!(c.arg, Arg::Mem(20));
        }
        _ => panic!("expected a condition"),
    }
    let fall = &g.blocks[1].1;
    assert_eq!(fall.span, Span::new(5, 8));
    assert_eq!(fall.predecessors.len(), 1);
    assert_eq!(fall.predecessors[0].block_id(), BlockId(0));
    assert!(matches!(fall.predecessors[0], PredecessorKind::ConditionalFollow(_)));
    assert!(matches!(fall.next, NextKind::Halt));
    let jumped = &g.blocks[2].1;
    assert_eq!(jumped.span, Span::new(8, 11));
    assert!(matches!(jumped.predecessors[0], PredecessorKind::ConditionalJump(_)));
}

#[test]
fn splits_block_at_loop_target() {
    // frame; output 1; 4: output 2; goto 4
    let prog: Vec<i128> = vec![109, 1, 104, 1, 104, 2, 1105, 1, 4];
    let g = ControlFlowGraph::<Arg>::build_from(&prog, 0).unwrap();
    assert_eq!(ids(&g), vec![0, 4]);
    let front = &g.blocks[0].1;
    assert_eq!(front.span, Span::new(0, 4));
    assert_eq!(front.ops.len(), 2);
    assert_eq!(front.next_unconditional(), Some(BlockId(4)));
    let body = &g.blocks[1].1;
    assert_eq!(body.span, Span::new(4, 9));
    let preds: Vec<BlockId> = body.predecessors.iter().map(|p| p.block_id()).collect();
    assert_eq!(preds, vec![BlockId(0), BlockId(4)]);
}

#[test]
fn stack_size_error_without_frame() {
    let prog: Vec<i128> = vec![104, 1, 99];
    assert!(ControlFlowGraph::<Arg>::build_from(&prog, 0).is_err());
}

#[test]
fn recognises_calls_and_returns() {
    // 0: frame; [R] = 9 (return address); goto 20; 9: halt ... 20: frame 2; R -= 2; goto [R]
    let mut prog: Vec<i128> = vec![0; 27];
    let head: Vec<i128> = vec![109, 1, 21101, 0, 9, 0, 1105, 1, 20, 99];
    prog[..head.len()].copy_from_slice(&head);
    let callee: Vec<i128> = vec![109, 2, 109, -2, 2106, 0, 0];
    prog[20..27].copy_from_slice(&callee);
    let g = ControlFlowGraph::<Arg>::build_from(&prog, 0).unwrap();
    let entry = &g.blocks[0].1;
    assert_eq!(entry.function_call_address(), Some(20));
    assert_eq!(entry.next_blocks(), vec![BlockId(9)]);
    let f = ControlFlowGraph::<Arg>::build_from(&prog, 20).unwrap();
    assert_eq!(f.stack_size, 2);
    assert!(matches!(f.blocks[0].1.next, NextKind::Return));
}

#[test]
fn scan_finds_function_graphs() {
    let prog: Vec<i128> = vec![109, 1, 1005, 20, 8, 104, 1, 99, 104, 2, 99];
    let graphs = ControlFlowGraph::<Arg>::scan(&prog);
    assert_eq!(graphs.len(), 1);
    assert_eq!(graphs[0].start, BlockId(0));
}

fn text_block() -> Block<Arg> {
    Block {
        predecessors: vec![],
        ops: vec![(0, GenericInstruction::AdjustRelativeBase(Arg::Value(1))), (12, GenericInstruction::Output(Arg::Mem(100)))],
        next: NextKind::Condition(Condition {
            from_block: BlockId(0),
            jump_block: BlockId(8),
            follows_block: BlockId(5),
            arg: Arg::Mem(20),
            matches: true,
        }),
        span: Span::new(0, 5),
    }
}

#[test]
fn block_text_lists_ops_and_ending() {
    let b = text_block();
    assert_eq!(
        b.to_text(),
        "Block 0..5: \n       0  R += 1\n      12  output([100])\nNext block: if [20] is true goto 8 else 5\n"
    );
}

#[test]
fn graph_text_orders_blocks_by_address() {
    let halt = Block::<Arg> { predecessors: vec![], ops: vec![], next: NextKind::Halt, span: Span::new(8, 11) };
    let g = ControlFlowGraph { start: BlockId(0), stack_size: 0, blocks: vec![(BlockId(8), halt), (BlockId(0), text_block())] };
    let t = g.to_text();
    assert!(t.starts_with("addr 0, Block 0..5: \n"));
    assert!(t.ends_with("addr 8, Block 8..11: \nNext block: halt\n\n"));
}
