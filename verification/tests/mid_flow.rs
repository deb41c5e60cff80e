use disasm::low_ir::{Arg, Span};
use disasm::mid_flow::{parse_flow, FlowGraph, FlowHigh, FlowNode, FlowNodeKind, LoopId};

fn clone_node(node: &FlowNode) -> FlowNode {
    match &node.kind {
        FlowNodeKind::NonBranching(_) => FlowNode::non_branching(node.span, vec![]),
        FlowNodeKind::JumpIf {
            value,
            equal_to,
            target,
        } => FlowNode::jump_if(node.span, *value, *equal_to, *target),
        FlowNodeKind::Goto(target) => FlowNode::goto(node.span, *target),
        FlowNodeKind::Return => FlowNode::new_return(node.span),
    }
}

fn build_flow_graph(flows: &[FlowNode], region: Span) -> FlowGraph {
    let mut nodes = Vec::new();
    let mut current_start = region.start;

    for node in flows.iter() {
        if current_start < node.span.start {
            // Fill the gap with NonBranching
            nodes.push(FlowNode::non_branching(Span::new(current_start, node.span.start), vec![]));
        }

        nodes.push(clone_node(node));

        current_start = node.span.end;
    }

    if current_start < region.end {
        // Fill the remaining gap with NonBranching
        nodes.push(FlowNode::non_branching(Span::new(current_start, region.end), vec![]));
    }

    FlowGraph::build_from(&nodes)
}

fn test_parse_flow(nodes: &[FlowNode], region: Span) -> FlowHigh {
    let graph = build_flow_graph(nodes, region);
    parse_flow(&graph, region).unwrap()
}

fn arg() -> Arg {
    Arg::Value(0)
}

fn node_non_branching(start: usize, end: usize) -> FlowNode {
    FlowNode::non_branching(Span::new(start, end), vec![])
}

fn flow_high_non_branching(start: usize, end: usize) -> FlowHigh {
    FlowHigh::non_branching(Span::new(start, end), vec![])
}


#[test]
fn test_empty_span() {
    let span = Span::new(0, 10);
    let program = vec![];

    let expected = flow_high_non_branching(span.start, span.end);
    let result = test_parse_flow(&program, span);
    assert_eq!(result, expected);
}

#[test]
fn test_basic_if() {
    let span = Span::new(0, 30);
    let program = vec![
        FlowNode::jump_if(Span::new(10, 11), arg(), true, 20),
        FlowNode::non_branching(Span::new(20, 30), vec![]),
    ];

    let expected = FlowHigh::composite(vec![
        flow_high_non_branching(0, 10),
        FlowHigh::conditional(Span::new(10, 11), flow_high_non_branching(11, 20)),
        flow_high_non_branching(20, 30),
    ]);
    let result = test_parse_flow(&program, span);
    assert_eq!(result, expected);
}

#[test]
fn test_if_else() {
    let span = Span::new(0, 40);
    let program = vec![
        FlowNode::jump_if(Span::new(10, 11), arg(), true, 25),
        FlowNode::goto(Span::new(22, 25), 30),
        FlowNode::non_branching(Span::new(25, 30), vec![]),
    ];

    let expected = FlowHigh::composite(vec![
        flow_high_non_branching(0, 10),
        FlowHigh::if_else(
            Span::new(10, 11),
            flow_high_non_branching(11, 22),
            flow_high_non_branching(25, 30),
        ),
        flow_high_non_branching(30, 40),
    ]);
    let result = test_parse_flow(&program, span);
    assert_eq!(result, expected);
}

#[test]
fn test_while_simple() {
    let span = Span::new(0, 30);
    let program = vec![
        FlowNode::non_branching(Span::new(5, 10), vec![]),
        FlowNode::jump_if(Span::new(10, 11), arg(), true, 21),
        FlowNode::goto(Span::new(20, 21), 5),
    ];

    let expected = FlowHigh::composite(vec![
        flow_high_non_branching(0, 5),
        FlowHigh::while_loop(
            LoopId(1),
            Some(flow_high_non_branching(5, 10)),
            flow_high_non_branching(11, 20),
            Span::new(10, 11),
        ),
        flow_high_non_branching(21, 30),
    ]);
    let result = test_parse_flow(&program, span);
    assert_eq!(result, expected);
}

#[test]
fn test_while_contains_loop() {
    let span = Span::new(0, 50);
    let program = vec![
        node_non_branching(5, 10),
        FlowNode::jump_if(Span::new(10, 11), arg(), true, 41),
        FlowNode::goto(Span::new(20, 21), 11),
        FlowNode::goto(Span::new(40, 41), 5),
    ];

    let expected = FlowHigh::composite(vec![
        flow_high_non_branching(0, 5),
        FlowHigh::while_loop(
            LoopId(1),
            Some(flow_high_non_branching(5, 10)),
            FlowHigh::composite(vec![
                FlowHigh::loop_body(LoopId(2), flow_high_non_branching(11, 20)),
                flow_high_non_branching(21, 40),
            ]),
            Span::new(10, 11),
        ),
        flow_high_non_branching(41, 50),
    ]);
    let result = test_parse_flow(&program, span);
    assert_eq!(result, expected);
}

#[test]
fn test_loop_contains_while() {
    let span = Span::new(0, 50);
    let program = vec![
        node_non_branching(5, 20),
        FlowNode::jump_if(Span::new(20, 21), arg(), true, 31),
        FlowNode::goto(Span::new(30, 31), 5),
        FlowNode::goto(Span::new(40, 41), 5),
    ];

    let expected = FlowHigh::composite(vec![
        flow_high_non_branching(0, 5),
        FlowHigh::loop_body(
            LoopId(1),
            FlowHigh::composite(vec![
                FlowHigh::while_loop(
                    LoopId(2),
                    Some(flow_high_non_branching(5, 20)),
                    flow_high_non_branching(21, 30),
                    Span::new(20, 21),
                ),
                flow_high_non_branching(31, 40),
            ]),
        ),
        flow_high_non_branching(41, 50),
    ]);
    let result = test_parse_flow(&program, span);
    assert_eq!(result, expected);
}

#[test]
fn test_loop() {
    let span = Span::new(0, 30);
    let program = vec![
        node_non_branching(5, 20),
        FlowNode::goto(Span::new(20, 21), 5),
    ];

    let expected = FlowHigh::composite(vec![
        flow_high_non_branching(0, 5),
        FlowHigh::loop_body(LoopId(1), flow_high_non_branching(5, 20)),
        flow_high_non_branching(21, 30),
    ]);
    let result = test_parse_flow(&program, span);
    assert_eq!(result, expected);
}

#[test]
fn test_nested_loop() {
    let span = Span::new(0, 50);
    let program = vec![
        node_non_branching(5, 15),
        node_non_branching(15, 20),
        FlowNode::goto(Span::new(20, 21), 15),
        FlowNode::goto(Span::new(40, 41), 5),
    ];

    let expected = FlowHigh::composite(vec![
        flow_high_non_branching(0, 5),
        FlowHigh::loop_body(
            LoopId(1),
            FlowHigh::composite(vec![
                flow_high_non_branching(5, 15),
                FlowHigh::loop_body(LoopId(2), flow_high_non_branching(15, 20)),
                flow_high_non_branching(21, 40),
            ]),
        ),
        flow_high_non_branching(41, 50),
    ]);
    let result = test_parse_flow(&program, span);
    assert_eq!(result, expected);
}

#[test]
fn test_nested_loop_same_start_point() {
    let span = Span::new(0, 50);
    let program = vec![
        node_non_branching(5, 20),
        FlowNode::goto(Span::new(20, 21), 5),
        FlowNode::goto(Span::new(40, 41), 5),
    ];

    let expected = FlowHigh::composite(vec![
        flow_high_non_branching(0, 5),
        FlowHigh::loop_body(
            LoopId(1),
            FlowHigh::composite(vec![
                FlowHigh::loop_body(LoopId(2), flow_high_non_branching(5, 20)),
                flow_high_non_branching(21, 40),
            ]),
        ),
        flow_high_non_branching(41, 50),
    ]);
    let result = test_parse_flow(&program, span);
    assert_eq!(result, expected);
}

#[test]
fn test_two_loops_in_sequence() {
    let span = Span::new(0, 50);
    let program = vec![
        node_non_branching(5, 20),
        FlowNode::goto(Span::new(20, 21), 5),
        node_non_branching(25, 40),
        FlowNode::goto(Span::new(40, 41), 25),
    ];

    let expected = FlowHigh::composite(vec![
        flow_high_non_branching(0, 5),
        FlowHigh::loop_body(LoopId(1), flow_high_non_branching(5, 20)),
        flow_high_non_branching(21, 25),
        FlowHigh::loop_body(LoopId(1), flow_high_non_branching(25, 40)),
        flow_high_non_branching(41, 50),
    ]);
    let result = test_parse_flow(&program, span);
    assert_eq!(result, expected);
}

#[test]
fn test_while_contains_if() {
    let span = Span::new(0, 50);
    let program = vec![
        node_non_branching(5, 10),
        FlowNode::jump_if(Span::new(10, 11), arg(), true, 41),
        FlowNode::jump_if(Span::new(20, 21), arg(), true, 30),
        node_non_branching(30, 40),
        FlowNode::goto(Span::new(40, 41), 5),
    ];

    let expected = FlowHigh::composite(vec![
        flow_high_non_branching(0, 5),
        FlowHigh::while_loop(
            LoopId(1),
            Some(flow_high_non_branching(5, 10)),
            FlowHigh::composite(vec![
                flow_high_non_branching(11, 20),
                FlowHigh::conditional(Span::new(20, 21), flow_high_non_branching(21, 30)),
                flow_high_non_branching(30, 40),
            ]),
            Span::new(10, 11),
        ),
        flow_high_non_branching(41, 50),
    ]);
    let result = test_parse_flow(&program, span);
    assert_eq!(result, expected);
}

#[test]
fn test_if_contains_while() {
    let span = Span::new(0, 60);
    let program = vec![
        // If condition - jump to end if condition is true
        FlowNode::jump_if(Span::new(10, 11), arg(), true, 51),
        // While loop inside if body
        node_non_branching(20, 25), // While condition expression
        FlowNode::jump_if(Span::new(25, 26), arg(), true, 41), // While condition jump
        FlowNode::goto(Span::new(40, 41), 20), // Jump back to while condition
        node_non_branching(51, 60), // While condition expression
    ];

    let expected = FlowHigh::composite(vec![
        flow_high_non_branching(0, 10),
        FlowHigh::conditional(
            Span::new(10, 11),
            FlowHigh::composite(vec![
                flow_high_non_branching(11, 20),
                FlowHigh::while_loop(
                    LoopId(1),
                    Some(flow_high_non_branching(20, 25)),
                    flow_high_non_branching(26, 40),
                    Span::new(25, 26),
                ),
                flow_high_non_branching(41, 51),
            ]),
        ),
        flow_high_non_branching(51, 60),
    ]);

    let result = test_parse_flow(&program, span);
    assert_eq!(result, expected);
}

#[test]
fn jump_conditionally_to_return_statement() {
    let span = Span::new(0, 30);
    let program = vec![
        FlowNode::jump_if(Span::new(10, 11), arg(), true, 20),
        FlowNode::new_return(Span::new(20, 21)),
    ];

    let expected = FlowHigh::composite(vec![
        flow_high_non_branching(0, 10),
        FlowHigh::conditional(Span::new(10, 11), FlowHigh::return_flow()),
        flow_high_non_branching(11, 20),
        FlowHigh::return_flow(),
        flow_high_non_branching(21, 30),
    ]);
    let result = test_parse_flow(&program, span);
    assert_eq!(result, expected);
}

#[test]
fn jump_conditionally_to_return_statement_from_do_while() {
    let span = Span::new(0, 30);
    let program = vec![
        node_non_branching(5, 15),
        FlowNode::jump_if(Span::new(15, 16), arg(), true, 27),
        FlowNode::jump_if(Span::new(20, 21), arg(), true, 5),
        FlowNode::new_return(Span::new(27, 30)),
    ];

    let expected = FlowHigh::composite(vec![
        flow_high_non_branching(0, 5),
        FlowHigh::do_while_loop(
            LoopId(1),
            FlowHigh::composite(vec![
                flow_high_non_branching(5, 15),
                FlowHigh::conditional(Span::new(15, 16), FlowHigh::return_flow()),
                flow_high_non_branching(16, 20),
            ]),
            Span::new(20, 21),
        ),
        flow_high_non_branching(21, 27),
        FlowHigh::return_flow(),
    ]);
    let result = test_parse_flow(&program, span);
    assert_eq!(result, expected);
}

#[test]
// jumps to a return point within an if statement thas has other non branching elements.
fn jump_to_return_within_a_if_clause_inside_a_do_while_loop() {
    let span = Span::new(0, 90);
    let program = vec![
        node_non_branching(0, 10),
        node_non_branching(10, 20),
        FlowNode::jump_if(Span::new(20, 30), arg(), true, 50),
        node_non_branching(30, 40),
        FlowNode::goto(Span::new(40, 50), 80),
        node_non_branching(50, 60),
        FlowNode::jump_if(Span::new(60, 70), arg(), true, 10),
        node_non_branching(70, 80),
        FlowNode::new_return(Span::new(80, 90)),
    ];

    let expected = FlowHigh::composite(vec![
        flow_high_non_branching(0, 10),
        FlowHigh::do_while_loop(
            LoopId(1),
            FlowHigh::composite(vec![
                flow_high_non_branching(10, 20),
                FlowHigh::conditional(
                    Span::new(20, 30),
                    FlowHigh::composite(vec![
                        flow_high_non_branching(30, 40),
                        FlowHigh::return_flow(),
                    ]),
                ),
                flow_high_non_branching(50, 60),
            ]),
            Span::new(60, 70),
        ),
        flow_high_non_branching(70, 80),
        FlowHigh::return_flow(),
    ]);
    let result = test_parse_flow(&program, span);
    assert_eq!(result, expected);
}

#[test]
fn while_with_conditional_continue() {
    let span = Span::new(0, 130);
    let program = vec![
        node_non_branching(0, 10),
        node_non_branching(10, 20),
        FlowNode::jump_if(Span::new(20, 30), arg(), true, 110),
        FlowNode::jump_if(Span::new(30, 40), arg(), true, 120),
        node_non_branching(40, 50),
        FlowNode::jump_if(Span::new(50, 60), arg(), true, 10),
        FlowNode::jump_if(Span::new(60, 70), arg(), true, 90),
        node_non_branching(70, 80),
        FlowNode::goto(Span::new(80, 90), 10),
        node_non_branching(90, 100),
        FlowNode::goto(Span::new(100, 110), 10),
        node_non_branching(110, 120),
        FlowNode::new_return(Span::new(120, 130)),
    ];

    let expected = FlowHigh::composite(vec![
        flow_high_non_branching(0, 10),
        FlowHigh::while_loop(
            LoopId(1),
            Some(flow_high_non_branching(10, 20)),
            FlowHigh::composite(vec![
                FlowHigh::conditional(Span::new(30, 40), FlowHigh::return_flow()),
                flow_high_non_branching(40, 50),
                FlowHigh::conditional(Span::new(50, 60), FlowHigh::Continue(LoopId(1))),
                FlowHigh::conditional(
                    Span::new(60, 70),
                    FlowHigh::composite(vec![
                        flow_high_non_branching(70, 80),
                        FlowHigh::Continue(LoopId(1)),
                    ]),
                ),
                flow_high_non_branching(90, 100),
            ]),
            Span::new(20, 30),
        ),
        flow_high_non_branching(110, 120),
        FlowHigh::return_flow(),
    ]);
    let result = test_parse_flow(&program, span);
    assert_eq!(result, expected);
}
