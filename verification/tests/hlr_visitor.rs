use disasm::control_flow_graph::FunctionId;
use disasm::hlr::ast::{
    BinaryOperator, HlrAssignmentTarget, HlrExpression, HlrFunction, HlrStatement, HlrVariable,
    Scope,
};
use disasm::value_types::Type;
use disasm::hlr::visitor::{
    visit_function, visit_with_locations, BlockLocation, Control, ExpressionLocation, HlrFunctionVisitor,
    HlrNode, HlrVisitEvent, StatementLocation,
};

fn hlr_function(id: usize, body: Vec<HlrStatement>) -> HlrFunction {
    HlrFunction {
        original_id: FunctionId::new(id),
        name: id.to_string(),
        args: vec![],
        return_type: vec![],
        body,
    }
}

fn hlr_var(name: &str, typ: Type) -> HlrVariable {
    HlrVariable { name: name.to_string(), type_info: typ, scope: Scope::Local }
}

fn hlr_vardef(target: HlrVariable, expr: HlrExpression) -> HlrStatement {
    HlrStatement::VarDef(vec![target], expr)
}

#[allow(dead_code)]
fn hlr_assign(target: HlrAssignmentTarget, expr: HlrExpression) -> HlrStatement {
    HlrStatement::Assignment(target, expr)
}

#[allow(dead_code)]
fn hlr_var_target(name: &str, typ: Type) -> HlrAssignmentTarget {
    HlrAssignmentTarget::Variable(hlr_var(name, typ))
}

#[allow(dead_code)]
fn hlr_var_expr(name: &str, typ: Type) -> HlrExpression {
    HlrExpression::Variable(hlr_var(name, typ))
}

fn hlr_const(value: i128, typ: Type) -> HlrExpression {
    HlrExpression::Constant(value, typ)
}

#[allow(dead_code)]
fn hlr_binop(op: BinaryOperator, left: HlrExpression, right: HlrExpression, result_type: Type) -> HlrExpression {
    HlrExpression::BinaryOp { op, left: Box::new(left), right: Box::new(right), result_type }
}

#[allow(dead_code)]
fn hlr_if(condition: HlrExpression, then_branch: Vec<HlrStatement>, else_branch: Vec<HlrStatement>) -> HlrStatement {
    HlrStatement::If(condition, then_branch, else_branch)
}

#[allow(dead_code)]
fn hlr_while(condition: HlrExpression, body: Vec<HlrStatement>) -> HlrStatement {
    HlrStatement::While(condition, body)
}

#[derive(Debug, PartialEq)]
enum VisitedNode {
    Block,
    Statement(String),
    Expression(String),
}

#[test]
fn test_basic_visitor() {
    let mut func = hlr_function(
        0,
        vec![hlr_vardef(
            hlr_var("x", Type::Int),
            hlr_const(42, Type::Int),
        )],
    );

    let mut visited = Vec::new();

    visit_function(&mut func, |event| {
        match event {
            HlrVisitEvent::Enter(node) => match node {
                HlrNode::Block(_) => visited.push(VisitedNode::Block),
                HlrNode::Statement(HlrStatement::VarDef(vars, _)) => {
                    if !vars.is_empty() {
                        visited.push(VisitedNode::Statement(vars[0].name.clone()))
                    }
                }
                HlrNode::Expression(HlrExpression::Constant(val, _)) => {
                    visited.push(VisitedNode::Expression(format!("Constant({})", val)))
                }
                _ => {}
            },
            _ => {}
        }
        Control::Continue
    });

    assert_eq!(visited.len(), 3);
    assert_eq!(visited[0], VisitedNode::Block);
    assert_eq!(visited[1], VisitedNode::Statement("x".to_string()));
    assert_eq!(
        visited[2],
        VisitedNode::Expression("Constant(42)".to_string())
    );
}

#[test]
fn test_complex_visitor() {
    let mut func = hlr_function(
        0,
        vec![hlr_if(
            hlr_const(1, Type::Bool),
            vec![hlr_vardef(
                hlr_var("then", Type::Int),
                hlr_const(10, Type::Int),
            )],
            vec![hlr_vardef(
                hlr_var("else", Type::Int),
                hlr_const(20, Type::Int),
            )],
        )],
    );

    let mut visited = Vec::new();

    visit_function(&mut func, |event| {
        match event {
            HlrVisitEvent::Enter(node) => match node {
                HlrNode::Statement(HlrStatement::VarDef(vars, _)) => {
                    if !vars.is_empty() {
                        visited.push(VisitedNode::Statement(vars[0].name.clone()))
                    }
                }
                HlrNode::Statement(HlrStatement::If(_, _, _)) => {
                    visited.push(VisitedNode::Statement("if".to_string()))
                }
                HlrNode::Expression(HlrExpression::Constant(val, _)) => {
                    visited.push(VisitedNode::Expression(format!("Constant({})", val)))
                }
                _ => {}
            },
            _ => {}
        }
        Control::Continue
    });

    assert_eq!(visited.len(), 6);
    assert_eq!(visited[0], VisitedNode::Statement("if".to_string()));
    assert_eq!(
        visited[1],
        VisitedNode::Expression("Constant(1)".to_string())
    );
    assert_eq!(visited[2], VisitedNode::Statement("then".to_string()));
    assert_eq!(
        visited[3],
        VisitedNode::Expression("Constant(10)".to_string())
    );
    assert_eq!(visited[4], VisitedNode::Statement("else".to_string()));
    assert_eq!(
        visited[5],
        VisitedNode::Expression("Constant(20)".to_string())
    );
}

#[test]
fn test_visitor_pruning() {
    let mut func = hlr_function(
        0,
        vec![
            hlr_vardef(hlr_var("first", Type::Int), hlr_const(1, Type::Int)),
            hlr_vardef(hlr_var("second", Type::Int), hlr_const(2, Type::Int)),
        ],
    );

    let mut visited = Vec::new();
    let mut statement_exits = Vec::new();

    visit_function(&mut func, |event| {
        match event {
            HlrVisitEvent::Enter(HlrNode::Statement(HlrStatement::VarDef(vars, _))) => {
                if !vars.is_empty() {
                    // Prune after seeing the first variable
                    if vars[0].name == "first" {
                        return Control::Prune;
                    }
                }
            }
            HlrVisitEvent::Enter(HlrNode::Expression(HlrExpression::Constant(c, _))) => {
                visited.push(*c);
                return Control::Continue;
            }
            HlrVisitEvent::Finish(HlrNode::Statement(HlrStatement::VarDef(vars, _))) => {
                if !vars.is_empty() {
                    statement_exits.push(vars[0].name.clone());
                }
            }
            _ => {}
        }
        Control::Continue
    });

    // Should only visit the second constant due to pruning
    assert_eq!(visited, vec![2]);

    // Assert that exit events for both statements are called
    assert_eq!(
        statement_exits,
        vec!["first".to_string(), "second".to_string()]
    );
}

#[test]
fn test_visitor_enter_finish() {
    let mut func = hlr_function(
        0,
        vec![hlr_vardef(
            hlr_var("x", Type::Int),
            hlr_const(42, Type::Int),
        )],
    );

    let mut events = Vec::<String>::new();

    visit_function(&mut func, |event| {
        match event {
            HlrVisitEvent::Enter(HlrNode::Block(_)) => events.push("enter block".to_string()),
            HlrVisitEvent::Finish(HlrNode::Block(_)) => events.push("finish block".to_string()),
            HlrVisitEvent::Enter(HlrNode::Statement(_)) => {
                events.push("enter statement".to_string())
            }
            HlrVisitEvent::Finish(HlrNode::Statement(_)) => {
                events.push("finish statement".to_string())
            }
            HlrVisitEvent::Enter(HlrNode::Expression(_)) => {
                events.push("enter expression".to_string())
            }
            HlrVisitEvent::Finish(HlrNode::Expression(_)) => {
                events.push("finish expression".to_string())
            }
        }
        Control::Continue
    });

    assert_eq!(events.len(), 6);
    assert_eq!(events[0], "enter block");
    assert_eq!(events[1], "enter statement");
    assert_eq!(events[2], "enter expression");
    assert_eq!(events[3], "finish expression");
    assert_eq!(events[4], "finish statement");
    assert_eq!(events[5], "finish block");
}

struct TestVisitor {
    events: Vec<String>,
}

impl HlrFunctionVisitor<Control> for TestVisitor {
    fn enter_block(
        &mut self,
        location: BlockLocation,
        _block: &mut Vec<HlrStatement>,
    ) -> Control {
        self.events
            .push(format!("enter_block: {}", location.block_id));
        Control::Continue
    }

    fn finish_block(
        &mut self,
        location: BlockLocation,
        _block: &mut Vec<HlrStatement>,
    ) -> Control {
        self.events
            .push(format!("finish_block: {}", location.block_id));
        Control::Continue
    }

    fn enter_statement(
        &mut self,
        location: StatementLocation,
        stmt: &mut HlrStatement,
    ) -> Control {
        let stmt_type = stmt.kind_name();

        self.events.push(format!(
            "enter_statement: {} (block: {}, id: {})",
            stmt_type, location.block_location.block_id, location.statement_id
        ));
        Control::Continue
    }

    fn finish_statement(
        &mut self,
        location: StatementLocation,
        stmt: &mut HlrStatement,
    ) -> Control {
        let stmt_type = stmt.kind_name();

        self.events.push(format!(
            "finish_statement: {} (block: {}, id: {})",
            stmt_type, location.block_location.block_id, location.statement_id
        ));
        Control::Continue
    }

    fn enter_expression(
        &mut self,
        location: ExpressionLocation,
        expr: &mut HlrExpression,
    ) -> Control {
        let expr_type = expr.kind_name();

        self.events.push(format!(
            "enter_expression: {} (stmt: {}, id: {})",
            expr_type, location.containing_statement.statement_id, location.expression_id
        ));
        Control::Continue
    }

    fn finish_expression(
        &mut self,
        location: ExpressionLocation,
        expr: &mut HlrExpression,
    ) -> Control {
        let expr_type = expr.kind_name();

        self.events.push(format!(
            "finish_expression: {} (stmt: {}, id: {})",
            expr_type, location.containing_statement.statement_id, location.expression_id
        ));
        Control::Continue
    }
}

#[test]
fn test_simple_function_with_var_def() {
    let mut func = hlr_function(
        0,
        vec![hlr_vardef(
            hlr_var("x", Type::Int),
            hlr_const(42, Type::Int),
        )],
    );

    let mut visitor = TestVisitor { events: Vec::new() };
    visit_with_locations(&mut func, &mut visitor);

    assert_eq!(visitor.events.len(), 6);
    assert_eq!(visitor.events[0], "enter_block: 0");
    assert_eq!(
        visitor.events[1],
        "enter_statement: VarDef (block: 0, id: 0)"
    );
    assert_eq!(
        visitor.events[2],
        "enter_expression: Constant (stmt: 0, id: 0)"
    );
    assert_eq!(
        visitor.events[3],
        "finish_expression: Constant (stmt: 0, id: 0)"
    );
    assert_eq!(
        visitor.events[4],
        "finish_statement: VarDef (block: 0, id: 0)"
    );
    assert_eq!(visitor.events[5], "finish_block: 0");
}

#[test]
fn test_nested_if_statement() {
    let mut func = hlr_function(
        0,
        vec![hlr_if(
            hlr_const(1, Type::Bool),
            vec![hlr_vardef(
                hlr_var("then", Type::Int),
                hlr_const(10, Type::Int),
            )],
            vec![hlr_vardef(
                hlr_var("else", Type::Int),
                hlr_const(20, Type::Int),
            )],
        )],
    );

    let mut visitor = TestVisitor { events: Vec::new() };
    visit_with_locations(&mut func, &mut visitor);

    assert!(visitor.events.iter().any(|e| e == "enter_block: 0"));
    assert!(visitor.events.iter().any(|e| e == "enter_block: 1"));
    assert!(visitor.events.iter().any(|e| e == "enter_block: 2"));
    assert!(visitor
        .events
        .iter()
        .any(|e| e == "enter_statement: If (block: 0, id: 0)"));
    assert!(visitor
        .events
        .iter()
        .any(|e| e == "enter_statement: VarDef (block: 1, id: 1)"));
    assert!(visitor
        .events
        .iter()
        .any(|e| e == "enter_statement: VarDef (block: 2, id: 2)"));
}

#[test]
fn test_loops_and_assignments() {
    let mut func = hlr_function(
        0,
        vec![
            hlr_vardef(hlr_var("x", Type::Int), hlr_const(0, Type::Int)),
            hlr_while(
                hlr_const(1, Type::Bool),
                vec![hlr_vardef(
                    hlr_var("y", Type::Int),
                    hlr_const(42, Type::Int),
                )],
            ),
        ],
    );

    let mut visitor = TestVisitor { events: Vec::new() };
    visit_with_locations(&mut func, &mut visitor);

    let block_ids: Vec<usize> = visitor
        .events
        .iter()
        .filter_map(|e| {
            if e.starts_with("enter_block: ") {
                Some(e["enter_block: ".len()..].parse::<usize>().unwrap())
            } else {
                None
            }
        })
        .collect();

    assert_eq!(block_ids, vec![0, 1]);
}

