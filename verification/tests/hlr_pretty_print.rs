use disasm::control_flow_graph::FunctionId;
use disasm::hlr::ast::{
    BinaryOperator, HlrAssignmentTarget, HlrExpression, HlrFunction, HlrGlobals, HlrProgram,
    HlrStatement, HlrVariable, Scope,
};
use disasm::hlr::pretty_print::TypeInferenceResult;
use disasm::value_types::Type;

fn hlr_program(functions: Vec<HlrFunction>) -> HlrProgram {
    HlrProgram { functions, globals: HlrGlobals::new() }
}

fn hlr_function(id: usize, body: Vec<HlrStatement>) -> HlrFunction {
    HlrFunction {
        original_id: FunctionId::new(id),
        name: id.to_string(),
        args: vec![],
        return_type: vec![],
        body,
    }
}

fn hlr_var(name: &str, typ: Type) -> HlrVariable {
    HlrVariable { name: name.to_string(), type_info: typ, scope: Scope::Local }
}

fn hlr_vardef(target: HlrVariable, expr: HlrExpression) -> HlrStatement {
    HlrStatement::VarDef(vec![target], expr)
}

fn hlr_assign(target: HlrAssignmentTarget, expr: HlrExpression) -> HlrStatement {
    HlrStatement::Assignment(target, expr)
}

fn hlr_var_target(name: &str, typ: Type) -> HlrAssignmentTarget {
    HlrAssignmentTarget::Variable(hlr_var(name, typ))
}

fn hlr_var_expr(name: &str, typ: Type) -> HlrExpression {
    HlrExpression::Variable(hlr_var(name, typ))
}

fn hlr_const(value: i128, typ: Type) -> HlrExpression {
    HlrExpression::Constant(value, typ)
}

fn hlr_binop(op: BinaryOperator, left: HlrExpression, right: HlrExpression, result_type: Type) -> HlrExpression {
    HlrExpression::BinaryOp { op, left: Box::new(left), right: Box::new(right), result_type }
}

fn hlr_if(condition: HlrExpression, then_branch: Vec<HlrStatement>, else_branch: Vec<HlrStatement>) -> HlrStatement {
    HlrStatement::If(condition, then_branch, else_branch)
}

fn hlr_output(expr: HlrExpression) -> HlrStatement {
    HlrStatement::Output(expr)
}

fn hlr_return(exprs: Vec<HlrExpression>) -> HlrStatement {
    HlrStatement::Return(exprs)
}

#[test]
fn test_pretty_print_program() {
    let x_var = hlr_var("x", Type::Int);
    let y_var = hlr_var("y", Type::Int);

    let mut func = hlr_function(0, vec![]);
    func.name = "test_func".to_string();
    func.args = vec![x_var.clone()];
    func.return_type = vec![y_var.clone()];

    func.body = vec![
        hlr_vardef(y_var.clone(), hlr_const(42, Type::Int)),
        hlr_if(
            hlr_binop(
                BinaryOperator::LessThan,
                hlr_var_expr("y", Type::Int),
                hlr_const(100, Type::Int),
                Type::Bool,
            ),
            vec![hlr_assign(
                hlr_var_target("y", Type::Int),
                hlr_binop(
                    BinaryOperator::Add,
                    hlr_var_expr("y", Type::Int),
                    hlr_const(1, Type::Int),
                    Type::Int,
                ),
            )],
            vec![],
        ),
        hlr_return(vec![hlr_var_expr("y", Type::Int)]),
    ];

    let program = hlr_program(vec![func]);
    let default_output = program.print_nocolor_with_data(&TypeInferenceResult::new());
    println!("DEFAULT OUTPUT (no color):\n{}", default_output);

    assert!(default_output.contains("function test_func"));
    assert!(default_output.contains("let y: Int = 42"));
    assert!(default_output.contains("if y < 100"));
    assert!(default_output.contains("y ="));
    assert!(default_output.contains("y + 1"));
    assert!(default_output.contains("return y"));
    assert!(default_output.contains("function test_func"));
    assert!(default_output.contains("(x: Int)"));
    assert!(default_output.contains("-> Int"));
}

#[test]
fn test_pretty_print_expressions() {
    let expr1 = hlr_binop(
        BinaryOperator::Add,
        hlr_const(1, Type::Int),
        hlr_binop(BinaryOperator::Mul, hlr_const(2, Type::Int), hlr_const(3, Type::Int), Type::Int),
        Type::Int,
    );
    let output = expr1.print_nocolor_with_data(&TypeInferenceResult::new());
    assert_eq!(output, "1 + 2 * 3");

    let expr2 = hlr_binop(
        BinaryOperator::Mul,
        hlr_binop(BinaryOperator::Add, hlr_const(1, Type::Int), hlr_const(2, Type::Int), Type::Int),
        hlr_const(3, Type::Int),
        Type::Int,
    );
    let output2 = expr2.print_nocolor_with_data(&TypeInferenceResult::new());
    assert_eq!(output2, "(1 + 2) * 3");
}

#[test]
fn test_pretty_print_statements() {
    let var_def = hlr_vardef(hlr_var("x", Type::Int), hlr_const(42, Type::Int));
    let output = var_def.print_nocolor_with_data(&TypeInferenceResult::new());
    assert!(output.contains("let x: Int = 42;"));

    let if_stmt = hlr_if(
        hlr_binop(BinaryOperator::Equals, hlr_var_expr("x", Type::Int), hlr_const(42, Type::Int), Type::Bool),
        vec![hlr_output(hlr_const(1, Type::Int))],
        vec![hlr_output(hlr_const(0, Type::Int))],
    );
    let output = if_stmt.print_nocolor_with_data(&TypeInferenceResult::new());
    assert!(output.contains("if x == 42 {"));
    assert!(output.contains("output(1);"));
    assert!(output.contains("} else {"));
    assert!(output.contains("output(0);"));
}

#[test]
fn pretty_print_escapes_strings_and_calls() {
    let call = HlrExpression::FunctionCall(
        Box::new(hlr_const(7, Type::Int)),
        vec![HlrExpression::String("a\"b\n".to_string()), hlr_const(-3, Type::Int)],
    );
    assert_eq!(call.print_nocolor_with_data(&TypeInferenceResult::new()), "fu7(\"a\\\"b\\n\", -3)");
}
