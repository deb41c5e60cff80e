use disasm::control_flow_graph::{Block, BlockId, FunctionCall, FunctionId, NextKind};
use disasm::low_ir::{GenericInstruction, Span};
use disasm::program_analysis::ProgramAnalysis;
use disasm::ssa_form::{SSAArg, SSAArgKind};
use disasm::type_inference::{ConstraintReason, Type, TypeInference, TypeVarId};
use disasm::assembler::compile;

fn mem(addr: i128, version: usize) -> SSAArg {
    SSAArg::new(FunctionId(0), SSAArgKind::Mem(addr), version)
}

fn var(n: usize) -> Type {
    Type::TypeVar(TypeVarId(n))
}

#[test]
fn type_texts() {
    assert_eq!(Type::Int.to_text(), "int");
    assert_eq!(Type::Pointer(Box::new(var(3))).to_text(), "*t3");
    let f = Type::FunctionPointer { args: vec![Type::Int, Type::Char], returns: vec![] };
    assert_eq!(f.to_text(), "fn(int, char) -> void");
    let g = Type::FunctionPointer { args: vec![], returns: vec![Type::Bool, Type::String] };
    assert_eq!(g.to_text(), "fn() -> bool, string");
}

#[test]
fn operands_get_fresh_variables_once() {
    let mut ti = TypeInference::new();
    assert_eq!(ti.type_for_arg(mem(100, 1)), var(1));
    assert_eq!(ti.type_for_arg(mem(101, 0)), var(2));
    assert_eq!(ti.type_for_arg(mem(100, 1)), var(1));
    assert!(ti.constraints.is_empty());
}

#[test]
fn pointer_target_constrains_its_cell() {
    let mut ti = TypeInference::new();
    let target = SSAArg::new(FunctionId(0), SSAArgKind::Deref { addr: 5, deref_version: 2 }, 0);
    assert_eq!(ti.type_for_arg(target), var(1));
    assert_eq!(ti.type_vars.len(), 2);
    assert_eq!(ti.type_vars[1].0, mem(5, 2));
    assert_eq!(ti.constraints.len(), 1);
    let c = &ti.constraints[0];
    assert_eq!(c.left, var(2));
    assert_eq!(c.right, Type::Pointer(Box::new(var(1))));
    assert_eq!(c.addr, 5);
    assert_eq!(c.reason, ConstraintReason::Deref);
}

#[test]
fn arithmetic_constrains_to_int_and_unifies() {
    let mut ti = TypeInference::new();
    let op = GenericInstruction::Add(mem(1, 0), mem(2, 0), mem(3, 1));
    ti.generate_constraint_for_op(7, &op);
    // destination first, then the sources
    assert_eq!(ti.type_vars[0].0, mem(3, 1));
    assert_eq!(ti.type_vars[1].0, mem(1, 0));
    assert_eq!(ti.constraints.len(), 3);
    assert!(ti.constraints.iter().all(|c| c.right == Type::Int && c.addr == 7 && c.reason == ConstraintReason::AddImpliesInt));
    let subst = ti.unify().unwrap();
    assert_eq!(subst, vec![(TypeVarId(3), Type::Int), (TypeVarId(2), Type::Int), (TypeVarId(1), Type::Int)]);
}

#[test]
fn comparisons_and_output() {
    let mut ti = TypeInference::new();
    ti.generate_constraint_for_op(0, &GenericInstruction::Equals(mem(1, 0), mem(2, 0), mem(3, 1)));
    ti.generate_constraint_for_op(4, &GenericInstruction::Output(mem(1, 0)));
    assert_eq!(ti.constraints.len(), 3);
    assert_eq!(ti.constraints[0].right, Type::Bool);
    assert_eq!(ti.constraints[1].reason, ConstraintReason::CompareSrcSameType);
    assert_eq!((ti.constraints[1].left.clone(), ti.constraints[1].right.clone()), (var(2), var(3)));
    assert_eq!(ti.constraints[2].reason, ConstraintReason::OutputImpliesChar);
    let subst = ti.unify().unwrap();
    // t2 := char from the output, then t2 = t3 binds t3 to char as well
    assert_eq!(subst, vec![(TypeVarId(2), Type::Char), (TypeVarId(3), Type::Char), (TypeVarId(1), Type::Bool)]);
}

#[test]
fn phi_links_sources_to_destination() {
    let mut ti = TypeInference::new();
    let phi = GenericInstruction::Phi(mem(1, 2), vec![mem(1, 0), mem(1, 2), mem(1, 1)]);
    ti.generate_constraint_for_op(10, &phi);
    assert_eq!(ti.constraints.len(), 2);
    assert_eq!(ti.constraints[0].left, var(1));
    assert_eq!(ti.constraints[0].right, var(2));
    assert_eq!(ti.constraints[1].right, var(3));
    assert_eq!(ti.constraints[1].reason, ConstraintReason::Assignment);
}

#[test]
fn substitute_replaces_bound_variables_once() {
    let subst = vec![(TypeVarId(1), Type::Char), (TypeVarId(2), var(1))];
    let t = Type::FunctionPointer { args: vec![Type::Pointer(Box::new(var(1)))], returns: vec![var(2), var(4)] };
    let r = TypeInference::substitute(t, &subst);
    assert_eq!(r.to_text(), "fn(*char) -> t1, t4");
}

#[test]
fn call_binds_arguments_to_callee_slots() {
    // caller at 0 calls 20 with one argument; 20 has a frame of 2 words
    let mut prog: Vec<i128> = vec![0; 29];
    let caller: Vec<i128> = vec![109, 1, 21101, 0, 9, 0, 1105, 1, 20, 204, 1, 99];
    prog[..caller.len()].copy_from_slice(&caller);
    let callee: Vec<i128> = vec![109, 2, 204, -1, 109, -2, 2106, 0, 0];
    prog[20..29].copy_from_slice(&callee);
    let program = ProgramAnalysis::build(&prog);

    let x = mem(100, 1);
    let addr = SSAArg::new(FunctionId(0), SSAArgKind::Value(20), 0);
    let block = Block {
        predecessors: vec![],
        ops: vec![(2, GenericInstruction::Output(x))],
        next: NextKind::FunctionCall(FunctionCall { calling_block: BlockId(0), function_addr: addr, return_block: BlockId(9) }),
        span: Span::new(0, 9),
    };
    let arg = SSAArg::new(FunctionId(0), SSAArgKind::RelativeMem(1), 0);
    let mut ti = TypeInference::new();
    ti.generate_constraint_for_block(&program, &block, &Some(vec![arg]));
    assert_eq!(ti.constraints.len(), 3);
    assert_eq!(ti.constraints[1].left, var(2));
    assert_eq!(ti.constraints[1].right, Type::FunctionPointer { args: vec![], returns: vec![] });
    assert_eq!(ti.constraints[1].addr, 9);
    let binding = &ti.constraints[2];
    assert_eq!((binding.left.clone(), binding.right.clone()), (var(3), var(4)));
    assert_eq!(binding.reason, ConstraintReason::FunctionParameterBinding);
    assert_eq!(ti.type_vars[3].0, SSAArg::new(FunctionId(20), SSAArgKind::RelativeMem(-1), 0));
}

#[test]
fn program_constraints_come_from_its_ssa_form() {
    // frame; [100] = 2 + 3; output [100]; halt
    let prog: Vec<i128> = vec![109, 1, 1101, 2, 3, 100, 4, 100, 99];
    let pa = ProgramAnalysis::build(&prog);
    let mut ti = TypeInference::new();
    assert!(ti.generate_constaints_for_program(&pa));
    assert_eq!(ti.constraints.len(), 4);
    assert_eq!(ti.constraints[0].reason, ConstraintReason::AddImpliesInt);
    assert_eq!(ti.constraints[3].reason, ConstraintReason::OutputImpliesChar);
    assert_eq!(ti.type_vars[0].0, SSAArg::new(FunctionId(0), SSAArgKind::Mem(100), 0));
    let subst = ti.unify().unwrap();
    // the output makes [100] a char; its use in the addition cannot change that
    assert_eq!(subst, vec![(TypeVarId(1), Type::Char), (TypeVarId(3), Type::Int), (TypeVarId(2), Type::Int)]);
}

struct TestContext {
    type_inference: TypeInference,
    result: Vec<(TypeVarId, Type)>,
}

impl TestContext {
    fn new(code: &str) -> TestContext {
        let binary = compile(code).unwrap();
        let program = ProgramAnalysis::build(&binary);
        let mut type_inference = TypeInference::new();
        type_inference.generate_constaints_for_program(&program);
        let result = type_inference.unify().unwrap();
        TestContext { type_inference, result }
    }

    fn resolved(&self, t: &Type) -> Type {
        match t {
            Type::TypeVar(v) => self.result.iter().find(|(k, _)| k == v).expect("type variable not bound").1.duplicate(),
            _ => panic!("Unexpected type"),
        }
    }

    fn assert_type(&self, addr: usize, expected: Type) {
        let entry = self
            .type_inference
            .type_vars
            .iter()
            .filter(|(k, _)| matches!(k.arg, SSAArgKind::Mem(a) if a as usize == addr))
            .max_by_key(|(k, _)| k.version)
            .expect("No type variable found for address");
        let actual = self.resolved(&entry.1);
        assert_eq!(actual, expected, "Expected type {:?} but got {:?} for memory address {}", expected, actual, addr);
    }

    fn assert_marker(&self, debug_marker: char, expected: Type) {
        let var = self
            .type_inference
            .debug_markers
            .iter()
            .find(|(c, _)| *c == debug_marker)
            .unwrap_or_else(|| panic!("No type variable found for debug marker '{}", debug_marker))
            .1;
        let t = &self.type_inference.type_vars.iter().find(|(k, _)| *k == var).expect("No type variable for marker").1;
        let actual = self.resolved(t);
        assert_eq!(actual, expected, "Expected type {:?} but got {:?} for debug marker '{}", expected, actual, debug_marker);
    }
}

fn no_function() -> Type {
    Type::FunctionPointer { args: vec![], returns: vec![] }
}

#[test]
fn test_type_inference() {
    let ctx = TestContext::new(
        r#"
        R += 5000
        [3] = 'a [1] + [2]
        [R] = @res
        goto @f1
res:
        halt
f1:
        R += 4
        [21] = [R-1]
        if 'b [R-2] goto @f1
        R -= 4
        goto [R]

        "#,
    );
    ctx.assert_type(1, Type::Int);
    ctx.assert_marker('a', Type::Int);
    ctx.assert_marker('b', Type::Bool);
}

#[test]
fn test_boolean_comparison() {
    let ctx = TestContext::new(
        r#"
            R += 1000
            [1000] = [1001] < [1002]
        "#,
    );
    ctx.assert_type(1000, Type::Bool);
    ctx.assert_type(1001, Type::Int);
    ctx.assert_type(1002, Type::Int);
}

#[test]
fn test_output_implies_char() {
    let ctx = TestContext::new(
        r#"
            R += 1000
            output [1001]
        "#,
    );
    ctx.assert_type(1001, Type::Char);
}

#[test]
fn test_function_addr() {
    let ctx = TestContext::new(
        r#"
                R += 1000
                [1001] = [R-2]
                [R] = @ret
                goto [R-2]
                ret:
                halt

            "#,
    );
    ctx.assert_type(1001, no_function());
}

#[test]
fn test_function_addr_with_debug() {
    let ctx = TestContext::new(
        r#"
                    R += 1000
                    'a [R+2] = [R-2]
                    'b [R+2] = 15
                    'c [R+2] = [R+2] + 5
                    [R] = @ret
                    goto [R-2]
            ret:
                    halt
                "#,
    );
    ctx.assert_marker('a', no_function());
    ctx.assert_marker('b', Type::Int);
    ctx.assert_marker('c', Type::Int);
}

#[test]
fn test_link_function_params_to_argument_types() {
    let ctx = TestContext::new(
        r#"
                R += 1000
                output('d [R-3])
                'a [R+1] = 65
                [R] = @ret
                goto @print
    ret:
                halt
    print:
                R += 4
                output('b [R-3])
                R -= 4
                goto [R]
            "#,
    );
    ctx.assert_marker('d', Type::Char);
    ctx.assert_marker('b', Type::Char);
    ctx.assert_marker('a', Type::Char);
}

#[test]
fn test_link_function_params_to_argument_types_multi() {
    let ctx = TestContext::new(
        r#"
                R += 1000
                'a [R+1] = 65
                'b [R+2] = 66
                'c [R+3] = 67
                'd [R+4] = 68
                [R] = @ret
                goto @print
    ret:
                halt
    print:
                R += 10
                output([R-9])
                if [R-8] goto @fret
    fret:
                [R+1] = 3
                [R] = @call_ret
                goto [R-7]
    call_ret:
                ptr = [R-6]
                [R-2] = *ptr
                if [R-2] goto @done
    done:
                R -= 4
                goto [R]
            "#,
    );
    ctx.assert_marker('a', Type::Char);
    ctx.assert_marker('b', Type::Bool);
    ctx.assert_marker('c', no_function());
    ctx.assert_marker('d', Type::Pointer(Box::new(Type::Bool)));
}
