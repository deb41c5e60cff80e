use disasm::function_parser::{parse_function, FunctionParser};
use disasm::low_ir::Input;
use disasm::mid_ir::{Expr, MidIR};

#[test]
fn parses_function_with_output_and_return() {
    // adjust base by 1 (entry code: frame counts as empty), output 5, return.
    let prog: Vec<i128> = vec![109, 1, 104, 5, 109, -1, 2106, 0, 0];
    let f = parse_function(Input::new(0, &prog)).unwrap();
    assert_eq!(f.start, 0);
    assert_eq!(f.end, 9);
    assert_eq!(f.stack_size, 0);
    assert_eq!(f.block, MidIR::Block(vec![MidIR::Output(Expr::Literal(5)), MidIR::Return()]));
}

#[test]
fn frame_size_comes_from_base_adjustment() {
    // a function at address 2 with a frame of 3 words that outputs its first input
    let prog: Vec<i128> = vec![0, 0, 109, 3, 204, -1, 109, -3, 2106, 0, 0];
    let f = parse_function(Input::new(2, &prog[2..])).unwrap();
    assert_eq!(f.start, 2);
    assert_eq!(f.stack_size, 3);
    assert_eq!(f.block, MidIR::Block(vec![MidIR::Output(Expr::InArg(2)), MidIR::Return()]));
}

#[test]
fn parse_function_needs_frame_setup() {
    let prog: Vec<i128> = vec![104, 5, 99];
    assert!(parse_function(Input::new(0, &prog)).is_err());
}

#[test]
fn recognises_function_call() {
    // o1 = 7; o0 = return address; goto 100
    let parser = FunctionParser { stack_size: 2 };
    let wrong: Vec<i128> = vec![21101, 0, 7, 1, 21101, 0, 9, 0, 1105, 1, 100];
    assert!(parser.parse_function_call(Input::new(0, &wrong)).is_err());
    let prog: Vec<i128> = vec![21101, 0, 7, 1, 21101, 0, 11, 0, 1105, 1, 100];
    let (rest, call) = parser.parse_function_call(Input::new(0, &prog)).unwrap();
    assert_eq!(rest.offset, 11);
    assert_eq!(call, MidIR::FunctionCall(100, vec![Expr::Literal(7)]));
}

#[test]
fn recognises_conditional_assignment() {
    // if [R-1] == 0 jump to 10; o1 = 1; goto 14; 10: o1 = 2; 14:
    let prog: Vec<i128> = vec![1206, -1, 10, 21101, 0, 1, 1, 1105, 1, 14, 21101, 0, 2, 1];
    let parser = FunctionParser { stack_size: 4 };
    let (rest, m) = parser.parse_simple_ternary_assign_tmp(Input::new(0, &prog)).unwrap();
    assert_eq!(rest.offset, 14);
    assert_eq!(
        m,
        MidIR::Assign(
            Expr::OutArg(1),
            Expr::If(Box::new(Expr::InArg(3)), Box::new(Expr::Literal(1)), Box::new(Expr::Literal(2)))
        )
    );
}

#[test]
fn structures_a_conditional_return() {
    // frame of 2; if [R-1] == 0 jump to the return, else output first
    let prog: Vec<i128> = vec![0, 0, 109, 2, 1206, -1, 9, 104, 1, 109, -2, 2106, 0, 0];
    let f = parse_function(Input::new(2, &prog[2..])).unwrap();
    assert_eq!(f.end, 14);
    assert_eq!(
        f.block,
        MidIR::Block(vec![
            MidIR::If(Expr::Negate(Box::new(Expr::InArg(1))), Box::new(MidIR::Return()), None),
            MidIR::Output(Expr::Literal(1)),
            MidIR::Return(),
        ])
    );
}
