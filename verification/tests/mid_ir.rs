use disasm::code_printer::CodePrinter;
use disasm::mid_flow::LoopId;
use disasm::mid_ir::{Expr, MidIR};

fn b(e: Expr) -> Box<Expr> {
    Box::new(e)
}

#[test]
fn expression_text() {
    assert_eq!(Expr::Add(b(Expr::Literal(1)), b(Expr::InArg(2))).to_text(), "(1 + i2)");
    assert_eq!(Expr::Mul(b(Expr::OutArg(0)), b(Expr::Literal(-3))).to_text(), "(o0 * -3)");
    assert_eq!(Expr::Equal(b(Expr::Input()), b(Expr::Literal(0))).to_text(), "input() == 0");
    assert_eq!(Expr::Negate(b(Expr::Var("data[7]".to_string()))).to_text(), "!data[7]");
    assert_eq!(Expr::MemRef(b(Expr::InArg(1))).to_text(), "*(i1)");
    assert_eq!(
        Expr::If(b(Expr::OutArg(1)), b(Expr::Literal(1)), b(Expr::Literal(2))).to_text(),
        "if (o1) { 1 } else { 2 }"
    );
}

#[test]
fn prints_nested_statements() {
    let m = MidIR::Block(vec![
        MidIR::Assign(Expr::OutArg(1), Expr::Literal(5)),
        MidIR::If(
            Expr::Equal(b(Expr::InArg(0)), b(Expr::Literal(0))),
            Box::new(MidIR::Return()),
            Some(Box::new(MidIR::Output(Expr::Var("data[3]".to_string())))),
        ),
        MidIR::FunctionCall(12, vec![Expr::Literal(1), Expr::InArg(0)]),
    ]);
    let mut p = CodePrinter::new();
    m.print(&mut p);
    assert_eq!(
        p.result(),
        "o1 = 5;\nif (i0 == 0) {\n  return\n} else {\n  output(data[3]);\n}\nf12(1, i0);\n"
    );
}

#[test]
fn prints_loops() {
    let w = MidIR::While(
        LoopId(2),
        Some(Box::new(MidIR::Assign(Expr::OutArg(1), Expr::InArg(0)))),
        Expr::LessThan(b(Expr::OutArg(1)), b(Expr::Literal(5))),
        Box::new(MidIR::Break(LoopId(2))),
    );
    let mut p = CodePrinter::new();
    w.print(&mut p);
    assert_eq!(p.result(), "'2: while (o1 = i0;o1 < 5) {\n  break '2;\n}  // '2\n");

    let d = MidIR::DoWhile(LoopId(0), Box::new(MidIR::Continue(LoopId(0))), Expr::InArg(1));
    let l = MidIR::Loop(LoopId(1), Box::new(d));
    let mut p = CodePrinter::new();
    l.print(&mut p);
    assert_eq!(
        p.result(),
        "'1: while (true) {\n  '0: do {\n    continue '0;\n  } while (i1)\n}  // '1\n"
    );
}
