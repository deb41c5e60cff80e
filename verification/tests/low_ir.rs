use disasm::low_ir::{Arg, GenericInstruction, OpArg, Span};

fn shift(a: &Arg) -> Arg {
    match a {
        Arg::Mem(x) => Arg::Mem(x + 100),
        other => *other,
    }
}

#[test]
fn map_applies_to_every_operand() {
    let add = GenericInstruction::Add(Arg::Mem(1), Arg::Value(2), Arg::Mem(3));
    assert_eq!(add.map(shift).to_text(), "[103] = [101] + 2");
    let phi = GenericInstruction::Phi(Arg::Mem(1), vec![Arg::Mem(2), Arg::RelativeMem(-1)]);
    assert_eq!(phi.map(shift).to_text(), "[101] = φ([102], [R-1])");
    let jump = GenericInstruction::JumpIf(Arg::Mem(5), false, Arg::Value(12));
    assert_eq!(jump.map(shift).to_text(), "if ![105] goto 12");
    let data: GenericInstruction<Arg> = GenericInstruction::Data(vec![1, -2]);
    assert_eq!(data.map(shift).to_text(), "[DATA: [1, -2]]");
}

#[test]
fn map_strips_operand_positions() {
    let op = GenericInstruction::Output(OpArg { kind: Arg::RelativeMem(2), span: Span::new(3, 4), debug_marker: None });
    assert_eq!(op.map(|a: &OpArg| a.kind).to_text(), "output([R+2])");
    assert_eq!(op.to_text(), "output([R+2])");
}

fn record_read(mut seen: Vec<String>, a: &Arg) -> (Vec<String>, Result<Arg, String>) {
    match a {
        Arg::Value(13) => (seen, Err("unlucky".to_string())),
        _ => {
            seen.push(format!("r{:?}", a));
            (seen, Ok(shift(a)))
        },
    }
}

fn record_write(mut seen: Vec<String>, a: &Arg) -> (Vec<String>, Result<Arg, String>) {
    seen.push(format!("w{:?}", a));
    (seen, Ok(*a))
}

#[test]
fn map_rw_result_reads_before_the_write() {
    let assign = GenericInstruction::Assign(Arg::Mem(1), Arg::Mem(2));
    let (seen, r) = assign.map_rw_result(Vec::new(), record_read, record_write);
    assert_eq!(r.unwrap().to_text(), "[1] = [102]");
    assert_eq!(seen, vec!["rMem(2)".to_string(), "wMem(1)".to_string()]);
    let phi = GenericInstruction::Phi(Arg::Mem(1), vec![Arg::Mem(2), Arg::Mem(3)]);
    let (seen, r) = phi.map_rw_result(Vec::new(), record_read, record_write);
    assert_eq!(r.unwrap().to_text(), "[1] = φ([102], [103])");
    assert_eq!(seen, vec!["rMem(2)".to_string(), "rMem(3)".to_string(), "wMem(1)".to_string()]);
}

#[test]
fn map_rw_result_stops_at_the_first_error() {
    let add = GenericInstruction::Add(Arg::Mem(4), Arg::Value(13), Arg::Mem(5));
    let (seen, r) = add.map_rw_result(Vec::new(), record_read, record_write);
    assert_eq!(r.err(), Some("unlucky".to_string()));
    assert_eq!(seen, vec!["rMem(4)".to_string()]);
}

#[test]
fn map_result_uses_one_map_for_all_operands() {
    let lt = GenericInstruction::LessThan(Arg::Mem(1), Arg::Value(2), Arg::Mem(3));
    let (seen, r) = lt.map_result(Vec::new(), record_read);
    assert_eq!(r.unwrap().to_text(), "[103] = [101] < 2");
    assert_eq!(seen, vec!["rMem(1)".to_string(), "rValue(2)".to_string(), "rMem(3)".to_string()]);
}

#[test]
fn map_rw_threads_the_state() {
    let add = GenericInstruction::Add(Arg::Mem(1), Arg::Value(2), Arg::Mem(3));
    let (count, r) = add.map_rw(0usize, |n: usize, a: &Arg| (n + 1, shift(a)), |n: usize, a: &Arg| (n + 10, *a));
    assert_eq!(count, 12);
    assert_eq!(r.to_text(), "[3] = [101] + 2");
    let halt: GenericInstruction<Arg> = GenericInstruction::Halt;
    let (count, r) = halt.map_rw(5usize, |n: usize, a: &Arg| (n + 1, *a), |n: usize, a: &Arg| (n + 10, *a));
    assert_eq!(count, 5);
    assert_eq!(r.to_text(), "halt");
}
