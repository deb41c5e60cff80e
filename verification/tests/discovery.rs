use disasm::discovery::{discover_functions, mid_ir_text, program_text};
use disasm::function_parser::parse_function;
use disasm::low_ir::Input;

fn caller_and_callee() -> Vec<i128> {
    vec![
        109, 1, 21101, 0, 7, 1, 21101, 0, 13, 0, 1105, 1, 18, 109, -1, 2106, 0, 0, // entry
        109, 2, 204, -1, 109, -2, 2106, 0, 0, // callee
    ]
}

#[test]
fn single_function_is_discovered_at_entry() {
    let prog: Vec<i128> = vec![109, 1, 104, 5, 109, -1, 2106, 0, 0];
    let fs = discover_functions(&prog).unwrap();
    assert_eq!(fs.len(), 1);
    assert_eq!(fs[0].start, 0);
}

#[test]
fn called_function_is_discovered() {
    let prog = caller_and_callee();
    let fs = discover_functions(&prog).unwrap();
    let starts: Vec<usize> = fs.iter().map(|f| f.start).collect();
    assert_eq!(starts, vec![0, 18]);
}

#[test]
fn mid_ir_text_of_single_function() {
    let prog: Vec<i128> = vec![109, 1, 104, 5, 109, -1, 2106, 0, 0];
    let text = mid_ir_text(&prog).unwrap();
    assert_eq!(text, "fn f0() {\n  output(5);\n  return\n}\n\n");
}

#[test]
fn mid_ir_text_lists_functions_by_start() {
    let prog = caller_and_callee();
    let text = mid_ir_text(&prog).unwrap();
    assert!(text.starts_with("fn f0() {\n"));
    let first = text.find("fn f0(").unwrap();
    let second = text.find("fn f18(").unwrap();
    assert!(first < second);
}

#[test]
fn program_text_sorts_by_start() {
    let prog = caller_and_callee();
    let entry = parse_function(Input::new(0, &prog)).unwrap();
    let callee = parse_function(Input::new(18, &prog[18..])).unwrap();
    let backwards = program_text(vec![callee, entry]);
    assert!(backwards.starts_with("fn f0() {\n"));
    assert!(backwards.find("fn f18(").unwrap() > 0);
}

#[test]
fn empty_function_list_has_empty_text() {
    assert_eq!(program_text(vec![]), "");
}

#[test]
fn entry_without_frame_is_refused() {
    let prog: Vec<i128> = vec![104, 5, 99];
    assert!(discover_functions(&prog).is_err());
    assert!(mid_ir_text(&prog).is_err());
}

#[test]
fn call_past_the_end_is_refused_as_empty() {
    let prog: Vec<i128> = vec![109, 1, 21101, 0, 7, 1, 21101, 0, 13, 0, 1105, 1, 500, 109, -1, 2106, 0, 0];
    match discover_functions(&prog) {
        Err(e) => assert_eq!(e, disasm::low_ir::ParseError::Empty),
        Ok(_) => panic!("expected an error"),
    }
}
