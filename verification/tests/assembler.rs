use disasm::assembler::{compile, instruction_kind_size, parse_program, AsmError, AsmOperand, AsmOperandKind};
use disasm::low_ir::GenericInstruction;

type Kind = GenericInstruction<AsmOperandKind>;
use AsmOperandKind::{Immediate, Memory, Pointer, RelativeMemory};

fn kind_of(x: &GenericInstruction<AsmOperand>) -> Kind {
    match x {
        GenericInstruction::Add(a, b, c) => GenericInstruction::Add(a.kind, b.kind, c.kind),
        GenericInstruction::Mul(a, b, c) => GenericInstruction::Mul(a.kind, b.kind, c.kind),
        GenericInstruction::Input(a) => GenericInstruction::Input(a.kind),
        GenericInstruction::Output(a) => GenericInstruction::Output(a.kind),
        GenericInstruction::JumpIf(a, t, b) => GenericInstruction::JumpIf(a.kind, *t, b.kind),
        GenericInstruction::LessThan(a, b, c) => GenericInstruction::LessThan(a.kind, b.kind, c.kind),
        GenericInstruction::Equals(a, b, c) => GenericInstruction::Equals(a.kind, b.kind, c.kind),
        GenericInstruction::AdjustRelativeBase(a) => GenericInstruction::AdjustRelativeBase(a.kind),
        GenericInstruction::Data(v) => GenericInstruction::Data(v.clone()),
        GenericInstruction::Halt => GenericInstruction::Halt,
        GenericInstruction::Goto(a) => GenericInstruction::Goto(a.kind),
        GenericInstruction::Assign(a, b) => GenericInstruction::Assign(a.kind, b.kind),
        GenericInstruction::Phi(a, v) => GenericInstruction::Phi(a.kind, v.iter().map(|o| o.kind).collect()),
    }
}

fn parse_single_instruction_kind(input: &str) -> Kind {
    let v = parse_program(input).unwrap();
    assert_eq!(v.len(), 1, "Expected single instruction for test");
    kind_of(&v[0].1)
}

fn parse_test_program_kinds(input: &str) -> Vec<Kind> {
    parse_program(input).unwrap().iter().map(|(_, x)| kind_of(x)).collect()
}

#[test]
fn test_single_instructions() {
    assert_eq!(parse_single_instruction_kind("halt"), GenericInstruction::Halt);
    assert_eq!(parse_single_instruction_kind("[0] = 1 + 2"), GenericInstruction::Add(Immediate(1), Immediate(2), Memory(0)));
    assert_eq!(parse_single_instruction_kind("[10] = [20] * 5"), GenericInstruction::Mul(Memory(20), Immediate(5), Memory(10)));
    assert_eq!(parse_single_instruction_kind("[10] = [20] + 0"), GenericInstruction::Assign(Memory(10), Memory(20)));
    assert_eq!(parse_single_instruction_kind("[10] = 1 * [20]"), GenericInstruction::Assign(Memory(10), Memory(20)));
    assert_eq!(parse_single_instruction_kind("INPUT [0]"), GenericInstruction::Input(Memory(0)));
    assert_eq!(parse_single_instruction_kind("output 42"), GenericInstruction::Output(Immediate(42)));
    assert_eq!(parse_single_instruction_kind("output(100)"), GenericInstruction::Output(Immediate(100)));
    assert_eq!(parse_single_instruction_kind("if [0] goto 100"), GenericInstruction::JumpIf(Memory(0), true, Immediate(100)));
    assert_eq!(parse_single_instruction_kind("if ![5] goto 200"), GenericInstruction::JumpIf(Memory(5), false, Immediate(200)));
    assert_eq!(parse_single_instruction_kind("if 1 goto 100"), GenericInstruction::Goto(Immediate(100)));
    assert_eq!(parse_single_instruction_kind("if 0 goto 100"), GenericInstruction::JumpIf(Immediate(0), true, Immediate(100)));
    assert_eq!(parse_single_instruction_kind("if !0 goto 100"), GenericInstruction::Goto(Immediate(100)));
    assert_eq!(parse_single_instruction_kind("if !1 goto 100"), GenericInstruction::JumpIf(Immediate(1), false, Immediate(100)));
    assert_eq!(parse_single_instruction_kind("[0] = [1] < [2]"), GenericInstruction::LessThan(Memory(1), Memory(2), Memory(0)));
    assert_eq!(parse_single_instruction_kind("[0] = [1] == [2]"), GenericInstruction::Equals(Memory(1), Memory(2), Memory(0)));
    assert_eq!(
        parse_single_instruction_kind("[R-1] = [R-3] == [R-2]"),
        GenericInstruction::Equals(RelativeMemory(-3), RelativeMemory(-2), RelativeMemory(-1))
    );
    assert_eq!(parse_single_instruction_kind("R += 10"), GenericInstruction::AdjustRelativeBase(Immediate(10)));
    assert_eq!(parse_single_instruction_kind("R -= 5"), GenericInstruction::AdjustRelativeBase(Immediate(-5)));
    assert_eq!(
        parse_single_instruction_kind("[0] = [R+5] + [R-3]"),
        GenericInstruction::Add(RelativeMemory(5), RelativeMemory(-3), Memory(0))
    );
}

#[test]
fn test_simple_program() {
    let program = "
            INPUT [0]
            INPUT [1]
            [2] = [0] + [1]
            output [2]
            halt
        ";
    let expected = vec![
        GenericInstruction::Input(Memory(0)),
        GenericInstruction::Input(Memory(1)),
        GenericInstruction::Add(Memory(0), Memory(1), Memory(2)),
        GenericInstruction::Output(Memory(2)),
        GenericInstruction::Halt,
    ];
    assert_eq!(parse_test_program_kinds(program), expected);
}

#[test]
fn test_program_with_labels() {
    let program = "
            INPUT [0]       ; Get a number          ; 0
            [1] = 1 + 0     ; Initialize counter    ; 2 -> Assign
            loop:           ;                       ; 6
                [2] = [1] * [0]  ; Multiply         ; 6
                output [2]  ; Output the result     ; 10
                [1] = [1] + 1    ; Increment counter; 12
                [3] = [1] < 5    ; Check if counter < 5 ; 16
                if [3] goto @loop  ; Loop if true   ; 20
            halt            ;                       ; 23
        ";
    let expected = vec![
        GenericInstruction::Input(Memory(0)),
        GenericInstruction::Assign(Memory(1), Immediate(1)),
        GenericInstruction::Mul(Memory(1), Memory(0), Memory(2)),
        GenericInstruction::Output(Memory(2)),
        GenericInstruction::Add(Memory(1), Immediate(1), Memory(1)),
        GenericInstruction::LessThan(Memory(1), Immediate(5), Memory(3)),
        GenericInstruction::JumpIf(Memory(3), true, Immediate(6)),
        GenericInstruction::Halt,
    ];
    assert_eq!(parse_test_program_kinds(program), expected);
}

#[test]
fn test_complex_program() {
    let program = "
            ; Initialize variables
            [0] = 0 + 0    ; sum = 0                 ; 0 -> Assign
            [1] = 1 + 0    ; i = 1                   ; 4 -> Assign
            [10] = 10 + 0  ; limit = 10              ; 8 -> Assign

            ; Main loop to calculate sum of 1 to 10
            loop:          ;                         ; 12
                ; Check if i <= limit
                [2] = [1] < [10]     ; i < limit?    ; 12
                [3] = [1] == [10]    ; i == limit?   ; 16
                [4] = [2] + [3]      ; result of i <= limit ; 20

                ; If i > limit, exit loop
                if ![4] goto @done ;                 ; 24

                ; sum += i
                [0] = [0] + [1]    ;                 ; 27

                ; i++
                [1] = [1] + 1      ;                 ; 31

                ; Continue loop
                goto @loop         ;                 ; 35

            done:          ;                         ; 38
                ; Output final sum
                output [0]         ;                 ; 38
                halt               ;                 ; 40
        ";
    let instructions = parse_test_program_kinds(program);
    assert_eq!(instructions.len(), 12);
    let expected = vec![
        GenericInstruction::Assign(Memory(0), Immediate(0)),
        GenericInstruction::Assign(Memory(1), Immediate(1)),
        GenericInstruction::Assign(Memory(10), Immediate(10)),
        GenericInstruction::LessThan(Memory(1), Memory(10), Memory(2)),
        GenericInstruction::Equals(Memory(1), Memory(10), Memory(3)),
        GenericInstruction::Add(Memory(2), Memory(3), Memory(4)),
        GenericInstruction::JumpIf(Memory(4), false, Immediate(38)),
        GenericInstruction::Add(Memory(0), Memory(1), Memory(0)),
        GenericInstruction::Add(Memory(1), Immediate(1), Memory(1)),
        GenericInstruction::Goto(Immediate(12)),
        GenericInstruction::Output(Memory(0)),
        GenericInstruction::Halt,
    ];
    assert_eq!(instructions, expected);
}

#[test]
fn test_nested_labels() {
    let program = "
            [0] = 0 + 0    ; result = 0
            [1] = 1 + 0    ; i = 1
            [2] = 5 + 0    ; max = 5
            outer_loop:
                [3] = [1] < [2]
                if ![3] goto @done
                [10] = 1 + 0    ; j = 1
                inner_loop:
                    [11] = [10] < [1]
                    if ![11] goto @inner_done
                    [20] = [1] * [10]
                    [0] = [0] + [20]
                    [10] = [10] + 1
                    goto @inner_loop
                inner_done:
                    [1] = [1] + 1
                    goto @outer_loop
            done:
                output [0]
                halt
        ";
    let instructions = parse_test_program_kinds(program);
    assert_eq!(instructions.len(), 16);
    assert_eq!(instructions.last().unwrap(), &GenericInstruction::Halt);
}

#[test]
fn test_comments_and_whitespace() {
    let program = "
            ; This program calculates 5 + 7

            ; Initialize values
            [0] = 5 + 0    ; First value (Assign)

            ; Add second value
            [0] = [0] + 7  ; Add 7

            ; Output the result
            output [0]     ; Should be 12

            ; End program
            halt
        ";
    let expected = vec![
        GenericInstruction::Assign(Memory(0), Immediate(5)),
        GenericInstruction::Add(Memory(0), Immediate(7), Memory(0)),
        GenericInstruction::Output(Memory(0)),
        GenericInstruction::Halt,
    ];
    assert_eq!(parse_test_program_kinds(program), expected);
}

#[test]
fn test_label_position_in_args() {
    let program = "
            ; Test using labels in different positions
            start:             ; 0
                [0] = 1 + 0    ; 0 -> Assign
                [1] = 2 + 0    ; 4 -> Assign

                ; Label as condition argument for jump
                if @loop goto @done ; 8 -> If(@loop=11, @done=26)

            loop:              ; 11
                ; Label as second argument for arithmetic
                [2] = @loop + 10      ; 11 -> Add(Immediate(11), Immediate(10), Mem(2))

                ; Label in comparison
                [3] = 5 < @done       ; 15 -> Lt(Immediate(5), Immediate(26), Mem(3))

                ; Label as target for goto
                [4] = 100 + 200  ; 19 -> Add(...)
                goto @loop       ; 23 -> Goto(@loop=11)

            done:              ; 26
                output [0]       ; 26
                halt             ; 28
        ";
    let expected = vec![
        GenericInstruction::Assign(Memory(0), Immediate(1)),
        GenericInstruction::Assign(Memory(1), Immediate(2)),
        GenericInstruction::Goto(Immediate(26)),
        GenericInstruction::Add(Immediate(11), Immediate(10), Memory(2)),
        GenericInstruction::LessThan(Immediate(5), Immediate(26), Memory(3)),
        GenericInstruction::Add(Immediate(100), Immediate(200), Memory(4)),
        GenericInstruction::Goto(Immediate(11)),
        GenericInstruction::Output(Memory(0)),
        GenericInstruction::Halt,
    ];
    assert_eq!(parse_test_program_kinds(program), expected);
}

#[test]
fn test_debug_marker() {
    let program = "
            'x [0] = 0 + 0    ; Assign: marker 'x on target (arg 2 of Add)
            [1] = 'y 10 + 0   ; Assign: marker 'y on source (arg 0 of Add)
            [2] = 0 + 'z 5    ; Add: marker 'z on arg 1
            'a ptr = 350      ; Assign: marker 'a on target '[<addr>]' (arg 2 of Add)
            [3] = 'b *ptr     ; Assign: marker 'b on source '*ptr' -> Mem(0) (arg 0 of Add)
        ";
    let instructions: Vec<GenericInstruction<AsmOperand>> = parse_program(program).unwrap().into_iter().map(|(_, x)| x).collect();
    if let GenericInstruction::Assign(target, source) = &instructions[0] {
        assert_eq!(source.debug_marker, None);
        assert_eq!(target.debug_marker, Some('x'));
    } else {
        panic!("Expected Assign instruction 0");
    }
    if let GenericInstruction::Assign(target, source) = &instructions[1] {
        assert_eq!(source.debug_marker, Some('y'));
        assert_eq!(target.debug_marker, None);
    } else {
        panic!("Expected Assign instruction 1");
    }
    if let GenericInstruction::Assign(arg0, arg1) = &instructions[2] {
        assert_eq!(arg0.debug_marker, None);
        assert_eq!(arg1.debug_marker, Some('z'));
    } else {
        panic!("Expected Add instruction 2");
    }
    if let GenericInstruction::Assign(target, source) = &instructions[3] {
        assert!(matches!(target.kind, Pointer(17)), "Expected target to be Pointer(17), got {:?}", target.kind);
        assert_eq!(target.debug_marker, Some('a'));
        assert_eq!(source.debug_marker, None);
        assert!(matches!(source.kind, Immediate(350)), "Expected source to be Imm(350)");
    } else {
        panic!("Expected Assign instruction 3");
    }
    if let GenericInstruction::Assign(target, source) = &instructions[4] {
        assert_eq!(source.debug_marker, Some('b'));
        assert!(matches!(source.kind, Memory(0)), "Expected source kind Mem(0)");
        assert_eq!(target.debug_marker, None);
        assert!(matches!(target.kind, Memory(3)), "Expected target kind Mem(3)");
    } else {
        panic!("Expected Assign instruction 4");
    }
    let compiled = compile(program).unwrap();
    assert_eq!(compiled[0], 786432001101);
    assert_eq!(compiled[4], 12101101);
    assert_eq!(compiled[8], 12201101);
    assert_eq!(compiled[12], 635699201101);
    assert_eq!(compiled[16], 9801001);
}

#[test]
fn test_data_instruction() {
    let program = "DATA 10, 20, -30";
    let expected = GenericInstruction::Data(vec![10, 20, -30]);
    assert_eq!(parse_single_instruction_kind(program), expected);
}

#[test]
fn test_program_with_data() {
    let program = "
            start:
                [0] = 1 + 2    ; Add: offset 0, size 4
                goto @data_section ; Goto: offset 4, size 3 (@data=8)
            halt ; Should not be reached ; Halt: offset 7, size 1

            data_section:      ; 8
                DATA 100, 200, 300 ; Data: offset 8, size 3
                output [0] ; Instruction after data ; Output: offset 11, size 2
                halt       ; Halt: offset 13, size 1
        ";
    let expected = vec![
        GenericInstruction::Add(Immediate(1), Immediate(2), Memory(0)),
        GenericInstruction::Goto(Immediate(8)),
        GenericInstruction::Halt,
        GenericInstruction::Data(vec![100, 200, 300]),
        GenericInstruction::Output(Memory(0)),
        GenericInstruction::Halt,
    ];
    assert_eq!(parse_test_program_kinds(program), expected);
}

#[test]
fn test_compile_with_data() {
    let program = "
            [0] = 1 + 2
            DATA 10, 20, 30
            halt
        ";
    let expected_binary = vec![1101, 1, 2, 0, 10, 20, 30, 99];
    let actual_binary = compile(program).unwrap();
    assert_eq!(actual_binary, expected_binary);
}

#[test]
fn test_compile_program_starts_with_data() {
    let program = "
            DATA 5, 6, 7
            halt
        ";
    let expected_binary = vec![5, 6, 7, 99];
    let actual_binary = compile(program).unwrap();
    assert_eq!(actual_binary, expected_binary);
}

#[test]
fn test_consecutive_comments() {
    let program = "
            ; comment 1
            ; comment 2
            start:          ; label def
                ; comment 3
                ; comment 4
                [0] = 1 + 2 ; instruction
                ; comment 5
                ; comment 6
            halt
            ; comment 7 at end
            ; comment 8 at end
        ";
    let instructions = parse_test_program_kinds(program);
    assert_eq!(instructions.len(), 2);
    assert!(matches!(instructions[0], GenericInstruction::Add(_, _, _)));
    assert!(matches!(instructions[1], GenericInstruction::Halt));
}

#[test]
fn operands_remember_their_words() {
    let v = parse_program("[5] = [6] < 7\nhalt").unwrap();
    assert_eq!(v[0].0, 0);
    assert_eq!(v[1].0, 4);
    if let GenericInstruction::LessThan(a, b, c) = &v[0].1 {
        assert_eq!((a.offset, b.offset, c.offset), (1, 2, 3));
    } else {
        panic!("Expected LessThan");
    }
}

#[test]
fn undefined_label_is_refused() {
    assert_eq!(parse_program("goto @nowhere").unwrap_err(), AsmError::Unresolved);
}

#[test]
fn undefined_pointer_is_refused() {
    assert_eq!(parse_program("p = 5").unwrap_err(), AsmError::Unresolved);
}

#[test]
fn text_after_the_program_is_refused() {
    assert_eq!(parse_program("halt\n!!").unwrap_err(), AsmError::Syntax);
    assert_eq!(parse_program("").unwrap_err(), AsmError::Syntax);
}

#[test]
fn base_lowered_by_a_cell_is_refused() {
    assert_eq!(parse_program("R -= [3]").unwrap_err(), AsmError::InvalidAdjust);
}

#[test]
fn compile_writes_modes_and_operands() {
    assert_eq!(compile("[R+1] = [R-2] * 3\nhalt").unwrap(), vec![21202, -2, 3, 1, 99]);
    assert_eq!(compile("goto 7").unwrap(), vec![1105, 1, 7]);
    assert_eq!(compile("INPUT [R]").unwrap(), vec![203, 0]);
}

#[test]
fn sizes_of_instruction_kinds() {
    assert_eq!(instruction_kind_size(&GenericInstruction::<AsmOperandKind>::Halt), 1);
    assert_eq!(instruction_kind_size(&GenericInstruction::Goto(Immediate(3))), 3);
    assert_eq!(instruction_kind_size(&GenericInstruction::<AsmOperandKind>::Data(vec![1, 2])), 2);
}
