//! The assembly language: a grammar on characters for lines of instructions
//! with labels, named pointers and debug markers, the resolution of names to
//! addresses, and the encoding of the program as Intcode words.
use vstd::prelude::*;
use crate::low_ir::{GenericInstruction, InstrView, spec_size};
use crate::scan::{
    at_int, chars_of, has_at_exec, char_alphabetic, char_alphanumeric, has_at, is_alphabetic, is_alphanumeric, lemma_run_end,
    run_end, blank_pred, skip_blanks, spec_parse_i128, parse_i128_at,
};

verus! {

/// Where an operand's value is: an absolute address, the value itself, an
/// offset from the relative base, or the address of an operand that a named
/// pointer patches.
#[derive(Clone, Copy, Debug, PartialEq, Eq, Structural)]
pub enum AsmOperandKind {
    Memory(usize),
    Immediate(i128),
    RelativeMemory(i128),
    Pointer(usize),
}

/// An operand of an assembled instruction: its kind, the address of the
/// word it is written to, and its debug marker.
#[derive(Clone, Copy, Debug, PartialEq, Eq, Structural)]
pub struct AsmOperand {
    pub kind: AsmOperandKind,
    pub offset: usize,
    pub debug_marker: Option<char>,
}

/// An operand as written, before names are resolved: a label (`@name`), a
/// pointer (`name`), the operand a pointer patches (`*name`), an operand
/// given directly, or a base adjustment by something other than a number.
/// Names are given by their character range in the text.
#[derive(Clone, Copy, Debug, PartialEq, Eq, Structural)]
pub enum AsmArg {
    Label(usize, usize, Option<char>),
    Pointer(usize, usize, Option<char>),
    PointerDeref(usize, usize, Option<char>),
    Resolved(AsmOperand),
    Invalid,
}

/// Why a text is not a program.
#[derive(Clone, Copy, Debug, PartialEq, Eq, Structural)]
pub enum AsmError {
    /// The text does not follow the grammar.
    Syntax,
    /// `R -=` is followed by something other than a number.
    InvalidAdjust,
    /// A label or pointer is used but not defined.
    Unresolved,
    /// The program does not fit in the address space.
    TooLarge,
}

pub open spec fn is_multispace(c: char) -> bool {
    c == ' ' || c == '\t' || c == '\r' || c == '\n'
}

pub open spec fn not_line_end_pred() -> spec_fn(char) -> bool {
    |c: char| c != '\r' && c != '\n'
}

pub open spec fn asm_ident_pred() -> spec_fn(char) -> bool {
    |c: char| char_alphanumeric(c) || c == '_'
}

/// After the white space and `;` comments at `i`.
pub open spec fn ws_end(s: Seq<char>, i: int) -> int
    decreases s.len() - i,
{
    if 0 <= i < s.len() && is_multispace(s[i]) {
        ws_end(s, i + 1)
    } else if 0 <= i && i + 1 < s.len() && s[i] == ';' && s[i + 1] != '\r' && s[i + 1] != '\n' {
        let j = run_end(s, i + 1, not_line_end_pred());
        if i < j <= s.len() {
            ws_end(s, j)
        } else {
            i
        }
    } else {
        i
    }
}

/// The end of the name at `i`, if one starts there.
pub open spec fn spec_ident(s: Seq<char>, i: int) -> Option<int> {
    let j = run_end(s, i, asm_ident_pred());
    if j == i {
        None
    } else {
        Some(j)
    }
}

/// After the spaces and tabs at `i`.
pub open spec fn sp0(s: Seq<char>, i: int) -> int {
    run_end(s, i, blank_pred())
}

/// After the spaces and tabs at `i`, if there is at least one.
pub open spec fn sp1(s: Seq<char>, i: int) -> Option<int> {
    if sp0(s, i) == i {
        None
    } else {
        Some(sp0(s, i))
    }
}

/// The debug marker at `i` (a quote and a letter, then spaces), if any, and
/// the position after it.
pub open spec fn spec_marker(s: Seq<char>, i: int) -> (Option<char>, int) {
    if 0 <= i && i + 1 < s.len() && s[i] == '\'' && char_alphabetic(s[i + 1]) {
        (Some(s[i + 1]), sp0(s, i + 2))
    } else {
        (None, i)
    }
}

/// The negation of `v`, wrapping at the lowest value.
pub open spec fn wrapping_neg(v: i128) -> i128 {
    if v == i128::MIN {
        v
    } else {
        (-v) as i128
    }
}

/// A relative operand `[R+n]`, `[R-n]` or `[R]` at `i`.
pub open spec fn spec_relative(s: Seq<char>, i: int) -> Option<(i128, int)> {
    if has_at(s, i, seq!['[', 'R', '+']) {
        match spec_parse_i128(s, i + 3) {
            Some((v, j)) => if has_at(s, j, seq![']']) {
                Some((v, j + 1))
            } else {
                None
            },
            None => None,
        }
    } else if has_at(s, i, seq!['[', 'R', '-']) {
        match spec_parse_i128(s, i + 3) {
            Some((v, j)) => if has_at(s, j, seq![']']) {
                Some((wrapping_neg(v), j + 1))
            } else {
                None
            },
            None => None,
        }
    } else if has_at(s, i, seq!['[', 'R', ']']) {
        Some((0, i + 3))
    } else {
        None
    }
}

/// An operand given directly, with its marker.
pub open spec fn direct(kind: AsmOperandKind, m: Option<char>) -> AsmArg {
    AsmArg::Resolved(AsmOperand { kind, offset: 0, debug_marker: m })
}

/// Whether the name of the operand, if it has one, is a range of `s`.
pub open spec fn arg_ok(s: Seq<char>, a: AsmArg) -> bool {
    match a {
        AsmArg::Label(x, y, _) | AsmArg::Pointer(x, y, _) | AsmArg::PointerDeref(x, y, _) => x <= y <= s.len(),
        _ => true,
    }
}

/// Whether the names of the operands of `x` are ranges of `s`.
pub open spec fn instr_ok(s: Seq<char>, x: InstrView<AsmArg>) -> bool {
    forall|k: int| 0 <= k < 3 && (#[trigger] layout(x)[k]) is Some ==> arg_ok(s, layout(x)[k]->0)
}

/// The operand at `i`: an optional marker, then a relative operand, a
/// number, `@label`, `[address]`, `*pointer` or `pointer`.
#[verifier::opaque]
pub open spec fn spec_arg(s: Seq<char>, i: int) -> Option<(AsmArg, int)> {
    let (m, k) = spec_marker(s, i);
    match spec_relative(s, k) {
        Some((v, j)) => Some((direct(AsmOperandKind::RelativeMemory(v), m), j)),
        None => match spec_parse_i128(s, k) {
            Some((v, j)) => Some((direct(AsmOperandKind::Immediate(v), m), j)),
            None => spec_named_arg(s, k, m),
        },
    }
}

/// An operand at `k` that is not a number: `@label`, `[address]`,
/// `*pointer` or `pointer`.
pub open spec fn spec_named_arg(s: Seq<char>, k: int, m: Option<char>) -> Option<(AsmArg, int)> {
    if has_at(s, k, seq!['@']) {
        match spec_ident(s, k + 1) {
            Some(j) => Some((AsmArg::Label((k + 1) as usize, j as usize, m), j)),
            None => None,
        }
    } else if has_at(s, k, seq!['[']) {
        match spec_parse_i128(s, k + 1) {
            Some((v, j)) => if has_at(s, j, seq![']']) {
                Some((direct(AsmOperandKind::Memory(v as usize), m), j + 1))
            } else {
                None
            },
            None => None,
        }
    } else if has_at(s, k, seq!['*']) {
        match spec_ident(s, k + 1) {
            Some(j) => Some((AsmArg::PointerDeref((k + 1) as usize, j as usize, m), j)),
            None => None,
        }
    } else {
        match spec_ident(s, k) {
            Some(j) => Some((AsmArg::Pointer(k as usize, j as usize, m), j)),
            None => None,
        }
    }
}

/// Whether the character `a` stands at `i`.
fn at1(s: &Vec<char>, i: usize, a: char) -> (r: bool)
    requires
        i <= s.len(),
    ensures
        r == has_at(s@, i as int, seq![a]),
{
    if i < s.len() && s[i] == a {
        assert(s@.subrange(i as int, i + 1) =~= seq![a]);
        true
    } else {
        proof {
            if i < s.len() {
                assert(s@.subrange(i as int, i + 1)[0] == s@[i as int]);
            }
        }
        false
    }
}

/// Whether the characters `a`, `b`, `c` stand at `i`.
fn at3(s: &Vec<char>, i: usize, a: char, b: char, c: char) -> (r: bool)
    requires
        i <= s.len(),
    ensures
        r == has_at(s@, i as int, seq![a, b, c]),
{
    if s.len() - i >= 3 && s[i] == a && s[i + 1] == b && s[i + 2] == c {
        assert(s@.subrange(i as int, i + 3) =~= seq![a, b, c]);
        true
    } else {
        proof {
            if s.len() - i >= 3 {
                let t = s@.subrange(i as int, i + 3);
                assert(t[0] == s@[i as int] && t[1] == s@[i + 1] && t[2] == s@[i + 2]);
            }
        }
        false
    }
}

/// After the white space and comments at `i`.
fn ws_at(s: &Vec<char>, i: usize) -> (r: usize)
    requires
        i <= s.len(),
    ensures
        r == ws_end(s@, i as int),
        i <= r <= s.len(),
{
    let mut j = i;
    loop
        invariant
            i <= j <= s.len(),
            ws_end(s@, i as int) == ws_end(s@, j as int),
        decreases s.len() - j,
    {
        if j < s.len() && (s[j] == ' ' || s[j] == '\t' || s[j] == '\r' || s[j] == '\n') {
            j = j + 1;
        } else if s.len() - j > 1 && s[j] == ';' && s[j + 1] != '\r' && s[j + 1] != '\n' {
            let mut k = j + 1;
            while k < s.len() && s[k] != '\r' && s[k] != '\n'
                invariant
                    j < k <= s.len(),
                    run_end(s@, j + 1, not_line_end_pred()) == run_end(s@, k as int, not_line_end_pred()),
                decreases s.len() - k,
            {
                k = k + 1;
            }
            j = k;
        } else {
            return j;
        }
    }
}

/// After the name characters at `i`.
fn skip_name(s: &Vec<char>, i: usize) -> (r: usize)
    requires
        i <= s.len(),
    ensures
        r == run_end(s@, i as int, asm_ident_pred()),
        i <= r <= s.len(),
{
    let mut j = i;
    while j < s.len() && (is_alphanumeric(s[j]) || s[j] == '_')
        invariant
            i <= j <= s.len(),
            run_end(s@, i as int, asm_ident_pred()) == run_end(s@, j as int, asm_ident_pred()),
        decreases s.len() - j,
    {
        j = j + 1;
    }
    j
}

/// The end of the name at `i`, if one starts there.
fn ident_at(s: &Vec<char>, i: usize) -> (r: Option<usize>)
    requires
        i <= s.len(),
    ensures
        match r {
            Some(j) => spec_ident(s@, i as int) == Some(j as int) && i < j <= s.len(),
            None => spec_ident(s@, i as int) is None,
        },
{
    let j = skip_name(s, i);
    if j == i {
        None
    } else {
        Some(j)
    }
}

/// The debug marker at `i`, if any, and the position after it.
fn marker_at(s: &Vec<char>, i: usize) -> (r: (Option<char>, usize))
    requires
        i <= s.len(),
    ensures
        (r.0, r.1 as int) == spec_marker(s@, i as int),
        i <= r.1 <= s.len(),
{
    if s.len() - i > 1 && s[i] == '\'' && is_alphabetic(s[i + 1]) {
        let j = skip_blanks(s, i + 2);
        (Some(s[i + 1]), j)
    } else {
        (None, i)
    }
}

/// The negation of `v`, wrapping at the lowest value.
fn negate_wrapping(v: i128) -> (r: i128)
    ensures
        r == wrapping_neg(v),
{
    if v == i128::MIN {
        v
    } else {
        -v
    }
}

/// A relative operand at `i`.
fn relative_at(s: &Vec<char>, i: usize) -> (r: Option<(i128, usize)>)
    requires
        i <= s.len(),
    ensures
        at_int(r) == spec_relative(s@, i as int),
        r matches Some((_, j)) ==> i < j <= s.len(),
{
    if at3(s, i, '[', 'R', '+') {
        match parse_i128_at(s, i + 3) {
            Some((v, j)) => if at1(s, j, ']') {
                Some((v, j + 1))
            } else {
                None
            },
            None => None,
        }
    } else if at3(s, i, '[', 'R', '-') {
        match parse_i128_at(s, i + 3) {
            Some((v, j)) => if at1(s, j, ']') {
                Some((negate_wrapping(v), j + 1))
            } else {
                None
            },
            None => None,
        }
    } else if at3(s, i, '[', 'R', ']') {
        Some((0, i + 3))
    } else {
        None
    }
}

/// The operand at `i`.
fn arg_at(s: &Vec<char>, i: usize) -> (r: Option<(AsmArg, usize)>)
    requires
        i <= s.len(),
    ensures
        r matches Some((a, _)) ==> arg_ok(s@, a),
        at_int(r) == spec_arg(s@, i as int),
        r matches Some((_, j)) ==> i < j <= s.len(),
{
    reveal(spec_arg);
    let (m, k) = marker_at(s, i);
    match relative_at(s, k) {
        Some((v, j)) => {
            return Some((AsmArg::Resolved(AsmOperand { kind: AsmOperandKind::RelativeMemory(v), offset: 0, debug_marker: m }), j));
        },
        None => {},
    }
    match parse_i128_at(s, k) {
        Some((v, j)) => {
            return Some((AsmArg::Resolved(AsmOperand { kind: AsmOperandKind::Immediate(v), offset: 0, debug_marker: m }), j));
        },
        None => {},
    }
    if at1(s, k, '@') {
        match ident_at(s, k + 1) {
            Some(j) => Some((AsmArg::Label(k + 1, j, m), j)),
            None => None,
        }
    } else if at1(s, k, '[') {
        match parse_i128_at(s, k + 1) {
            Some((v, j)) => if at1(s, j, ']') {
                Some((AsmArg::Resolved(AsmOperand { kind: AsmOperandKind::Memory(v as usize), offset: 0, debug_marker: m }), j + 1))
            } else {
                None
            },
            None => None,
        }
    } else if at1(s, k, '*') {
        match ident_at(s, k + 1) {
            Some(j) => Some((AsmArg::PointerDeref(k + 1, j, m), j)),
            None => None,
        }
    } else {
        match ident_at(s, k) {
            Some(j) => Some((AsmArg::Pointer(k, j, m), j)),
            None => None,
        }
    }
}

/// The characters of the operator of a three-operand line: `+`, `*`, `<`
/// or `==`.
pub open spec fn op_chars(op: u8) -> Seq<char> {
    if op == 0 {
        seq!['+']
    } else if op == 1 {
        seq!['*']
    } else if op == 2 {
        seq!['<']
    } else {
        seq!['=', '=']
    }
}

/// `c = a <op> b` at `i`, with spaces or tabs allowed around `=` and the
/// operator: the operands `a`, `b`, `c` and the position after.
pub open spec fn spec_three(s: Seq<char>, i: int, op: u8) -> Option<(AsmArg, AsmArg, AsmArg, int)> {
    match spec_arg(s, i) {
        Some((c, j1)) => {
            let j2 = sp0(s, j1);
            if has_at(s, j2, seq!['=']) {
                match spec_arg(s, sp0(s, j2 + 1)) {
                    Some((a, j4)) => {
                        let j5 = sp0(s, j4);
                        if has_at(s, j5, op_chars(op)) {
                            match spec_arg(s, sp0(s, j5 + op_chars(op).len())) {
                                Some((b, j7)) => Some((a, b, c, j7)),
                                None => None,
                            }
                        } else {
                            None
                        }
                    },
                    None => None,
                }
            } else {
                None
            }
        },
        None => None,
    }
}

/// `c = a` at `i`.
pub open spec fn spec_assign(s: Seq<char>, i: int) -> Option<(AsmArg, AsmArg, int)> {
    match spec_arg(s, i) {
        Some((c, j1)) => {
            let j2 = sp0(s, j1);
            if has_at(s, j2, seq!['=']) {
                match spec_arg(s, sp0(s, j2 + 1)) {
                    Some((a, j4)) => Some((c, a, j4)),
                    None => None,
                }
            } else {
                None
            }
        },
        None => None,
    }
}

fn at_op(s: &Vec<char>, i: usize, op: u8) -> (r: bool)
    requires
        i <= s.len(),
    ensures
        r == has_at(s@, i as int, op_chars(op)),
{
    if op == 0 {
        at1(s, i, '+')
    } else if op == 1 {
        at1(s, i, '*')
    } else if op == 2 {
        at1(s, i, '<')
    } else {
        let r = s.len() - i >= 2 && s[i] == '=' && s[i + 1] == '=';
        proof {
            if s.len() - i >= 2 {
                let t = s@.subrange(i as int, i + 2);
                assert(t[0] == s@[i as int] && t[1] == s@[i + 1]);
                if r {
                    assert(t =~= seq!['=', '=']);
                }
            }
        }
        r
    }
}

fn three_at(s: &Vec<char>, i: usize, op: u8) -> (r: Option<(AsmArg, AsmArg, AsmArg, usize)>)
    requires
        i <= s.len(),
    ensures
        r matches Some((a, b, c, _)) ==> arg_ok(s@, a) && arg_ok(s@, b) && arg_ok(s@, c),
        match r {
            Some((a, b, c, j)) => spec_three(s@, i as int, op) == Some((a, b, c, j as int)) && i < j <= s.len(),
            None => spec_three(s@, i as int, op) is None,
        },
{
    let (c, j1) = match arg_at(s, i) {
        Some(x) => x,
        None => {
            return None;
        },
    };
    let j2 = skip_blanks(s, j1);
    if !at1(s, j2, '=') {
        return None;
    }
    let j3 = skip_blanks(s, j2 + 1);
    let (a, j4) = match arg_at(s, j3) {
        Some(x) => x,
        None => {
            return None;
        },
    };
    let j5 = skip_blanks(s, j4);
    if !at_op(s, j5, op) {
        return None;
    }
    let n: usize = if op >= 3 { 2 } else { 1 };
    assert(op_chars(op).len() == n);
    assert(j5 + n <= s.len());
    let j6 = skip_blanks(s, j5 + n);
    match arg_at(s, j6) {
        Some((b, j7)) => Some((a, b, c, j7)),
        None => None,
    }
}

fn assign_at(s: &Vec<char>, i: usize) -> (r: Option<(AsmArg, AsmArg, usize)>)
    requires
        i <= s.len(),
    ensures
        r matches Some((c, a, _)) ==> arg_ok(s@, c) && arg_ok(s@, a),
        match r {
            Some((c, a, j)) => spec_assign(s@, i as int) == Some((c, a, j as int)) && i < j <= s.len(),
            None => spec_assign(s@, i as int) is None,
        },
{
    let (c, j1) = match arg_at(s, i) {
        Some(x) => x,
        None => {
            return None;
        },
    };
    let j2 = skip_blanks(s, j1);
    if !at1(s, j2, '=') {
        return None;
    }
    let j3 = skip_blanks(s, j2 + 1);
    match arg_at(s, j3) {
        Some((a, j4)) => Some((c, a, j4)),
        None => None,
    }
}

/// The numbers after the first of a `DATA` line, separated by commas with
/// spaces or tabs around them, appended to `acc`; the list ends before a
/// comma that no number follows.
pub open spec fn spec_data_rest(s: Seq<char>, i: int, acc: Seq<i128>) -> (Seq<i128>, int)
    decreases s.len() - i,
{
    let j = sp0(s, i);
    if has_at(s, j, seq![',']) {
        match spec_parse_i128(s, sp0(s, j + 1)) {
            Some((v, e)) => if i < e <= s.len() {
                spec_data_rest(s, e, acc.push(v))
            } else {
                (acc, i)
            },
            None => (acc, i),
        }
    } else {
        (acc, i)
    }
}

pub open spec fn kw_input() -> Seq<char> {
    seq!['I', 'N', 'P', 'U', 'T']
}

pub open spec fn kw_output() -> Seq<char> {
    seq!['o', 'u', 't', 'p', 'u', 't']
}

pub open spec fn kw_goto() -> Seq<char> {
    seq!['g', 'o', 't', 'o']
}

pub open spec fn kw_halt() -> Seq<char> {
    seq!['h', 'a', 'l', 't']
}

pub open spec fn kw_data() -> Seq<char> {
    seq!['D', 'A', 'T', 'A']
}

/// `<keyword> <operand>` at `i`, with at least one space or tab between.
pub open spec fn spec_word_arg(s: Seq<char>, i: int, kw: Seq<char>) -> Option<(AsmArg, int)> {
    if has_at(s, i, kw) {
        match sp1(s, i + kw.len()) {
            Some(j) => spec_arg(s, j),
            None => None,
        }
    } else {
        None
    }
}

/// `output(<operand>)` at `i`.
pub open spec fn spec_output_call(s: Seq<char>, i: int) -> Option<(AsmArg, int)> {
    if has_at(s, i, kw_output() + seq!['(']) {
        match spec_arg(s, i + 7) {
            Some((a, j)) => if has_at(s, j, seq![')']) {
                Some((a, j + 1))
            } else {
                None
            },
            None => None,
        }
    } else {
        None
    }
}

/// `if <a> goto <b>` (or `if !<a> goto <b>` when `negated`) at `i`.
pub open spec fn spec_if_goto(s: Seq<char>, i: int, negated: bool) -> Option<(AsmArg, AsmArg, int)> {
    if has_at(s, i, seq!['i', 'f']) {
        match sp1(s, i + 2) {
            Some(j) => {
                let k = if negated { j + 1 } else { j };
                if negated && !has_at(s, j, seq!['!']) {
                    None
                } else {
                    match spec_arg(s, k) {
                        Some((a, e)) => match sp1(s, e) {
                            Some(g) => match spec_word_arg(s, g, kw_goto()) {
                                Some((b, f)) => Some((a, b, f)),
                                None => None,
                            },
                            None => None,
                        },
                        None => None,
                    }
                }
            },
            None => None,
        }
    } else {
        None
    }
}

/// `R += <operand>` or `R -= <number>` at `i`; the base moves by the
/// operand, or by the negated number.  After `R -=` anything but a number
/// makes the instruction invalid.
pub open spec fn spec_adjust(s: Seq<char>, i: int) -> Option<(AsmArg, int)> {
    if has_at(s, i, seq!['R']) {
        let j = sp0(s, i + 1);
        if has_at(s, j, seq!['+', '=']) {
            spec_arg(s, sp0(s, j + 2))
        } else if has_at(s, j, seq!['-', '=']) {
            match spec_arg(s, sp0(s, j + 2)) {
                Some((AsmArg::Resolved(AsmOperand { kind: AsmOperandKind::Immediate(v), offset: _, debug_marker: m }), e)) => Some(
                    (direct(AsmOperandKind::Immediate(wrapping_neg(v)), m), e),
                ),
                Some((_, e)) => Some((AsmArg::Invalid, e)),
                None => None,
            }
        } else {
            None
        }
    } else {
        None
    }
}

/// `DATA <n>, <n>, ...` at `i`.
pub open spec fn spec_data(s: Seq<char>, i: int) -> Option<(Seq<i128>, int)> {
    if has_at(s, i, kw_data()) {
        match sp1(s, i + 4) {
            Some(j) => match spec_parse_i128(s, j) {
                Some((v, e)) => Some(spec_data_rest(s, e, seq![v])),
                None => None,
            },
            None => None,
        }
    } else {
        None
    }
}

/// The instruction at `i` and the position after it: the first of the
/// forms `c = a + b`, `c = a * b`, `c = a < b`, `c = a == b`, `c = a`,
/// `INPUT a`, `output a`, `output(a)`, `if a goto b`, `if !a goto b`,
/// `goto a`, `R += a`, `R -= n`, `halt` and `DATA n, ...` that matches.
#[verifier::opaque]
pub open spec fn spec_instruction(s: Seq<char>, i: int) -> Option<(InstrView<AsmArg>, int)> {
    match spec_three(s, i, 0) {
        Some((a, b, c, j)) => Some((InstrView::Add(a, b, c), j)),
        None => match spec_three(s, i, 1) {
            Some((a, b, c, j)) => Some((InstrView::Mul(a, b, c), j)),
            None => match spec_three(s, i, 2) {
                Some((a, b, c, j)) => Some((InstrView::LessThan(a, b, c), j)),
                None => match spec_three(s, i, 3) {
                    Some((a, b, c, j)) => Some((InstrView::Equals(a, b, c), j)),
                    None => match spec_assign(s, i) {
                        Some((c, a, j)) => Some((InstrView::Assign(c, a), j)),
                        None => spec_keyword_instruction(s, i),
                    },
                },
            },
        },
    }
}

/// The instructions that start with a keyword.
pub open spec fn spec_keyword_instruction(s: Seq<char>, i: int) -> Option<(InstrView<AsmArg>, int)> {
    match spec_word_arg(s, i, kw_input()) {
        Some((a, j)) => Some((InstrView::Input(a), j)),
        None => match spec_word_arg(s, i, kw_output()) {
            Some((a, j)) => Some((InstrView::Output(a), j)),
            None => match spec_output_call(s, i) {
                Some((a, j)) => Some((InstrView::Output(a), j)),
                None => match spec_if_goto(s, i, false) {
                    Some((a, b, j)) => Some((InstrView::JumpIf(a, true, b), j)),
                    None => match spec_if_goto(s, i, true) {
                        Some((a, b, j)) => Some((InstrView::JumpIf(a, false, b), j)),
                        None => match spec_word_arg(s, i, kw_goto()) {
                            Some((a, j)) => Some((InstrView::Goto(a), j)),
                            None => match spec_adjust(s, i) {
                                Some((a, j)) => Some((InstrView::AdjustRelativeBase(a), j)),
                                None => if has_at(s, i, kw_halt()) {
                                    Some((InstrView::Halt, i + 4))
                                } else {
                                    match spec_data(s, i) {
                                        Some((d, j)) => Some((InstrView::Data(d), j)),
                                        None => None,
                                    }
                                },
                            },
                        },
                    },
                },
            },
        },
    }
}

/// After at least one space or tab at `i`.
fn sp1_at(s: &Vec<char>, i: usize) -> (r: Option<usize>)
    requires
        i <= s.len(),
    ensures
        match r {
            Some(j) => sp1(s@, i as int) == Some(j as int) && i < j <= s.len(),
            None => sp1(s@, i as int) is None,
        },
{
    let j = skip_blanks(s, i);
    if j == i {
        None
    } else {
        Some(j)
    }
}

/// `<keyword> <operand>` at `i`.
fn word_arg_at(s: &Vec<char>, i: usize, kw: &str) -> (r: Option<(AsmArg, usize)>)
    requires
        i <= s.len(),
    ensures
        r matches Some((a, _)) ==> arg_ok(s@, a),
        at_int(r) == spec_word_arg(s@, i as int, kw@),
        r matches Some((_, j)) ==> i < j <= s.len(),
{
    if !has_at_exec(s, i, kw) {
        return None;
    }
    let n = kw.unicode_len();
    match sp1_at(s, i + n) {
        Some(j) => arg_at(s, j),
        None => None,
    }
}

fn output_call_at(s: &Vec<char>, i: usize) -> (r: Option<(AsmArg, usize)>)
    requires
        i <= s.len(),
    ensures
        r matches Some((a, _)) ==> arg_ok(s@, a),
        at_int(r) == spec_output_call(s@, i as int),
        r matches Some((_, j)) ==> i < j <= s.len(),
{
    proof {
        reveal_strlit("output(");
        assert("output("@ =~= kw_output() + seq!['(']);
    }
    if !has_at_exec(s, i, "output(") {
        return None;
    }
    match arg_at(s, i + 7) {
        Some((a, j)) => if at1(s, j, ')') {
            Some((a, j + 1))
        } else {
            None
        },
        None => None,
    }
}

fn if_goto_at(s: &Vec<char>, i: usize, negated: bool) -> (r: Option<(AsmArg, AsmArg, usize)>)
    requires
        i <= s.len(),
    ensures
        r matches Some((a, b, _)) ==> arg_ok(s@, a) && arg_ok(s@, b),
        match r {
            Some((a, b, j)) => spec_if_goto(s@, i as int, negated) == Some((a, b, j as int)) && i < j <= s.len(),
            None => spec_if_goto(s@, i as int, negated) is None,
        },
{
    proof {
        reveal_strlit("if");
        reveal_strlit("goto");
        assert("if"@ =~= seq!['i', 'f']);
        assert("goto"@ =~= kw_goto());
    }
    if !has_at_exec(s, i, "if") {
        return None;
    }
    let j = match sp1_at(s, i + 2) {
        Some(j) => j,
        None => {
            return None;
        },
    };
    if negated && !at1(s, j, '!') {
        return None;
    }
    let k = if negated { j + 1 } else { j };
    let (a, e) = match arg_at(s, k) {
        Some(x) => x,
        None => {
            return None;
        },
    };
    let g = match sp1_at(s, e) {
        Some(g) => g,
        None => {
            return None;
        },
    };
    match word_arg_at(s, g, "goto") {
        Some((b, f)) => Some((a, b, f)),
        None => None,
    }
}

fn adjust_at(s: &Vec<char>, i: usize) -> (r: Option<(AsmArg, usize)>)
    requires
        i <= s.len(),
    ensures
        r matches Some((a, _)) ==> arg_ok(s@, a),
        at_int(r) == spec_adjust(s@, i as int),
        r matches Some((_, j)) ==> i < j <= s.len(),
{
    if !at1(s, i, 'R') {
        return None;
    }
    let j = skip_blanks(s, i + 1);
    let plus = s.len() - j >= 2 && s[j] == '+' && s[j + 1] == '=';
    let minus = s.len() - j >= 2 && s[j] == '-' && s[j + 1] == '=';
    proof {
        if s.len() - j >= 2 {
            let t = s@.subrange(j as int, j + 2);
            assert(t[0] == s@[j as int] && t[1] == s@[j + 1]);
            if plus {
                assert(t =~= seq!['+', '=']);
            }
            if minus {
                assert(t =~= seq!['-', '=']);
            }
        }
    }
    if plus {
        arg_at(s, skip_blanks(s, j + 2))
    } else if minus {
        match arg_at(s, skip_blanks(s, j + 2)) {
            Some((AsmArg::Resolved(AsmOperand { kind: AsmOperandKind::Immediate(v), offset: _, debug_marker: m }), e)) => Some(
                (AsmArg::Resolved(AsmOperand { kind: AsmOperandKind::Immediate(negate_wrapping(v)), offset: 0, debug_marker: m }), e),
            ),
            Some((_, e)) => Some((AsmArg::Invalid, e)),
            None => None,
        }
    } else {
        None
    }
}

fn data_at(s: &Vec<char>, i: usize) -> (r: Option<(Vec<i128>, usize)>)
    requires
        i <= s.len(),
    ensures
        match r {
            Some((d, j)) => spec_data(s@, i as int) == Some((d@, j as int)) && i < j <= s.len(),
            None => spec_data(s@, i as int) is None,
        },
{
    proof {
        reveal_strlit("DATA");
        assert("DATA"@ =~= kw_data());
    }
    if !has_at_exec(s, i, "DATA") {
        return None;
    }
    let j = match sp1_at(s, i + 4) {
        Some(j) => j,
        None => {
            return None;
        },
    };
    let (v, e) = match parse_i128_at(s, j) {
        Some(x) => x,
        None => {
            return None;
        },
    };
    let mut d: Vec<i128> = Vec::new();
    d.push(v);
    assert(d@ =~= seq![v]);
    assert(spec_data(s@, i as int) == Some(spec_data_rest(s@, e as int, seq![v])));
    let mut p = e;
    loop
        invariant
            i < p <= s.len(),
            spec_data(s@, i as int) == Some(spec_data_rest(s@, e as int, seq![v])),
            spec_data_rest(s@, e as int, seq![v]) == spec_data_rest(s@, p as int, d@),
        decreases s.len() - p,
    {
        let q = skip_blanks(s, p);
        if !at1(s, q, ',') {
            assert(spec_data_rest(s@, p as int, d@) == (d@, p as int));
            return Some((d, p));
        }
        let q1 = skip_blanks(s, q + 1);
        match parse_i128_at(s, q1) {
            Some((w, f)) => {
                let ghost d0 = d@;
                assert(spec_data_rest(s@, p as int, d0) == spec_data_rest(s@, f as int, d0.push(w)));
                d.push(w);
                p = f;
            },
            None => {
                assert(spec_data_rest(s@, p as int, d@) == (d@, p as int));
                return Some((d, p));
            },
        }
    }
}

/// The instruction at `i`.
fn instruction_at(s: &Vec<char>, i: usize) -> (r: Option<(GenericInstruction<AsmArg>, usize)>)
    requires
        i <= s.len(),
    ensures
        r matches Some((x, _)) ==> instr_ok(s@, x@),
        match r {
            Some((x, j)) => spec_instruction(s@, i as int) == Some((x@, j as int)) && i < j <= s.len(),
            None => spec_instruction(s@, i as int) is None,
        },
{
    reveal(spec_instruction);
    match three_at(s, i, 0) {
        Some((a, b, c, j)) => {
            return Some((GenericInstruction::Add(a, b, c), j));
        },
        None => {},
    }
    match three_at(s, i, 1) {
        Some((a, b, c, j)) => {
            return Some((GenericInstruction::Mul(a, b, c), j));
        },
        None => {},
    }
    match three_at(s, i, 2) {
        Some((a, b, c, j)) => {
            return Some((GenericInstruction::LessThan(a, b, c), j));
        },
        None => {},
    }
    match three_at(s, i, 3) {
        Some((a, b, c, j)) => {
            return Some((GenericInstruction::Equals(a, b, c), j));
        },
        None => {},
    }
    match assign_at(s, i) {
        Some((c, a, j)) => {
            return Some((GenericInstruction::Assign(c, a), j));
        },
        None => {},
    }
    keyword_instruction_at(s, i)
}

fn keyword_instruction_at(s: &Vec<char>, i: usize) -> (r: Option<(GenericInstruction<AsmArg>, usize)>)
    requires
        i <= s.len(),
    ensures
        r matches Some((x, _)) ==> instr_ok(s@, x@),
        match r {
            Some((x, j)) => spec_keyword_instruction(s@, i as int) == Some((x@, j as int)) && i < j <= s.len(),
            None => spec_keyword_instruction(s@, i as int) is None,
        },
{
    proof {
        reveal_strlit("INPUT");
        reveal_strlit("output");
        reveal_strlit("goto");
        reveal_strlit("halt");
        assert("INPUT"@ =~= kw_input());
        assert("output"@ =~= kw_output());
        assert("goto"@ =~= kw_goto());
        assert("halt"@ =~= kw_halt());
    }
    match word_arg_at(s, i, "INPUT") {
        Some((a, j)) => {
            return Some((GenericInstruction::Input(a), j));
        },
        None => {},
    }
    match word_arg_at(s, i, "output") {
        Some((a, j)) => {
            return Some((GenericInstruction::Output(a), j));
        },
        None => {},
    }
    match output_call_at(s, i) {
        Some((a, j)) => {
            return Some((GenericInstruction::Output(a), j));
        },
        None => {},
    }
    match if_goto_at(s, i, false) {
        Some((a, b, j)) => {
            return Some((GenericInstruction::JumpIf(a, true, b), j));
        },
        None => {},
    }
    match if_goto_at(s, i, true) {
        Some((a, b, j)) => {
            return Some((GenericInstruction::JumpIf(a, false, b), j));
        },
        None => {},
    }
    match word_arg_at(s, i, "goto") {
        Some((a, j)) => {
            return Some((GenericInstruction::Goto(a), j));
        },
        None => {},
    }
    match adjust_at(s, i) {
        Some((a, j)) => {
            return Some((GenericInstruction::AdjustRelativeBase(a), j));
        },
        None => {},
    }
    if has_at_exec(s, i, "halt") {
        return Some((GenericInstruction::Halt, i + 4));
    }
    match data_at(s, i) {
        Some((d, j)) => Some((GenericInstruction::Data(d), j)),
        None => None,
    }
}

/// A line at `i`: white space and comments, an optional label `name:`,
/// white space and comments, and an instruction; the label's name as a
/// character range, the instruction, and the position after it.
pub open spec fn spec_line(s: Seq<char>, i: int) -> Option<(Option<(usize, usize)>, InstrView<AsmArg>, int)> {
    let k = ws_end(s, i);
    let (label, k2) = match spec_ident(s, k) {
        Some(e) => if has_at(s, e, seq![':']) {
            (Some((k as usize, e as usize)), e + 1)
        } else {
            (None, k)
        },
        None => (None, k),
    };
    match spec_instruction(s, ws_end(s, k2)) {
        Some((x, j)) => Some((label, x, j)),
        None => None,
    }
}

/// The lines from `i` on, after those in `acc`, as long as they parse; and
/// the position after the last.
pub open spec fn spec_lines(s: Seq<char>, i: int, acc: Seq<(Option<(usize, usize)>, InstrView<AsmArg>)>) -> (
    Seq<(Option<(usize, usize)>, InstrView<AsmArg>)>,
    int,
)
    decreases s.len() - i,
{
    match spec_line(s, i) {
        Some((l, x, j)) => if i < j <= s.len() {
            spec_lines(s, j, acc.push((l, x)))
        } else {
            (acc, i)
        },
        None => (acc, i),
    }
}

fn line_at(s: &Vec<char>, i: usize) -> (r: Option<(Option<(usize, usize)>, GenericInstruction<AsmArg>, usize)>)
    requires
        i <= s.len(),
    ensures
        r matches Some((l, x, _)) ==> instr_ok(s@, x@) && (l matches Some((a, b)) ==> a <= b <= s.len()),
        match r {
            Some((l, x, j)) => spec_line(s@, i as int) == Some((l, x@, j as int)) && i < j <= s.len(),
            None => spec_line(s@, i as int) is None,
        },
{
    let k = ws_at(s, i);
    let (label, k2) = match ident_at(s, k) {
        Some(e) => if at1(s, e, ':') {
            (Some((k, e)), e + 1)
        } else {
            (None, k)
        },
        None => (None, k),
    };
    let k3 = ws_at(s, k2);
    match instruction_at(s, k3) {
        Some((x, j)) => Some((label, x, j)),
        None => None,
    }
}

/// The operands in the order of the words they are written to, after the
/// opcode: an assignment is written as an addition of zero (source, zero,
/// target) and a jump as a jump on one (one, target).
pub open spec fn layout<A>(x: InstrView<A>) -> Seq<Option<A>> {
    match x {
        InstrView::Add(a, b, c) | InstrView::Mul(a, b, c) | InstrView::LessThan(a, b, c) | InstrView::Equals(a, b, c) => seq![
            Some(a),
            Some(b),
            Some(c),
        ],
        InstrView::Assign(c, a) => seq![Some(a), None, Some(c)],
        InstrView::Input(a) | InstrView::Output(a) | InstrView::AdjustRelativeBase(a) => seq![Some(a), None, None],
        InstrView::JumpIf(a, _, b) => seq![Some(a), Some(b), None],
        InstrView::Goto(t) => seq![None, Some(t), None],
        _ => seq![None, None, None],
    }
}

/// The address of the `k`-th line: the sizes of the lines before it.
pub open spec fn offset_of(lines: Seq<(Option<(usize, usize)>, InstrView<AsmArg>)>, k: int) -> int
    decreases k,
{
    if k <= 0 || k > lines.len() {
        0
    } else {
        offset_of(lines, k - 1) + spec_size(lines[k - 1].1)
    }
}

/// The labels of the first `k` lines, with their addresses, in order.
pub open spec fn label_defs(s: Seq<char>, lines: Seq<(Option<(usize, usize)>, InstrView<AsmArg>)>, k: int) -> Seq<(Seq<char>, int)>
    decreases k,
{
    if k <= 0 || k > lines.len() {
        seq![]
    } else {
        match lines[k - 1].0 {
            Some((a, b)) => label_defs(s, lines, k - 1).push((s.subrange(a as int, b as int), offset_of(lines, k - 1))),
            None => label_defs(s, lines, k - 1),
        }
    }
}

/// The pointer named by the operand, with the address of the word it is
/// written to, when it is one that a pointer patches (`*name`).
pub open spec fn deref_def(s: Seq<char>, a: Option<AsmArg>, addr: int) -> Seq<(Seq<char>, int)> {
    match a {
        Some(AsmArg::PointerDeref(x, y, _)) => seq![(s.subrange(x as int, y as int), addr)],
        _ => seq![],
    }
}

/// The pointers defined by the first `k` lines, with the addresses of the
/// words they patch, in order.
pub open spec fn pointer_defs(s: Seq<char>, lines: Seq<(Option<(usize, usize)>, InstrView<AsmArg>)>, k: int) -> Seq<(Seq<char>, int)>
    decreases k,
{
    if k <= 0 || k > lines.len() {
        seq![]
    } else {
        let off = offset_of(lines, k - 1);
        let l = layout(lines[k - 1].1);
        pointer_defs(s, lines, k - 1) + deref_def(s, l[0], off + 1) + deref_def(s, l[1], off + 2) + deref_def(s, l[2], off + 3)
    }
}

/// The value last defined for `n`.
pub open spec fn lookup(defs: Seq<(Seq<char>, int)>, n: Seq<char>) -> Option<int>
    decreases defs.len(),
{
    if defs.len() == 0 {
        None
    } else if defs.last().0 == n {
        Some(defs.last().1)
    } else {
        lookup(defs.drop_last(), n)
    }
}

/// The operand written: a label becomes its address as a value, `*name`
/// the placeholder address 0, a pointer the address of the word it patches.
pub open spec fn resolve(s: Seq<char>, a: AsmArg, labels: Seq<(Seq<char>, int)>, ptrs: Seq<(Seq<char>, int)>) -> Option<AsmOperand> {
    match a {
        AsmArg::Label(x, y, m) => match lookup(labels, s.subrange(x as int, y as int)) {
            Some(t) => Some(AsmOperand { kind: AsmOperandKind::Immediate(t as i128), offset: 0, debug_marker: m }),
            None => None,
        },
        AsmArg::PointerDeref(_, _, m) => Some(AsmOperand { kind: AsmOperandKind::Memory(0), offset: 0, debug_marker: m }),
        AsmArg::Pointer(x, y, m) => match lookup(ptrs, s.subrange(x as int, y as int)) {
            Some(t) => Some(AsmOperand { kind: AsmOperandKind::Pointer(t as usize), offset: 0, debug_marker: m }),
            None => None,
        },
        AsmArg::Resolved(op) => Some(op),
        AsmArg::Invalid => None,
    }
}

/// The operand resolved and placed at the address `at`.
pub open spec fn placed(s: Seq<char>, a: AsmArg, labels: Seq<(Seq<char>, int)>, ptrs: Seq<(Seq<char>, int)>, at: int) -> Option<AsmOperand> {
    match resolve(s, a, labels, ptrs) {
        Some(o) => Some(AsmOperand { offset: at as usize, ..o }),
        None => None,
    }
}

/// The instruction at address `off` with its operands resolved and placed.
pub open spec fn finish(
    s: Seq<char>,
    x: InstrView<AsmArg>,
    off: int,
    labels: Seq<(Seq<char>, int)>,
    ptrs: Seq<(Seq<char>, int)>,
) -> Option<InstrView<AsmOperand>> {
    let p = |a: AsmArg, k: int| placed(s, a, labels, ptrs, off + k + 1);
    match x {
        InstrView::Add(a, b, c) => if p(a, 0) is Some && p(b, 1) is Some && p(c, 2) is Some {
            Some(InstrView::Add(p(a, 0)->0, p(b, 1)->0, p(c, 2)->0))
        } else {
            None
        },
        InstrView::Mul(a, b, c) => if p(a, 0) is Some && p(b, 1) is Some && p(c, 2) is Some {
            Some(InstrView::Mul(p(a, 0)->0, p(b, 1)->0, p(c, 2)->0))
        } else {
            None
        },
        InstrView::LessThan(a, b, c) => if p(a, 0) is Some && p(b, 1) is Some && p(c, 2) is Some {
            Some(InstrView::LessThan(p(a, 0)->0, p(b, 1)->0, p(c, 2)->0))
        } else {
            None
        },
        InstrView::Equals(a, b, c) => if p(a, 0) is Some && p(b, 1) is Some && p(c, 2) is Some {
            Some(InstrView::Equals(p(a, 0)->0, p(b, 1)->0, p(c, 2)->0))
        } else {
            None
        },
        InstrView::Assign(c, a) => if p(c, 2) is Some && p(a, 0) is Some {
            Some(InstrView::Assign(p(c, 2)->0, p(a, 0)->0))
        } else {
            None
        },
        InstrView::Input(a) => if p(a, 0) is Some {
            Some(InstrView::Input(p(a, 0)->0))
        } else {
            None
        },
        InstrView::Output(a) => if p(a, 0) is Some {
            Some(InstrView::Output(p(a, 0)->0))
        } else {
            None
        },
        InstrView::AdjustRelativeBase(a) => if p(a, 0) is Some {
            Some(InstrView::AdjustRelativeBase(p(a, 0)->0))
        } else {
            None
        },
        InstrView::JumpIf(a, t, b) => if p(a, 0) is Some && p(b, 1) is Some {
            Some(InstrView::JumpIf(p(a, 0)->0, t, p(b, 1)->0))
        } else {
            None
        },
        InstrView::Goto(a) => if p(a, 1) is Some {
            Some(InstrView::Goto(p(a, 1)->0))
        } else {
            None
        },
        InstrView::Data(d) => Some(InstrView::Data(d)),
        InstrView::Halt => Some(InstrView::Halt),
        InstrView::Phi(..) => None,
    }
}

/// Whether the operand is the value `v`.
pub open spec fn is_value(o: AsmOperand, v: i128) -> bool {
    o.kind == AsmOperandKind::Immediate(v)
}

/// An addition of zero or a multiplication by one becomes an assignment of
/// the other operand, and a jump whose condition is a constant that always
/// jumps becomes a plain jump.
pub open spec fn simplify(x: InstrView<AsmOperand>) -> InstrView<AsmOperand> {
    match x {
        InstrView::Add(a, b, c) => if is_value(b, 0) {
            InstrView::Assign(c, a)
        } else if is_value(a, 0) {
            InstrView::Assign(c, b)
        } else {
            x
        },
        InstrView::Mul(a, b, c) => if is_value(b, 1) {
            InstrView::Assign(c, a)
        } else if is_value(a, 1) {
            InstrView::Assign(c, b)
        } else {
            x
        },
        InstrView::JumpIf(a, true, t) => if a.kind is Immediate && a.kind->Immediate_0 != 0 {
            InstrView::Goto(t)
        } else {
            x
        },
        InstrView::JumpIf(a, false, t) => if is_value(a, 0) {
            InstrView::Goto(t)
        } else {
            x
        },
        _ => x,
    }
}

/// The first `k` lines assembled: each at its address, resolved, placed and
/// simplified; `None` where a name is not defined.
pub open spec fn assemble(
    s: Seq<char>,
    lines: Seq<(Option<(usize, usize)>, InstrView<AsmArg>)>,
    labels: Seq<(Seq<char>, int)>,
    ptrs: Seq<(Seq<char>, int)>,
    k: int,
) -> Option<Seq<(usize, InstrView<AsmOperand>)>>
    decreases k,
{
    if k <= 0 || k > lines.len() {
        Some(seq![])
    } else {
        match assemble(s, lines, labels, ptrs, k - 1) {
            Some(done) => match finish(s, lines[k - 1].1, offset_of(lines, k - 1), labels, ptrs) {
                Some(x) => Some(done.push((offset_of(lines, k - 1) as usize, simplify(x)))),
                None => None,
            },
            None => None,
        }
    }
}

/// Whether some operand is a base adjustment by something other than a number.
pub open spec fn has_invalid(lines: Seq<(Option<(usize, usize)>, InstrView<AsmArg>)>) -> bool {
    exists|k: int| 0 <= k < lines.len() && #[trigger] lines[k].1 == InstrView::AdjustRelativeBase(AsmArg::Invalid)
}

/// The program in the text `s`: its lines, each at its address, with names
/// resolved; or why it is not one.
pub open spec fn spec_parse_asm(s: Seq<char>) -> Result<Seq<(usize, InstrView<AsmOperand>)>, AsmError> {
    let (lines, e) = spec_lines(s, 0, seq![]);
    if lines.len() == 0 {
        Err(AsmError::Syntax)
    } else if has_invalid(lines) {
        Err(AsmError::InvalidAdjust)
    } else if ws_end(s, e) != s.len() {
        Err(AsmError::Syntax)
    } else if offset_of(lines, lines.len() as int) > usize::MAX {
        Err(AsmError::TooLarge)
    } else {
        match assemble(s, lines, label_defs(s, lines, lines.len() as int), pointer_defs(s, lines, lines.len() as int), lines.len() as int) {
            Some(v) => Ok(v),
            None => Err(AsmError::Unresolved),
        }
    }
}

/// The lines as parsed, with the instructions by their view.
pub open spec fn lines_view(v: Seq<(Option<(usize, usize)>, GenericInstruction<AsmArg>)>) -> Seq<(Option<(usize, usize)>, InstrView<AsmArg>)> {
    v.map_values(|p: (Option<(usize, usize)>, GenericInstruction<AsmArg>)| (p.0, p.1@))
}

/// Names given by character ranges of `s`, with their values.
pub open spec fn defs_view(s: Seq<char>, v: Seq<(usize, usize, usize)>) -> Seq<(Seq<char>, int)> {
    v.map_values(|d: (usize, usize, usize)| (s.subrange(d.0 as int, d.1 as int), d.2 as int))
}

/// The assembled lines, with the instructions by their view.
pub open spec fn program_view(v: Seq<(usize, GenericInstruction<AsmOperand>)>) -> Seq<(usize, InstrView<AsmOperand>)> {
    v.map_values(|p: (usize, GenericInstruction<AsmOperand>)| (p.0, p.1@))
}

/// Number of words the instruction occupies.
pub fn instruction_kind_size<T>(x: &GenericInstruction<T>) -> (r: usize)
    ensures
        r == spec_size(x@),
{
    match x {
        GenericInstruction::Add(..) | GenericInstruction::Mul(..) | GenericInstruction::LessThan(..)
        | GenericInstruction::Equals(..) | GenericInstruction::Assign(..) => 4,
        GenericInstruction::Goto(..) | GenericInstruction::JumpIf(..) => 3,
        GenericInstruction::Input(_) | GenericInstruction::Output(_) | GenericInstruction::AdjustRelativeBase(_) => 2,
        GenericInstruction::Halt => 1,
        GenericInstruction::Data(v) => v.len(),
        GenericInstruction::Phi(_, _) => 0,
    }
}

/// The operands of `x` in the order of the words they are written to.
fn layout_of(x: &GenericInstruction<AsmArg>) -> (r: (Option<AsmArg>, Option<AsmArg>, Option<AsmArg>))
    ensures
        layout(x@) == seq![r.0, r.1, r.2],
{
    match x {
        GenericInstruction::Add(a, b, c) | GenericInstruction::Mul(a, b, c) | GenericInstruction::LessThan(a, b, c)
        | GenericInstruction::Equals(a, b, c) => (Some(*a), Some(*b), Some(*c)),
        GenericInstruction::Assign(c, a) => (Some(*a), None, Some(*c)),
        GenericInstruction::Input(a) | GenericInstruction::Output(a) | GenericInstruction::AdjustRelativeBase(a) => (
            Some(*a),
            None,
            None,
        ),
        GenericInstruction::JumpIf(a, _, b) => (Some(*a), Some(*b), None),
        GenericInstruction::Goto(t) => (None, Some(*t), None),
        _ => (None, None, None),
    }
}

/// An operand in the layout stands before the end of the instruction.
proof fn lemma_layout_inside<A>(x: InstrView<A>, k: int)
    requires
        0 <= k < 3,
        layout(x)[k] is Some,
    ensures
        k + 1 < spec_size(x),
{
}

/// Whether `s[a..b]` and `s[c..d]` are the same text.
fn same_text(s: &Vec<char>, a: usize, b: usize, c: usize, d: usize) -> (r: bool)
    requires
        a <= b <= s.len(),
        c <= d <= s.len(),
    ensures
        r == (s@.subrange(a as int, b as int) == s@.subrange(c as int, d as int)),
{
    if b - a != d - c {
        proof {
            if s@.subrange(a as int, b as int) == s@.subrange(c as int, d as int) {
                assert(s@.subrange(a as int, b as int).len() == s@.subrange(c as int, d as int).len());
            }
        }
        return false;
    }
    let mut k: usize = 0;
    while k < b - a
        invariant
            a <= b <= s.len(),
            c <= d <= s.len(),
            b - a == d - c,
            k <= b - a,
            forall|m: int| 0 <= m < k ==> #[trigger] s@.subrange(a as int, b as int)[m] == s@.subrange(c as int, d as int)[m],
        decreases b - a - k,
    {
        if s[a + k] != s[c + k] {
            proof {
                assert(s@.subrange(a as int, b as int)[k as int] != s@.subrange(c as int, d as int)[k as int]);
            }
            return false;
        }
        k = k + 1;
    }
    assert(s@.subrange(a as int, b as int) =~= s@.subrange(c as int, d as int));
    true
}

/// Whether every name of `defs` is a range of `s`.
pub open spec fn ranges_in(s: Seq<char>, defs: Seq<(usize, usize, usize)>) -> bool {
    forall|k: int| 0 <= k < defs.len() ==> (#[trigger] defs[k]).0 <= defs[k].1 <= s.len()
}

/// The value last defined for the name `s[a..b]`.
fn lookup_name(s: &Vec<char>, defs: &Vec<(usize, usize, usize)>, a: usize, b: usize) -> (r: Option<usize>)
    requires
        a <= b <= s.len(),
        ranges_in(s@, defs@),
    ensures
        match r {
            Some(v) => lookup(defs_view(s@, defs@), s@.subrange(a as int, b as int)) == Some(v as int),
            None => lookup(defs_view(s@, defs@), s@.subrange(a as int, b as int)) is None,
        },
{
    let ghost n = s@.subrange(a as int, b as int);
    let ghost all = defs_view(s@, defs@);
    let mut k = defs.len();
    assert(all.take(k as int) =~= all);
    while k > 0
        invariant
            k <= defs@.len(),
            a <= b <= s.len(),
            ranges_in(s@, defs@),
            all == defs_view(s@, defs@),
            n == s@.subrange(a as int, b as int),
            lookup(all, n) == lookup(all.take(k as int), n),
        decreases k,
    {
        let ghost t = all.take(k as int);
        assert(t.drop_last() =~= all.take(k - 1));
        let (c, d, v) = defs[k - 1];
        assert(defs@[k - 1] == (c, d, v));
        assert(t.last() == (s@.subrange(c as int, d as int), v as int));
        if same_text(s, c, d, a, b) {
            return Some(v);
        }
        k = k - 1;
    }
    assert(all.take(0) =~= Seq::<(Seq<char>, int)>::empty());
    None
}

/// The operand resolved and placed at the address `at`.
fn place_arg(s: &Vec<char>, a: AsmArg, labels: &Vec<(usize, usize, usize)>, ptrs: &Vec<(usize, usize, usize)>, at: usize) -> (r: Option<AsmOperand>)
    requires
        arg_ok(s@, a),
        ranges_in(s@, labels@),
        ranges_in(s@, ptrs@),
    ensures
        r == placed(s@, a, defs_view(s@, labels@), defs_view(s@, ptrs@), at as int),
{
    let o = match a {
        AsmArg::Label(x, y, m) => match lookup_name(s, labels, x, y) {
            Some(t) => AsmOperand { kind: AsmOperandKind::Immediate(t as i128), offset: 0, debug_marker: m },
            None => {
                return None;
            },
        },
        AsmArg::PointerDeref(_, _, m) => AsmOperand { kind: AsmOperandKind::Memory(0), offset: 0, debug_marker: m },
        AsmArg::Pointer(x, y, m) => match lookup_name(s, ptrs, x, y) {
            Some(t) => AsmOperand { kind: AsmOperandKind::Pointer(t), offset: 0, debug_marker: m },
            None => {
                return None;
            },
        },
        AsmArg::Resolved(op) => op,
        AsmArg::Invalid => {
            return None;
        },
    };
    Some(AsmOperand { offset: at, ..o })
}

/// The instruction at address `off` with its operands resolved and placed.
fn finish_instr(
    s: &Vec<char>,
    x: &GenericInstruction<AsmArg>,
    off: usize,
    labels: &Vec<(usize, usize, usize)>,
    ptrs: &Vec<(usize, usize, usize)>,
) -> (r: Option<GenericInstruction<AsmOperand>>)
    requires
        instr_ok(s@, x@),
        off + spec_size(x@) <= usize::MAX,
        ranges_in(s@, labels@),
        ranges_in(s@, ptrs@),
    ensures
        match r {
            Some(y) => finish(s@, x@, off as int, defs_view(s@, labels@), defs_view(s@, ptrs@)) == Some(y@),
            None => finish(s@, x@, off as int, defs_view(s@, labels@), defs_view(s@, ptrs@)) is None,
        },
{
    proof {
        assert(layout(x@)[0] == layout(x@)[0]);
        assert(layout(x@)[1] == layout(x@)[1]);
        assert(layout(x@)[2] == layout(x@)[2]);
    }
    match x {
        GenericInstruction::Add(a, b, c) | GenericInstruction::Mul(a, b, c) | GenericInstruction::LessThan(a, b, c)
        | GenericInstruction::Equals(a, b, c) => {
            let pa = place_arg(s, *a, labels, ptrs, off + 1);
            let pb = place_arg(s, *b, labels, ptrs, off + 2);
            let pc = place_arg(s, *c, labels, ptrs, off + 3);
            match (pa, pb, pc) {
                (Some(ra), Some(rb), Some(rc)) => Some(
                    match x {
                        GenericInstruction::Add(..) => GenericInstruction::Add(ra, rb, rc),
                        GenericInstruction::Mul(..) => GenericInstruction::Mul(ra, rb, rc),
                        GenericInstruction::LessThan(..) => GenericInstruction::LessThan(ra, rb, rc),
                        _ => GenericInstruction::Equals(ra, rb, rc),
                    },
                ),
                _ => None,
            }
        },
        GenericInstruction::Assign(c, a) => {
            let pc = place_arg(s, *c, labels, ptrs, off + 3);
            let pa = place_arg(s, *a, labels, ptrs, off + 1);
            match (pc, pa) {
                (Some(rc), Some(ra)) => Some(GenericInstruction::Assign(rc, ra)),
                _ => None,
            }
        },
        GenericInstruction::Input(a) | GenericInstruction::Output(a) | GenericInstruction::AdjustRelativeBase(a) => {
            match place_arg(s, *a, labels, ptrs, off + 1) {
                Some(ra) => Some(
                    match x {
                        GenericInstruction::Input(_) => GenericInstruction::Input(ra),
                        GenericInstruction::Output(_) => GenericInstruction::Output(ra),
                        _ => GenericInstruction::AdjustRelativeBase(ra),
                    },
                ),
                None => None,
            }
        },
        GenericInstruction::JumpIf(a, t, b) => {
            let pa = place_arg(s, *a, labels, ptrs, off + 1);
            let pb = place_arg(s, *b, labels, ptrs, off + 2);
            match (pa, pb) {
                (Some(ra), Some(rb)) => Some(GenericInstruction::JumpIf(ra, *t, rb)),
                _ => None,
            }
        },
        GenericInstruction::Goto(a) => match place_arg(s, *a, labels, ptrs, off + 2) {
            Some(ra) => Some(GenericInstruction::Goto(ra)),
            None => None,
        },
        GenericInstruction::Data(d) => {
            let mut e: Vec<i128> = Vec::new();
            let mut k: usize = 0;
            while k < d.len()
                invariant
                    k <= d@.len(),
                    e@ == d@.take(k as int),
                decreases d.len() - k,
            {
                e.push(d[k]);
                k = k + 1;
                assert(e@ =~= d@.take(k as int));
            }
            assert(d@.take(k as int) =~= d@);
            Some(GenericInstruction::Data(e))
        },
        GenericInstruction::Halt => Some(GenericInstruction::Halt),
        GenericInstruction::Phi(..) => None,
    }
}

/// Whether the operand is the value `v`.
fn value_is(o: &AsmOperand, v: i128) -> (r: bool)
    ensures
        r == is_value(*o, v),
{
    match o.kind {
        AsmOperandKind::Immediate(w) => w == v,
        _ => false,
    }
}

/// [`simplify`] on an instruction.
fn simplify_instr(x: GenericInstruction<AsmOperand>) -> (r: GenericInstruction<AsmOperand>)
    ensures
        r@ == simplify(x@),
{
    match x {
        GenericInstruction::Add(a, b, c) => if value_is(&b, 0) {
            GenericInstruction::Assign(c, a)
        } else if value_is(&a, 0) {
            GenericInstruction::Assign(c, b)
        } else {
            GenericInstruction::Add(a, b, c)
        },
        GenericInstruction::Mul(a, b, c) => if value_is(&b, 1) {
            GenericInstruction::Assign(c, a)
        } else if value_is(&a, 1) {
            GenericInstruction::Assign(c, b)
        } else {
            GenericInstruction::Mul(a, b, c)
        },
        GenericInstruction::JumpIf(a, t, b) => {
            let always = match a.kind {
                AsmOperandKind::Immediate(v) => if t {
                    v != 0
                } else {
                    v == 0
                },
                _ => false,
            };
            if always {
                GenericInstruction::Goto(b)
            } else {
                GenericInstruction::JumpIf(a, t, b)
            }
        },
        _ => x,
    }
}

/// Once a line cannot be assembled, no longer prefix can.
proof fn lemma_assemble_stops(
    s: Seq<char>,
    lines: Seq<(Option<(usize, usize)>, InstrView<AsmArg>)>,
    labels: Seq<(Seq<char>, int)>,
    ptrs: Seq<(Seq<char>, int)>,
    j: int,
    k: int,
)
    requires
        1 <= j <= k <= lines.len(),
        assemble(s, lines, labels, ptrs, j) is None,
    ensures
        assemble(s, lines, labels, ptrs, k) is None,
    decreases k - j,
{
    if j < k {
        lemma_assemble_stops(s, lines, labels, ptrs, j, k - 1);
    }
}

/// Addresses only grow along the lines.
proof fn lemma_offsets_grow(lines: Seq<(Option<(usize, usize)>, InstrView<AsmArg>)>, j: int, k: int)
    requires
        0 <= j <= k <= lines.len(),
    ensures
        offset_of(lines, j) <= offset_of(lines, k),
    decreases k - j,
{
    if j < k {
        lemma_offsets_grow(lines, j, k - 1);
    }
}

/// Whether the text reads as the lines `lv`, ending at `e` with only white
/// space and comments after, none of them invalid.
pub open spec fn parsed_text(s: Seq<char>, lv: Seq<(Option<(usize, usize)>, InstrView<AsmArg>)>, e: int) -> bool {
    &&& spec_lines(s, 0, seq![]) == (lv, e)
    &&& lv.len() > 0
    &&& !has_invalid(lv)
    &&& ws_end(s, e) == s.len()
}

/// The lines of the text, as far as they parse, and the position after the
/// last.
fn lines_of(s: &Vec<char>) -> (r: (Vec<(Option<(usize, usize)>, GenericInstruction<AsmArg>)>, usize))
    ensures
        (lines_view(r.0@), r.1 as int) == spec_lines(s@, 0, seq![]),
        r.1 <= s.len(),
        forall|k: int| 0 <= k < r.0@.len() ==> instr_ok(s@, (#[trigger] r.0@[k]).1@),
        forall|k: int| 0 <= k < r.0@.len() ==> ((#[trigger] r.0@[k]).0 matches Some((a, b)) ==> a <= b <= s.len()),
{
    let mut lines: Vec<(Option<(usize, usize)>, GenericInstruction<AsmArg>)> = Vec::new();
    let mut p: usize = 0;
    assert(lines_view(lines@) =~= seq![]);
    loop
        invariant
            p <= s.len(),
            spec_lines(s@, 0, seq![]) == spec_lines(s@, p as int, lines_view(lines@)),
            forall|k: int| 0 <= k < lines@.len() ==> instr_ok(s@, (#[trigger] lines@[k]).1@),
            forall|k: int| 0 <= k < lines@.len() ==> ((#[trigger] lines@[k]).0 matches Some((a, b)) ==> a <= b <= s.len()),
        decreases s.len() - p,
    {
        match line_at(s, p) {
            Some((l, x, j)) => {
                let ghost before = lines_view(lines@);
                let ghost xv = x@;
                lines.push((l, x));
                assert(lines_view(lines@) =~= before.push((l, xv)));
                p = j;
            },
            None => {
                assert(spec_lines(s@, p as int, lines_view(lines@)) == (lines_view(lines@), p as int));
                return (lines, p);
            },
        }
    }
}

/// Reads the program in the text `input`: each line's instruction at its
/// address, with labels and pointers resolved to addresses, each operand
/// placed at the word it is written to, and additions of zero,
/// multiplications by one and jumps that always jump simplified; see
/// [`spec_parse_asm`] for when the text is refused.
#[verifier::spinoff_prover]
#[verifier::rlimit(40)]
pub fn parse_program(input: &str) -> (r: Result<Vec<(usize, GenericInstruction<AsmOperand>)>, AsmError>)
    ensures
        match r {
            Ok(v) => spec_parse_asm(input@) == Ok::<Seq<(usize, InstrView<AsmOperand>)>, AsmError>(program_view(v@)),
            Err(e) => spec_parse_asm(input@) == Err::<Seq<(usize, InstrView<AsmOperand>)>, AsmError>(e),
        },
{
    let s = chars_of(input);
    let (lines, e) = lines_of(&s);
    let ghost lv = lines_view(lines@);
    assert(spec_lines(input@, 0, seq![]) == (lv, e as int));
    if lines.len() == 0 {
        return Err(AsmError::Syntax);
    }
    let mut k: usize = 0;
    while k < lines.len()
        invariant
            k <= lines@.len(),
            lv == lines_view(lines@),
            lv.len() > 0,
            spec_lines(input@, 0, seq![]) == (lv, e as int),
            forall|q: int| 0 <= q < k ==> (#[trigger] lv[q]).1 != InstrView::AdjustRelativeBase(AsmArg::Invalid),
        decreases lines.len() - k,
    {
        let bad = match &lines[k].1 {
            GenericInstruction::AdjustRelativeBase(AsmArg::Invalid) => true,
            _ => false,
        };
        assert(lv[k as int].1 == lines@[k as int].1@);
        if bad {
            assert(has_invalid(lv));
            return Err(AsmError::InvalidAdjust);
        }
        k = k + 1;
    }
    assert(!has_invalid(lv));
    if ws_at(&s, e) != s.len() {
        return Err(AsmError::Syntax);
    }
    assert(parsed_text(input@, lv, e as int));
    let mut offs: Vec<usize> = Vec::new();
    offs.push(0);
    let mut total: usize = 0;
    let mut k: usize = 0;
    while k < lines.len()
        invariant
            k <= lines@.len(),
            lv == lines_view(lines@),
            parsed_text(input@, lv, e as int),
            offs@.len() == k + 1,
            total == offset_of(lv, k as int),
            forall|q: int| 0 <= q <= k ==> #[trigger] offs@[q] == offset_of(lv, q),
        decreases lines.len() - k,
    {
        let n = instruction_kind_size(&lines[k].1);
        assert(lv[k as int].1 == lines@[k as int].1@);
        if n > usize::MAX - total {
            proof {
                lemma_offsets_grow(lv, k + 1, lv.len() as int);
            }
            return Err(AsmError::TooLarge);
        }
        total = total + n;
        offs.push(total);
        k = k + 1;
    }
    let mut labels: Vec<(usize, usize, usize)> = Vec::new();
    let mut k: usize = 0;
    assert(defs_view(s@, labels@) =~= seq![]);
    while k < lines.len()
        invariant
            k <= lines@.len(),
            lv == lines_view(lines@),
            offs@.len() == lines@.len() + 1,
            forall|q: int| 0 <= q <= lines@.len() ==> #[trigger] offs@[q] == offset_of(lv, q),
            forall|q: int| 0 <= q < lines@.len() ==> ((#[trigger] lines@[q]).0 matches Some((a, b)) ==> a <= b <= s.len()),
            defs_view(s@, labels@) == label_defs(s@, lv, k as int),
            ranges_in(s@, labels@),
        decreases lines.len() - k,
    {
        assert(lv[k as int].0 == lines@[k as int].0);
        match lines[k].0 {
            Some((a, b)) => {
                let ghost before = defs_view(s@, labels@);
                labels.push((a, b, offs[k]));
                assert(defs_view(s@, labels@) =~= before.push((s@.subrange(a as int, b as int), offs@[k as int] as int)));
            },
            None => {},
        }
        k = k + 1;
    }
    let mut ptrs: Vec<(usize, usize, usize)> = Vec::new();
    let mut k: usize = 0;
    assert(defs_view(s@, ptrs@) =~= seq![]);
    while k < lines.len()
        invariant
            k <= lines@.len(),
            lv == lines_view(lines@),
            offs@.len() == lines@.len() + 1,
            total == offset_of(lv, lv.len() as int),
            forall|q: int| 0 <= q <= lines@.len() ==> #[trigger] offs@[q] == offset_of(lv, q),
            forall|q: int| 0 <= q < lines@.len() ==> instr_ok(s@, (#[trigger] lines@[q]).1@),
            defs_view(s@, ptrs@) == pointer_defs(s@, lv, k as int),
            ranges_in(s@, ptrs@),
        decreases lines.len() - k,
    {
        let x = &lines[k].1;
        assert(lv[k as int].1 == x@);
        let (l0, l1, l2) = layout_of(x);
        let off = offs[k];
        proof {
            lemma_offsets_grow(lv, k + 1, lv.len() as int);
            assert(instr_ok(s@, x@));
            assert(layout(x@)[0] == l0 && layout(x@)[1] == l1 && layout(x@)[2] == l2);
        }
        let ghost before = defs_view(s@, ptrs@);
        let ghost lay = layout(x@);
        match l0 {
            Some(AsmArg::PointerDeref(a, b, _)) => {
                proof {
                    lemma_layout_inside(x@, 0);
                }
                ptrs.push((a, b, off + 1));
            },
            _ => {},
        }
        let ghost mid0 = defs_view(s@, ptrs@);
        assert(mid0 =~= before + deref_def(s@, lay[0], off + 1));
        match l1 {
            Some(AsmArg::PointerDeref(a, b, _)) => {
                proof {
                    lemma_layout_inside(x@, 1);
                }
                ptrs.push((a, b, off + 2));
            },
            _ => {},
        }
        let ghost mid1 = defs_view(s@, ptrs@);
        assert(mid1 =~= mid0 + deref_def(s@, lay[1], off + 2));
        match l2 {
            Some(AsmArg::PointerDeref(a, b, _)) => {
                proof {
                    lemma_layout_inside(x@, 2);
                }
                ptrs.push((a, b, off + 3));
            },
            _ => {},
        }
        assert(defs_view(s@, ptrs@) =~= mid1 + deref_def(s@, lay[2], off + 3));
        k = k + 1;
    }
    let mut out: Vec<(usize, GenericInstruction<AsmOperand>)> = Vec::new();
    let mut k: usize = 0;
    assert(program_view(out@) =~= seq![]);
    while k < lines.len()
        invariant
            k <= lines@.len(),
            lv == lines_view(lines@),
            parsed_text(input@, lv, e as int),
            s@ == input@,
            offs@.len() == lines@.len() + 1,
            total == offset_of(lv, lv.len() as int),
            forall|q: int| 0 <= q <= lines@.len() ==> #[trigger] offs@[q] == offset_of(lv, q),
            forall|q: int| 0 <= q < lines@.len() ==> instr_ok(s@, (#[trigger] lines@[q]).1@),
            defs_view(s@, labels@) == label_defs(s@, lv, lv.len() as int),
            defs_view(s@, ptrs@) == pointer_defs(s@, lv, lv.len() as int),
            ranges_in(s@, labels@),
            ranges_in(s@, ptrs@),
            assemble(s@, lv, defs_view(s@, labels@), defs_view(s@, ptrs@), k as int) == Some(program_view(out@)),
        decreases lines.len() - k,
    {
        let x = &lines[k].1;
        assert(lv[k as int].1 == x@);
        proof {
            lemma_offsets_grow(lv, k + 1, lv.len() as int);
        }
        match finish_instr(&s, x, offs[k], &labels, &ptrs) {
            Some(y) => {
                let z = simplify_instr(y);
                let ghost before = program_view(out@);
                let ghost zv = z@;
                out.push((offs[k], z));
                assert(program_view(out@) =~= before.push((offs@[k as int], zv)));
            },
            None => {
                proof {
                    lemma_assemble_stops(s@, lv, defs_view(s@, labels@), defs_view(s@, ptrs@), k + 1, lv.len() as int);
                }
                return Err(AsmError::Unresolved);
            },
        }
        k = k + 1;
    }
    Ok(out)
}

/// The mode digit of an operand: 0 for an address, 1 for a value, 2 for an
/// offset from the relative base.
pub open spec fn mode_of(o: AsmOperand) -> int {
    match o.kind {
        AsmOperandKind::Memory(_) | AsmOperandKind::Pointer(_) => 0,
        AsmOperandKind::Immediate(_) => 1,
        AsmOperandKind::RelativeMemory(_) => 2,
    }
}

/// The place of the `i`-th mode digit in the opcode word.
pub open spec fn mode_place(i: int) -> int {
    if i == 0 {
        100
    } else if i == 1 {
        1000
    } else {
        10000
    }
}

/// The shift of the `i`-th debug marker (eight bits per operand).
pub open spec fn marker_shift(i: int) -> int {
    if i == 0 {
        1
    } else if i == 1 {
        256
    } else {
        65536
    }
}

/// The debug marker of the `i`-th operand as it is added to the opcode
/// word: its code, shifted by eight bits per operand, times 100000, when
/// the code is from 1 to 255; nothing otherwise.
pub open spec fn marker_term(o: AsmOperand, i: int) -> int {
    match o.debug_marker {
        Some(c) => if 0 < (c as u32) <= 255 {
            (c as u32) * marker_shift(i) * 100000
        } else {
            0
        },
        None => 0,
    }
}

/// What the opcode word gets from the first `n` operands.
pub open spec fn operand_terms(args: Seq<AsmOperand>, n: int) -> int
    decreases n,
{
    if n <= 0 || n > args.len() {
        0
    } else {
        operand_terms(args, n - 1) + mode_of(args[n - 1]) * mode_place(n - 1) + marker_term(args[n - 1], n - 1)
    }
}

/// The word written for an operand.
pub open spec fn value_of(o: AsmOperand) -> i128 {
    match o.kind {
        AsmOperandKind::Memory(a) | AsmOperandKind::Pointer(a) => a as i128,
        AsmOperandKind::Immediate(v) => v,
        AsmOperandKind::RelativeMemory(v) => v,
    }
}

pub open spec fn const_operand(v: i128) -> AsmOperand {
    AsmOperand { kind: AsmOperandKind::Immediate(v), offset: 0, debug_marker: None }
}

/// The opcode and the operands written of an instruction: an assignment is
/// an addition of zero and a jump a jump on one.
pub open spec fn opcode_and_operands(x: InstrView<AsmOperand>) -> (int, Seq<AsmOperand>) {
    match x {
        InstrView::Add(a, b, c) => (1, seq![a, b, c]),
        InstrView::Mul(a, b, c) => (2, seq![a, b, c]),
        InstrView::Input(a) => (3, seq![a]),
        InstrView::Output(a) => (4, seq![a]),
        InstrView::JumpIf(a, true, b) => (5, seq![a, b]),
        InstrView::JumpIf(a, false, b) => (6, seq![a, b]),
        InstrView::LessThan(a, b, c) => (7, seq![a, b, c]),
        InstrView::Equals(a, b, c) => (8, seq![a, b, c]),
        InstrView::AdjustRelativeBase(a) => (9, seq![a]),
        InstrView::Goto(t) => (5, seq![const_operand(1), t]),
        InstrView::Assign(c, a) => (1, seq![a, const_operand(0), c]),
        InstrView::Halt => (99, seq![]),
        _ => (0, seq![]),
    }
}

/// The words of one instruction: data as it is; otherwise the opcode word
/// (opcode, mode digits and debug markers), then one word per operand.
pub open spec fn encode(x: InstrView<AsmOperand>) -> Seq<i128> {
    match x {
        InstrView::Data(d) => d,
        _ => {
            let (op, args) = opcode_and_operands(x);
            seq![(op + operand_terms(args, args.len() as int)) as i128] + args.map_values(|o: AsmOperand| value_of(o))
        },
    }
}

/// The mode digits and debug markers of the first `n` operands, in hundreds.
pub open spec fn operand_hundreds(args: Seq<AsmOperand>, n: int) -> int
    decreases n,
{
    if n <= 0 || n > args.len() {
        0
    } else {
        let i = n - 1;
        let m = mode_of(args[i]) * (if i == 0 { 1int } else if i == 1 { 10int } else { 100int });
        let k = match args[i].debug_marker {
            Some(c) => if 0 < (c as u32) <= 255 {
                (c as u32) * marker_shift(i) * 1000
            } else {
                0
            },
            None => 0,
        };
        operand_hundreds(args, n - 1) + m + k
    }
}

proof fn lemma_operand_terms_hundreds(args: Seq<AsmOperand>, n: int)
    ensures
        operand_terms(args, n) == 100 * operand_hundreds(args, n),
        operand_hundreds(args, n) >= 0,
        operand_hundreds(args, n) <= (if n > 0 { n } else { 0 }) * 20000000000,
    decreases n,
{
    if !(n <= 0 || n > args.len()) {
        lemma_operand_terms_hundreds(args, n - 1);
        let i = n - 1;
        let o = args[i];
        match o.debug_marker {
            Some(c) => {
                let v = c as u32 as int;
                if i == 0 {
                    assert(v * 1 * 100000 == 100 * (v * 1 * 1000));
                } else if i == 1 {
                    assert(v * 256 * 100000 == 100 * (v * 256 * 1000));
                } else {
                    assert(v * 65536 * 100000 == 100 * (v * 65536 * 1000));
                }
            },
            None => {},
        }
    }
}

/// Whether the decoder's instruction `y` is of the kind of the assembled
/// instruction `x`: the same operation, and for a conditional jump the same
/// condition.
pub open spec fn same_kind(x: InstrView<AsmOperand>, y: crate::low_ir::FatInstruction) -> bool {
    match x {
        InstrView::Add(..) => y is Add,
        InstrView::Mul(..) => y is Mul,
        InstrView::Input(..) => y is Input,
        InstrView::Output(..) => y is Output,
        InstrView::JumpIf(_, c, _) => y matches GenericInstruction::JumpIf(_, d, _) && c == d,
        InstrView::LessThan(..) => y is LessThan,
        InstrView::Equals(..) => y is Equals,
        InstrView::AdjustRelativeBase(..) => y is AdjustRelativeBase,
        InstrView::Halt => y is Halt,
        _ => false,
    }
}

/// The number of operands an instruction is written with.
pub open spec fn written_operands(x: InstrView<AsmOperand>) -> nat {
    match x {
        InstrView::Add(..) | InstrView::Mul(..) | InstrView::LessThan(..) | InstrView::Equals(..) => 3,
        InstrView::JumpIf(..) => 2,
        InstrView::Input(..) | InstrView::Output(..) | InstrView::AdjustRelativeBase(..) => 1,
        _ => 0,
    }
}

/// The first word of an encoded operation tells the decoder what it is: it
/// is not negative, and its last two digits name an operation of the same
/// kind, read with as many operand words as were written after it.
pub proof fn lemma_encoded_opcode(x: InstrView<AsmOperand>, args: Seq<crate::low_ir::OpArg>)
    requires
        x is Add || x is Mul || x is Input || x is Output || x is JumpIf || x is LessThan || x is Equals
            || x is AdjustRelativeBase || x is Halt,
    ensures
        encode(x).len() == written_operands(x) + 1,
        encode(x)[0] >= 0,
        crate::low_ir::spec_arg_count((encode(x)[0] % 100) as int) == Some(written_operands(x)),
        same_kind(x, crate::low_ir::spec_build((encode(x)[0] % 100) as int, args)),
{
    let (op, ops) = opcode_and_operands(x);
    lemma_operand_terms_hundreds(ops, ops.len() as int);
    let h = operand_hundreds(ops, ops.len() as int);
    assert(op + operand_terms(ops, ops.len() as int) == 100 * h + op);
    vstd::arithmetic::div_mod::lemma_mod_multiples_vanish(h, op, 100);
    vstd::arithmetic::div_mod::lemma_small_mod(op as nat, 100);
    assert(encode(x)[0] == (op + operand_terms(ops, ops.len() as int)) as i128);
    assert(ops.len() <= 3);
    assert(0 <= op + operand_terms(ops, ops.len() as int) <= i128::MAX);
}

/// The operand the decoder reads at address `pos` for an assembled operand:
/// an address (a pointer reads as its address; address 0 reads as the word
/// itself), a value or an offset from the relative base, with its debug
/// marker when the marker's code fits in one byte.
pub open spec fn decoded_operand(o: AsmOperand, pos: int) -> crate::low_ir::OpArg {
    crate::low_ir::OpArg {
        kind: match o.kind {
            AsmOperandKind::Memory(a) => if a == 0 {
                crate::low_ir::Arg::Deref(pos as usize)
            } else {
                crate::low_ir::Arg::Mem(a as i128)
            },
            AsmOperandKind::Pointer(a) => if a == 0 {
                crate::low_ir::Arg::Deref(pos as usize)
            } else {
                crate::low_ir::Arg::Mem(a as i128)
            },
            AsmOperandKind::Immediate(v) => crate::low_ir::Arg::Value(v),
            AsmOperandKind::RelativeMemory(v) => crate::low_ir::Arg::RelativeMem(v),
        },
        span: crate::low_ir::Span { start: pos as usize, end: (pos + 1) as usize },
        debug_marker: match o.debug_marker {
            Some(c) => if 0 < (c as u32) <= 255 {
                Some(((c as u32) as u8) as char)
            } else {
                None
            },
            None => None,
        },
    }
}

/// The assembled instruction `x` placed at `offset` as the decoder sees
/// it: the same operation on the same operands, in the same places, each
/// read from the word after the previous one.
pub open spec fn decoded_instr(x: InstrView<AsmOperand>, offset: int) -> crate::low_ir::FatInstruction {
    match x {
        InstrView::Add(a, b, c) => GenericInstruction::Add(
            decoded_operand(a, offset + 1),
            decoded_operand(b, offset + 2),
            decoded_operand(c, offset + 3),
        ),
        InstrView::Mul(a, b, c) => GenericInstruction::Mul(
            decoded_operand(a, offset + 1),
            decoded_operand(b, offset + 2),
            decoded_operand(c, offset + 3),
        ),
        InstrView::Input(a) => GenericInstruction::Input(decoded_operand(a, offset + 1)),
        InstrView::Output(a) => GenericInstruction::Output(decoded_operand(a, offset + 1)),
        InstrView::JumpIf(a, t, b) => GenericInstruction::JumpIf(decoded_operand(a, offset + 1), t, decoded_operand(b, offset + 2)),
        InstrView::LessThan(a, b, c) => GenericInstruction::LessThan(
            decoded_operand(a, offset + 1),
            decoded_operand(b, offset + 2),
            decoded_operand(c, offset + 3),
        ),
        InstrView::Equals(a, b, c) => GenericInstruction::Equals(
            decoded_operand(a, offset + 1),
            decoded_operand(b, offset + 2),
            decoded_operand(c, offset + 3),
        ),
        InstrView::AdjustRelativeBase(a) => GenericInstruction::AdjustRelativeBase(decoded_operand(a, offset + 1)),
        _ => GenericInstruction::Halt,
    }
}

/// The mode digit of operand `i`, 0 when there is none.
pub open spec fn operand_mode(ops: Seq<AsmOperand>, i: int) -> int {
    if 0 <= i < ops.len() {
        mode_of(ops[i])
    } else {
        0
    }
}

/// The marker byte of operand `i`, 0 when there is none.
pub open spec fn marker_byte(ops: Seq<AsmOperand>, i: int) -> int {
    if 0 <= i < ops.len() {
        match ops[i].debug_marker {
            Some(c) => if 0 < (c as u32) <= 255 {
                c as u32 as int
            } else {
                0
            },
            None => 0,
        }
    } else {
        0
    }
}

proof fn lemma_hundreds_digits(ops: Seq<AsmOperand>)
    requires
        ops.len() <= 3,
    ensures
        operand_hundreds(ops, ops.len() as int) == operand_mode(ops, 0) + 10 * operand_mode(ops, 1) + 100 * operand_mode(ops, 2)
            + 1000 * (marker_byte(ops, 0) + 256 * marker_byte(ops, 1) + 65536 * marker_byte(ops, 2)),
{
    reveal_with_fuel(operand_hundreds, 4);
}

proof fn lemma_word_digits(w: int, op: int, m0: int, m1: int, m2: int, c0: int, c1: int, c2: int)
    requires
        0 <= op < 100,
        0 <= m0 <= 2,
        0 <= m1 <= 2,
        0 <= m2 <= 2,
        0 <= c0 <= 255,
        0 <= c1 <= 255,
        0 <= c2 <= 255,
        w == op + 100 * (m0 + 10 * m1 + 100 * m2 + 1000 * (c0 + 256 * c1 + 65536 * c2)),
    ensures
        w % 100 == op,
        crate::low_ir::spec_mode(w, 0) == m0,
        crate::low_ir::spec_mode(w, 1) == m1,
        crate::low_ir::spec_mode(w, 2) == m2,
        ((w / 100000) / crate::low_ir::spec_marker_shift(0)) % 256 == c0,
        ((w / 100000) / crate::low_ir::spec_marker_shift(1)) % 256 == c1,
        ((w / 100000) / crate::low_ir::spec_marker_shift(2)) % 256 == c2,
{
    let k = c0 + 256 * c1 + 65536 * c2;
    let h = m0 + 10 * m1 + 100 * m2 + 1000 * k;
    vstd::arithmetic::div_mod::lemma_fundamental_div_mod_converse(w, 100, h, op);
    vstd::arithmetic::div_mod::lemma_fundamental_div_mod_converse(h, 10, m1 + 10 * m2 + 100 * k, m0);
    vstd::arithmetic::div_mod::lemma_fundamental_div_mod_converse(w, 1000, m1 + 10 * m2 + 100 * k, op + 100 * m0);
    vstd::arithmetic::div_mod::lemma_fundamental_div_mod_converse(m1 + 10 * m2 + 100 * k, 10, m2 + 10 * k, m1);
    vstd::arithmetic::div_mod::lemma_fundamental_div_mod_converse(w, 10000, m2 + 10 * k, op + 100 * m0 + 1000 * m1);
    vstd::arithmetic::div_mod::lemma_fundamental_div_mod_converse(m2 + 10 * k, 10, k, m2);
    vstd::arithmetic::div_mod::lemma_fundamental_div_mod_converse(w, 100000, k, op + 100 * m0 + 1000 * m1 + 10000 * m2);
    vstd::arithmetic::div_mod::lemma_fundamental_div_mod_converse(k, 1, k, 0);
    vstd::arithmetic::div_mod::lemma_fundamental_div_mod_converse(k, 256, c1 + 256 * c2, c0);
    vstd::arithmetic::div_mod::lemma_fundamental_div_mod_converse(k, 256, c1 + 256 * c2, c0);
    vstd::arithmetic::div_mod::lemma_fundamental_div_mod_converse(k, 65536, c2, c0 + 256 * c1);
    vstd::arithmetic::div_mod::lemma_fundamental_div_mod_converse(c1 + 256 * c2, 256, c2, c1);
    vstd::arithmetic::div_mod::lemma_fundamental_div_mod_converse(c2, 256, 0, c2);
}

/// The operands read after an encoded opcode word are the decoded operands,
/// in order.
proof fn lemma_args_decoded(offset: int, prog: Seq<i128>, ops: Seq<AsmOperand>, k: nat)
    requires
        k <= ops.len(),
        prog.len() == ops.len() + 1,
        0 <= offset,
        offset + ops.len() + 1 <= usize::MAX,
        forall|j: int|
            0 <= j < ops.len() ==> prog[j + 1] == value_of(#[trigger] ops[j]) && crate::low_ir::spec_mode(prog[0] as int, j)
                == mode_of(ops[j]) && crate::low_ir::spec_marker_of(prog[0] as int, j) == decoded_operand(ops[j], 0).debug_marker,
    ensures
        crate::low_ir::spec_args(offset, prog, k) == Ok::<Seq<crate::low_ir::OpArg>, crate::low_ir::ParseError>(
            Seq::new(k, |j: int| decoded_operand(ops[j], offset + j + 1)),
        ),
    decreases k,
{
    if k > 0 {
        lemma_args_decoded(offset, prog, ops, (k - 1) as nat);
        let j = k - 1;
        let o = ops[j];
        assert(prog[j + 1] == value_of(o));
        let mode = crate::low_ir::spec_mode(prog[0] as int, j);
        assert(mode == mode_of(o));
        let a = crate::low_ir::spec_make_arg(offset + k, prog[k as int], mode);
        assert(prog.len() > k);
        assert(a is Ok && a->Ok_0.kind == decoded_operand(o, offset + k).kind && a->Ok_0.span == decoded_operand(o, offset + k).span);
        let prev = Seq::new((k - 1) as nat, |i: int| decoded_operand(ops[i], offset + i + 1));
        let elem = crate::low_ir::OpArg { debug_marker: crate::low_ir::spec_marker_of(prog[0] as int, j), ..a->Ok_0 };
        assert(elem == decoded_operand(o, offset + k));
        assert(crate::low_ir::spec_args(offset, prog, k) == Ok::<Seq<crate::low_ir::OpArg>, crate::low_ir::ParseError>(prev.push(elem)));
        assert(Seq::new(k, |i: int| decoded_operand(ops[i], offset + i + 1)) =~= Seq::new(
            (k - 1) as nat,
            |i: int| decoded_operand(ops[i], offset + i + 1),
        ).push(decoded_operand(o, offset + k)));
    } else {
        assert(Seq::new(0, |i: int| decoded_operand(ops[i], offset + i + 1)) =~= Seq::<crate::low_ir::OpArg>::empty());
    }
}

/// The words of an encoded operation as the decoder reads them: the opcode
/// in the last two digits of the first word, then each operand decoded from
/// the word written for it.
proof fn lemma_encoded_words(x: InstrView<AsmOperand>, offset: int)
    requires
        !(x is Data) && !(x is Phi),
        0 <= offset,
        offset + 4 <= usize::MAX,
    ensures
        ({
            let (op, ops) = opcode_and_operands(x);
            &&& encode(x).len() == ops.len() + 1
            &&& encode(x)[0] >= 0
            &&& encode(x)[0] % 100 == op
            &&& crate::low_ir::spec_args(offset, encode(x), ops.len() as nat) == Ok::<Seq<crate::low_ir::OpArg>, crate::low_ir::ParseError>(
                Seq::new(ops.len() as nat, |j: int| decoded_operand(ops[j], offset + j + 1)),
            )
        }),
{
    let (op, ops) = opcode_and_operands(x);
    let prog = encode(x);
    lemma_operand_terms_hundreds(ops, ops.len() as int);
    lemma_hundreds_digits(ops);
    assert(ops.len() <= 3);
    assert(0 <= op + operand_terms(ops, ops.len() as int) <= i128::MAX);
    let w = prog[0] as int;
    assert(w == op + operand_terms(ops, ops.len() as int));
    let (m0, m1, m2) = (operand_mode(ops, 0), operand_mode(ops, 1), operand_mode(ops, 2));
    let (c0, c1, c2) = (marker_byte(ops, 0), marker_byte(ops, 1), marker_byte(ops, 2));
    lemma_word_digits(w, op, m0, m1, m2, c0, c1, c2);
    assert forall|j: int|
        0 <= j < ops.len() implies prog[j + 1] == value_of(#[trigger] ops[j]) && crate::low_ir::spec_mode(prog[0] as int, j)
            == mode_of(ops[j]) && crate::low_ir::spec_marker_of(prog[0] as int, j) == decoded_operand(ops[j], 0).debug_marker by {
        assert(prog[j + 1] == ops.map_values(|o: AsmOperand| value_of(o))[j]);
        let m = ((w / 100000) / crate::low_ir::spec_marker_shift(j)) % 256;
        assert(m == marker_byte(ops, j));
    }
    lemma_args_decoded(offset, prog, ops, ops.len() as nat);
}

/// Decoding an encoded operation gives it back: the decoder reads as many
/// words as were written and finds the same operation on the same
/// operands, in the same places and with the same debug markers (then
/// simplifies it as it simplifies any instruction).
#[verifier::rlimit(50)]
pub proof fn lemma_encode_decodes(x: InstrView<AsmOperand>, offset: int)
    requires
        x is Add || x is Mul || x is Input || x is Output || x is JumpIf || x is LessThan || x is Equals
            || x is AdjustRelativeBase || x is Halt,
        0 <= offset,
        offset + 4 <= usize::MAX,
    ensures
        crate::low_ir::spec_decode(offset, encode(x)) == Ok::<(nat, crate::low_ir::FatInstruction), crate::low_ir::ParseError>(
            ((written_operands(x) + 1) as nat, crate::low_ir::spec_simplify(decoded_instr(x, offset))),
        ),
{
    lemma_encoded_words(x, offset);
}

/// Decoding an encoded jump or move gives it back: a jump is read as a
/// jump to the same target, and a move as a move to the same destination
/// of an operand of the same kind as its source.
pub proof fn lemma_encode_decodes_moves(x: InstrView<AsmOperand>, offset: int)
    requires
        x is Goto || x is Assign,
        0 <= offset,
        offset + 4 <= usize::MAX,
    ensures
        x matches InstrView::Goto(t) ==> crate::low_ir::spec_decode(offset, encode(x)) == Ok::<
            (nat, crate::low_ir::FatInstruction),
            crate::low_ir::ParseError,
        >((3, GenericInstruction::Goto(decoded_operand(t, offset + 2)))),
        x matches InstrView::Assign(c, a) ==> crate::low_ir::spec_decode(offset, encode(x)) matches Ok(
            (n, GenericInstruction::Assign(d, s)),
        ) && n == 4 && d == decoded_operand(c, offset + 3) && s.kind == decoded_operand(a, offset + 1).kind,
{
    lemma_encoded_words(x, offset);
}

/// The words of the first `k` instructions of the program.
pub open spec fn spec_compile(prog: Seq<(usize, InstrView<AsmOperand>)>, k: int) -> Seq<i128>
    decreases k,
{
    if k <= 0 || k > prog.len() {
        seq![]
    } else {
        spec_compile(prog, k - 1) + encode(prog[k - 1].1)
    }
}

fn mode_digit(o: &AsmOperand) -> (r: i128)
    ensures
        r == mode_of(*o),
{
    match o.kind {
        AsmOperandKind::Memory(_) | AsmOperandKind::Pointer(_) => 0,
        AsmOperandKind::Immediate(_) => 1,
        AsmOperandKind::RelativeMemory(_) => 2,
    }
}

fn operand_word(o: &AsmOperand) -> (r: i128)
    ensures
        r == value_of(*o),
{
    match o.kind {
        AsmOperandKind::Memory(a) | AsmOperandKind::Pointer(a) => a as i128,
        AsmOperandKind::Immediate(v) => v,
        AsmOperandKind::RelativeMemory(v) => v,
    }
}

/// What the `i`-th operand adds to the opcode word.
fn operand_term(o: &AsmOperand, i: usize) -> (r: i128)
    requires
        i < 3,
    ensures
        r == mode_of(*o) * mode_place(i as int) + marker_term(*o, i as int),
        0 <= r <= 2000000000000,
{
    let place: i128 = if i == 0 {
        100
    } else if i == 1 {
        1000
    } else {
        10000
    };
    let shift: i128 = if i == 0 {
        1
    } else if i == 1 {
        256
    } else {
        65536
    };
    let mode = mode_digit(o);
    let marker: i128 = match o.debug_marker {
        Some(c) => {
            let v = c as u32;
            if 0 < v && v <= 255 {
                assert(v as i128 * shift <= 255 * 65536) by (nonlinear_arith)
                    requires
                        0 < v <= 255,
                        1 <= shift <= 65536,
                ;
                (v as i128) * shift * 100000
            } else {
                0
            }
        },
        None => 0,
    };
    mode * place + marker
}

/// Appends the words of `x`.
fn encode_into(out: &mut Vec<i128>, x: &GenericInstruction<AsmOperand>)
    ensures
        final(out)@ == old(out)@ + encode(x@),
{
    let (op, args): (i128, Vec<AsmOperand>) = match x {
        GenericInstruction::Data(d) => {
            let mut k: usize = 0;
            while k < d.len()
                invariant
                    k <= d@.len(),
                    out@ == old(out)@ + d@.take(k as int),
                decreases d.len() - k,
            {
                out.push(d[k]);
                k = k + 1;
                assert(out@ =~= old(out)@ + d@.take(k as int));
            }
            assert(d@.take(k as int) =~= d@);
            return;
        },
        GenericInstruction::Add(a, b, c) => (1, vec![*a, *b, *c]),
        GenericInstruction::Mul(a, b, c) => (2, vec![*a, *b, *c]),
        GenericInstruction::Input(a) => (3, vec![*a]),
        GenericInstruction::Output(a) => (4, vec![*a]),
        GenericInstruction::JumpIf(a, t, b) => (if *t { 5 } else { 6 }, vec![*a, *b]),
        GenericInstruction::LessThan(a, b, c) => (7, vec![*a, *b, *c]),
        GenericInstruction::Equals(a, b, c) => (8, vec![*a, *b, *c]),
        GenericInstruction::AdjustRelativeBase(a) => (9, vec![*a]),
        GenericInstruction::Goto(t) => (
            5,
            vec![AsmOperand { kind: AsmOperandKind::Immediate(1), offset: 0, debug_marker: None }, *t],
        ),
        GenericInstruction::Assign(c, a) => (
            1,
            vec![*a, AsmOperand { kind: AsmOperandKind::Immediate(0), offset: 0, debug_marker: None }, *c],
        ),
        GenericInstruction::Halt => (99, vec![]),
        GenericInstruction::Phi(..) => (0, vec![]),
    };
    assert((op as int, args@) == opcode_and_operands(x@));
    let mut head: i128 = op;
    let mut i: usize = 0;
    while i < args.len()
        invariant
            args@.len() <= 3,
            i <= args@.len(),
            0 <= op <= 99,
            head == op + operand_terms(args@, i as int),
            0 <= head <= 99 + 2000000000000 * i,
        decreases args.len() - i,
    {
        let t = operand_term(&args[i], i);
        head = head + t;
        i = i + 1;
    }
    let ghost o0 = out@;
    out.push(head);
    let mut i: usize = 0;
    while i < args.len()
        invariant
            i <= args@.len(),
            out@ == o0.push(head) + args@.take(i as int).map_values(|o: AsmOperand| value_of(o)),
        decreases args.len() - i,
    {
        let w = operand_word(&args[i]);
        out.push(w);
        i = i + 1;
        assert(args@.take(i as int).map_values(|o: AsmOperand| value_of(o)) =~= args@.take(i - 1).map_values(
            |o: AsmOperand| value_of(o),
        ).push(w));
    }
    assert(args@.take(i as int) =~= args@);
    assert(o0.push(head) =~= o0 + seq![head]);
}

/// The Intcode words of the program in the text `code`: each instruction's
/// opcode word (opcode, mode digits and debug markers) and operand words,
/// data words as they are; or why the text is not a program.
pub fn compile(code: &str) -> (r: Result<Vec<i128>, AsmError>)
    ensures
        match r {
            Ok(w) => spec_parse_asm(code@) is Ok && w@ == spec_compile(spec_parse_asm(code@)->Ok_0, spec_parse_asm(code@)->Ok_0.len() as int),
            Err(e) => spec_parse_asm(code@) == Err::<Seq<(usize, InstrView<AsmOperand>)>, AsmError>(e),
        },
{
    let prog = match parse_program(code) {
        Ok(p) => p,
        Err(e) => {
            return Err(e);
        },
    };
    let ghost pv = program_view(prog@);
    let mut out: Vec<i128> = Vec::new();
    let mut k: usize = 0;
    while k < prog.len()
        invariant
            k <= prog@.len(),
            pv == program_view(prog@),
            out@ == spec_compile(pv, k as int),
        decreases prog.len() - k,
    {
        assert(pv[k as int].1 == prog@[k as int].1@);
        encode_into(&mut out, &prog[k].1);
        k = k + 1;
    }
    Ok(out)
}

/// An instruction takes as many words as its size.
proof fn lemma_encode_len(x: InstrView<AsmOperand>)
    requires
        !(x is Phi),
    ensures
        encode(x).len() == spec_size(x),
{
    match x {
        InstrView::Data(_) => {},
        _ => {
            let (op, args) = opcode_and_operands(x);
            assert(args.map_values(|o: AsmOperand| value_of(o)).len() == args.len());
        },
    }
}

/// Assembling and simplifying keeps the size of each instruction, and puts
/// each at its address.
proof fn lemma_assemble_shape(
    s: Seq<char>,
    lines: Seq<(Option<(usize, usize)>, InstrView<AsmArg>)>,
    labels: Seq<(Seq<char>, int)>,
    ptrs: Seq<(Seq<char>, int)>,
    k: int,
)
    requires
        0 <= k <= lines.len(),
        assemble(s, lines, labels, ptrs, k) is Some,
    ensures
        ({
            let v = assemble(s, lines, labels, ptrs, k)->0;
            &&& v.len() == k
            &&& forall|j: int| 0 <= j < k ==> (#[trigger] v[j]).0 == offset_of(lines, j) as usize
            &&& forall|j: int| 0 <= j < k ==> !(v[j].1 is Phi) && spec_size(#[trigger] v[j].1) == spec_size(lines[j].1)
        }),
    decreases k,
{
    if k > 0 {
        lemma_assemble_shape(s, lines, labels, ptrs, k - 1);
        let done = assemble(s, lines, labels, ptrs, k - 1)->0;
        let x = finish(s, lines[k - 1].1, offset_of(lines, k - 1), labels, ptrs)->0;
        let v = assemble(s, lines, labels, ptrs, k)->0;
        assert(v == done.push((offset_of(lines, k - 1) as usize, simplify(x))));
        assert(spec_size(simplify(x)) == spec_size(lines[k - 1].1));
        assert forall|j: int| 0 <= j < k implies (#[trigger] v[j]).0 == offset_of(lines, j) as usize by {
            if j < k - 1 {
                assert(v[j] == done[j]);
            }
        }
        assert forall|j: int| 0 <= j < k implies !(v[j].1 is Phi) && spec_size(#[trigger] v[j].1) == spec_size(lines[j].1) by {
            if j < k - 1 {
                assert(v[j] == done[j]);
            }
        }
    }
}

/// The words of the first `k` instructions number as many as their sizes.
proof fn lemma_compile_len(
    v: Seq<(usize, InstrView<AsmOperand>)>,
    lines: Seq<(Option<(usize, usize)>, InstrView<AsmArg>)>,
    k: int,
)
    requires
        0 <= k <= v.len(),
        v.len() == lines.len(),
        forall|j: int| 0 <= j < v.len() ==> !(v[j].1 is Phi) && spec_size(#[trigger] v[j].1) == spec_size(lines[j].1),
    ensures
        spec_compile(v, k).len() == offset_of(lines, k),
    decreases k,
{
    if k > 0 {
        lemma_compile_len(v, lines, k - 1);
        lemma_encode_len(v[k - 1].1);
        assert(spec_size(v[k - 1].1) == spec_size(lines[k - 1].1));
    }
}

/// The words of a compiled program are laid out as parsing places the
/// instructions: the words of each instruction begin at the address that
/// [`parse_program`] gives it, each takes as many words as its size, and
/// the words run without gaps from address 0.
pub proof fn lemma_compiled_at_addresses(code: Seq<char>)
    requires
        spec_parse_asm(code) is Ok,
    ensures
        ({
            let v = spec_parse_asm(code)->Ok_0;
            &&& forall|k: int| 0 <= k < v.len() ==> spec_compile(v, k).len() == (#[trigger] v[k]).0
            &&& forall|k: int| 0 <= k < v.len() ==> (#[trigger] encode(v[k].1)).len() == spec_size(v[k].1)
            &&& v.len() > 0 ==> v[0].0 == 0
        }),
{
    let (lines, e) = spec_lines(code, 0, seq![]);
    let labels = label_defs(code, lines, lines.len() as int);
    let ptrs = pointer_defs(code, lines, lines.len() as int);
    lemma_assemble_shape(code, lines, labels, ptrs, lines.len() as int);
    let v = spec_parse_asm(code)->Ok_0;
    assert(v == assemble(code, lines, labels, ptrs, lines.len() as int)->0);
    assert forall|k: int| 0 <= k < v.len() implies spec_compile(v, k).len() == (#[trigger] v[k]).0 by {
        lemma_compile_len(v, lines, k);
        lemma_offsets_grow(lines, k, lines.len() as int);
    }
    assert forall|k: int| 0 <= k < v.len() implies (#[trigger] encode(v[k].1)).len() == spec_size(v[k].1) by {
        lemma_encode_len(v[k].1);
    }
}

} // verus!
