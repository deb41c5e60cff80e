//! Decoding of raw Intcode words into instructions.
//!
//! An instruction word packs an opcode (the two lowest decimal digits) and one
//! parameter mode per argument (the hundreds digit upward).  Decoding is
//! described by the spec functions of this module; the executable decoder is
//! proved to follow them exactly.
use vstd::prelude::*;

verus! {

/// One operand of an Intcode instruction.
#[derive(Clone, Copy, Debug, PartialEq, Eq, Hash, Structural)]
pub enum Arg {
    Mem(i128),
    Value(i128),
    RelativeMem(i128),
    /// Memory mode with address 0: the word is patched at run time, so the
    /// operand is the cell at the given offset of the program itself.
    Deref(usize),
}

impl Arg {
    pub open spec fn spec_value(self) -> Option<i128> {
        match self {
            Arg::Value(x) => Some(x),
            _ => None,
        }
    }

    pub open spec fn spec_relative_mem(self) -> Option<i128> {
        match self {
            Arg::RelativeMem(x) => Some(x),
            _ => None,
        }
    }

    /// The immediate value of the operand, if it is one.
    pub fn value(&self) -> (r: Option<i128>)
        ensures
            r == self.spec_value(),
    {
        match self {
            Arg::Value(x) => Some(*x),
            _ => None,
        }
    }
}

/// The text of an operand: `[a]` for memory, the number for a value,
/// `[R+o]`, `[R-o]` or `[R]` for an offset from the relative base, `[[a]]`
/// for a patched cell.
pub open spec fn spec_arg_text(a: Arg) -> Seq<char> {
    match a {
        Arg::Mem(x) => seq!['['] + crate::text::spec_int_text(x as int) + seq![']'],
        Arg::Value(x) => crate::text::spec_int_text(x as int),
        Arg::RelativeMem(x) => if x > 0 {
            seq!['[', 'R', '+'] + crate::text::spec_int_text(x as int) + seq![']']
        } else if x < 0 {
            seq!['[', 'R'] + crate::text::spec_int_text(x as int) + seq![']']
        } else {
            seq!['[', 'R', ']']
        },
        Arg::Deref(x) => seq!['[', '['] + crate::text::spec_uint_text(x as nat) + seq![']', ']'],
    }
}

impl Arg {
    /// Appends the text of the operand.
    pub fn append_text(&self, out: &mut String)
        ensures
            final(out)@ == old(out)@ + spec_arg_text(*self),
    {
        let ghost o = out@;
        match self {
            Arg::Mem(x) => {
                crate::text::push_char(out, '[');
                crate::text::append_int(out, *x);
                crate::text::push_char(out, ']');
            },
            Arg::Value(x) => {
                crate::text::append_int(out, *x);
            },
            Arg::RelativeMem(x) => {
                if *x > 0 {
                    crate::text::push_char(out, '[');
                    crate::text::push_char(out, 'R');
                    crate::text::push_char(out, '+');
                    crate::text::append_int(out, *x);
                    crate::text::push_char(out, ']');
                } else if *x < 0 {
                    crate::text::push_char(out, '[');
                    crate::text::push_char(out, 'R');
                    crate::text::append_int(out, *x);
                    crate::text::push_char(out, ']');
                } else {
                    crate::text::push_char(out, '[');
                    crate::text::push_char(out, 'R');
                    crate::text::push_char(out, ']');
                }
            },
            Arg::Deref(x) => {
                crate::text::push_char(out, '[');
                crate::text::push_char(out, '[');
                crate::text::append_uint(out, *x as u128);
                crate::text::push_char(out, ']');
                crate::text::push_char(out, ']');
            },
        }
        assert(out@ =~= o + spec_arg_text(*self));
    }

    /// The text of the operand.
    pub fn to_text(&self) -> (r: String)
        ensures
            r@ == spec_arg_text(*self),
    {
        let mut s = String::new();
        self.append_text(&mut s);
        assert(s@ =~= spec_arg_text(*self));
        s
    }
}


/// Numbers separated by `, `.
pub open spec fn ints_text(s: Seq<i128>) -> Seq<char>
    decreases s.len(),
{
    if s.len() == 0 {
        seq![]
    } else if s.len() == 1 {
        crate::text::spec_int_text(s[0] as int)
    } else {
        ints_text(s.drop_last()) + seq![',', ' '] + crate::text::spec_int_text(s.last() as int)
    }
}

/// Operands that can be written as text.
pub trait ArgText: Sized {
    spec fn spec_text(&self) -> Seq<char>;

    fn write_text(&self, out: &mut String)
        ensures
            final(out)@ == old(out)@ + self.spec_text(),
    ;
}

impl ArgText for Arg {
    open spec fn spec_text(&self) -> Seq<char> {
        spec_arg_text(*self)
    }

    fn write_text(&self, out: &mut String) {
        self.append_text(out)
    }
}

impl ArgText for OpArg {
    open spec fn spec_text(&self) -> Seq<char> {
        spec_arg_text(self.kind)
    }

    fn write_text(&self, out: &mut String) {
        self.kind.append_text(out)
    }
}

/// Operands separated by `, `.
pub open spec fn args_text<A: ArgText>(s: Seq<A>) -> Seq<char>
    decreases s.len(),
{
    if s.len() == 0 {
        seq![]
    } else if s.len() == 1 {
        s[0].spec_text()
    } else {
        args_text(s.drop_last()) + seq![',', ' '] + s.last().spec_text()
    }
}

/// The text of an instruction: `c = a + b`, `output(a)`, `if !a goto b`,
/// `R += a`, `goto a`, `a = φ(b, c)`, `[DATA: [1, 2]]` and so on.
pub open spec fn spec_instr_text<A: ArgText>(i: InstrView<A>) -> Seq<char> {
    match i {
        InstrView::Add(a, b, c) => c.spec_text() + seq![' ', '=', ' '] + a.spec_text() + seq![' ', '+', ' ']
            + b.spec_text(),
        InstrView::Mul(a, b, c) => c.spec_text() + seq![' ', '=', ' '] + a.spec_text() + seq![' ', '*', ' ']
            + b.spec_text(),
        InstrView::Input(a) => a.spec_text() + seq![' ', '=', ' ', 'i', 'n', 'p', 'u', 't', '(', ')'],
        InstrView::Output(a) => seq!['o', 'u', 't', 'p', 'u', 't', '('] + a.spec_text() + seq![')'],
        InstrView::JumpIf(a, cond, b) => seq!['i', 'f', ' '] + (if cond { seq![] } else { seq!['!'] })
            + a.spec_text() + seq![' ', 'g', 'o', 't', 'o', ' '] + b.spec_text(),
        InstrView::LessThan(a, b, c) => c.spec_text() + seq![' ', '=', ' '] + a.spec_text() + seq![' ', '<', ' ']
            + b.spec_text(),
        InstrView::Equals(a, b, c) => c.spec_text() + seq![' ', '=', ' '] + a.spec_text() + seq![
            ' ',
            '=',
            '=',
            ' ',
        ] + b.spec_text(),
        InstrView::AdjustRelativeBase(a) => seq!['R', ' ', '+', '=', ' '] + a.spec_text(),
        InstrView::Halt => seq!['h', 'a', 'l', 't'],
        InstrView::Data(v) => seq!['[', 'D', 'A', 'T', 'A', ':', ' ', '['] + ints_text(v) + seq![']', ']'],
        InstrView::Assign(a, b) => a.spec_text() + seq![' ', '=', ' '] + b.spec_text(),
        InstrView::Goto(a) => seq!['g', 'o', 't', 'o', ' '] + a.spec_text(),
        InstrView::Phi(a, b) => a.spec_text() + seq![' ', '=', ' ', 'φ', '('] + args_text(b) + seq![')'],
    }
}

fn append_ints(out: &mut String, v: &Vec<i128>)
    ensures
        final(out)@ == old(out)@ + ints_text(v@),
{
    let ghost o = out@;
    let mut i: usize = 0;
    while i < v.len()
        invariant
            i <= v@.len(),
            out@ == o + ints_text(v@.take(i as int)),
        decreases v.len() - i,
    {
        let ghost t = v@.take(i + 1);
        assert(t.drop_last() =~= v@.take(i as int));
        if i > 0 {
            crate::text::append_chars(out, &[',', ' ']);
        }
        crate::text::append_int(out, v[i]);
        i = i + 1;
        assert(out@ =~= o + ints_text(v@.take(i as int)));
    }
    assert(v@.take(i as int) =~= v@);
}

fn append_args<A: ArgText>(out: &mut String, v: &Vec<A>)
    ensures
        final(out)@ == old(out)@ + args_text(v@),
{
    let ghost o = out@;
    let mut i: usize = 0;
    while i < v.len()
        invariant
            i <= v@.len(),
            out@ == o + args_text(v@.take(i as int)),
        decreases v.len() - i,
    {
        let ghost t = v@.take(i + 1);
        assert(t.drop_last() =~= v@.take(i as int));
        if i > 0 {
            crate::text::append_chars(out, &[',', ' ']);
        }
        v[i].write_text(out);
        i = i + 1;
        assert(out@ =~= o + args_text(v@.take(i as int)));
    }
    assert(v@.take(i as int) =~= v@);
}

impl<A: ArgText> GenericInstruction<A> {
    /// Appends the text of the instruction.
    pub fn append_text(&self, out: &mut String)
        ensures
            final(out)@ == old(out)@ + spec_instr_text(self@),
    {
        let ghost o = out@;
        match self {
            GenericInstruction::Add(a, b, c) => {
                c.write_text(out);
                crate::text::append_chars(out, &[' ', '=', ' ']);
                a.write_text(out);
                crate::text::append_chars(out, &[' ', '+', ' ']);
                b.write_text(out);
            },
            GenericInstruction::Mul(a, b, c) => {
                c.write_text(out);
                crate::text::append_chars(out, &[' ', '=', ' ']);
                a.write_text(out);
                crate::text::append_chars(out, &[' ', '*', ' ']);
                b.write_text(out);
            },
            GenericInstruction::Input(a) => {
                a.write_text(out);
                crate::text::append_chars(out, &[' ', '=', ' ', 'i', 'n', 'p', 'u', 't', '(', ')']);
            },
            GenericInstruction::Output(a) => {
                crate::text::append_chars(out, &['o', 'u', 't', 'p', 'u', 't', '(']);
                a.write_text(out);
                crate::text::append_chars(out, &[')']);
            },
            GenericInstruction::JumpIf(a, cond, b) => {
                crate::text::append_chars(out, &['i', 'f', ' ']);
                if !*cond {
                    crate::text::append_chars(out, &['!']);
                }
                a.write_text(out);
                crate::text::append_chars(out, &[' ', 'g', 'o', 't', 'o', ' ']);
                b.write_text(out);
            },
            GenericInstruction::LessThan(a, b, c) => {
                c.write_text(out);
                crate::text::append_chars(out, &[' ', '=', ' ']);
                a.write_text(out);
                crate::text::append_chars(out, &[' ', '<', ' ']);
                b.write_text(out);
            },
            GenericInstruction::Equals(a, b, c) => {
                c.write_text(out);
                crate::text::append_chars(out, &[' ', '=', ' ']);
                a.write_text(out);
                crate::text::append_chars(out, &[' ', '=', '=', ' ']);
                b.write_text(out);
            },
            GenericInstruction::AdjustRelativeBase(a) => {
                crate::text::append_chars(out, &['R', ' ', '+', '=', ' ']);
                a.write_text(out);
            },
            GenericInstruction::Halt => crate::text::append_chars(out, &['h', 'a', 'l', 't']),
            GenericInstruction::Data(v) => {
                crate::text::append_chars(out, &['[', 'D', 'A', 'T', 'A', ':', ' ', '[']);
                append_ints(out, v);
                crate::text::append_chars(out, &[']', ']']);
            },
            GenericInstruction::Assign(a, b) => {
                a.write_text(out);
                crate::text::append_chars(out, &[' ', '=', ' ']);
                b.write_text(out);
            },
            GenericInstruction::Goto(a) => {
                crate::text::append_chars(out, &['g', 'o', 't', 'o', ' ']);
                a.write_text(out);
            },
            GenericInstruction::Phi(a, b) => {
                a.write_text(out);
                crate::text::append_chars(out, &[' ', '=', ' ', 'φ', '(']);
                append_args(out, b);
                crate::text::append_chars(out, &[')']);
            },
        }
        assert(out@ =~= o + spec_instr_text(self@));
    }

    /// The text of the instruction.
    pub fn to_text(&self) -> (r: String)
        ensures
            r@ == spec_instr_text(self@),
    {
        let mut s = String::new();
        self.append_text(&mut s);
        assert(s@ =~= spec_instr_text(self@));
        s
    }
}

/// A half-open range `start..end` of program addresses.
#[derive(Clone, Copy, Debug, PartialEq, Eq, Hash, Structural)]
pub struct Span {
    pub start: usize,
    pub end: usize,
}

impl Span {
    pub open spec fn wf(self) -> bool {
        self.start <= self.end
    }

    pub fn new(start: usize, end: usize) -> (r: Self)
        requires
            start <= end,
        ensures
            r.start == start,
            r.end == end,
            r.wf(),
    {
        Span { start, end }
    }

    pub open spec fn spec_contains(self, s: Span) -> bool {
        self.start <= s.start && s.end <= self.end
    }

    pub open spec fn spec_contains_address(self, p: int) -> bool {
        self.start <= p && p < self.end
    }

    /// Whether `s` lies entirely inside this span.
    pub fn contains(&self, s: &Span) -> (r: bool)
        ensures
            r == self.spec_contains(*s),
    {
        self.start <= s.start && s.end <= self.end
    }

    /// Whether address `p` lies inside this span.
    pub fn contains_address(&self, p: usize) -> (r: bool)
        ensures
            r == self.spec_contains_address(p as int),
    {
        self.start <= p && p < self.end
    }

    /// The same span with a new start.
    pub fn with_start(&self, start: usize) -> (r: Self)
        requires
            start <= self.end,
        ensures
            r.start == start,
            r.end == self.end,
            r.wf(),
    {
        Self::new(start, self.end)
    }

    /// Builds a span from a pair of addresses, as the conversion from a tuple does.
    pub fn from_pair(arg: (usize, usize)) -> (r: Span)
        ensures
            r.start == arg.0,
            r.end == arg.1,
    {
        Span { start: arg.0, end: arg.1 }
    }

    /// The text `start..end`.
    pub fn to_text(&self) -> (r: String)
        ensures
            r@ == crate::text::spec_uint_text(self.start as nat) + seq!['.', '.']
                + crate::text::spec_uint_text(self.end as nat),
    {
        let mut s = crate::text::uint_text(self.start);
        crate::text::push_char(&mut s, '.');
        crate::text::push_char(&mut s, '.');
        let e = crate::text::uint_text(self.end);
        s.append(e.as_str());
        s
    }
}

/// An operand together with the program cell it was read from, and the
/// debug marker that the instruction word gives it, if any.
#[derive(Clone, Copy, Debug, PartialEq, Eq, Hash, Structural)]
pub struct OpArg {
    pub kind: Arg,
    pub span: Span,
    pub debug_marker: Option<char>,
}

/// Operations shared by every operand representation.
pub trait ArgBase: Sized + Copy {
    spec fn spec_value(&self) -> Option<i128>;

    spec fn spec_relative_mem(&self) -> Option<i128>;

    spec fn spec_from_op_arg(a: OpArg) -> Self;

    fn value(&self) -> (r: Option<i128>)
        ensures
            r == self.spec_value(),
    ;

    fn is_value(&self) -> (r: bool)
        ensures
            r == self.spec_value().is_some(),
    {
        self.value().is_some()
    }

    fn relative_mem(&self) -> (r: Option<i128>)
        ensures
            r == self.spec_relative_mem(),
    ;

    fn is_relative_mem(&self) -> (r: bool)
        ensures
            r == self.spec_relative_mem().is_some(),
    {
        self.relative_mem().is_some()
    }

    fn from_op_arg(a: OpArg) -> (r: Self)
        ensures
            r == Self::spec_from_op_arg(a),
    ;
}

impl ArgBase for Arg {
    open spec fn spec_value(&self) -> Option<i128> {
        Arg::spec_value(*self)
    }

    open spec fn spec_relative_mem(&self) -> Option<i128> {
        Arg::spec_relative_mem(*self)
    }

    open spec fn spec_from_op_arg(a: OpArg) -> Arg {
        a.kind
    }

    fn value(&self) -> (r: Option<i128>) {
        Arg::value(self)
    }

    fn relative_mem(&self) -> (r: Option<i128>) {
        match self {
            Arg::RelativeMem(x) => Some(*x),
            _ => None,
        }
    }

    fn from_op_arg(a: OpArg) -> (r: Arg) {
        a.kind
    }
}

impl ArgBase for OpArg {
    open spec fn spec_value(&self) -> Option<i128> {
        self.kind.spec_value()
    }

    open spec fn spec_relative_mem(&self) -> Option<i128> {
        self.kind.spec_relative_mem()
    }

    open spec fn spec_from_op_arg(a: OpArg) -> OpArg {
        a
    }

    fn value(&self) -> (r: Option<i128>) {
        self.kind.value()
    }

    fn relative_mem(&self) -> (r: Option<i128>) {
        <Arg as ArgBase>::relative_mem(&self.kind)
    }

    fn from_op_arg(a: OpArg) -> (r: OpArg) {
        a
    }
}

/// The instruction set, generic over the operand representation.
#[derive(Debug, PartialEq, Eq)]
pub enum GenericInstruction<A> {
    Add(A, A, A),
    Mul(A, A, A),
    Input(A),
    Output(A),
    JumpIf(A, bool, A),
    LessThan(A, A, A),
    Equals(A, A, A),
    AdjustRelativeBase(A),
    Data(Vec<i128>),
    Halt,
    // synthetic
    Goto(A),
    Assign(A, A),
    Phi(A, Vec<A>),
}

/// The mathematical value of an instruction: as [`GenericInstruction`], with
/// sequences in place of vectors.
pub ghost enum InstrView<A> {
    Add(A, A, A),
    Mul(A, A, A),
    Input(A),
    Output(A),
    JumpIf(A, bool, A),
    LessThan(A, A, A),
    Equals(A, A, A),
    AdjustRelativeBase(A),
    Data(Seq<i128>),
    Halt,
    Goto(A),
    Assign(A, A),
    Phi(A, Seq<A>),
}

impl<A> View for GenericInstruction<A> {
    type V = InstrView<A>;

    open spec fn view(&self) -> InstrView<A> {
        match *self {
            GenericInstruction::Add(a, b, c) => InstrView::Add(a, b, c),
            GenericInstruction::Mul(a, b, c) => InstrView::Mul(a, b, c),
            GenericInstruction::Input(a) => InstrView::Input(a),
            GenericInstruction::Output(a) => InstrView::Output(a),
            GenericInstruction::JumpIf(a, b, c) => InstrView::JumpIf(a, b, c),
            GenericInstruction::LessThan(a, b, c) => InstrView::LessThan(a, b, c),
            GenericInstruction::Equals(a, b, c) => InstrView::Equals(a, b, c),
            GenericInstruction::AdjustRelativeBase(a) => InstrView::AdjustRelativeBase(a),
            GenericInstruction::Data(v) => InstrView::Data(v@),
            GenericInstruction::Halt => InstrView::Halt,
            GenericInstruction::Goto(a) => InstrView::Goto(a),
            GenericInstruction::Assign(a, b) => InstrView::Assign(a, b),
            GenericInstruction::Phi(a, v) => InstrView::Phi(a, v@),
        }
    }
}

/// Instructions whose operands remember their position.
pub type FatInstruction = GenericInstruction<OpArg>;

/// Instructions with plain operands.
pub type Instruction = GenericInstruction<Arg>;

/// A decoded instruction with the span of words it occupies.
pub struct GenericOp<A> {
    pub span: Span,
    pub kind: GenericInstruction<A>,
}

pub type Op = GenericOp<OpArg>;

#[derive(Debug, Clone, Copy, PartialEq, Eq, Structural)]
pub enum ParseError {
    Empty,
    InvalidMode,
    InvalidOpcode,
    NoMatch,
}

/// A position in a program: `prog` holds the words from `offset` on.
#[derive(Debug, Clone, Copy)]
pub struct Input<'a> {
    pub offset: usize,
    pub prog: &'a [i128],
}

impl<'a> Input<'a> {
    pub fn new(offset: usize, prog: &'a [i128]) -> (r: Self)
        ensures
            r.offset == offset,
            r.prog@ == prog@,
    {
        Input { offset, prog }
    }

    /// Reads one word.
    pub fn read(self) -> (r: Result<(Input<'a>, i128), ParseError>)
        requires
            self.offset + self.prog@.len() <= usize::MAX,
        ensures
            self.prog@.len() == 0 ==> r == Err::<(Input<'a>, i128), ParseError>(ParseError::Empty),
            self.prog@.len() > 0 ==> r is Ok && r->Ok_0.1 == self.prog@[0] && r->Ok_0.0.offset
                == self.offset + 1 && r->Ok_0.0.prog@ == self.prog@.drop_first(),
    {
        if self.prog.len() == 0 {
            Err(ParseError::Empty)
        } else {
            Ok((self.advance(1), self.prog[0]))
        }
    }

    /// Skips `count` words.
    pub fn advance(&self, count: usize) -> (r: Self)
        requires
            count <= self.prog@.len(),
            self.offset + count <= usize::MAX,
        ensures
            r.offset == self.offset + count,
            r.prog@ == self.prog@.subrange(count as int, self.prog@.len() as int),
    {
        let (_, rest) = self.prog.split_at(count);
        Input { offset: self.offset + count, prog: rest }
    }
}

// ---------------------------------------------------------------------------
// Specification of decoding

/// Number of arguments of an opcode, `None` for an unknown opcode.
pub open spec fn spec_arg_count(opcode: int) -> Option<nat> {
    if opcode == 1 || opcode == 2 || opcode == 7 || opcode == 8 {
        Some(3)
    } else if opcode == 3 || opcode == 4 || opcode == 9 {
        Some(1)
    } else if opcode == 5 || opcode == 6 {
        Some(2)
    } else if opcode == 99 {
        Some(0)
    } else {
        None
    }
}

/// Divisor that selects the mode digit of argument `i`.
pub open spec fn spec_mode_divisor(i: int) -> int {
    if i == 0 {
        100
    } else if i == 1 {
        1000
    } else {
        10000
    }
}

/// Mode of argument `i` (0-based) of the non-negative instruction word `op`.
pub open spec fn spec_mode(op: int, i: int) -> int {
    (op / spec_mode_divisor(i)) % 10
}

/// The operand read from word `value` at address `offset` in mode `mode`.
pub open spec fn spec_make_arg(offset: int, value: i128, mode: int) -> Result<OpArg, ParseError> {
    let span = Span { start: offset as usize, end: (offset + 1) as usize };
    if mode == 0 {
        if value == 0 {
            Ok(OpArg { kind: Arg::Deref(offset as usize), span, debug_marker: None })
        } else {
            Ok(OpArg { kind: Arg::Mem(value), span, debug_marker: None })
        }
    } else if mode == 1 {
        Ok(OpArg { kind: Arg::Value(value), span, debug_marker: None })
    } else if mode == 2 {
        Ok(OpArg { kind: Arg::RelativeMem(value), span, debug_marker: None })
    } else {
        Err(ParseError::InvalidMode)
    }
}

/// The shift of the debug marker of argument `i` within the marker part
/// of an instruction word (eight bits per argument).
pub open spec fn spec_marker_shift(i: int) -> int {
    if i == 0 {
        1
    } else if i == 1 {
        256
    } else {
        65536
    }
}

/// The debug marker of argument `i` (0-based) of the non-negative
/// instruction word `op`: the byte of the argument in `op / 100000`, as a
/// character, when it is not zero.
pub open spec fn spec_marker_of(op: int, i: int) -> Option<char> {
    let m = ((op / 100000) / spec_marker_shift(i)) % 256;
    if m == 0 {
        None
    } else {
        Some((m as u8) as char)
    }
}

/// The first `n` arguments of the instruction at `offset` whose word is
/// `prog[0]`, read in order; the first failure wins.
pub open spec fn spec_args(offset: int, prog: Seq<i128>, n: nat) -> Result<Seq<OpArg>, ParseError>
    decreases n,
{
    if n == 0 {
        Ok(Seq::empty())
    } else {
        match spec_args(offset, prog, (n - 1) as nat) {
            Err(e) => Err(e),
            Ok(s) => if prog.len() <= n {
                Err(ParseError::Empty)
            } else {
                match spec_make_arg(offset + n, prog[n as int], spec_mode(prog[0] as int, n - 1)) {
                    Err(e) => Err(e),
                    Ok(a) => Ok(s.push(OpArg { debug_marker: spec_marker_of(prog[0] as int, n - 1), ..a })),
                }
            },
        }
    }
}

/// Once reading an argument fails, reading more arguments fails the same way.
pub proof fn lemma_args_err_stays(offset: int, prog: Seq<i128>, k: nat, m: nat)
    requires
        k <= m,
        spec_args(offset, prog, k) is Err,
    ensures
        spec_args(offset, prog, m) == spec_args(offset, prog, k),
    decreases m - k,
{
    if k < m {
        lemma_args_err_stays(offset, prog, k, (m - 1) as nat);
    }
}

/// The instruction of an opcode applied to its arguments, before simplification.
pub open spec fn spec_build(opcode: int, a: Seq<OpArg>) -> FatInstruction {
    if opcode == 1 {
        GenericInstruction::Add(a[0], a[1], a[2])
    } else if opcode == 2 {
        GenericInstruction::Mul(a[0], a[1], a[2])
    } else if opcode == 3 {
        GenericInstruction::Input(a[0])
    } else if opcode == 4 {
        GenericInstruction::Output(a[0])
    } else if opcode == 5 {
        GenericInstruction::JumpIf(a[0], true, a[1])
    } else if opcode == 6 {
        GenericInstruction::JumpIf(a[0], false, a[1])
    } else if opcode == 7 {
        GenericInstruction::LessThan(a[0], a[1], a[2])
    } else if opcode == 8 {
        GenericInstruction::Equals(a[0], a[1], a[2])
    } else if opcode == 9 {
        GenericInstruction::AdjustRelativeBase(a[0])
    } else {
        GenericInstruction::Halt
    }
}

/// Rewrites of instructions that are moves or unconditional jumps in disguise:
/// `0 + b`, `b + 0`, `1 * b` and `b * 1` become assignments, and a jump on a
/// constant that is always taken becomes a goto.
pub open spec fn spec_simplify(i: FatInstruction) -> FatInstruction {
    match i {
        GenericInstruction::Add(x, y, dst) => if x.kind == Arg::Value(0) {
            GenericInstruction::Assign(dst, y)
        } else if y.kind == Arg::Value(0) {
            GenericInstruction::Assign(dst, x)
        } else {
            i
        },
        GenericInstruction::Mul(x, y, dst) => if x.kind == Arg::Value(1) {
            GenericInstruction::Assign(dst, y)
        } else if y.kind == Arg::Value(1) {
            GenericInstruction::Assign(dst, x)
        } else {
            i
        },
        GenericInstruction::JumpIf(c, cond, addr) => match c.kind {
            Arg::Value(v) => if (cond && v != 0) || (!cond && v == 0) {
                GenericInstruction::Goto(addr)
            } else {
                i
            },
            _ => i,
        },
        _ => i,
    }
}

/// Decoding of the instruction at `offset` whose words are `prog`: the number
/// of words it occupies and the simplified instruction.
pub open spec fn spec_decode(offset: int, prog: Seq<i128>) -> Result<(nat, FatInstruction), ParseError> {
    if prog.len() == 0 {
        Err(ParseError::Empty)
    } else if prog[0] < 0 {
        Err(ParseError::InvalidMode)
    } else {
        let opcode = prog[0] % 100;
        match spec_arg_count(opcode as int) {
            None => Err(ParseError::InvalidMode),
            Some(n) => match spec_args(offset, prog, n) {
                Err(e) => Err(e),
                Ok(a) => Ok((n + 1, spec_simplify(spec_build(opcode as int, a)))),
            },
        }
    }
}

// ---------------------------------------------------------------------------
// Executable decoding

impl Arg {
    /// Reads one argument in the given mode.
    pub fn parse(input: Input, mode: i128) -> (r: Result<(Input, OpArg), ParseError>)
        requires
            input.offset + input.prog@.len() + 1 <= usize::MAX,
        ensures
            input.prog@.len() == 0 ==> r == Err::<(Input, OpArg), ParseError>(ParseError::Empty),
            input.prog@.len() > 0 ==> match spec_make_arg(input.offset as int, input.prog@[0], mode as int) {
                Err(e) => r == Err::<(Input, OpArg), ParseError>(e),
                Ok(a) => r is Ok && r->Ok_0.1 == a && r->Ok_0.0.offset == input.offset + 1
                    && r->Ok_0.0.prog@ == input.prog@.drop_first(),
            },
    {
        let offset = input.offset;
        let (new_input, value) = match input.read() {
            Ok(x) => x,
            Err(e) => return Err(e),
        };
        let span = Span::from_pair((offset, offset + 1));
        let arg = if mode == 0 {
            if value == 0 {
                Arg::Deref(offset)
            } else {
                Arg::Mem(value)
            }
        } else if mode == 1 {
            Arg::Value(value)
        } else if mode == 2 {
            Arg::RelativeMem(value)
        } else {
            return Err(ParseError::InvalidMode);
        };
        Ok((new_input, OpArg { kind: arg, span, debug_marker: None }))
    }
}

fn arg_count(opcode: u128) -> (r: Option<usize>)
    ensures
        match spec_arg_count(opcode as int) {
            Some(n) => r == Some(n as usize),
            None => r is None,
        },
{
    if opcode == 1 || opcode == 2 || opcode == 7 || opcode == 8 {
        Some(3)
    } else if opcode == 3 || opcode == 4 || opcode == 9 {
        Some(1)
    } else if opcode == 5 || opcode == 6 {
        Some(2)
    } else if opcode == 99 {
        Some(0)
    } else {
        None
    }
}

fn mode_of(op: u128, i: usize) -> (r: i128)
    requires
        i < 3,
    ensures
        r == spec_mode(op as int, i as int),
{
    let d: u128 = if i == 0 {
        100
    } else if i == 1 {
        1000
    } else {
        10000
    };
    ((op / d) % 10) as i128
}

/// The debug marker of argument `i` of the instruction word `op`.
fn marker_of(op: u128, i: usize) -> (r: Option<char>)
    requires
        i < 3,
    ensures
        r == spec_marker_of(op as int, i as int),
{
    let d: u128 = if i == 0 {
        1
    } else if i == 1 {
        256
    } else {
        65536
    };
    let m = ((op / 100000) / d) % 256;
    if m == 0 {
        None
    } else {
        Some((m as u8) as char)
    }
}

impl FatInstruction {
    /// Decodes the instruction at the start of `input`.
    pub fn parse_fat(input: Input) -> (r: Result<(Input, Op), ParseError>)
        requires
            input.offset + input.prog@.len() + 4 <= usize::MAX,
        ensures
            match spec_decode(input.offset as int, input.prog@) {
                Err(e) => r == Err::<(Input, Op), ParseError>(e),
                Ok((n, inst)) => r is Ok && ({
                    let (rest, op) = r->Ok_0;
                    &&& rest.offset == input.offset + n
                    &&& rest.prog@ == input.prog@.subrange(n as int, input.prog@.len() as int)
                    &&& op.span == Span { start: input.offset, end: (input.offset + n) as usize }
                    &&& op.kind == inst
                }),
            },
    {
        let offset = input.offset;
        let (input1, op) = match input.read() {
            Ok(x) => x,
            Err(e) => return Err(e),
        };
        if op < 0 {
            return Err(ParseError::InvalidMode);
        }
        let uop = op as u128;
        let opcode = uop % 100;
        assert(opcode as int == op % 100);
        let n = match arg_count(opcode) {
            Some(n) => n,
            None => return Err(ParseError::InvalidMode),
        };
        let mut args: Vec<OpArg> = Vec::new();
        let mut cur = input1;
        let mut i: usize = 0;
        while i < n
            invariant
                n <= 3,
                0 <= i <= n,
                op == input.prog@[0],
                input.prog@.len() > 0,
                uop as int == op as int,
                input.offset + input.prog@.len() + 4 <= usize::MAX,
                cur.offset == input.offset + 1 + i,
                cur.prog@ == input.prog@.subrange(1 + i, input.prog@.len() as int),
                spec_args(input.offset as int, input.prog@, i as nat) == Ok::<Seq<OpArg>, ParseError>(args@),
                args@.len() == i,
                spec_arg_count(opcode as int) == Some(n as nat),
                opcode as int == op % 100,
            decreases n - i,
        {
            proof {
                assert(cur.prog@.len() == input.prog@.len() - 1 - i);
            }
            let mode = mode_of(uop, i);
            let (next, a) = match Arg::parse(cur, mode) {
                Ok(x) => x,
                Err(e) => {
                    proof {
                        if cur.prog@.len() > 0 {
                            assert(cur.prog@[0] == input.prog@[i + 1]);
                        }
                        assert(spec_args(input.offset as int, input.prog@, (i + 1) as nat) is Err);
                        lemma_args_err_stays(input.offset as int, input.prog@, (i + 1) as nat, n as nat);
                    }
                    return Err(e);
                },
            };
            proof {
                assert(cur.prog@[0] == input.prog@[i + 1]);
                assert(next.prog@ =~= input.prog@.subrange(1 + i + 1, input.prog@.len() as int));
            }
            let marker = marker_of(uop, i);
            args.push(OpArg { debug_marker: marker, ..a });
            cur = next;
            i = i + 1;
        }
        let kind = if opcode == 1 {
            GenericInstruction::Add(args[0], args[1], args[2])
        } else if opcode == 2 {
            GenericInstruction::Mul(args[0], args[1], args[2])
        } else if opcode == 3 {
            GenericInstruction::Input(args[0])
        } else if opcode == 4 {
            GenericInstruction::Output(args[0])
        } else if opcode == 5 {
            GenericInstruction::JumpIf(args[0], true, args[1])
        } else if opcode == 6 {
            GenericInstruction::JumpIf(args[0], false, args[1])
        } else if opcode == 7 {
            GenericInstruction::LessThan(args[0], args[1], args[2])
        } else if opcode == 8 {
            GenericInstruction::Equals(args[0], args[1], args[2])
        } else if opcode == 9 {
            GenericInstruction::AdjustRelativeBase(args[0])
        } else {
            GenericInstruction::Halt
        };
        let end_offset = cur.offset;
        proof {
            assert(cur.prog@ =~= input.prog@.subrange((n + 1) as int, input.prog@.len() as int));
        }
        Ok((cur, GenericOp { span: Span::from_pair((offset, end_offset)), kind: kind.simplify() }))
    }

    /// Applies the rewrites of [`spec_simplify`].
    pub fn simplify(self) -> (r: Self)
        ensures
            r == spec_simplify(self),
    {
        match self {
            GenericInstruction::Add(x, y, dst) => {
                if x.kind == Arg::Value(0) {
                    GenericInstruction::Assign(dst, y)
                } else if y.kind == Arg::Value(0) {
                    GenericInstruction::Assign(dst, x)
                } else {
                    GenericInstruction::Add(x, y, dst)
                }
            },
            GenericInstruction::Mul(x, y, dst) => {
                if x.kind == Arg::Value(1) {
                    GenericInstruction::Assign(dst, y)
                } else if y.kind == Arg::Value(1) {
                    GenericInstruction::Assign(dst, x)
                } else {
                    GenericInstruction::Mul(x, y, dst)
                }
            },
            GenericInstruction::JumpIf(c, cond, addr) => {
                match c.kind {
                    Arg::Value(v) => {
                        if (cond && v != 0) || (!cond && v == 0) {
                            GenericInstruction::Goto(addr)
                        } else {
                            GenericInstruction::JumpIf(c, cond, addr)
                        }
                    },
                    _ => GenericInstruction::JumpIf(c, cond, addr),
                }
            },
            other => other,
        }
    }
}


// ---------------------------------------------------------------------------
// Conversion, sizes, reads and writes

/// Conversion of the operands of a decoded instruction into another operand type.
pub open spec fn spec_convert<A: ArgBase>(v: InstrView<OpArg>) -> InstrView<A> {
    match v {
        InstrView::Add(a, b, c) => InstrView::Add(
            A::spec_from_op_arg(a),
            A::spec_from_op_arg(b),
            A::spec_from_op_arg(c),
        ),
        InstrView::Mul(a, b, c) => InstrView::Mul(
            A::spec_from_op_arg(a),
            A::spec_from_op_arg(b),
            A::spec_from_op_arg(c),
        ),
        InstrView::Input(a) => InstrView::Input(A::spec_from_op_arg(a)),
        InstrView::Output(a) => InstrView::Output(A::spec_from_op_arg(a)),
        InstrView::JumpIf(a, b, c) => InstrView::JumpIf(A::spec_from_op_arg(a), b, A::spec_from_op_arg(c)),
        InstrView::LessThan(a, b, c) => InstrView::LessThan(
            A::spec_from_op_arg(a),
            A::spec_from_op_arg(b),
            A::spec_from_op_arg(c),
        ),
        InstrView::Equals(a, b, c) => InstrView::Equals(
            A::spec_from_op_arg(a),
            A::spec_from_op_arg(b),
            A::spec_from_op_arg(c),
        ),
        InstrView::AdjustRelativeBase(a) => InstrView::AdjustRelativeBase(A::spec_from_op_arg(a)),
        InstrView::Data(d) => InstrView::Data(d),
        InstrView::Halt => InstrView::Halt,
        InstrView::Goto(a) => InstrView::Goto(A::spec_from_op_arg(a)),
        InstrView::Assign(a, b) => InstrView::Assign(A::spec_from_op_arg(a), A::spec_from_op_arg(b)),
        InstrView::Phi(a, v) => InstrView::Phi(A::spec_from_op_arg(a), v.map_values(|x: OpArg| A::spec_from_op_arg(x))),
    }
}

/// Number of program words an instruction occupies (phi nodes occupy none
/// and have no size).
pub open spec fn spec_size<A>(v: InstrView<A>) -> nat {
    match v {
        InstrView::Add(..) | InstrView::Mul(..) | InstrView::LessThan(..) | InstrView::Equals(..)
        | InstrView::Assign(..) => 4,
        InstrView::Goto(..) | InstrView::JumpIf(..) => 3,
        InstrView::Input(_) | InstrView::Output(_) | InstrView::AdjustRelativeBase(_) => 2,
        InstrView::Halt => 1,
        InstrView::Data(d) => d.len(),
        InstrView::Phi(..) => 0,
    }
}

/// All operands an instruction reads, in order; an input only writes its
/// destination.
pub open spec fn spec_read_operands<A>(v: InstrView<A>) -> Seq<A> {
    match v {
        InstrView::Add(a, b, _) => seq![a, b],
        InstrView::Mul(a, b, _) => seq![a, b],
        InstrView::Input(_) => seq![],
        InstrView::Output(a) => seq![a],
        InstrView::JumpIf(a, _, b) => seq![a, b],
        InstrView::LessThan(a, b, _) => seq![a, b],
        InstrView::Equals(a, b, _) => seq![a, b],
        InstrView::AdjustRelativeBase(a) => seq![a],
        InstrView::Data(_) => seq![],
        InstrView::Halt => seq![],
        InstrView::Goto(a) => seq![a],
        InstrView::Assign(_, b) => seq![b],
        InstrView::Phi(_, args) => args,
    }
}

/// The operands of `s` that are not immediate values, in order.
pub open spec fn spec_non_values<A: ArgBase>(s: Seq<A>) -> Seq<A>
    decreases s.len(),
{
    if s.len() == 0 {
        s
    } else if s.last().spec_value() is Some {
        spec_non_values(s.drop_last())
    } else {
        spec_non_values(s.drop_last()).push(s.last())
    }
}

/// The operand an instruction writes, if any.
pub open spec fn spec_written<A>(v: InstrView<A>) -> Option<A> {
    match v {
        InstrView::Add(_, _, c) => Some(c),
        InstrView::Mul(_, _, c) => Some(c),
        InstrView::Input(a) => Some(a),
        InstrView::LessThan(_, _, c) => Some(c),
        InstrView::Equals(_, _, c) => Some(c),
        InstrView::Assign(a, _) => Some(a),
        InstrView::Phi(a, _) => Some(a),
        _ => None,
    }
}

/// A copy of a vector of words.
pub fn copy_words(v: &Vec<i128>) -> (r: Vec<i128>)
    ensures
        r@ == v@,
{
    let mut r: Vec<i128> = Vec::new();
    let mut i: usize = 0;
    while i < v.len()
        invariant
            i <= v@.len(),
            r@ == v@.subrange(0, i as int),
        decreases v@.len() - i,
    {
        r.push(v[i]);
        i = i + 1;
        assert(r@ =~= v@.subrange(0, i as int));
    }
    assert(r@ =~= v@);
    r
}

fn copy_args<A: Copy>(v: &Vec<A>) -> (r: Vec<A>)
    ensures
        r@ == v@,
{
    let mut r: Vec<A> = Vec::new();
    let mut i: usize = 0;
    while i < v.len()
        invariant
            i <= v@.len(),
            r@ == v@.subrange(0, i as int),
        decreases v@.len() - i,
    {
        r.push(v[i]);
        i = i + 1;
        assert(r@ =~= v@.subrange(0, i as int));
    }
    assert(r@ =~= v@);
    r
}

impl<A: Copy> GenericInstruction<A> {
    /// An equal copy of the instruction.
    pub fn duplicate(&self) -> (r: Self)
        ensures
            r@ == self@,
    {
        match self {
            GenericInstruction::Add(a, b, c) => GenericInstruction::Add(*a, *b, *c),
            GenericInstruction::Mul(a, b, c) => GenericInstruction::Mul(*a, *b, *c),
            GenericInstruction::Input(a) => GenericInstruction::Input(*a),
            GenericInstruction::Output(a) => GenericInstruction::Output(*a),
            GenericInstruction::JumpIf(a, b, c) => GenericInstruction::JumpIf(*a, *b, *c),
            GenericInstruction::LessThan(a, b, c) => GenericInstruction::LessThan(*a, *b, *c),
            GenericInstruction::Equals(a, b, c) => GenericInstruction::Equals(*a, *b, *c),
            GenericInstruction::AdjustRelativeBase(a) => GenericInstruction::AdjustRelativeBase(*a),
            GenericInstruction::Data(v) => GenericInstruction::Data(copy_words(v)),
            GenericInstruction::Halt => GenericInstruction::Halt,
            GenericInstruction::Goto(a) => GenericInstruction::Goto(*a),
            GenericInstruction::Assign(a, b) => GenericInstruction::Assign(*a, *b),
            GenericInstruction::Phi(a, v) => GenericInstruction::Phi(*a, copy_args(v)),
        }
    }
}

impl<A: ArgBase> GenericInstruction<A> {
    /// The instruction with its operands converted to `A`.
    pub fn from_fat(i: &FatInstruction) -> (r: Self)
        ensures
            r@ == spec_convert::<A>(i@),
    {
        match i {
            GenericInstruction::Add(a, b, c) => GenericInstruction::Add(
                A::from_op_arg(*a),
                A::from_op_arg(*b),
                A::from_op_arg(*c),
            ),
            GenericInstruction::Mul(a, b, c) => GenericInstruction::Mul(
                A::from_op_arg(*a),
                A::from_op_arg(*b),
                A::from_op_arg(*c),
            ),
            GenericInstruction::Input(a) => GenericInstruction::Input(A::from_op_arg(*a)),
            GenericInstruction::Output(a) => GenericInstruction::Output(A::from_op_arg(*a)),
            GenericInstruction::JumpIf(a, b, c) => GenericInstruction::JumpIf(
                A::from_op_arg(*a),
                *b,
                A::from_op_arg(*c),
            ),
            GenericInstruction::LessThan(a, b, c) => GenericInstruction::LessThan(
                A::from_op_arg(*a),
                A::from_op_arg(*b),
                A::from_op_arg(*c),
            ),
            GenericInstruction::Equals(a, b, c) => GenericInstruction::Equals(
                A::from_op_arg(*a),
                A::from_op_arg(*b),
                A::from_op_arg(*c),
            ),
            GenericInstruction::AdjustRelativeBase(a) => GenericInstruction::AdjustRelativeBase(
                A::from_op_arg(*a),
            ),
            GenericInstruction::Data(v) => GenericInstruction::Data(copy_words(v)),
            GenericInstruction::Halt => GenericInstruction::Halt,
            GenericInstruction::Goto(a) => GenericInstruction::Goto(A::from_op_arg(*a)),
            GenericInstruction::Assign(a, b) => GenericInstruction::Assign(
                A::from_op_arg(*a),
                A::from_op_arg(*b),
            ),
            GenericInstruction::Phi(a, v) => {
                let mut r: Vec<A> = Vec::new();
                let mut k: usize = 0;
                while k < v.len()
                    invariant
                        k <= v@.len(),
                        r@ == v@.subrange(0, k as int).map_values(|x: OpArg| A::spec_from_op_arg(x)),
                    decreases v@.len() - k,
                {
                    r.push(A::from_op_arg(v[k]));
                    k = k + 1;
                    assert(r@ =~= v@.subrange(0, k as int).map_values(|x: OpArg| A::spec_from_op_arg(x)));
                }
                assert(v@.subrange(0, v@.len() as int) =~= v@);
                GenericInstruction::Phi(A::from_op_arg(*a), r)
            },
        }
    }

    /// Decodes the instruction at the start of `input` with operands of type `A`.
    pub fn parse(input: Input) -> (r: Result<(Input, GenericInstruction<A>), ParseError>)
        requires
            input.offset + input.prog@.len() + 4 <= usize::MAX,
        ensures
            match spec_decode(input.offset as int, input.prog@) {
                Err(e) => r == Err::<(Input, GenericInstruction<A>), ParseError>(e),
                Ok((n, inst)) => r is Ok && ({
                    let (rest, i) = r->Ok_0;
                    &&& rest.offset == input.offset + n
                    &&& rest.prog@ == input.prog@.subrange(n as int, input.prog@.len() as int)
                    &&& i@ == spec_convert::<A>(inst@)
                }),
            },
    {
        match FatInstruction::parse_fat(input) {
            Ok((rest, op)) => Ok((rest, Self::from_fat(&op.kind))),
            Err(e) => Err(e),
        }
    }

    /// Number of program words the instruction occupies.
    pub fn size(&self) -> (r: usize)
        requires
            !(self@ is Phi),
        ensures
            r == spec_size(self@),
    {
        match self {
            GenericInstruction::Add(..) | GenericInstruction::Mul(..) | GenericInstruction::LessThan(
                ..,
            )
            | GenericInstruction::Equals(..) | GenericInstruction::Assign(..) => 4,
            GenericInstruction::Goto(..) | GenericInstruction::JumpIf(..) => 3,
            GenericInstruction::Input(_) | GenericInstruction::Output(_)
            | GenericInstruction::AdjustRelativeBase(_) => 2,
            GenericInstruction::Halt => 1,
            GenericInstruction::Data(v) => v.len(),
            GenericInstruction::Phi(_, _) => 0,
        }
    }

    /// The operands the instruction reads, leaving out immediate values.
    pub fn reads(&self) -> (r: Vec<A>)
        ensures
            r@ == spec_non_values(spec_read_operands(self@)),
    {
        let all: Vec<A> = match self {
            GenericInstruction::Add(a, b, _) => vec![*a, *b],
            GenericInstruction::Mul(a, b, _) => vec![*a, *b],
            GenericInstruction::Input(_) => Vec::new(),
            GenericInstruction::Output(a) => vec![*a],
            GenericInstruction::JumpIf(a, _, b) => vec![*a, *b],
            GenericInstruction::LessThan(a, b, _) => vec![*a, *b],
            GenericInstruction::Equals(a, b, _) => vec![*a, *b],
            GenericInstruction::AdjustRelativeBase(a) => vec![*a],
            GenericInstruction::Data(_) => Vec::new(),
            GenericInstruction::Halt => Vec::new(),
            GenericInstruction::Goto(a) => vec![*a],
            GenericInstruction::Assign(_, b) => vec![*b],
            GenericInstruction::Phi(_, args) => copy_args(args),
        };
        assert(all@ =~= spec_read_operands(self@));
        let mut r: Vec<A> = Vec::new();
        let mut k: usize = 0;
        while k < all.len()
            invariant
                k <= all@.len(),
                r@ == spec_non_values(all@.subrange(0, k as int)),
            decreases all@.len() - k,
        {
            let x = all[k];
            proof {
                assert(all@.subrange(0, k + 1).drop_last() =~= all@.subrange(0, k as int));
            }
            if !x.is_value() {
                r.push(x);
            }
            k = k + 1;
        }
        assert(all@.subrange(0, all@.len() as int) =~= all@);
        r
    }

    /// The operand the instruction writes, if any.
    pub fn writes(&self) -> (r: Option<A>)
        ensures
            r == spec_written(self@),
    {
        match self {
            GenericInstruction::Add(_, _, c) => Some(*c),
            GenericInstruction::Mul(_, _, c) => Some(*c),
            GenericInstruction::Input(a) => Some(*a),
            GenericInstruction::Output(_) => None,
            GenericInstruction::JumpIf(_, _, _) => None,
            GenericInstruction::LessThan(_, _, c) => Some(*c),
            GenericInstruction::Equals(_, _, c) => Some(*c),
            GenericInstruction::AdjustRelativeBase(_) => None,
            GenericInstruction::Data(_) => None,
            GenericInstruction::Halt => None,
            GenericInstruction::Goto(_) => None,
            GenericInstruction::Assign(a, _) => Some(*a),
            GenericInstruction::Phi(a, _) => Some(*a),
        }
    }
}

impl FatInstruction {
    /// Decodes the instruction at `offset` of a program whose words from
    /// `offset` on are `prog`; `None` when decoding fails.
    pub fn from_slice(offset: usize, prog: &[i128]) -> (r: Option<Self>)
        requires
            offset + prog@.len() + 4 <= usize::MAX,
        ensures
            match spec_decode(offset as int, prog@) {
                Err(_) => r is None,
                Ok((_, inst)) => r is Some && r->0@ == inst@,
            },
    {
        match Self::parse(Input::new(offset, prog)) {
            Ok((_, op)) => Some(op),
            Err(_) => None,
        }
    }
}


// ---------------------------------------------------------------------------
// Splitting a whole program into instructions and data

/// Whether `v` is a relative base increase by a positive immediate, which
/// starts the stack frame of a function.
pub open spec fn spec_is_frame_start(v: InstrView<OpArg>) -> bool {
    match v {
        InstrView::AdjustRelativeBase(a) => match a.kind {
            Arg::Value(t) => t > 0,
            _ => false,
        },
        _ => false,
    }
}

/// One step of the scan at address `i`: the entry, whether the scan is then
/// inside data, and the number of words consumed.  Words that do not decode
/// start data; data goes on until a frame start decodes.
pub open spec fn spec_scan_step(prog: Seq<i128>, i: nat, in_data: bool) -> (InstrView<OpArg>, bool, nat) {
    match spec_decode(i as int, prog.subrange(i as int, prog.len() as int)) {
        Ok((n, inst)) => if spec_is_frame_start(inst@) {
            (inst@, false, n)
        } else if in_data {
            (InstrView::Data(seq![prog[i as int]]), true, 1)
        } else {
            (inst@, false, n)
        },
        Err(_) => (InstrView::Data(seq![prog[i as int]]), true, 1),
    }
}

pub proof fn lemma_decode_size(offset: int, prog: Seq<i128>)
    ensures
        spec_decode(offset, prog) matches Ok((n, inst)) ==> 1 <= n <= 4 && n <= prog.len() && spec_size(inst@) == n,
{
    if prog.len() > 0 && prog[0] >= 0 {
        let opcode = prog[0] % 100;
        match spec_arg_count(opcode as int) {
            Some(n) => {
                lemma_args_len(offset, prog, n);
            },
            None => {},
        }
    }
}

pub proof fn lemma_args_len(offset: int, prog: Seq<i128>, n: nat)
    ensures
        spec_args(offset, prog, n) matches Ok(s) ==> s.len() == n && (n == 0 || n < prog.len()),
    decreases n,
{
    if n > 0 {
        lemma_args_len(offset, prog, (n - 1) as nat);
    }
}

pub proof fn lemma_step_size(prog: Seq<i128>, i: nat, in_data: bool)
    requires
        i < prog.len(),
    ensures
        ({
            let (v, d, n) = spec_scan_step(prog, i, in_data);
            1 <= n && i + n <= prog.len() && spec_size(v) == n && !(v is Phi)
        }),
{
    lemma_decode_size(i as int, prog.subrange(i as int, prog.len() as int));
}

/// The entries of the scan from address `i` on.
pub open spec fn spec_scan(prog: Seq<i128>, i: nat, in_data: bool) -> Seq<(usize, InstrView<OpArg>)>
    decreases prog.len() - i,
{
    if i >= prog.len() {
        Seq::empty()
    } else {
        let (v, d, n) = spec_scan_step(prog, i, in_data);
        if n == 0 {
            Seq::empty()
        } else {
            seq![(i as usize, v)] + spec_scan(prog, i + n, d)
        }
    }
}

/// Whether an entry is data.
pub open spec fn spec_is_data(e: (usize, InstrView<OpArg>)) -> bool {
    e.1 is Data
}

/// The first pass of coalescing, after its first `k` steps: an instruction
/// squeezed between two data entries becomes data covering its words.
pub open spec fn spec_fill(s: Seq<(usize, InstrView<OpArg>)>, prog: Seq<i128>, k: nat) -> Seq<(usize, InstrView<OpArg>)>
    decreases k,
{
    if k == 0 {
        s
    } else {
        let t = spec_fill(s, prog, (k - 1) as nat);
        let j = k - 1;
        if j + 2 < t.len() && spec_is_data(t[j]) && spec_is_data(t[j + 2]) && !spec_is_data(t[j + 1]) {
            t.update(j + 1, (t[j + 1].0, InstrView::Data(prog.subrange(t[j + 1].0 as int, t[j + 2].0 as int))))
        } else {
            t
        }
    }
}

/// Consecutive data entries merged into one, left to right.
pub open spec fn spec_merge_data(s: Seq<(usize, InstrView<OpArg>)>) -> Seq<(usize, InstrView<OpArg>)>
    decreases s.len(),
{
    if s.len() == 0 {
        s
    } else {
        let c = spec_merge_data(s.drop_last());
        let x = s.last();
        if c.len() > 0 && spec_is_data(c.last()) && spec_is_data(x) {
            c.drop_last().push((c.last().0, InstrView::Data(c.last().1->Data_0 + x.1->Data_0)))
        } else {
            c.push(x)
        }
    }
}

/// Whether the entries `s` cover the words `from..end` of `prog` without
/// gap or overlap, in order: each starts where the one before ends, the
/// data entries hold the words they cover, and none is a phi function.
pub open spec fn tiles(s: Seq<(usize, InstrView<OpArg>)>, prog: Seq<i128>, from: int, end: int) -> bool {
    &&& s.len() == 0 ==> from == end
    &&& s.len() > 0 ==> s[0].0 == from && s.last().0 + spec_size(s.last().1) == end
    &&& forall|k: int| 0 <= k < s.len() - 1 ==> s[k + 1].0 == #[trigger] next_start(s, k)
    &&& forall|k: int|
        0 <= k < s.len() ==> from <= (#[trigger] s[k]).0 && s[k].0 + spec_size(s[k].1) <= end && !(s[k].1 is Phi) && (s[k].1 is Data ==> s[k].1->Data_0 == prog.subrange(
            s[k].0 as int,
            s[k].0 + spec_size(s[k].1),
        ))
}

/// Where the entry after the `k`-th starts, by the size of the `k`-th.
pub open spec fn next_start(s: Seq<(usize, InstrView<OpArg>)>, k: int) -> int {
    s[k].0 + spec_size(s[k].1)
}

/// Whether no two neighbouring entries are both data.
pub open spec fn no_adjacent_data(s: Seq<(usize, InstrView<OpArg>)>) -> bool {
    forall|k: int| 0 <= k < s.len() - 1 ==> !(spec_is_data(#[trigger] s[k]) && spec_is_data(s[k + 1]))
}

proof fn lemma_scan_tiles(prog: Seq<i128>, i: nat, in_data: bool)
    requires
        i <= prog.len(),
        prog.len() + 8 <= usize::MAX,
    ensures
        tiles(spec_scan(prog, i, in_data), prog, i as int, prog.len() as int),
    decreases prog.len() - i,
{
    if i < prog.len() {
        lemma_step_size(prog, i, in_data);
        let (v, d, n) = spec_scan_step(prog, i, in_data);
        crate::control_flow_graph::lemma_single_size::<OpArg>(i as int, prog.subrange(i as int, prog.len() as int));
        lemma_scan_tiles(prog, i + n, d);
        let rest = spec_scan(prog, i + n, d);
        let s = spec_scan(prog, i, in_data);
        assert(s == seq![(i as usize, v)] + rest);
        if v is Data {
            assert(v->Data_0 =~= prog.subrange(i as int, (i + 1) as int));
        }
        assert forall|k: int| 0 <= k < s.len() - 1 implies s[k + 1].0 == #[trigger] next_start(s, k) by {
            if k > 0 {
                assert(s[k] == rest[k - 1]);
                assert(s[k + 1] == rest[k]);
                assert(rest[k].0 == next_start(rest, k - 1));
            } else {
                assert(s[1] == rest[0]);
            }
        }
        assert forall|k: int| 0 <= k < s.len() implies i <= (#[trigger] s[k]).0 && s[k].0 + spec_size(s[k].1) <= prog.len() && !(s[k].1 is Phi) && (s[k].1 is Data ==> s[k].1->Data_0
            == prog.subrange(s[k].0 as int, s[k].0 + spec_size(s[k].1))) by {
            if k > 0 {
                assert(s[k] == rest[k - 1]);
            }
        }
    }
}

proof fn lemma_fill_tiles(s: Seq<(usize, InstrView<OpArg>)>, prog: Seq<i128>, k: nat, from: int, end: int)
    requires
        tiles(s, prog, from, end),
        0 <= from,
        end <= prog.len(),
    ensures
        tiles(spec_fill(s, prog, k), prog, from, end),
        spec_fill(s, prog, k).len() == s.len(),
    decreases k,
{
    if k > 0 {
        lemma_fill_tiles(s, prog, (k - 1) as nat, from, end);
        let t = spec_fill(s, prog, (k - 1) as nat);
        let j = k - 1;
        if j + 2 < t.len() && spec_is_data(t[j]) && spec_is_data(t[j + 2]) && !spec_is_data(t[j + 1]) {
            let u = spec_fill(s, prog, k);
            assert(t[j + 2].0 == next_start(t, j + 1));
            assert(from <= t[j + 1].0);
            assert(t[j + 2].0 + spec_size(t[j + 2].1) <= end);
            assert(u[j + 1].1->Data_0.len() == t[j + 2].0 - t[j + 1].0);
            assert forall|q: int| 0 <= q < u.len() - 1 implies u[q + 1].0 == #[trigger] next_start(u, q) by {
                assert(t[q + 1].0 == next_start(t, q));
            }
            assert forall|q: int| 0 <= q < u.len() implies from <= (#[trigger] u[q]).0 && u[q].0 + spec_size(u[q].1) <= end && !(u[q].1 is Phi) && (u[q].1 is Data ==> u[q].1->Data_0
                == prog.subrange(u[q].0 as int, u[q].0 + spec_size(u[q].1))) by {
                assert(t[q].0 == u[q].0);
            }
        }
    }
}

proof fn lemma_before_last(s: Seq<(usize, InstrView<OpArg>)>, prog: Seq<i128>, from: int, end: int, k: int)
    requires
        tiles(s, prog, from, end),
        0 <= k < s.len() - 1,
    ensures
        next_start(s, k) <= s.last().0,
    decreases s.len() - k,
{
    assert(s[k + 1].0 == next_start(s, k));
    if k + 1 < s.len() - 1 {
        lemma_before_last(s, prog, from, end, k + 1);
        assert(s[k + 2].0 == next_start(s, k + 1));
    }
}

proof fn lemma_merge_tiles(s: Seq<(usize, InstrView<OpArg>)>, prog: Seq<i128>, from: int, end: int)
    requires
        tiles(s, prog, from, end),
        0 <= from,
        end <= prog.len(),
    ensures
        tiles(spec_merge_data(s), prog, from, end),
        no_adjacent_data(spec_merge_data(s)),
    decreases s.len(),
{
    if s.len() > 0 {
        let x = s.last();
        let p = s.drop_last();
        let mid = x.0 as int;
        assert forall|k: int| 0 <= k < p.len() - 1 implies p[k + 1].0 == #[trigger] next_start(p, k) by {
            assert(s[k + 1].0 == next_start(s, k));
        }
        assert forall|k: int| 0 <= k < p.len() - 1 implies #[trigger] next_start(p, k) <= mid by {
            lemma_before_last(s, prog, from, end, k);
            assert(next_start(p, k) == next_start(s, k));
        }
        assert forall|k: int| 0 <= k < p.len() implies from <= (#[trigger] p[k]).0 && p[k].0 + spec_size(p[k].1) <= mid && !(p[k].1 is Phi) && (p[k].1 is Data ==> p[k].1->Data_0
            == prog.subrange(p[k].0 as int, p[k].0 + spec_size(p[k].1))) by {
            assert(s[k] == p[k]);
            if k == p.len() - 1 {
                assert(s[k + 1].0 == next_start(s, k));
            } else {
                assert(next_start(p, k) <= mid);
            }
        }
        if p.len() > 0 {
            assert(s[p.len() - 1 + 1].0 == next_start(s, p.len() - 1));
        }
        assert(tiles(p, prog, from, mid));
        assert(s[s.len() - 1] == x);
        lemma_merge_tiles(p, prog, from, mid);
        let c = spec_merge_data(p);
        let m = spec_merge_data(s);
        if c.len() > 0 && spec_is_data(c.last()) && spec_is_data(x) {
            let y = c.last();
            let merged = (y.0, InstrView::Data(y.1->Data_0 + x.1->Data_0));
            assert(m == c.drop_last().push(merged));
            assert(y.1->Data_0 == prog.subrange(y.0 as int, mid));
            assert(x.1->Data_0 == prog.subrange(mid, end));
            assert(y.1->Data_0 + x.1->Data_0 =~= prog.subrange(y.0 as int, end));
            assert forall|k: int| 0 <= k < m.len() - 1 implies m[k + 1].0 == #[trigger] next_start(m, k) by {
                assert(c[k + 1].0 == next_start(c, k));
            }
            assert forall|k: int| 0 <= k < m.len() implies from <= (#[trigger] m[k]).0 && m[k].0 + spec_size(m[k].1) <= end && !(m[k].1 is Phi) && (m[k].1 is Data ==> m[k].1->Data_0
                == prog.subrange(m[k].0 as int, m[k].0 + spec_size(m[k].1))) by {
                if k < m.len() - 1 {
                    assert(m[k] == c[k]);
                }
            }
            assert forall|k: int| 0 <= k < m.len() - 1 implies !(spec_is_data(#[trigger] m[k]) && spec_is_data(m[k + 1])) by {
                assert(m[k] == c[k]);
                if k + 1 < m.len() - 1 {
                    assert(m[k + 1] == c[k + 1]);
                } else {
                    assert(!(spec_is_data(c[k]) && spec_is_data(c[k + 1])));
                }
            }
        } else {
            assert(m == c.push(x));
            assert forall|k: int| 0 <= k < m.len() - 1 implies m[k + 1].0 == #[trigger] next_start(m, k) by {
                if k + 1 < c.len() {
                    assert(c[k + 1].0 == next_start(c, k));
                }
            }
            assert forall|k: int| 0 <= k < m.len() implies from <= (#[trigger] m[k]).0 && m[k].0 + spec_size(m[k].1) <= end && !(m[k].1 is Phi) && (m[k].1 is Data ==> m[k].1->Data_0
                == prog.subrange(m[k].0 as int, m[k].0 + spec_size(m[k].1))) by {
                if k < c.len() {
                    assert(m[k] == c[k]);
                }
            }
            assert forall|k: int| 0 <= k < m.len() - 1 implies !(spec_is_data(#[trigger] m[k]) && spec_is_data(m[k + 1])) by {
                assert(m[k] == c[k]);
                if k + 1 < c.len() {
                    assert(m[k + 1] == c[k + 1]);
                }
            }
        }
    }
}

/// The entries a program is split into cover it from its first word to its
/// last without gap or overlap, in order; each data entry holds the words it
/// covers; no two neighbouring entries are both data; and none is a phi
/// function.
pub proof fn lemma_parse_program_tiles(prog: Seq<i128>)
    requires
        prog.len() + 8 <= usize::MAX,
        spec_scan(prog, 0, false).len() >= 2,
    ensures
        ({
            let r = spec_merge_data(spec_fill(spec_scan(prog, 0, false), prog, (spec_scan(prog, 0, false).len() - 2) as nat));
            &&& tiles(r, prog, 0, prog.len() as int)
            &&& no_adjacent_data(r)
        }),
{
    let s = spec_scan(prog, 0, false);
    lemma_scan_tiles(prog, 0, false);
    lemma_fill_tiles(s, prog, (s.len() - 2) as nat, 0, prog.len() as int);
    lemma_merge_tiles(spec_fill(s, prog, (s.len() - 2) as nat), prog, 0, prog.len() as int);
}

/// The entries of a decoded program, viewed.
pub open spec fn spec_entries(v: Seq<(usize, FatInstruction)>) -> Seq<(usize, InstrView<OpArg>)> {
    v.map_values(|e: (usize, FatInstruction)| (e.0, e.1@))
}

pub proof fn lemma_simplify_idempotent(i: FatInstruction)
    ensures
        spec_simplify(spec_simplify(i)) == spec_simplify(i),
{
}

pub proof fn lemma_scan_addresses(prog: Seq<i128>, i: nat, in_data: bool)
    requires
        prog.len() <= usize::MAX,
    ensures
        forall|j: int|
            0 <= j < spec_scan(prog, i, in_data).len() ==> i <= #[trigger] spec_scan(prog, i, in_data)[j].0
                < prog.len(),
        forall|j: int, k: int|
            0 <= j < k < spec_scan(prog, i, in_data).len() ==> spec_scan(prog, i, in_data)[j].0
                < spec_scan(prog, i, in_data)[k].0,
    decreases prog.len() - i,
{
    if i < prog.len() {
        let (v, d, n) = spec_scan_step(prog, i, in_data);
        lemma_step_size(prog, i, in_data);
        lemma_scan_addresses(prog, i + n, d);
        let rest = spec_scan(prog, i + n, d);
        assert(spec_scan(prog, i, in_data) == seq![(i as usize, v)] + rest);
        assert forall|j: int, k: int|
            0 <= j < k < spec_scan(prog, i, in_data).len() implies spec_scan(prog, i, in_data)[j].0
            < spec_scan(prog, i, in_data)[k].0 by {
            if j > 0 {
                assert(spec_scan(prog, i, in_data)[j] == rest[j - 1]);
            }
            assert(spec_scan(prog, i, in_data)[k] == rest[k - 1]);
        }
        assert forall|j: int| 0 <= j < spec_scan(prog, i, in_data).len() implies i
            <= #[trigger] spec_scan(prog, i, in_data)[j].0 < prog.len() by {
            if j > 0 {
                assert(spec_scan(prog, i, in_data)[j] == rest[j - 1]);
            }
        }
    }
}

pub proof fn lemma_fill_shape(s: Seq<(usize, InstrView<OpArg>)>, prog: Seq<i128>, k: nat)
    ensures
        spec_fill(s, prog, k).len() == s.len(),
        forall|j: int| 0 <= j < s.len() ==> (#[trigger] spec_fill(s, prog, k)[j]).0 == s[j].0,
    decreases k,
{
    if k > 0 {
        lemma_fill_shape(s, prog, (k - 1) as nat);
    }
}

/// A copy of the words `prog[a..b]`.
fn slice_words(prog: &[i128], a: usize, b: usize) -> (r: Vec<i128>)
    requires
        a <= b <= prog@.len(),
    ensures
        r@ == prog@.subrange(a as int, b as int),
{
    let mut r: Vec<i128> = Vec::new();
    let mut i = a;
    while i < b
        invariant
            a <= i <= b <= prog@.len(),
            r@ == prog@.subrange(a as int, i as int),
        decreases b - i,
    {
        r.push(prog[i]);
        i = i + 1;
        assert(r@ =~= prog@.subrange(a as int, i as int));
    }
    r
}

/// Concatenation of two word vectors.
fn concat_words(x: &Vec<i128>, y: &Vec<i128>) -> (r: Vec<i128>)
    ensures
        r@ == x@ + y@,
{
    let mut r = copy_words(x);
    let mut i: usize = 0;
    while i < y.len()
        invariant
            i <= y@.len(),
            r@ == x@ + y@.subrange(0, i as int),
        decreases y@.len() - i,
    {
        r.push(y[i]);
        i = i + 1;
        assert(r@ =~= x@ + y@.subrange(0, i as int));
    }
    assert(y@.subrange(0, y@.len() as int) =~= y@);
    r
}

impl<A> GenericInstruction<A> {
    /// Whether this is a run of data words.
    pub fn is_data(&self) -> (r: bool)
        ensures
            r == (self@ is Data),
    {
        match self {
            GenericInstruction::Data(_) => true,
            _ => false,
        }
    }
}

impl FatInstruction {
    fn is_frame_start(&self) -> (r: bool)
        ensures
            r == spec_is_frame_start(self@),
    {
        match self {
            GenericInstruction::AdjustRelativeBase(a) => match a.kind {
                Arg::Value(t) => t > 0,
                _ => false,
            },
            _ => false,
        }
    }

    /// The first pass and the merge of [`spec_fill`] and [`spec_merge_data`].
    fn coalesce_data(instructions: Vec<(usize, Self)>, prog: &[i128]) -> (r: Vec<(usize, Self)>)
        requires
            instructions@.len() >= 2,
            forall|j: int| 0 <= j < instructions@.len() ==> #[trigger] instructions@[j].0 < prog@.len(),
            forall|j: int, k: int|
                0 <= j < k < instructions@.len() ==> instructions@[j].0 < instructions@[k].0,
        ensures
            spec_entries(r@) == spec_merge_data(
                spec_fill(spec_entries(instructions@), prog@, (instructions@.len() - 2) as nat),
            ),
    {
        let mut instructions = instructions;
        let ghost s0 = spec_entries(instructions@);
        let len = instructions.len();
        let mut i: usize = 0;
        proof {
            assert(spec_entries(instructions@) =~= spec_fill(s0, prog@, 0));
        }
        while i < len - 2
            invariant
                len == instructions@.len(),
                len >= 2,
                i <= len - 2,
                s0.len() == len,
                spec_entries(instructions@) == spec_fill(s0, prog@, i as nat),
                forall|j: int| 0 <= j < len ==> #[trigger] s0[j].0 < prog@.len(),
                forall|j: int, k: int| 0 <= j < k < len ==> s0[j].0 < s0[k].0,
            decreases len - 2 - i,
        {
            proof {
                lemma_fill_shape(s0, prog@, i as nat);
                assert(spec_entries(instructions@)[i as int] == (instructions@[i as int].0, instructions@[i as int].1@));
                assert(spec_entries(instructions@)[i + 1] == (instructions@[i + 1].0, instructions@[i + 1].1@));
                assert(spec_entries(instructions@)[i + 2] == (instructions@[i + 2].0, instructions@[i + 2].1@));
            }
            let a_data = instructions[i].1.is_data();
            let b_data = instructions[i + 1].1.is_data();
            let c_data = instructions[i + 2].1.is_data();
            if a_data && c_data && !b_data {
                let b_addr = instructions[i + 1].0;
                let c_addr = instructions[i + 2].0;
                proof {
                    assert(s0[i + 1].0 < s0[i + 2].0);
                }
                let words = slice_words(prog, b_addr, c_addr);
                instructions.set(i + 1, (b_addr, GenericInstruction::Data(words)));
                proof {
                    assert(spec_entries(instructions@) =~= spec_fill(s0, prog@, (i + 1) as nat));
                }
            } else {
                proof {
                    assert(spec_entries(instructions@) =~= spec_fill(s0, prog@, (i + 1) as nat));
                }
            }
            i = i + 1;
        }
        let ghost filled = spec_entries(instructions@);
        let mut out: Vec<(usize, Self)> = Vec::new();
        let mut k: usize = 0;
        while k < len
            invariant
                len == instructions@.len(),
                k <= len,
                filled == spec_entries(instructions@),
                spec_entries(out@) == spec_merge_data(filled.subrange(0, k as int)),
            decreases len - k,
        {
            let x_data = instructions[k].1.is_data();
            let n = out.len();
            proof {
                assert(filled.subrange(0, k + 1).drop_last() =~= filled.subrange(0, k as int));
                assert(filled.subrange(0, k + 1).last() == (instructions@[k as int].0, instructions@[k as int].1@));
                if n > 0 {
                    assert(spec_entries(out@).last() == (out@[n - 1].0, out@[n - 1].1@));
                }
            }
            if n > 0 && out[n - 1].1.is_data() && x_data {
                let (prev_addr, prev) = out.pop().unwrap();
                let merged = match (&prev, &instructions[k].1) {
                    (GenericInstruction::Data(p), GenericInstruction::Data(c)) => concat_words(p, c),
                    _ => Vec::new(),
                };
                out.push((prev_addr, GenericInstruction::Data(merged)));
                proof {
                    assert(spec_entries(out@) =~= spec_merge_data(filled.subrange(0, k + 1)));
                }
            } else {
                let addr = instructions[k].0;
                let inst = instructions[k].1.duplicate();
                out.push((addr, inst));
                proof {
                    assert(spec_entries(out@) =~= spec_merge_data(filled.subrange(0, k + 1)));
                }
            }
            k = k + 1;
        }
        assert(filled.subrange(0, len as int) =~= filled);
        out
    }

    /// Splits a whole program into instructions and data runs, each with its
    /// address.
    pub fn parse_program(prog: &[i128]) -> (r: Vec<(usize, Self)>)
        requires
            prog@.len() + 8 <= usize::MAX,
            spec_scan(prog@, 0, false).len() >= 2,
        ensures
            spec_entries(r@) == spec_merge_data(
                spec_fill(spec_scan(prog@, 0, false), prog@, (spec_scan(prog@, 0, false).len() - 2) as nat),
            ),
    {
        let mut instructions: Vec<(usize, Self)> = Vec::new();
        let mut i: usize = 0;
        let mut in_data = false;
        while i < prog.len()
            invariant
                prog@.len() + 8 <= usize::MAX,
                i <= prog@.len(),
                spec_entries(instructions@) + spec_scan(prog@, i as nat, in_data) == spec_scan(prog@, 0, false),
            decreases prog@.len() - i,
        {
            let (_, rest) = prog.split_at(i);
            let ghost old_in_data = in_data;
            let ghost step = spec_scan_step(prog@, i as nat, in_data);
            proof {
                lemma_step_size(prog@, i as nat, in_data);
                assert(rest@ == prog@.subrange(i as int, prog@.len() as int));
            }
            let instr = match Self::from_slice(i, rest) {
                Some(inst) => {
                    if inst.is_frame_start() {
                        in_data = false;
                        inst
                    } else if in_data {
                        let d = vec![prog[i]];
                        assert(d@ =~= seq![prog@[i as int]]);
                        GenericInstruction::Data(d)
                    } else {
                        inst
                    }
                },
                None => {
                    in_data = true;
                    let d = vec![prog[i]];
                    assert(d@ =~= seq![prog@[i as int]]);
                    GenericInstruction::Data(d)
                },
            };
            proof {
                assert(instr@ == step.0);
                assert(in_data == step.1);
            }
            let size = instr.size();
            let instr = instr.simplify();
            proof {
                match spec_decode(i as int, rest@) {
                    Ok((_, inst)) => {
                        lemma_simplify_idempotent(inst);
                    },
                    Err(_) => {},
                }
                assert(instr@ == step.0);
                assert(spec_scan(prog@, i as nat, old_in_data) == seq![(i as usize, step.0)] + spec_scan(prog@, (i + size) as nat, in_data));
            }
            let ghost prev = instructions@;
            instructions.push((i, instr));
            proof {
                assert(spec_entries(instructions@) =~= spec_entries(prev).push((i as usize, step.0)));
                assert(spec_entries(instructions@) + spec_scan(prog@, (i + size) as nat, in_data)
                    =~= spec_entries(prev) + spec_scan(prog@, i as nat, old_in_data));
            }
            i = i + size;
        }
        proof {
            lemma_scan_addresses(prog@, 0, false);
            assert(spec_scan(prog@, i as nat, in_data) =~= Seq::<(usize, InstrView<OpArg>)>::empty());
            assert(spec_entries(instructions@) =~= spec_scan(prog@, 0, false));
            assert forall|j: int| 0 <= j < instructions@.len() implies #[trigger] instructions@[j].0 < prog@.len() by {
                assert(spec_entries(instructions@)[j].0 == instructions@[j].0);
            }
            assert forall|j: int, k: int| 0 <= j < k < instructions@.len() implies instructions@[j].0 < instructions@[k].0 by {
                assert(spec_entries(instructions@)[j].0 == instructions@[j].0);
                assert(spec_entries(instructions@)[k].0 == instructions@[k].0);
            }
        }
        Self::coalesce_data(instructions, prog)
    }
}

/// Whether `o` is `i` with each operand replaced by one that `rel` relates
/// to it, all else equal.
pub open spec fn instr_related<A, T>(i: InstrView<A>, o: InstrView<T>, rel: spec_fn(A, T) -> bool) -> bool {
    match (i, o) {
        (InstrView::Add(a, b, c), InstrView::Add(x, y, z)) => rel(a, x) && rel(b, y) && rel(c, z),
        (InstrView::Mul(a, b, c), InstrView::Mul(x, y, z)) => rel(a, x) && rel(b, y) && rel(c, z),
        (InstrView::Input(a), InstrView::Input(x)) => rel(a, x),
        (InstrView::Output(a), InstrView::Output(x)) => rel(a, x),
        (InstrView::JumpIf(a, b, c), InstrView::JumpIf(x, y, z)) => rel(a, x) && b == y && rel(c, z),
        (InstrView::LessThan(a, b, c), InstrView::LessThan(x, y, z)) => rel(a, x) && rel(b, y) && rel(c, z),
        (InstrView::Equals(a, b, c), InstrView::Equals(x, y, z)) => rel(a, x) && rel(b, y) && rel(c, z),
        (InstrView::AdjustRelativeBase(a), InstrView::AdjustRelativeBase(x)) => rel(a, x),
        (InstrView::Data(v), InstrView::Data(w)) => v == w,
        (InstrView::Halt, InstrView::Halt) => true,
        (InstrView::Goto(a), InstrView::Goto(x)) => rel(a, x),
        (InstrView::Assign(a, b), InstrView::Assign(x, y)) => rel(a, x) && rel(b, y),
        (InstrView::Phi(a, v), InstrView::Phi(x, w)) => rel(a, x) && v.len() == w.len() && forall|k: int|
            0 <= k < v.len() ==> rel(#[trigger] v[k], w[k]),
        _ => false,
    }
}

impl<A> GenericInstruction<A> {
    /// The instruction with `f` applied to each operand.
    pub fn map<T, F: Fn(&A) -> T>(&self, f: F) -> (r: GenericInstruction<T>)
        requires
            forall|a: &A| #[trigger] f.requires((a,)),
        ensures
            instr_related(self@, r@, |a: A, t: T| f.ensures((&a,), t)),
    {
        match self {
            GenericInstruction::Add(a, b, c) => GenericInstruction::Add(f(a), f(b), f(c)),
            GenericInstruction::Mul(a, b, c) => GenericInstruction::Mul(f(a), f(b), f(c)),
            GenericInstruction::Input(a) => GenericInstruction::Input(f(a)),
            GenericInstruction::Output(a) => GenericInstruction::Output(f(a)),
            GenericInstruction::JumpIf(a, b, c) => GenericInstruction::JumpIf(f(a), *b, f(c)),
            GenericInstruction::LessThan(a, b, c) => GenericInstruction::LessThan(f(a), f(b), f(c)),
            GenericInstruction::Equals(a, b, c) => GenericInstruction::Equals(f(a), f(b), f(c)),
            GenericInstruction::AdjustRelativeBase(a) => GenericInstruction::AdjustRelativeBase(f(a)),
            GenericInstruction::Data(v) => {
                let mut w: Vec<i128> = Vec::new();
                let mut k: usize = 0;
                while k < v.len()
                    invariant
                        k <= v@.len(),
                        w@ == v@.take(k as int),
                    decreases v.len() - k,
                {
                    w.push(v[k]);
                    k = k + 1;
                    assert(w@ =~= v@.take(k as int));
                }
                assert(w@ =~= v@);
                GenericInstruction::Data(w)
            },
            GenericInstruction::Halt => GenericInstruction::Halt,
            GenericInstruction::Goto(a) => GenericInstruction::Goto(f(a)),
            GenericInstruction::Assign(a, b) => GenericInstruction::Assign(f(a), f(b)),
            GenericInstruction::Phi(a, v) => {
                let x = f(a);
                let mut w: Vec<T> = Vec::new();
                let mut k: usize = 0;
                while k < v.len()
                    invariant
                        k <= v@.len(),
                        forall|a: &A| #[trigger] f.requires((a,)),
                        w@.len() == k,
                        forall|j: int| 0 <= j < k ==> f.ensures((&v@[j],), #[trigger] w@[j]),
                    decreases v.len() - k,
                {
                    w.push(f(&v[k]));
                    k = k + 1;
                }
                GenericInstruction::Phi(x, w)
            },
        }
    }
}

/// The operands of an instruction in the order in which its operands are
/// mapped, each with whether it is written: every operand it reads comes
/// before the one it writes.
pub open spec fn rw_order<A>(i: InstrView<A>) -> Seq<(A, bool)> {
    match i {
        InstrView::Add(a, b, c) => seq![(a, false), (b, false), (c, true)],
        InstrView::Mul(a, b, c) => seq![(a, false), (b, false), (c, true)],
        InstrView::Input(a) => seq![(a, true)],
        InstrView::Output(a) => seq![(a, false)],
        InstrView::JumpIf(a, _, c) => seq![(a, false), (c, false)],
        InstrView::LessThan(a, b, c) => seq![(a, false), (b, false), (c, true)],
        InstrView::Equals(a, b, c) => seq![(a, false), (b, false), (c, true)],
        InstrView::AdjustRelativeBase(a) => seq![(a, false)],
        InstrView::Data(_) => seq![],
        InstrView::Halt => seq![],
        InstrView::Goto(a) => seq![(a, false)],
        InstrView::Assign(a, b) => seq![(b, false), (a, true)],
        InstrView::Phi(a, v) => v.map_values(|x: A| (x, false)).push((a, true)),
    }
}

/// The instruction `i` with its operands replaced by `ts`, given in the
/// order of [`rw_order`].
pub open spec fn rw_rebuild<A, T>(i: InstrView<A>, ts: Seq<T>) -> InstrView<T> {
    match i {
        InstrView::Add(_, _, _) => InstrView::Add(ts[0], ts[1], ts[2]),
        InstrView::Mul(_, _, _) => InstrView::Mul(ts[0], ts[1], ts[2]),
        InstrView::Input(_) => InstrView::Input(ts[0]),
        InstrView::Output(_) => InstrView::Output(ts[0]),
        InstrView::JumpIf(_, b, _) => InstrView::JumpIf(ts[0], b, ts[1]),
        InstrView::LessThan(_, _, _) => InstrView::LessThan(ts[0], ts[1], ts[2]),
        InstrView::Equals(_, _, _) => InstrView::Equals(ts[0], ts[1], ts[2]),
        InstrView::AdjustRelativeBase(_) => InstrView::AdjustRelativeBase(ts[0]),
        InstrView::Data(v) => InstrView::Data(v),
        InstrView::Halt => InstrView::Halt,
        InstrView::Goto(_) => InstrView::Goto(ts[0]),
        InstrView::Assign(_, _) => InstrView::Assign(ts[1], ts[0]),
        InstrView::Phi(_, v) => InstrView::Phi(ts[v.len() as int], ts.take(v.len() as int)),
    }
}

/// Whether one step of a mapping, on operand `s.0` in state `o`, can give
/// `res`: the write map for a written operand, the read map otherwise.
pub open spec fn rw_step<O, A, T, E, R: Fn(O, &A) -> (O, Result<T, E>), W: Fn(O, &A) -> (O, Result<T, E>)>(
    read_map: R,
    write_map: W,
    s: (A, bool),
    o: O,
    res: (O, Result<T, E>),
) -> bool {
    if s.1 {
        write_map.ensures((o, &s.0), res)
    } else {
        read_map.ensures((o, &s.0), res)
    }
}

/// Whether the first `outs.len()` steps over `steps`, each from the state
/// the previous one left (`states`), succeeded with `outs`.
pub open spec fn rw_trace<O, A, T, E, R: Fn(O, &A) -> (O, Result<T, E>), W: Fn(O, &A) -> (O, Result<T, E>)>(
    read_map: R,
    write_map: W,
    steps: Seq<(A, bool)>,
    states: Seq<O>,
    outs: Seq<T>,
) -> bool {
    &&& states.len() == outs.len() + 1
    &&& outs.len() <= steps.len()
    &&& forall|j: int|
        0 <= j < outs.len() ==> #[trigger] rw_step(read_map, write_map, steps[j], states[j], (states[j + 1], Ok::<T, E>(outs[j])))
}

/// Whether `r` is what mapping the operands of `i`, in the order of
/// [`rw_order`] and from state `o`, can give: the new state and the mapped
/// instruction, or the state and error of the first step that fails.
pub open spec fn rw_mapped<O, A, T, E, R: Fn(O, &A) -> (O, Result<T, E>), W: Fn(O, &A) -> (O, Result<T, E>)>(
    i: InstrView<A>,
    o: O,
    read_map: R,
    write_map: W,
    r: (O, Result<InstrView<T>, E>),
) -> bool {
    exists|states: Seq<O>, outs: Seq<T>|
        #[trigger] rw_trace(read_map, write_map, rw_order(i), states, outs) && states[0] == o && match r.1 {
            Ok(x) => outs.len() == rw_order(i).len() && r.0 == states.last() && x == rw_rebuild(i, outs),
            Err(e) => outs.len() < rw_order(i).len() && rw_step(
                read_map,
                write_map,
                rw_order(i)[outs.len() as int],
                states.last(),
                (r.0, Err::<T, E>(e)),
            ),
        }
}

/// Whether one step of an infallible mapping, on operand `s.0` in state `o`,
/// can give `res`: the write map for a written operand, the read map
/// otherwise.
pub open spec fn rw_step_total<O, A, T, R: Fn(O, &A) -> (O, T), W: Fn(O, &A) -> (O, T)>(
    read_map: R,
    write_map: W,
    s: (A, bool),
    o: O,
    res: (O, T),
) -> bool {
    if s.1 {
        write_map.ensures((o, &s.0), res)
    } else {
        read_map.ensures((o, &s.0), res)
    }
}

/// Whether the first `outs.len()` steps of an infallible mapping over
/// `steps`, each from the state the previous one left (`states`), gave
/// `outs`.
pub open spec fn rw_trace_total<O, A, T, R: Fn(O, &A) -> (O, T), W: Fn(O, &A) -> (O, T)>(
    read_map: R,
    write_map: W,
    steps: Seq<(A, bool)>,
    states: Seq<O>,
    outs: Seq<T>,
) -> bool {
    &&& states.len() == outs.len() + 1
    &&& outs.len() <= steps.len()
    &&& forall|j: int| 0 <= j < outs.len() ==> #[trigger] rw_step_total(read_map, write_map, steps[j], states[j], (states[j + 1], outs[j]))
}

/// Whether `r` is what mapping the operands of `i` without failure, in the
/// order of [`rw_order`] and from state `o`, can give: the last state and
/// the mapped instruction.
pub open spec fn rw_mapped_total<O, A, T, R: Fn(O, &A) -> (O, T), W: Fn(O, &A) -> (O, T)>(
    i: InstrView<A>,
    o: O,
    read_map: R,
    write_map: W,
    r: (O, InstrView<T>),
) -> bool {
    exists|states: Seq<O>, outs: Seq<T>|
        #[trigger] rw_trace_total(read_map, write_map, rw_order(i), states, outs) && states[0] == o && outs.len() == rw_order(i).len()
            && r.0 == states.last() && r.1 == rw_rebuild(i, outs)
}

/// A mapping calls the read map on every operand before it calls the write
/// map: only the last operand in the order of [`rw_order`] can be written.
pub proof fn lemma_reads_before_write<A>(i: InstrView<A>, j: int)
    requires
        0 <= j < rw_order(i).len() - 1,
    ensures
        !rw_order(i)[j].1,
{
}

/// The write map is called at most once, and on exactly the operand that
/// the instruction writes ([`GenericInstruction::writes`]).
pub proof fn lemma_write_step<A>(i: InstrView<A>)
    ensures
        spec_written(i) matches Some(x) ==> rw_order(i).len() > 0 && rw_order(i).last() == (x, true),
        spec_written(i) is None ==> forall|j: int| 0 <= j < rw_order(i).len() ==> !(#[trigger] rw_order(i)[j]).1,
{
}

/// The view of a mapping's result.
pub open spec fn rw_result_view<O, T, E>(r: (O, Result<GenericInstruction<T>, E>)) -> (O, Result<InstrView<T>, E>) {
    (
        r.0,
        match r.1 {
            Ok(x) => Ok(x@),
            Err(e) => Err(e),
        },
    )
}

impl<A> GenericInstruction<A> {
    /// The operands of the instruction in the order of [`rw_order`].
    fn rw_operands(&self) -> (r: Vec<(&A, bool)>)
        ensures
            r@.len() == rw_order(self@).len(),
            forall|j: int| 0 <= j < r@.len() ==> *(#[trigger] r@[j]).0 == rw_order(self@)[j].0 && r@[j].1 == rw_order(self@)[j].1,
    {
        match self {
            GenericInstruction::Add(a, b, c) => vec![(a, false), (b, false), (c, true)],
            GenericInstruction::Mul(a, b, c) => vec![(a, false), (b, false), (c, true)],
            GenericInstruction::Input(a) => vec![(a, true)],
            GenericInstruction::Output(a) => vec![(a, false)],
            GenericInstruction::JumpIf(a, _, c) => vec![(a, false), (c, false)],
            GenericInstruction::LessThan(a, b, c) => vec![(a, false), (b, false), (c, true)],
            GenericInstruction::Equals(a, b, c) => vec![(a, false), (b, false), (c, true)],
            GenericInstruction::AdjustRelativeBase(a) => vec![(a, false)],
            GenericInstruction::Data(_) => Vec::new(),
            GenericInstruction::Halt => Vec::new(),
            GenericInstruction::Goto(a) => vec![(a, false)],
            GenericInstruction::Assign(a, b) => vec![(b, false), (a, true)],
            GenericInstruction::Phi(a, v) => {
                let mut r: Vec<(&A, bool)> = Vec::new();
                let mut k: usize = 0;
                while k < v.len()
                    invariant
                        k <= v@.len(),
                        r@.len() == k,
                        forall|j: int| 0 <= j < k ==> *(#[trigger] r@[j]).0 == v@[j] && r@[j].1 == false,
                    decreases v.len() - k,
                {
                    r.push((&v[k], false));
                    k = k + 1;
                }
                r.push((a, true));
                r
            },
        }
    }

    /// The instruction with its operands replaced by `outs`, given in the
    /// order of [`rw_order`].
    fn rw_assemble<T>(&self, outs: Vec<T>) -> (r: GenericInstruction<T>)
        requires
            outs@.len() == rw_order(self@).len(),
        ensures
            r@ == rw_rebuild(self@, outs@),
    {
        let mut outs = outs;
        let ghost all = outs@;
        match self {
            GenericInstruction::Add(_, _, _) => {
                let z = outs.pop().unwrap();
                let y = outs.pop().unwrap();
                let x = outs.pop().unwrap();
                GenericInstruction::Add(x, y, z)
            },
            GenericInstruction::Mul(_, _, _) => {
                let z = outs.pop().unwrap();
                let y = outs.pop().unwrap();
                let x = outs.pop().unwrap();
                GenericInstruction::Mul(x, y, z)
            },
            GenericInstruction::Input(_) => GenericInstruction::Input(outs.pop().unwrap()),
            GenericInstruction::Output(_) => GenericInstruction::Output(outs.pop().unwrap()),
            GenericInstruction::JumpIf(_, b, _) => {
                let z = outs.pop().unwrap();
                let x = outs.pop().unwrap();
                GenericInstruction::JumpIf(x, *b, z)
            },
            GenericInstruction::LessThan(_, _, _) => {
                let z = outs.pop().unwrap();
                let y = outs.pop().unwrap();
                let x = outs.pop().unwrap();
                GenericInstruction::LessThan(x, y, z)
            },
            GenericInstruction::Equals(_, _, _) => {
                let z = outs.pop().unwrap();
                let y = outs.pop().unwrap();
                let x = outs.pop().unwrap();
                GenericInstruction::Equals(x, y, z)
            },
            GenericInstruction::AdjustRelativeBase(_) => GenericInstruction::AdjustRelativeBase(outs.pop().unwrap()),
            GenericInstruction::Data(v) => {
                let mut w: Vec<i128> = Vec::new();
                let mut k: usize = 0;
                while k < v.len()
                    invariant
                        k <= v@.len(),
                        w@ == v@.take(k as int),
                    decreases v.len() - k,
                {
                    w.push(v[k]);
                    k = k + 1;
                    assert(w@ =~= v@.take(k as int));
                }
                assert(w@ =~= v@);
                GenericInstruction::Data(w)
            },
            GenericInstruction::Halt => GenericInstruction::Halt,
            GenericInstruction::Goto(_) => GenericInstruction::Goto(outs.pop().unwrap()),
            GenericInstruction::Assign(_, _) => {
                let x = outs.pop().unwrap();
                let y = outs.pop().unwrap();
                GenericInstruction::Assign(x, y)
            },
            GenericInstruction::Phi(_, v) => {
                let x = outs.pop().unwrap();
                assert(outs@ =~= all.take(v@.len() as int));
                GenericInstruction::Phi(x, outs)
            },
        }
    }

    /// The instruction with each operand it reads mapped by `read_map` and
    /// the one it writes by `write_map`, each call given the state the one
    /// before it left: all reads come before the write, and the first error
    /// ends the mapping. Returns the last state with the result.
    pub fn map_rw_result<O, T, E, R: Fn(O, &A) -> (O, Result<T, E>), W: Fn(O, &A) -> (O, Result<T, E>)>(
        &self,
        o: O,
        read_map: R,
        write_map: W,
    ) -> (r: (O, Result<GenericInstruction<T>, E>))
        requires
            forall|s: O, a: &A| #[trigger] read_map.requires((s, a)),
            forall|s: O, a: &A| #[trigger] write_map.requires((s, a)),
        ensures
            rw_mapped(self@, o, read_map, write_map, rw_result_view(r)),
    {
        let steps = self.rw_operands();
        let ghost order = rw_order(self@);
        let mut st = o;
        let mut outs: Vec<T> = Vec::new();
        let ghost mut states: Seq<O> = seq![o];
        let mut k: usize = 0;
        while k < steps.len()
            invariant
                k <= steps@.len(),
                order == rw_order(self@),
                steps@.len() == order.len(),
                forall|j: int| 0 <= j < steps@.len() ==> *(#[trigger] steps@[j]).0 == order[j].0 && steps@[j].1 == order[j].1,
                forall|s: O, a: &A| #[trigger] read_map.requires((s, a)),
                forall|s: O, a: &A| #[trigger] write_map.requires((s, a)),
                outs@.len() == k,
                states[0] == o,
                states.last() == st,
                rw_trace(read_map, write_map, order, states, outs@),
            decreases steps.len() - k,
        {
            let (a, w) = steps[k];
            let ghost s0 = st;
            let (o1, x) = if w {
                write_map(st, a)
            } else {
                read_map(st, a)
            };
            proof {
                assert(rw_step(read_map, write_map, order[k as int], s0, (o1, x)));
            }
            match x {
                Ok(t) => {
                    let ghost outs0 = outs@;
                    outs.push(t);
                    proof {
                        states = states.push(o1);
                        assert forall|j: int| 0 <= j < outs@.len() implies #[trigger] rw_step(
                            read_map,
                            write_map,
                            order[j],
                            states[j],
                            (states[j + 1], Ok::<T, E>(outs@[j])),
                        ) by {
                            if j < k {
                                assert(outs@[j] == outs0[j]);
                            }
                        }
                    }
                    st = o1;
                },
                Err(e) => {
                    let r = (o1, Err(e));
                    proof {
                        assert(rw_trace(read_map, write_map, rw_order(self@), states, outs@));
                        assert(rw_step(read_map, write_map, rw_order(self@)[outs@.len() as int], states.last(), (r.0, Err::<T, E>(e))));
                        assert(rw_result_view(r).1 == Err::<InstrView<T>, E>(e));
                    }
                    return r;
                },
            }
            k = k + 1;
        }
        let ghost all = outs@;
        let res = self.rw_assemble(outs);
        proof {
            assert(rw_trace(read_map, write_map, order, states, all));
        }
        (st, Ok(res))
    }

    /// The instruction with every operand mapped by `map`, reads and write
    /// alike, as [`GenericInstruction::map_rw_result`] maps them.
    pub fn map_result<O, T, E, R: Fn(O, &A) -> (O, Result<T, E>) + Copy>(&self, o: O, map: R) -> (r: (O, Result<GenericInstruction<T>, E>))
        requires
            forall|s: O, a: &A| #[trigger] map.requires((s, a)),
        ensures
            rw_mapped(self@, o, map, map, rw_result_view(r)),
    {
        self.map_rw_result(o, map, map)
    }

    /// The instruction with each operand it reads mapped by `read_map` and
    /// the one it writes by `write_map`, each call given the state the one
    /// before it left, all reads before the write. Returns the last state
    /// with the result.
    pub fn map_rw<O, T, R: Fn(O, &A) -> (O, T), W: Fn(O, &A) -> (O, T)>(&self, o: O, read_map: R, write_map: W) -> (r: (O, GenericInstruction<T>))
        requires
            forall|s: O, a: &A| #[trigger] read_map.requires((s, a)),
            forall|s: O, a: &A| #[trigger] write_map.requires((s, a)),
        ensures
            rw_mapped_total(self@, o, read_map, write_map, (r.0, r.1@)),
    {
        let steps = self.rw_operands();
        let ghost order = rw_order(self@);
        let mut st = o;
        let mut outs: Vec<T> = Vec::new();
        let ghost mut states: Seq<O> = seq![o];
        let mut k: usize = 0;
        while k < steps.len()
            invariant
                k <= steps@.len(),
                order == rw_order(self@),
                steps@.len() == order.len(),
                forall|j: int| 0 <= j < steps@.len() ==> *(#[trigger] steps@[j]).0 == order[j].0 && steps@[j].1 == order[j].1,
                forall|s: O, a: &A| #[trigger] read_map.requires((s, a)),
                forall|s: O, a: &A| #[trigger] write_map.requires((s, a)),
                outs@.len() == k,
                states[0] == o,
                states.last() == st,
                rw_trace_total(read_map, write_map, order, states, outs@),
            decreases steps.len() - k,
        {
            let (a, w) = steps[k];
            let ghost s0 = st;
            let (o1, t) = if w {
                write_map(st, a)
            } else {
                read_map(st, a)
            };
            let ghost outs0 = outs@;
            outs.push(t);
            proof {
                assert(rw_step_total(read_map, write_map, order[k as int], s0, (o1, t)));
                states = states.push(o1);
                assert forall|j: int| 0 <= j < outs@.len() implies #[trigger] rw_step_total(
                    read_map,
                    write_map,
                    order[j],
                    states[j],
                    (states[j + 1], outs@[j]),
                ) by {
                    if j < k {
                        assert(outs@[j] == outs0[j]);
                    }
                }
            }
            st = o1;
            k = k + 1;
        }
        let ghost all = outs@;
        let res = self.rw_assemble(outs);
        proof {
            assert(rw_trace_total(read_map, write_map, rw_order(self@), states, all));
        }
        (st, res)
    }
}

/// The instruction with `f` applied to each operand.
pub open spec fn instr_map<A, T>(i: InstrView<A>, f: spec_fn(A) -> T) -> InstrView<T> {
    match i {
        InstrView::Add(a, b, c) => InstrView::Add(f(a), f(b), f(c)),
        InstrView::Mul(a, b, c) => InstrView::Mul(f(a), f(b), f(c)),
        InstrView::Input(a) => InstrView::Input(f(a)),
        InstrView::Output(a) => InstrView::Output(f(a)),
        InstrView::JumpIf(a, b, c) => InstrView::JumpIf(f(a), b, f(c)),
        InstrView::LessThan(a, b, c) => InstrView::LessThan(f(a), f(b), f(c)),
        InstrView::Equals(a, b, c) => InstrView::Equals(f(a), f(b), f(c)),
        InstrView::AdjustRelativeBase(a) => InstrView::AdjustRelativeBase(f(a)),
        InstrView::Data(v) => InstrView::Data(v),
        InstrView::Halt => InstrView::Halt,
        InstrView::Goto(a) => InstrView::Goto(f(a)),
        InstrView::Assign(a, b) => InstrView::Assign(f(a), f(b)),
        InstrView::Phi(a, v) => InstrView::Phi(f(a), v.map_values(f)),
    }
}

/// Mapping an instruction by a closure whose result is fixed by a spec
/// function `f` gives the instruction with `f` applied to each operand: the
/// variant, a jump's flag and data are kept, and each operand keeps its
/// place.
pub proof fn lemma_map_is_instr_map<A, T>(i: InstrView<A>, o: InstrView<T>, rel: spec_fn(A, T) -> bool, f: spec_fn(A) -> T)
    requires
        instr_related(i, o, rel),
        forall|a: A, b: T| #[trigger] rel(a, b) ==> b == f(a),
    ensures
        o == instr_map(i, f),
{
    match (i, o) {
        (InstrView::Phi(a, v), InstrView::Phi(x, w)) => {
            assert(rel(a, x));
            assert forall|k: int| 0 <= k < v.len() implies w[k] == v.map_values(f)[k] by {
                assert(rel(v[k], w[k]));
            }
            assert(w =~= v.map_values(f));
        },
        (InstrView::Add(a, b, c), InstrView::Add(x, y, z)) => {
            assert(rel(a, x) && rel(b, y) && rel(c, z));
        },
        (InstrView::Mul(a, b, c), InstrView::Mul(x, y, z)) => {
            assert(rel(a, x) && rel(b, y) && rel(c, z));
        },
        (InstrView::LessThan(a, b, c), InstrView::LessThan(x, y, z)) => {
            assert(rel(a, x) && rel(b, y) && rel(c, z));
        },
        (InstrView::Equals(a, b, c), InstrView::Equals(x, y, z)) => {
            assert(rel(a, x) && rel(b, y) && rel(c, z));
        },
        (InstrView::JumpIf(a, b, c), InstrView::JumpIf(x, y, z)) => {
            assert(rel(a, x) && rel(c, z));
        },
        (InstrView::Assign(a, b), InstrView::Assign(x, y)) => {
            assert(rel(a, x) && rel(b, y));
        },
        (InstrView::Input(a), InstrView::Input(x)) => {
            assert(rel(a, x));
        },
        (InstrView::Output(a), InstrView::Output(x)) => {
            assert(rel(a, x));
        },
        (InstrView::AdjustRelativeBase(a), InstrView::AdjustRelativeBase(x)) => {
            assert(rel(a, x));
        },
        (InstrView::Goto(a), InstrView::Goto(x)) => {
            assert(rel(a, x));
        },
        _ => {},
    }
}

/// Mapping each operand to itself gives the instruction back.
pub proof fn lemma_instr_map_identity<A>(i: InstrView<A>)
    ensures
        instr_map(i, |a: A| a) == i,
{
    if let InstrView::Phi(a, v) = i {
        assert(v.map_values(|a: A| a) =~= v);
    }
}

/// Mapping by `f` and then by `g` is mapping by `g` after `f`.
pub proof fn lemma_instr_map_compose<A, B, C>(i: InstrView<A>, f: spec_fn(A) -> B, g: spec_fn(B) -> C)
    ensures
        instr_map(instr_map(i, f), g) == instr_map(i, |a: A| g(f(a))),
{
    if let InstrView::Phi(a, v) = i {
        assert(v.map_values(f).map_values(g) =~= v.map_values(|a: A| g(f(a))));
    }
}

/// The number of operands of an instruction.
pub open spec fn instr_operand_count<A>(i: InstrView<A>) -> nat {
    match i {
        InstrView::Add(..) | InstrView::Mul(..) | InstrView::LessThan(..) | InstrView::Equals(..) => 3,
        InstrView::JumpIf(..) | InstrView::Assign(..) => 2,
        InstrView::Input(..) | InstrView::Output(..) | InstrView::AdjustRelativeBase(..) | InstrView::Goto(..) => 1,
        InstrView::Phi(_, v) => 1 + v.len(),
        InstrView::Data(..) | InstrView::Halt => 0,
    }
}

} // verus!
