//! Recognising the instruction patterns of compiled functions (calls,
//! returns, conditional assignments) and turning a function's code into
//! flow nodes and mid-level statements.
use vstd::prelude::*;
use crate::low_ir::{Arg, OpArg, FatInstruction, GenericInstruction, Input, ParseError, Span, spec_decode, lemma_decode_size};
use crate::mid_ir::{Expr, ExprView, MidIR, MidIRView, spec_negate, exprs_view, midirs_view, children_of, refs_view, spec_children, duplicate_exprs};
use crate::order::{spec_sorted_indices, spec_keyed, sorted_indices, lemma_sorted_indices_members};
use crate::control_flow_graph::contains_address;
use crate::mid_flow::{
    FlowGraph, FlowGraphView, FlowHigh, FlowKindView, FlowNode, FlowNodeKind, FlowNodeView, HighView, Parsed, flow_fuel,
    node_at, node_lookup, node_views, parse_flow, parse_flow_terminates, spec_build, spec_parse_flow, targets_known,
};
use crate::mid_flow::LoopId;
use crate::text::{spec_int_text, append_int, push_char};

verus! {

/// The name of data cell `x`: `data[x]`.
pub open spec fn data_name(x: i128) -> Seq<char> {
    seq!['d', 'a', 't', 'a', '['] + spec_int_text(x as int) + seq![']']
}

/// Whether an operand has an expression: not a patched cell, and a negative
/// offset from the relative base must stay inside the stack frame.
pub open spec fn arg_defined(stack: usize, a: Arg) -> bool {
    match a {
        Arg::RelativeMem(x) => x >= 0 || stack.checked_add_signed(x as isize) is Some,
        Arg::Deref(_) => false,
        _ => true,
    }
}

/// The expression of an operand: a literal, an output slot (offset from the
/// relative base at or above 0), an input slot (below 0, counted from the
/// bottom of the frame of `stack` words), or a data cell.
pub open spec fn arg_expr(stack: usize, a: Arg) -> ExprView {
    match a {
        Arg::Value(x) => ExprView::Literal(x),
        Arg::RelativeMem(x) => if x >= 0 {
            ExprView::OutArg(x as usize)
        } else {
            ExprView::InArg(stack.checked_add_signed(x as isize)->0)
        },
        Arg::Mem(x) => ExprView::Var(data_name(x)),
        Arg::Deref(_) => ExprView::Input,
    }
}

/// Whether the statement of an instruction can be built: its operands all have
/// expressions.
pub open spec fn instr_defined(stack: usize, i: FatInstruction) -> bool {
    match i {
        GenericInstruction::Assign(a, b) => arg_defined(stack, a.kind) && arg_defined(stack, b.kind),
        GenericInstruction::Add(a, b, c) => arg_defined(stack, a.kind) && arg_defined(stack, b.kind)
            && arg_defined(stack, c.kind),
        GenericInstruction::Mul(a, b, c) => arg_defined(stack, a.kind) && arg_defined(stack, b.kind)
            && arg_defined(stack, c.kind),
        GenericInstruction::Equals(a, b, c) => arg_defined(stack, a.kind) && arg_defined(stack, b.kind)
            && arg_defined(stack, c.kind),
        GenericInstruction::LessThan(a, b, c) => arg_defined(stack, a.kind) && arg_defined(stack, b.kind)
            && arg_defined(stack, c.kind),
        GenericInstruction::Output(a) => arg_defined(stack, a.kind),
        GenericInstruction::Input(a) => arg_defined(stack, a.kind),
        _ => true,
    }
}

/// The statement of a data instruction: an assignment of the computed value
/// to the written operand, or an output; `None` for control instructions.
pub open spec fn instr_midir(stack: usize, i: FatInstruction) -> Option<MidIRView> {
    match i {
        GenericInstruction::Assign(a, b) => Some(MidIRView::Assign(arg_expr(stack, a.kind), arg_expr(stack, b.kind))),
        GenericInstruction::Add(a, b, c) => Some(MidIRView::Assign(
            arg_expr(stack, c.kind),
            ExprView::Add(Box::new(arg_expr(stack, a.kind)), Box::new(arg_expr(stack, b.kind))),
        )),
        GenericInstruction::Mul(a, b, c) => Some(MidIRView::Assign(
            arg_expr(stack, c.kind),
            ExprView::Mul(Box::new(arg_expr(stack, a.kind)), Box::new(arg_expr(stack, b.kind))),
        )),
        GenericInstruction::Output(a) => Some(MidIRView::Output(arg_expr(stack, a.kind))),
        GenericInstruction::Input(a) => Some(MidIRView::Assign(arg_expr(stack, a.kind), ExprView::Input)),
        GenericInstruction::Equals(a, b, c) => Some(MidIRView::Assign(
            arg_expr(stack, c.kind),
            ExprView::Equal(Box::new(arg_expr(stack, a.kind)), Box::new(arg_expr(stack, b.kind))),
        )),
        GenericInstruction::LessThan(a, b, c) => Some(MidIRView::Assign(
            arg_expr(stack, c.kind),
            ExprView::LessThan(Box::new(arg_expr(stack, a.kind)), Box::new(arg_expr(stack, b.kind))),
        )),
        _ => None,
    }
}

/// The value of an expression when each expression that is not an
/// arithmetic operation or a comparison has the value `env` gives it:
/// literals are their value, sums and products add and multiply, and a
/// comparison is 1 when it holds and 0 otherwise.
pub open spec fn mid_eval(e: ExprView, env: spec_fn(ExprView) -> int) -> int
    decreases e,
{
    match e {
        ExprView::Literal(v) => v as int,
        ExprView::Add(l, r) => mid_eval(*l, env) + mid_eval(*r, env),
        ExprView::Mul(l, r) => mid_eval(*l, env) * mid_eval(*r, env),
        ExprView::LessThan(l, r) => if mid_eval(*l, env) < mid_eval(*r, env) { 1 } else { 0 },
        ExprView::Equal(l, r) => if mid_eval(*l, env) == mid_eval(*r, env) { 1 } else { 0 },
        _ => env(e),
    }
}

/// What an Intcode instruction stores, given the values `x` and `y` of its
/// first and second operand: `x + y` (opcode 1), `x * y` (2), `x < y ? 1 : 0`
/// (7), `x == y ? 1 : 0` (8).
pub open spec fn intcode_value(i: FatInstruction, x: int, y: int) -> int {
    match i {
        GenericInstruction::Add(..) => x + y,
        GenericInstruction::Mul(..) => x * y,
        GenericInstruction::LessThan(..) => if x < y { 1 } else { 0 },
        GenericInstruction::Equals(..) => if x == y { 1 } else { 0 },
        _ => 0,
    }
}

/// The statement of an arithmetic instruction or a comparison computes what
/// the instruction stores: it assigns to the written operand an expression
/// whose value, in every state, is the instruction's result on the values of
/// its operands taken in their order.
pub proof fn lemma_statement_computes(stack: usize, i: FatInstruction, env: spec_fn(ExprView) -> int)
    requires
        i is Add || i is Mul || i is LessThan || i is Equals,
    ensures
        instr_midir(stack, i) matches Some(MidIRView::Assign(d, rhs)) && d == arg_expr(
            stack,
            crate::low_ir::spec_written(i@)->0.kind,
        ) && mid_eval(rhs, env) == intcode_value(
            i,
            mid_eval(arg_expr(stack, crate::low_ir::spec_read_operands(i@)[0].kind), env),
            mid_eval(arg_expr(stack, crate::low_ir::spec_read_operands(i@)[1].kind), env),
        ),
{
}

/// The statements of moves, input and output: a move assigns the value of
/// its source to its destination, an input assigns the value read, and an
/// output outputs the value of its operand.
pub proof fn lemma_statement_moves(stack: usize, i: FatInstruction)
    requires
        i is Assign || i is Input || i is Output,
    ensures
        i matches GenericInstruction::Assign(d, src) ==> instr_midir(stack, i) == Some(
            MidIRView::Assign(arg_expr(stack, d.kind), arg_expr(stack, src.kind)),
        ),
        i matches GenericInstruction::Input(d) ==> instr_midir(stack, i) == Some(MidIRView::Assign(arg_expr(stack, d.kind), ExprView::Input)),
        i matches GenericInstruction::Output(src) ==> instr_midir(stack, i) == Some(MidIRView::Output(arg_expr(stack, src.kind))),
{
}

/// The outcome of matching a pattern at a position: the number of words it
/// covers and its statement, the error that stopped it, or a failure that the
/// matcher cannot recover from.
pub ghost enum PatternView {
    Yes(nat, MidIRView),
    No(ParseError),
    Panics,
}

/// The words after the first `n`.
pub open spec fn after(prog: Seq<i128>, n: nat) -> Seq<i128> {
    prog.subrange(n as int, prog.len() as int)
}

/// Whether the positions of an input stay addressable while decoding.
pub open spec fn input_fits(i: Input) -> bool {
    i.offset + i.prog@.len() + 4 <= usize::MAX
}

/// Whether an executable result is what the pattern outcome describes.
pub open spec fn pattern_result(input: Input, r: Result<(Input, MidIR), ParseError>, p: PatternView) -> bool {
    match p {
        PatternView::Yes(n, m) => r is Ok && r->Ok_0.0.offset == input.offset + n
            && r->Ok_0.0.prog@ == after(input.prog@, n) && r->Ok_0.1.view() == m,
        PatternView::No(e) => r is Err && r->Err_0 == e,
        PatternView::Panics => false,
    }
}

/// A return: the relative base moved down by a constant, then a jump to the
/// address stored at the new base.
#[verifier::opaque]
pub open spec fn spec_parse_return(off: int, prog: Seq<i128>) -> PatternView {
    match spec_decode(off, prog) {
        Err(e) => PatternView::No(e),
        Ok((n1, i1)) => match i1 {
            GenericInstruction::AdjustRelativeBase(a) => match a.kind {
                Arg::Value(r) => if r < 0 {
                    match spec_decode(off + n1, after(prog, n1)) {
                        Err(e) => PatternView::No(e),
                        Ok((n2, i2)) => match i2 {
                            GenericInstruction::Goto(g) => if g.kind == Arg::RelativeMem(0) {
                                PatternView::Yes(n1 + n2, MidIRView::Return)
                            } else {
                                PatternView::No(ParseError::NoMatch)
                            },
                            _ => PatternView::No(ParseError::NoMatch),
                        },
                    }
                } else {
                    PatternView::No(ParseError::NoMatch)
                },
                _ => PatternView::No(ParseError::NoMatch),
            },
            _ => PatternView::No(ParseError::NoMatch),
        },
    }
}

/// Recognises a return at the start of `input`.
pub fn parse_return(input: Input) -> (r: Result<(Input, MidIR), ParseError>)
    requires
        input_fits(input),
    ensures
        pattern_result(input, r, spec_parse_return(input.offset as int, input.prog@)),
{
    reveal(spec_parse_return);
    let (input1, adjust) = match FatInstruction::parse_fat(input) {
        Ok(x) => x,
        Err(e) => return Err(e),
    };
    match adjust.kind {
        GenericInstruction::AdjustRelativeBase(OpArg { kind: Arg::Value(r), .. }) if r < 0 => {
            let (input2, goto) = match FatInstruction::parse_fat(input1) {
                Ok(x) => x,
                Err(e) => return Err(e),
            };
            proof {
                assert(after(after(input.prog@, (input1.offset - input.offset) as nat), (input2.offset - input1.offset) as nat)
                    =~= after(input.prog@, (input2.offset - input.offset) as nat));
            }
            match goto.kind {
                GenericInstruction::Goto(OpArg { kind: Arg::RelativeMem(0), .. }) => Ok((input2, MidIR::Return())),
                _ => Err(ParseError::NoMatch),
            }
        },
        _ => Err(ParseError::NoMatch),
    }
}


pub proof fn lemma_after_after(p: Seq<i128>, a: nat, b: nat)
    requires
        a + b <= p.len(),
    ensures
        after(after(p, a), b) == after(p, a + b),
{
    assert(after(after(p, a), b) =~= after(p, a + b));
}

/// One data instruction as a statement.
pub open spec fn spec_simple_assign(stack: usize, off: int, prog: Seq<i128>) -> PatternView {
    match spec_decode(off, prog) {
        Err(e) => PatternView::No(e),
        Ok((n, i)) => if !instr_defined(stack, i) {
            PatternView::Panics
        } else {
            match instr_midir(stack, i) {
                Some(m) => PatternView::Yes(n, m),
                None => PatternView::No(ParseError::NoMatch),
            }
        },
    }
}

/// The statement of an instruction when it assigns an output slot.
pub open spec fn out_assign(stack: usize, i: FatInstruction) -> Option<(usize, ExprView)> {
    match instr_midir(stack, i) {
        Some(MidIRView::Assign(ExprView::OutArg(v), val)) => Some((v, val)),
        _ => None,
    }
}

/// The part of a conditional assignment after its conditional jump: the
/// fall-through assignment, a jump over the other assignment, and the other
/// assignment at the target of the conditional jump, to the same output slot.
pub open spec fn spec_ternary_rest(
    stack: usize,
    off: int,
    prog: Seq<i128>,
    used: nat,
    cond: ExprView,
    addr1: i128,
) -> PatternView {
    match spec_decode(off, prog) {
        Err(e) => PatternView::No(e),
        Ok((n2, i2)) => if !instr_defined(stack, i2) {
            PatternView::Panics
        } else {
            match out_assign(stack, i2) {
                None => PatternView::No(ParseError::NoMatch),
                Some((v1, val1)) => {
                    let p3 = after(prog, n2);
                    match spec_decode(off + n2, p3) {
                        Err(e) => PatternView::No(e),
                        Ok((n3, i3)) => match i3 {
                            GenericInstruction::Goto(g) => match g.kind {
                                Arg::Value(addr2) => if off + n2 + n3 != (addr1 as usize) as int {
                                    PatternView::No(ParseError::NoMatch)
                                } else {
                                    match spec_decode(off + n2 + n3, after(p3, n3)) {
                                        Err(e) => PatternView::No(e),
                                        Ok((n4, i4)) => if !instr_defined(stack, i4) {
                                            PatternView::Panics
                                        } else {
                                            match out_assign(stack, i4) {
                                                None => PatternView::No(ParseError::NoMatch),
                                                Some((v2, val2)) => if off + n2 + n3 + n4 != (addr2 as usize) as int {
                                                    PatternView::No(ParseError::NoMatch)
                                                } else if v1 != v2 {
                                                    PatternView::No(ParseError::NoMatch)
                                                } else {
                                                    PatternView::Yes(
                                                        used + n2 + n3 + n4,
                                                        MidIRView::Assign(
                                                            ExprView::OutArg(v1),
                                                            ExprView::If(Box::new(cond), Box::new(val1), Box::new(val2)),
                                                        ),
                                                    )
                                                },
                                            }
                                        },
                                    }
                                },
                                _ => PatternView::No(ParseError::NoMatch),
                            },
                            _ => PatternView::No(ParseError::NoMatch),
                        },
                    }
                },
            }
        },
    }
}

/// A conditional assignment to an output slot: `o = if (c) { a } else { b }`,
/// where `c` is the condition under which the conditional jump falls through.
pub open spec fn spec_ternary(stack: usize, off: int, prog: Seq<i128>) -> PatternView {
    match spec_decode(off, prog) {
        Err(e) => PatternView::No(e),
        Ok((n1, i1)) => match i1 {
            GenericInstruction::JumpIf(value, equal_to, t) => match t.kind {
                Arg::Value(addr1) => if !arg_defined(stack, value.kind) {
                    PatternView::Panics
                } else {
                    let c = arg_expr(stack, value.kind);
                    let cond = if equal_to { spec_negate(c) } else { c };
                    spec_ternary_rest(stack, off + n1, after(prog, n1), n1, cond, addr1)
                },
                _ => PatternView::No(ParseError::NoMatch),
            },
            _ => PatternView::No(ParseError::NoMatch),
        },
    }
}

/// One assignment: a plain one, else a conditional one.
#[verifier::opaque]
pub open spec fn spec_one_assign(stack: usize, off: int, prog: Seq<i128>) -> PatternView {
    match spec_simple_assign(stack, off, prog) {
        PatternView::No(_) => spec_ternary(stack, off, prog),
        other => other,
    }
}

pub proof fn lemma_one_assign_size(stack: usize, off: int, prog: Seq<i128>)
    ensures
        spec_one_assign(stack, off, prog) matches PatternView::Yes(n, _) ==> 1 <= n <= prog.len(),
{
    reveal(spec_one_assign);
    lemma_decode_size(off, prog);
    if let Ok((n1, i1)) = spec_decode(off, prog) {
        let p2 = after(prog, n1);
        lemma_decode_size(off + n1, p2);
        if let Ok((n2, i2)) = spec_decode(off + n1, p2) {
            let p3 = after(p2, n2);
            lemma_decode_size(off + n1 + n2, p3);
            if let Ok((n3, i3)) = spec_decode(off + n1 + n2, p3) {
                lemma_decode_size(off + n1 + n2 + n3, after(p3, n3));
            }
        }
    }
}

/// What the assignments before a call give: the words they cover, the return
/// address stored in output slot 0, and the arguments stored in slots 1, 2, ...
pub ghost enum CallArgsView {
    Done(nat, usize, Seq<ExprView>),
    No(ParseError),
    Panics,
}

/// The argument assignments from `off` on, after the arguments `args`.
pub open spec fn spec_call_args(stack: usize, off: int, prog: Seq<i128>, args: Seq<ExprView>) -> CallArgsView
    decreases prog.len(),
{
    match spec_one_assign(stack, off, prog) {
        PatternView::Panics => CallArgsView::Panics,
        PatternView::No(e) => CallArgsView::No(e),
        PatternView::Yes(n, m) => match m {
            MidIRView::Assign(ExprView::OutArg(v), val) => if v == 0 {
                match val {
                    ExprView::Literal(addr) => CallArgsView::Done(n, addr as usize, args),
                    _ => CallArgsView::No(ParseError::NoMatch),
                }
            } else if v != args.len() + 1 {
                CallArgsView::No(ParseError::NoMatch)
            } else {
                proof {
                    lemma_one_assign_size(stack, off, prog);
                }
                match spec_call_args(stack, off + n, after(prog, n), args.push(val)) {
                    CallArgsView::Done(k, a, s) => CallArgsView::Done(n + k, a, s),
                    other => other,
                }
            },
            _ => CallArgsView::No(ParseError::NoMatch),
        },
    }
}

/// A call: the argument assignments, then a jump to the callee that comes back
/// right after it.  A jump through an input slot is a call of a function
/// pointer.
#[verifier::opaque]
pub open spec fn spec_function_call(stack: usize, off: int, prog: Seq<i128>) -> PatternView {
    match spec_call_args(stack, off, prog, seq![]) {
        CallArgsView::Panics => PatternView::Panics,
        CallArgsView::No(e) => PatternView::No(e),
        CallArgsView::Done(k, ret, args) => match spec_decode(off + k, after(prog, k)) {
            Err(e) => PatternView::No(e),
            Ok((n, i)) => if off + k + n != ret {
                PatternView::No(ParseError::NoMatch)
            } else {
                match i {
                    GenericInstruction::Goto(g) => match g.kind {
                        Arg::Value(addr) => PatternView::Yes(k + n, MidIRView::FunctionCall(addr as usize, args)),
                        Arg::RelativeMem(o) => if o < 0 {
                            match stack.checked_add_signed(o as isize) {
                                Some(a) => PatternView::Yes(
                                    k + n,
                                    MidIRView::DynamicFunctionCall(ExprView::InArg(a), seq![]),
                                ),
                                None => PatternView::Panics,
                            }
                        } else {
                            PatternView::No(ParseError::NoMatch)
                        },
                        _ => PatternView::No(ParseError::NoMatch),
                    },
                    _ => PatternView::No(ParseError::NoMatch),
                }
            },
        },
    }
}


/// A tracked statement: its start and end address and the statement.
pub open spec fn entry_view(e: (usize, usize, MidIR)) -> (usize, usize, MidIRView) {
    (e.0, e.1, e.2.view())
}

pub open spec fn block_view(v: Seq<(usize, usize, MidIR)>) -> Seq<(usize, usize, MidIRView)> {
    Seq::new(v.len(), |i: int| entry_view(v[i]))
}

pub open spec fn blocks_view(v: Seq<Vec<(usize, usize, MidIR)>>) -> Seq<Seq<(usize, usize, MidIRView)>> {
    Seq::new(v.len(), |i: int| block_view(v[i]@))
}

/// The state of a [`NonBranchingTracker`]: the run being collected, the runs
/// already closed, and the addresses that are jumped to.
pub ghost struct TrackerView {
    pub current: Option<Seq<(usize, usize, MidIRView)>>,
    pub blocks: Seq<Seq<(usize, usize, MidIRView)>>,
    pub jumps: Seq<usize>,
}

/// Closing the current run: it joins the closed runs unless it is empty.
pub open spec fn spec_end(t: TrackerView) -> TrackerView {
    match t.current {
        Some(c) => TrackerView {
            current: None,
            blocks: if c.len() > 0 { t.blocks.push(c) } else { t.blocks },
            jumps: t.jumps,
        },
        None => t,
    }
}

/// Adding a statement: a jump target starts a new run.
pub open spec fn spec_track(t: TrackerView, start: usize, end: usize, op: MidIRView) -> TrackerView {
    let t1 = if t.jumps.contains(start) { spec_end(t) } else { t };
    let cur = match t1.current {
        Some(c) => c,
        None => seq![],
    };
    TrackerView { current: Some(cur.push((start, end, op))), blocks: t1.blocks, jumps: t1.jumps }
}

/// The index of the first statement of the run that starts at `addr`, or the
/// length of the run.
pub open spec fn first_at(b: Seq<(usize, usize, MidIRView)>, addr: usize) -> nat
    decreases b.len(),
{
    if b.len() == 0 {
        0
    } else if first_at(b.drop_last(), addr) < b.len() - 1 {
        first_at(b.drop_last(), addr)
    } else if b.last().0 == addr {
        (b.len() - 1) as nat
    } else {
        b.len()
    }
}

/// A run split before its statement at `addr`, into the non-empty parts.
pub open spec fn split_run(b: Seq<(usize, usize, MidIRView)>, addr: usize) -> Seq<Seq<(usize, usize, MidIRView)>> {
    let p = first_at(b, addr);
    if p < b.len() {
        let l = b.take(p as int);
        let r = b.skip(p as int);
        (if l.len() > 0 { seq![l] } else { seq![] }) + (if r.len() > 0 { seq![r] } else { seq![] })
    } else {
        seq![b]
    }
}

pub open spec fn split_runs(bs: Seq<Seq<(usize, usize, MidIRView)>>, addr: usize) -> Seq<Seq<(usize, usize, MidIRView)>>
    decreases bs.len(),
{
    if bs.len() == 0 {
        seq![]
    } else {
        split_runs(bs.drop_last(), addr) + split_run(bs.last(), addr)
    }
}

/// A jump to `addr`: the current run closes, every run is split at `addr`,
/// and `addr` is remembered as a jump target.
pub open spec fn spec_break_at(t: TrackerView, addr: usize) -> TrackerView {
    let t1 = spec_end(t);
    TrackerView { current: t1.current, blocks: split_runs(t1.blocks, addr), jumps: t1.jumps.push(addr) }
}

/// Consecutive statements: each covers words, and each starts where the one
/// before it ended.
pub open spec fn chained(b: Seq<(usize, usize, MidIRView)>) -> bool {
    &&& forall|i: int| 0 <= i < b.len() ==> #[trigger] b[i].0 < b[i].1
    &&& forall|i: int| 0 <= i < b.len() - 1 ==> #[trigger] b[i].1 == b[i + 1].0
}

pub open spec fn tracker_wf(t: TrackerView) -> bool {
    &&& t.current matches Some(c) ==> chained(c)
    &&& forall|i: int| 0 <= i < t.blocks.len() ==> #[trigger] t.blocks[i].len() > 0 && chained(t.blocks[i])
}

pub proof fn lemma_first_at(b: Seq<(usize, usize, MidIRView)>, addr: usize)
    ensures
        first_at(b, addr) <= b.len(),
        first_at(b, addr) < b.len() ==> b[first_at(b, addr) as int].0 == addr,
        forall|i: int| 0 <= i < first_at(b, addr) ==> b[i].0 != addr,
    decreases b.len(),
{
    if b.len() > 0 {
        lemma_first_at(b.drop_last(), addr);
        assert forall|i: int| 0 <= i < first_at(b, addr) implies b[i].0 != addr by {
            if i < b.len() - 1 {
                assert(b[i] == b.drop_last()[i]);
            }
        }
    }
}

pub proof fn lemma_split_runs_wf(bs: Seq<Seq<(usize, usize, MidIRView)>>, addr: usize)
    requires
        forall|i: int| 0 <= i < bs.len() ==> #[trigger] bs[i].len() > 0 && chained(bs[i]),
    ensures
        forall|i: int| 0 <= i < split_runs(bs, addr).len() ==> #[trigger] split_runs(bs, addr)[i].len() > 0
            && chained(split_runs(bs, addr)[i]),
    decreases bs.len(),
{
    if bs.len() > 0 {
        lemma_split_runs_wf(bs.drop_last(), addr);
        let b = bs.last();
        assert(bs[bs.len() - 1] == b);
        lemma_first_at(b, addr);
        let p = first_at(b, addr);
        let l = b.take(p as int);
        let r = b.skip(p as int);
        assert(chained(l)) by {
            assert forall|i: int| 0 <= i < l.len() - 1 implies #[trigger] l[i].1 == l[i + 1].0 by {
                assert(b[i].1 == b[i + 1].0);
            }
        }
        assert(chained(r)) by {
            assert forall|i: int| 0 <= i < r.len() - 1 implies #[trigger] r[i].1 == r[i + 1].0 by {
                assert(b[p + i].1 == b[p + i + 1].0);
            }
        }
        let front = split_runs(bs.drop_last(), addr);
        let back = split_run(b, addr);
        assert forall|i: int| 0 <= i < back.len() implies #[trigger] back[i].len() > 0 && chained(back[i]) by {}
        assert forall|i: int| 0 <= i < split_runs(bs, addr).len() implies #[trigger] split_runs(bs, addr)[i].len() > 0
            && chained(split_runs(bs, addr)[i]) by {
            if i < front.len() {
                assert(split_runs(bs, addr)[i] == front[i]);
            } else {
                assert(split_runs(bs, addr)[i] == back[i - front.len()]);
            }
        }
    }
}

/// Copies the statements `from..to` of a run.
fn copy_entries(v: &Vec<(usize, usize, MidIR)>, from: usize, to: usize) -> (r: Vec<(usize, usize, MidIR)>)
    requires
        from <= to <= v@.len(),
    ensures
        block_view(r@) == block_view(v@).subrange(from as int, to as int),
{
    let mut out: Vec<(usize, usize, MidIR)> = Vec::new();
    let mut i: usize = from;
    while i < to
        invariant
            from <= i <= to <= v@.len(),
            block_view(out@) == block_view(v@).subrange(from as int, i as int),
        decreases to - i,
    {
        let e = &v[i];
        let d = (e.0, e.1, e.2.duplicate());
        let ghost prev = out@;
        out.push(d);
        assert(block_view(out@) =~= block_view(prev).push(entry_view(v@[i as int])));
        i = i + 1;
        assert(block_view(out@) =~= block_view(v@).subrange(from as int, i as int));
    }
    out
}

/// Collects runs of consecutive statements that no jump enters or leaves.
pub struct NonBranchingTracker {
    pub current: Option<Vec<(usize, usize, MidIR)>>,
    pub non_branching: Vec<Vec<(usize, usize, MidIR)>>,
    pub jumps: Vec<usize>,
}

impl NonBranchingTracker {
    pub open spec fn view(&self) -> TrackerView {
        TrackerView {
            current: match self.current {
                Some(c) => Some(block_view(c@)),
                None => None,
            },
            blocks: blocks_view(self.non_branching@),
            jumps: self.jumps@,
        }
    }

    pub fn new() -> (r: Self)
        ensures
            r.view() == (TrackerView { current: None, blocks: seq![], jumps: seq![] }),
    {
        let r = Self { current: None, non_branching: Vec::new(), jumps: Vec::new() };
        assert(r.view().blocks =~= seq![]);
        r
    }

    /// Adds the statement covering `start..end`.
    pub fn track(&mut self, start: usize, end: usize, op: MidIR)
        requires
            start < end,
            tracker_wf(old(self).view()),
            !old(self).view().jumps.contains(start) ==> (old(self).view().current matches Some(c) ==> (c.len()
                > 0 ==> c.last().1 == start)),
        ensures
            final(self).view() == spec_track(old(self).view(), start, end, op.view()),
            tracker_wf(final(self).view()),
    {
        let mut k: usize = 0;
        let mut seen = false;
        while k < self.jumps.len()
            invariant
                k <= self.jumps@.len(),
                seen == (exists|j: int| 0 <= j < k && self.jumps@[j] == start),
            decreases self.jumps.len() - k,
        {
            if self.jumps[k] == start {
                seen = true;
            }
            k = k + 1;
        }
        if seen {
            self.end();
        }
        let ghost t1 = self.view();
        let mut cur = match self.current.take() {
            Some(c) => c,
            None => Vec::new(),
        };
        assert(t1.current is None ==> block_view(cur@) =~= seq![]);
        let ghost before = cur@;
        let ghost opv = op.view();
        cur.push((start, end, op));
        assert(block_view(cur@) =~= block_view(before).push((start, end, opv)));
        self.current = Some(cur);
    }

    /// Closes the current run.
    pub fn end(&mut self)
        requires
            tracker_wf(old(self).view()),
        ensures
            final(self).view() == spec_end(old(self).view()),
            tracker_wf(final(self).view()),
    {
        match self.current.take() {
            Some(c) => {
                if c.len() > 0 {
                    let ghost before = self.non_branching@;
                    let ghost cv = block_view(c@);
                    self.non_branching.push(c);
                    assert(blocks_view(self.non_branching@) =~= blocks_view(before).push(cv));
                }
            },
            None => {},
        }
    }

    /// Records a jump to `addr`: closes the current run and splits every run
    /// at `addr`.
    pub fn break_at(&mut self, addr: usize)
        requires
            tracker_wf(old(self).view()),
        ensures
            final(self).view() == spec_break_at(old(self).view(), addr),
            tracker_wf(final(self).view()),
    {
        self.end();
        let ghost bs = self.view().blocks;
        let mut res: Vec<Vec<(usize, usize, MidIR)>> = Vec::new();
        let mut i: usize = 0;
        assert(blocks_view(res@) =~= split_runs(bs.take(0), addr));
        while i < self.non_branching.len()
            invariant
                i <= self.non_branching@.len(),
                bs == blocks_view(self.non_branching@),
                blocks_view(res@) == split_runs(bs.take(i as int), addr),
            decreases self.non_branching.len() - i,
        {
            let block = &self.non_branching[i];
            let ghost b = block_view(block@);
            assert(bs[i as int] == b);
            let mut pos: usize = 0;
            let mut found = false;
            while pos < block.len()
                invariant
                    pos <= block@.len(),
                    b == block_view(block@),
                    forall|j: int| 0 <= j < pos ==> b[j].0 != addr,
                    found ==> pos < block@.len() && b[pos as int].0 == addr,
                ensures
                    pos <= block@.len(),
                    forall|j: int| 0 <= j < pos ==> b[j].0 != addr,
                    found ==> pos < block@.len() && b[pos as int].0 == addr,
                    !found ==> pos == block@.len(),
                decreases block.len() - pos,
            {
                if block[pos].0 == addr {
                    found = true;
                    break;
                }
                pos = pos + 1;
            }
            proof {
                lemma_first_at(b, addr);
                if found {
                    assert(first_at(b, addr) == pos);
                } else if first_at(b, addr) < b.len() {
                    assert(b[first_at(b, addr) as int].0 == addr);
                }
            }
            let ghost prev = res@;
            if found {
                let left = copy_entries(block, 0, pos);
                let right = copy_entries(block, pos, block.len());
                assert(block_view(left@) =~= b.take(pos as int));
                assert(block_view(right@) =~= b.skip(pos as int));
                assert(left@.len() == block_view(left@).len());
                if left.len() > 0 {
                    res.push(left);
                    assert(blocks_view(res@) =~= blocks_view(prev).push(b.take(pos as int)));
                } else {
                    assert(blocks_view(res@) =~= blocks_view(prev));
                }
                let ghost mid = res@;
                assert(blocks_view(mid) =~= blocks_view(prev) + (if pos > 0 { seq![b.take(pos as int)] } else { seq![] }));
                res.push(right);
                assert(blocks_view(res@) =~= blocks_view(mid).push(b.skip(pos as int)));
                assert(split_run(b, addr) =~= (if pos > 0 { seq![b.take(pos as int)] } else { seq![] }) + seq![b.skip(pos as int)]);
                assert(blocks_view(res@) =~= blocks_view(prev) + split_run(b, addr));
            } else {
                let whole = copy_entries(block, 0, block.len());
                assert(block_view(whole@) =~= b);
                res.push(whole);
                assert(blocks_view(res@) =~= blocks_view(prev).push(b));
                assert(first_at(b, addr) == b.len());
                assert(split_run(b, addr) =~= seq![b]);
                assert(blocks_view(res@) =~= blocks_view(prev) + split_run(b, addr));
            }
            proof {
                assert(bs.take(i + 1).drop_last() =~= bs.take(i as int));
                assert(bs.take(i + 1).last() == b);
            }
            i = i + 1;
        }
        assert(bs.take(i as int) =~= bs);
        proof {
            lemma_split_runs_wf(bs, addr);
        }
        self.non_branching = res;
        self.jumps.push(addr);
    }
}


pub proof fn lemma_call_args_size(stack: usize, off: int, prog: Seq<i128>, args: Seq<ExprView>)
    ensures
        spec_call_args(stack, off, prog, args) matches CallArgsView::Done(k, _, _) ==> 1 <= k <= prog.len(),
    decreases prog.len(),
{
    lemma_one_assign_size(stack, off, prog);
    if let PatternView::Yes(n, m) = spec_one_assign(stack, off, prog) {
        if let MidIRView::Assign(ExprView::OutArg(v), val) = m {
            if v != 0 && v == args.len() + 1 {
                lemma_call_args_size(stack, off + n, after(prog, n), args.push(val));
            }
        }
    }
}

pub proof fn lemma_pattern_sizes(stack: usize, off: int, prog: Seq<i128>)
    ensures
        spec_function_call(stack, off, prog) matches PatternView::Yes(n, _) ==> 1 <= n <= prog.len(),
        spec_parse_return(off, prog) matches PatternView::Yes(n, _) ==> 1 <= n <= prog.len(),
{
    reveal(spec_function_call);
    reveal(spec_parse_return);
    lemma_call_args_size(stack, off, prog, seq![]);
    lemma_decode_size(off, prog);
    if let CallArgsView::Done(k, _, _) = spec_call_args(stack, off, prog, seq![]) {
        lemma_decode_size(off + k, after(prog, k));
    }
    if let Ok((n1, _)) = spec_decode(off, prog) {
        lemma_decode_size(off + n1, after(prog, n1));
    }
}

/// The state of the walk over a function's code: the position and the words
/// from it on, the highest address seen, the halts, the flow nodes built, and
/// the runs of straight-line statements being collected.
pub ghost struct FlowWalk {
    pub off: usize,
    pub rest: Seq<i128>,
    pub max: usize,
    pub halts: Seq<usize>,
    pub nodes: Seq<FlowNodeView>,
    pub tracker: TrackerView,
}

/// One step of the walk: it goes on, it has reached the end of the function,
/// or it meets code that it cannot read.
pub ghost enum WalkStep {
    Continue(FlowWalk),
    Stop(FlowWalk),
    Panics,
}

pub open spec fn raise(m: usize, e: usize) -> usize {
    if m < e { e } else { m }
}

/// One step of the walk.  A call or a data instruction joins the current run
/// of statements; a return, a jump or a halt closes it.  The walk stops after
/// a return that reaches the highest address seen, or at a backward jump when
/// nothing beyond the jump has been seen.
pub open spec fn spec_walk_step(stack: usize, w: FlowWalk) -> WalkStep {
    let off = w.off;
    let rest = w.rest;
    match spec_function_call(stack, off as int, rest) {
        PatternView::Panics => WalkStep::Panics,
        PatternView::Yes(n, m) => {
            let e = (off + n) as usize;
            WalkStep::Continue(FlowWalk {
                off: e,
                rest: after(rest, n),
                max: if e >= w.max { e } else { w.max },
                halts: w.halts,
                nodes: w.nodes,
                tracker: spec_track(w.tracker, off, e, m),
            })
        },
        PatternView::No(_) => match spec_parse_return(off as int, rest) {
            PatternView::Yes(n, _) => {
                let e = (off + n) as usize;
                let nw = FlowWalk {
                    off: e,
                    rest: after(rest, n),
                    max: w.max,
                    halts: w.halts,
                    nodes: w.nodes.push(FlowNodeView { kind: FlowKindView::Return, span: Span { start: off, end: e } }),
                    tracker: spec_end(w.tracker),
                };
                if e >= w.max {
                    WalkStep::Stop(FlowWalk { max: e, ..nw })
                } else {
                    WalkStep::Continue(nw)
                }
            },
            _ => match spec_decode(off as int, rest) {
                Err(_) => WalkStep::Panics,
                Ok((n, i)) => {
                    let e = (off + n) as usize;
                    let span = Span { start: off, end: e };
                    match i {
                        GenericInstruction::Goto(g) => match g.kind {
                            Arg::Value(a) => {
                                let addr = a as usize;
                                let t = spec_break_at(spec_end(w.tracker), addr);
                                let nodes = w.nodes.push(FlowNodeView { kind: FlowKindView::Goto(addr), span });
                                let hi = if addr >= off { addr } else { off };
                                let m1 = if w.max < hi { hi } else { w.max };
                                if addr <= off && m1 == off {
                                    WalkStep::Stop(FlowWalk { max: m1, nodes, tracker: t, ..w })
                                } else {
                                    WalkStep::Continue(FlowWalk {
                                        off: e,
                                        rest: after(rest, n),
                                        max: raise(m1, e),
                                        halts: w.halts,
                                        nodes,
                                        tracker: t,
                                    })
                                }
                            },
                            _ => WalkStep::Panics,
                        },
                        GenericInstruction::JumpIf(value, equal_to, tg) => match tg.kind {
                            Arg::Value(a) => {
                                let addr = a as usize;
                                let t = spec_break_at(spec_end(w.tracker), addr);
                                let nodes = w.nodes.push(FlowNodeView {
                                    kind: FlowKindView::JumpIf { value: value.kind, equal_to, target: addr },
                                    span,
                                });
                                let hi = if addr >= e { addr } else { e };
                                let m1 = if w.max < hi { hi } else { w.max };
                                WalkStep::Continue(FlowWalk {
                                    off: e,
                                    rest: after(rest, n),
                                    max: raise(m1, e),
                                    halts: w.halts,
                                    nodes,
                                    tracker: t,
                                })
                            },
                            _ => WalkStep::Panics,
                        },
                        GenericInstruction::Halt => WalkStep::Continue(FlowWalk {
                            off: e,
                            rest: after(rest, n),
                            max: raise(w.max, e),
                            halts: w.halts.push(off),
                            nodes: w.nodes,
                            tracker: spec_end(w.tracker),
                        }),
                        _ => if !instr_defined(stack, i) {
                            WalkStep::Panics
                        } else {
                            match instr_midir(stack, i) {
                                None => WalkStep::Panics,
                                Some(m) => WalkStep::Continue(FlowWalk {
                                    off: e,
                                    rest: after(rest, n),
                                    max: raise(w.max, e),
                                    halts: w.halts,
                                    nodes: w.nodes,
                                    tracker: spec_track(w.tracker, off, e, m),
                                }),
                            }
                        },
                    }
                },
            },
        },
    }
}

pub proof fn lemma_step_shrinks(stack: usize, w: FlowWalk)
    ensures
        spec_walk_step(stack, w) matches WalkStep::Continue(w2) ==> w2.rest.len() < w.rest.len(),
{
    lemma_pattern_sizes(stack, w.off as int, w.rest);
    lemma_decode_size(w.off as int, w.rest);
}

/// How the walk ends.
pub ghost enum WalkEnd {
    Done(FlowWalk),
    Panics,
}

/// The walk from `w` to the end of the function.
pub open spec fn spec_walk(stack: usize, w: FlowWalk) -> WalkEnd
    decreases w.rest.len(),
{
    match spec_walk_step(stack, w) {
        WalkStep::Panics => WalkEnd::Panics,
        WalkStep::Stop(w2) => WalkEnd::Done(w2),
        WalkStep::Continue(w2) => {
            proof {
                lemma_step_shrinks(stack, w);
            }
            spec_walk(stack, w2)
        },
    }
}

/// The flow node of a run of straight-line statements.
pub open spec fn run_node(b: Seq<(usize, usize, MidIRView)>) -> FlowNodeView {
    FlowNodeView {
        kind: FlowKindView::NonBranching(Seq::new(b.len(), |i: int| b[i].2)),
        span: Span { start: b[0].0, end: b.last().1 },
    }
}

/// The nodes of a finished walk: the jumps and returns in the order met, then
/// the runs of straight-line statements.
pub open spec fn walk_nodes(w: FlowWalk) -> Seq<FlowNodeView> {
    let t = spec_end(w.tracker);
    w.nodes + Seq::new(t.blocks.len(), |i: int| run_node(t.blocks[i]))
}

/// The walk of the function whose code starts at `start`.
pub open spec fn walk_from(stack: usize, start: usize, prog: Seq<i128>) -> WalkEnd {
    spec_walk(
        stack,
        FlowWalk {
            off: start,
            rest: prog,
            max: start,
            halts: seq![],
            nodes: seq![],
            tracker: TrackerView { current: None, blocks: seq![], jumps: seq![] },
        },
    )
}

/// Whether the flow of the function at `start` can be analysed: the walk ends
/// and every jump it meets goes to the start of a node.
pub open spec fn flow_defined(stack: usize, start: usize, prog: Seq<i128>) -> bool {
    walk_from(stack, start, prog) matches WalkEnd::Done(w) && targets_known(walk_nodes(w))
}

pub proof fn lemma_chained_span(b: Seq<(usize, usize, MidIRView)>)
    requires
        b.len() > 0,
        chained(b),
    ensures
        b[0].0 <= b.last().1,
    decreases b.len(),
{
    if b.len() > 1 {
        let d = b.drop_last();
        assert(chained(d)) by {
            assert forall|i: int| 0 <= i < d.len() - 1 implies #[trigger] d[i].1 == d[i + 1].0 by {
                assert(b[i].1 == b[i + 1].0);
            }
        }
        lemma_chained_span(d);
        assert(b[b.len() - 2].1 == b[b.len() - 1].0);
    }
}


/// What the walk over a function gives: the span from its start to the
/// highest address seen, the addresses of its halts, and its flow graph.
pub struct FlowAnalysis {
    pub span: Span,
    pub halts: Vec<usize>,
    pub graph: FlowGraph,
}


/// The condition of the conditional jump that starts at the start of `span`:
/// the condition under which it jumps.
pub open spec fn jump_condition(g: FlowGraphView, stack: usize, span: Span) -> Option<ExprView> {
    match node_at(g, span.start) {
        Some(n) => match n.kind {
            FlowKindView::JumpIf { value, equal_to, .. } => if arg_defined(stack, value) {
                let t = arg_expr(stack, value);
                Some(if equal_to { t } else { spec_negate(t) })
            } else {
                None
            },
            _ => None,
        },
        None => None,
    }
}

/// The statement of a structured flow; `None` where a run of straight-line
/// code is empty or a structure's conditional jump has no condition.
pub open spec fn spec_flow_mid(h: HighView, g: FlowGraphView, stack: usize) -> Option<MidIRView>
    decreases h,
{
    match h {
        HighView::NonBranching { instructions, .. } => if instructions.len() == 0 {
            None
        } else if instructions.len() == 1 {
            Some(instructions[0])
        } else {
            Some(MidIRView::Block(instructions))
        },
        HighView::Composite(v) => match spec_flows_mid(v, g, stack) {
            Some(s) => Some(MidIRView::Block(s)),
            None => None,
        },
        HighView::While { id, jump_if_span, expr, body } => {
            let header = match expr {
                Some(hd) => match spec_flow_mid(*hd, g, stack) {
                    Some(x) => Some(Some(Box::new(x))),
                    None => None,
                },
                None => Some(None),
            };
            match (header, jump_condition(g, stack, jump_if_span), spec_flow_mid(*body, g, stack)) {
                (Some(hd), Some(c), Some(b)) => Some(MidIRView::While(id, hd, c, Box::new(b))),
                _ => None,
            }
        },
        HighView::DoWhile { id, body, jump_if_span } => match (
            jump_condition(g, stack, jump_if_span),
            spec_flow_mid(*body, g, stack),
        ) {
            (Some(c), Some(b)) => Some(MidIRView::DoWhile(id, Box::new(b), c)),
            _ => None,
        },
        HighView::Loop { id, body } => match spec_flow_mid(*body, g, stack) {
            Some(b) => Some(MidIRView::Loop(id, Box::new(b))),
            None => None,
        },
        HighView::If { jump_if_span, then } => match (
            jump_condition(g, stack, jump_if_span),
            spec_flow_mid(*then, g, stack),
        ) {
            (Some(c), Some(t)) => Some(MidIRView::If(c, Box::new(t), None)),
            _ => None,
        },
        HighView::IfElse { jump_if_span, then, els } => match (
            jump_condition(g, stack, jump_if_span),
            spec_flow_mid(*then, g, stack),
            spec_flow_mid(*els, g, stack),
        ) {
            (Some(c), Some(t), Some(e)) => Some(MidIRView::If(c, Box::new(t), Some(Box::new(e)))),
            _ => None,
        },
        HighView::Return => Some(MidIRView::Return),
        HighView::Break(id) => Some(MidIRView::Break(id)),
        HighView::Continue(id) => Some(MidIRView::Continue(id)),
    }
}

pub open spec fn spec_flows_mid(v: Seq<HighView>, g: FlowGraphView, stack: usize) -> Option<Seq<MidIRView>>
    decreases v,
{
    if v.len() == 0 {
        Some(seq![])
    } else {
        match (spec_flows_mid(v.drop_last(), g, stack), spec_flow_mid(v[v.len() - 1], g, stack)) {
            (Some(a), Some(b)) => Some(a.push(b)),
            _ => None,
        }
    }
}

/// Parses the code of one function whose frame holds `stack_size` words.
pub struct FunctionParser {
    pub stack_size: usize,
}

impl FunctionParser {
    /// The expression of an operand.
    pub fn from_arg(&self, arg: &OpArg) -> (r: Expr)
        requires
            arg_defined(self.stack_size, arg.kind),
        ensures
            r.view() == arg_expr(self.stack_size, arg.kind),
    {
        self.expr_of(arg.kind)
    }

    /// The expression of an operand without its position.
    pub fn expr_of(&self, a: Arg) -> (r: Expr)
        requires
            arg_defined(self.stack_size, a),
        ensures
            r.view() == arg_expr(self.stack_size, a),
    {
        match a {
            Arg::Value(x) => Expr::Literal(x),
            Arg::RelativeMem(x) => {
                if x >= 0 {
                    Expr::OutArg(x as usize)
                } else {
                    let a = self.stack_size.checked_add_signed(x as isize);
                    match a {
                        Some(v) => Expr::InArg(v),
                        None => Expr::Input(),
                    }
                }
            },
            Arg::Mem(x) => {
                let mut s = String::new();
                push_char(&mut s, 'd');
                push_char(&mut s, 'a');
                push_char(&mut s, 't');
                push_char(&mut s, 'a');
                push_char(&mut s, '[');
                append_int(&mut s, x);
                push_char(&mut s, ']');
                assert(s@ =~= data_name(x));
                Expr::Var(s)
            },
            Arg::Deref(_) => Expr::Input(),
        }
    }

    /// The statement of a data instruction, `None` for control instructions.
    pub fn instruction_to_midir(&self, kind: &FatInstruction) -> (r: Option<MidIR>)
        requires
            instr_defined(self.stack_size, *kind),
        ensures
            match instr_midir(self.stack_size, *kind) {
                Some(m) => r is Some && r->0.view() == m,
                None => r is None,
            },
    {
        match kind {
            GenericInstruction::Assign(a, b) => Some(MidIR::Assign(self.from_arg(a), self.from_arg(b))),
            GenericInstruction::Add(a, b, c) => Some(MidIR::Assign(
                self.from_arg(c),
                Expr::Add(Box::new(self.from_arg(a)), Box::new(self.from_arg(b))),
            )),
            GenericInstruction::Mul(a, b, c) => Some(MidIR::Assign(
                self.from_arg(c),
                Expr::Mul(Box::new(self.from_arg(a)), Box::new(self.from_arg(b))),
            )),
            GenericInstruction::Output(a) => Some(MidIR::Output(self.from_arg(a))),
            GenericInstruction::Input(a) => Some(MidIR::Assign(self.from_arg(a), Expr::Input())),
            GenericInstruction::Equals(a, b, c) => Some(MidIR::Assign(
                self.from_arg(c),
                Expr::Equal(Box::new(self.from_arg(a)), Box::new(self.from_arg(b))),
            )),
            GenericInstruction::LessThan(a, b, c) => Some(MidIR::Assign(
                self.from_arg(c),
                Expr::LessThan(Box::new(self.from_arg(a)), Box::new(self.from_arg(b))),
            )),
            _ => None,
        }
    }

    /// One data instruction as a statement.
    pub fn parse_simple_assign<'a>(&self, input: Input<'a>) -> (r: Result<(Input<'a>, MidIR), ParseError>)
        requires
            input_fits(input),
            !(spec_simple_assign(self.stack_size, input.offset as int, input.prog@) is Panics),
        ensures
            pattern_result(input, r, spec_simple_assign(self.stack_size, input.offset as int, input.prog@)),
    {
        let (input1, op) = match FatInstruction::parse_fat(input) {
            Ok(x) => x,
            Err(e) => return Err(e),
        };
        match self.instruction_to_midir(&op.kind) {
            Some(m) => Ok((input1, m)),
            None => Err(ParseError::NoMatch),
        }
    }

    /// A conditional assignment to an output slot.
    #[verifier::rlimit(40)]
    pub fn parse_simple_ternary_assign_tmp<'a>(&self, input: Input<'a>) -> (r: Result<(Input<'a>, MidIR), ParseError>)
        requires
            input_fits(input),
            !(spec_ternary(self.stack_size, input.offset as int, input.prog@) is Panics),
        ensures
            pattern_result(input, r, spec_ternary(self.stack_size, input.offset as int, input.prog@)),
    {
        let ghost p = input.prog@;
        let ghost off = input.offset as int;
        let (input1, op1) = match FatInstruction::parse_fat(input) {
            Ok(x) => x,
            Err(e) => return Err(e),
        };
        proof {
            lemma_decode_size(off, p);
        }
        let (value, equal_to, addr1) = match op1.kind {
            GenericInstruction::JumpIf(value, equal_to, OpArg { kind: Arg::Value(addr1), .. }) => (
                value,
                equal_to,
                addr1,
            ),
            _ => return Err(ParseError::NoMatch),
        };
        let mut condition = self.from_arg(&value);
        if equal_to {
            condition = condition.negate();
        }
        let ghost n1 = (input1.offset - input.offset) as nat;
        let (input2, op2) = match FatInstruction::parse_fat(input1) {
            Ok(x) => x,
            Err(e) => return Err(e),
        };
        proof {
            lemma_decode_size(off + n1, after(p, n1));
        }
        let (v1, val1) = match self.instruction_to_midir(&op2.kind) {
            Some(MidIR::Assign(Expr::OutArg(v1), val1)) => (v1, val1),
            _ => return Err(ParseError::NoMatch),
        };
        let ghost n2 = (input2.offset - input1.offset) as nat;
        let (input3, op3) = match FatInstruction::parse_fat(input2) {
            Ok(x) => x,
            Err(e) => return Err(e),
        };
        proof {
            lemma_after_after(p, n1, n2);
            lemma_decode_size(off + n1 + n2, after(p, n1 + n2));
        }
        let addr2 = match op3.kind {
            GenericInstruction::Goto(OpArg { kind: Arg::Value(addr2), .. }) => addr2,
            _ => return Err(ParseError::NoMatch),
        };
        if input3.offset != addr1 as usize {
            return Err(ParseError::NoMatch);
        }
        let ghost n3 = (input3.offset - input2.offset) as nat;
        let (input4, op4) = match FatInstruction::parse_fat(input3) {
            Ok(x) => x,
            Err(e) => return Err(e),
        };
        proof {
            lemma_after_after(after(p, n1), n2, n3);
            lemma_after_after(p, n1 + n2, n3);
        }
        let (v2, val2) = match self.instruction_to_midir(&op4.kind) {
            Some(MidIR::Assign(Expr::OutArg(v2), val2)) => (v2, val2),
            _ => return Err(ParseError::NoMatch),
        };
        if input4.offset != addr2 as usize {
            return Err(ParseError::NoMatch);
        }
        if v1 != v2 {
            return Err(ParseError::NoMatch);
        }
        proof {
            let n4 = (input4.offset - input3.offset) as nat;
            lemma_after_after(after(after(p, n1), n2), n3, n4);
            lemma_after_after(after(p, n1), n2 + n3, n4);
            lemma_after_after(p, n1, n2 + n3 + n4);
        }
        Ok((
            input4,
            MidIR::Assign(Expr::OutArg(v1), Expr::If(Box::new(condition), Box::new(val1), Box::new(val2))),
        ))
    }

    /// One assignment: a plain one, else a conditional one.
    fn parse_one_assign<'a>(&self, input: Input<'a>) -> (r: Result<(Input<'a>, MidIR), ParseError>)
        requires
            input_fits(input),
            !(spec_one_assign(self.stack_size, input.offset as int, input.prog@) is Panics),
        ensures
            pattern_result(input, r, spec_one_assign(self.stack_size, input.offset as int, input.prog@)),
    {
        reveal(spec_one_assign);
        match self.parse_simple_assign(input) {
            Ok(x) => Ok(x),
            Err(_) => self.parse_simple_ternary_assign_tmp(input),
        }
    }

    /// A call of a function: the assignments of the return address and of
    /// the arguments to the output slots, then the jump to the callee.
    pub fn parse_function_call<'a>(&self, input: Input<'a>) -> (r: Result<(Input<'a>, MidIR), ParseError>)
        requires
            input_fits(input),
            !(spec_function_call(self.stack_size, input.offset as int, input.prog@) is Panics),
        ensures
            pattern_result(input, r, spec_function_call(self.stack_size, input.offset as int, input.prog@)),
    {
        reveal(spec_function_call);
        let ghost stack = self.stack_size;
        let ghost whole = spec_call_args(stack, input.offset as int, input.prog@, seq![]);
        let mut cur = input;
        let mut args: Vec<Expr> = Vec::new();
        let mut last_arg_offset: usize = 0;
        let mut return_addr: usize = 0;
        assert(exprs_view(args@) =~= seq![]);
        assert(after(input.prog@, 0) =~= input.prog@);
        loop
            invariant_except_break
                !(whole is Panics),
                whole == spec_call_args(stack, input.offset as int, input.prog@, seq![]),
                stack == self.stack_size,
                input.offset <= cur.offset,
                cur.offset + cur.prog@.len() == input.offset + input.prog@.len(),
                input_fits(cur),
                cur.prog@ == after(input.prog@, (cur.offset - input.offset) as nat),
                last_arg_offset == args@.len(),
                args@.len() <= cur.offset - input.offset,
                whole == match spec_call_args(stack, cur.offset as int, cur.prog@, exprs_view(args@)) {
                    CallArgsView::Done(k, a, s) => CallArgsView::Done(((cur.offset - input.offset) + k) as nat, a, s),
                    other => other,
                },
            ensures
                input.offset <= cur.offset,
                cur.offset + cur.prog@.len() == input.offset + input.prog@.len(),
                input_fits(cur),
                cur.prog@ == after(input.prog@, (cur.offset - input.offset) as nat),
                whole == CallArgsView::Done((cur.offset - input.offset) as nat, return_addr, exprs_view(args@)),
            decreases cur.prog@.len(),
        {
            proof {
                reveal(spec_function_call);
                lemma_one_assign_size(stack, cur.offset as int, cur.prog@);
            }
            let (next, midir) = match self.parse_one_assign(cur) {
                Ok(x) => x,
                Err(e) => return Err(e),
            };
            let (v, val) = match midir {
                MidIR::Assign(Expr::OutArg(v), val) => (v, val),
                _ => return Err(ParseError::NoMatch),
            };
            if v == 0 {
                match val {
                    Expr::Literal(addr) => {
                        return_addr = #[verifier::truncate] (addr as usize);
                        cur = next;
                        break;
                    },
                    _ => return Err(ParseError::NoMatch),
                }
            }
            if v != last_arg_offset + 1 {
                return Err(ParseError::NoMatch);
            }
            proof {
                lemma_after_after(input.prog@, (cur.offset - input.offset) as nat, (next.offset - cur.offset) as nat);
            }
            let ghost before = exprs_view(args@);
            args.push(val);
            assert(exprs_view(args@) =~= before.push(args@.last().view()));
            last_arg_offset = v;
            cur = next;
        }
        let ghost k = (cur.offset - input.offset) as nat;
        let (after_goto, goto) = match FatInstruction::parse_fat(cur) {
            Ok(x) => x,
            Err(e) => return Err(e),
        };
        proof {
            lemma_after_after(input.prog@, k, (after_goto.offset - cur.offset) as nat);
        }
        if return_addr != after_goto.offset {
            return Err(ParseError::NoMatch);
        }
        match goto.kind {
            GenericInstruction::Goto(OpArg { kind: Arg::Value(addr), .. }) => Ok(
                (after_goto, MidIR::FunctionCall(#[verifier::truncate] (addr as usize), args)),
            ),
            GenericInstruction::Goto(OpArg { kind: Arg::RelativeMem(offset), .. }) if offset < 0 => {
                let slot = match self.stack_size.checked_add_signed(#[verifier::truncate] (offset as isize)) {
                    Some(a) => a,
                    None => 0,
                };
                let no_args: Vec<Expr> = Vec::new();
                assert(exprs_view(no_args@) =~= seq![]);
                Ok((after_goto, MidIR::DynamicFunctionCall(Expr::InArg(slot), no_args)))
            },
            _ => Err(ParseError::NoMatch),
        }
    }

    /// Walks the code of a function from its first instruction after the
    /// frame set-up: calls and data instructions form runs of straight-line
    /// statements, returns and jumps become flow nodes, and the walk ends at a
    /// return or backward jump past which nothing has been seen.
    pub fn analyze_flow(&self, input: Input) -> (r: FlowAnalysis)
        requires
            input_fits(input),
            flow_defined(self.stack_size, input.offset, input.prog@),
        ensures
            walk_from(self.stack_size, input.offset, input.prog@) matches WalkEnd::Done(w) && r.span == (Span {
                start: input.offset,
                end: w.max,
            }) && r.halts@ == w.halts && r.graph.view() == spec_build(walk_nodes(w)),
    {
        let ghost stack = self.stack_size;
        let ghost result = walk_from(stack, input.offset, input.prog@);
        let start_offset = input.offset;
        let mut input = input;
        let mut max_addr_seen = start_offset;
        let mut halts: Vec<usize> = Vec::new();
        let mut nodes: Vec<FlowNode> = Vec::new();
        let mut tracker = NonBranchingTracker::new();
        assert(node_views(nodes@) =~= seq![]);
        assert(halts@ =~= seq![]);
        loop
            invariant_except_break
                stack == self.stack_size,
                input_fits(input),
                result == spec_walk(
                    stack,
                    FlowWalk {
                        off: input.offset,
                        rest: input.prog@,
                        max: max_addr_seen,
                        halts: halts@,
                        nodes: node_views(nodes@),
                        tracker: tracker.view(),
                    },
                ),
                result is Done,
                tracker_wf(tracker.view()),
                tracker.view().current matches Some(c) ==> (c.len() > 0 ==> c.last().1 == input.offset),
            ensures
                result == WalkEnd::Done(
                    FlowWalk {
                        off: input.offset,
                        rest: input.prog@,
                        max: max_addr_seen,
                        halts: halts@,
                        nodes: node_views(nodes@),
                        tracker: tracker.view(),
                    },
                ),
                tracker_wf(tracker.view()),
            decreases input.prog@.len(),
        {
            let ghost w = FlowWalk {
                off: input.offset,
                rest: input.prog@,
                max: max_addr_seen,
                halts: halts@,
                nodes: node_views(nodes@),
                tracker: tracker.view(),
            };
            proof {
                lemma_pattern_sizes(stack, input.offset as int, input.prog@);
                lemma_decode_size(input.offset as int, input.prog@);
                lemma_step_shrinks(stack, w);
            }
            let ghost pre_nodes = nodes@;
            let offset = input.offset;
            match self.parse_function_call(input) {
                Ok((new_input, fc)) => {
                    tracker.track(input.offset, new_input.offset, fc);
                    if new_input.offset >= max_addr_seen {
                        max_addr_seen = new_input.offset;
                    }
                    input = new_input;
                },
                Err(_) => {
                    match parse_return(input) {
                        Ok((new_input, _)) => {
                            tracker.end();
                            nodes.push(FlowNode::new_return(Span::new(offset, new_input.offset)));
                            assert(node_views(nodes@) =~= node_views(pre_nodes).push(
                                FlowNodeView { kind: FlowKindView::Return, span: Span { start: offset, end: new_input.offset } },
                            ));
                            input = new_input;
                            if new_input.offset >= max_addr_seen {
                                max_addr_seen = input.offset;
                                break;
                            }
                        },
                        Err(_) => {
                            match FatInstruction::parse_fat(input) {
                                Ok((new_input, op)) => {
                                    match &op.kind {
                                        GenericInstruction::Goto(OpArg { kind: Arg::Value(a), .. }) => {
                                            let addr = #[verifier::truncate] (*a as usize);
                                            tracker.end();
                                            tracker.break_at(addr);
                                            nodes.push(FlowNode::goto(op.span, addr));
                                            assert(node_views(nodes@) =~= node_views(pre_nodes).push(
                                                FlowNodeView { kind: FlowKindView::Goto(addr), span: op.span },
                                            ));
                                            let hi = if addr >= input.offset {
                                                addr
                                            } else {
                                                input.offset
                                            };
                                            if max_addr_seen < hi {
                                                max_addr_seen = hi;
                                            }
                                            if addr <= input.offset && max_addr_seen == input.offset {
                                                break;
                                            }
                                        },
                                        GenericInstruction::Goto(_) => {
                                            assert(false);
                                        },
                                        GenericInstruction::JumpIf(value, equal_to, OpArg { kind: Arg::Value(a), .. }) => {
                                            let addr = #[verifier::truncate] (*a as usize);
                                            tracker.end();
                                            tracker.break_at(addr);
                                            nodes.push(FlowNode::jump_if(op.span, value.kind, *equal_to, addr));
                                            assert(node_views(nodes@) =~= node_views(pre_nodes).push(
                                                FlowNodeView {
                                                    kind: FlowKindView::JumpIf { value: value.kind, equal_to: *equal_to, target: addr },
                                                    span: op.span,
                                                },
                                            ));
                                            let hi = if addr >= new_input.offset {
                                                addr
                                            } else {
                                                new_input.offset
                                            };
                                            if max_addr_seen < hi {
                                                max_addr_seen = hi;
                                            }
                                        },
                                        GenericInstruction::JumpIf(..) => {
                                            assert(false);
                                        },
                                        GenericInstruction::Halt => {
                                            tracker.end();
                                            halts.push(offset);
                                        },
                                        _ => {
                                            match self.instruction_to_midir(&op.kind) {
                                                Some(m) => tracker.track(input.offset, new_input.offset, m),
                                                None => {
                                                    assert(false);
                                                },
                                            }
                                        },
                                    }
                                    if max_addr_seen < new_input.offset {
                                        max_addr_seen = new_input.offset;
                                    }
                                    input = new_input;
                                },
                                Err(_) => {
                                    assert(false);
                                },
                            }
                        },
                    }
                },
            }
        }
        tracker.end();
        let ghost wend = FlowWalk {
            off: input.offset,
            rest: input.prog@,
            max: max_addr_seen,
            halts: halts@,
            nodes: node_views(nodes@),
            tracker: tracker.view(),
        };
        let ghost bs = tracker.view().blocks;
        let ghost first = node_views(nodes@);
        let mut i: usize = 0;
        assert(first =~= first + Seq::new(0, |j: int| run_node(bs[j])));
        while i < tracker.non_branching.len()
            invariant
                i <= tracker.non_branching@.len(),
                bs == tracker.view().blocks,
                tracker_wf(tracker.view()),
                node_views(nodes@) == first + Seq::new(i as nat, |j: int| run_node(bs[j])),
            decreases tracker.non_branching.len() - i,
        {
            let block = &tracker.non_branching[i];
            let ghost b = bs[i as int];
            assert(b == block_view(block@));
            assert(b.len() > 0 && chained(b));
            proof {
                lemma_chained_span(b);
            }
            let start = block[0].0;
            let end = block[block.len() - 1].1;
            let mut ops: Vec<MidIR> = Vec::new();
            let mut k: usize = 0;
            assert(midirs_view(ops@) =~= Seq::new(0, |j: int| b[j].2));
            while k < block.len()
                invariant
                    k <= block@.len(),
                    b == block_view(block@),
                    midirs_view(ops@) == Seq::new(k as nat, |j: int| b[j].2),
                decreases block.len() - k,
            {
                let d = block[k].2.duplicate();
                let ghost prev = ops@;
                ops.push(d);
                assert(ops@.drop_last() =~= prev);
                assert(midirs_view(ops@) =~= Seq::new((k + 1) as nat, |j: int| b[j].2));
                k = k + 1;
            }
            let ghost pre = nodes@;
            nodes.push(FlowNode::non_branching(Span::new(start, end), ops));
            assert(node_views(nodes@) =~= node_views(pre).push(run_node(b)));
            assert(node_views(nodes@) =~= first + Seq::new((i + 1) as nat, |j: int| run_node(bs[j])));
            i = i + 1;
        }
        assert(node_views(nodes@) =~= walk_nodes(wend));
        let graph = FlowGraph::build_from(nodes.as_slice());
        FlowAnalysis { span: Span { start: start_offset, end: max_addr_seen }, graph, halts }
    }
}


/// The condition of the conditional jump that starts at the start of `span`.
fn condition_at(graph: &FlowGraph, parser: &FunctionParser, span: Span) -> (r: Expr)
    requires
        jump_condition(graph.view(), parser.stack_size, span) is Some,
    ensures
        r.view() == jump_condition(graph.view(), parser.stack_size, span)->0,
{
    match node_lookup(graph, span.start) {
        Some(n) => match &n.kind {
            FlowNodeKind::JumpIf { value, equal_to, .. } => {
                let t = parser.expr_of(*value);
                if *equal_to {
                    t
                } else {
                    t.negate()
                }
            },
            _ => Expr::Input(),
        },
        None => Expr::Input(),
    }
}

/// The statement of a structured flow of the function parsed by `parser`,
/// whose flow graph is `graph`.  The condition of an `if` or a loop is that
/// of the conditional jump the structure was recognised by: the condition
/// under which that jump is taken.
pub fn flow_to_mid_ir(flow: &FlowHigh, graph: &FlowGraph, parser: &FunctionParser) -> (r: MidIR)
    requires
        spec_flow_mid(flow.view(), graph.view(), parser.stack_size) is Some,
    ensures
        r.view() == spec_flow_mid(flow.view(), graph.view(), parser.stack_size)->0,
    decreases flow,
{
    match flow {
        FlowHigh::NonBranching { instructions, .. } => {
            proof {
                crate::mid_ir::lemma_midirs_view_index(instructions@);
            }
            if instructions.len() == 1 {
                instructions[0].duplicate()
            } else {
                MidIR::Block(crate::mid_ir::duplicate_midirs(instructions))
            }
        },
        FlowHigh::Composite(flows) => {
            let ghost vs = crate::mid_flow::highs_view(flows@);
            proof {
                crate::mid_flow::lemma_highs_view_len(flows@);
            }
            let mut blocks: Vec<MidIR> = Vec::new();
            let mut i: usize = 0;
            assert(midirs_view(blocks@) =~= seq![]);
            #[verifier::loop_isolation(false)]
            while i < flows.len()
                invariant
                    i <= flows@.len(),
                    vs == crate::mid_flow::highs_view(flows@),
                    vs.len() == flows@.len(),
                    spec_flows_mid(vs, graph.view(), parser.stack_size) is Some,
                    spec_flows_mid(vs.take(i as int), graph.view(), parser.stack_size) == Some(midirs_view(blocks@)),
                decreases flows.len() - i,
            {
                proof {
                    vstd::std_specs::vec::axiom_vec_index_decreases(*flows, i as int);
                    lemma_flows_mid_prefix(vs, (i + 1) as nat, graph.view(), parser.stack_size);
                    crate::mid_flow::lemma_highs_view_index(flows@, i as int);
                    assert(vs.take(i + 1).drop_last() =~= vs.take(i as int));
                    assert(vs.take(i + 1)[i as int] == vs[i as int]);
                }
                let m = flow_to_mid_ir(&flows[i], graph, parser);
                let ghost prev = blocks@;
                blocks.push(m);
                assert(blocks@.drop_last() =~= prev);
                i = i + 1;
            }
            assert(vs.take(i as int) =~= vs);
            MidIR::Block(blocks)
        },
        FlowHigh::While { id, jump_if_span, expr, body } => {
            let header = match expr {
                Some(h) => Some(Box::new(flow_to_mid_ir(h, graph, parser))),
                None => None,
            };
            let cond = condition_at(graph, parser, *jump_if_span);
            MidIR::While(*id, header, cond, Box::new(flow_to_mid_ir(body, graph, parser)))
        },
        FlowHigh::DoWhile { id, body, jump_if_span } => {
            let cond = condition_at(graph, parser, *jump_if_span);
            MidIR::DoWhile(*id, Box::new(flow_to_mid_ir(body, graph, parser)), cond)
        },
        FlowHigh::Loop { id, body } => MidIR::Loop(*id, Box::new(flow_to_mid_ir(body, graph, parser))),
        FlowHigh::If { jump_if_span, then } => {
            let cond = condition_at(graph, parser, *jump_if_span);
            MidIR::If(cond, Box::new(flow_to_mid_ir(then, graph, parser)), None)
        },
        FlowHigh::IfElse { jump_if_span, then, els } => {
            let cond = condition_at(graph, parser, *jump_if_span);
            MidIR::If(
                cond,
                Box::new(flow_to_mid_ir(then, graph, parser)),
                Some(Box::new(flow_to_mid_ir(els, graph, parser))),
            )
        },
        FlowHigh::Return => MidIR::Return(),
        FlowHigh::Break(id) => MidIR::Break(*id),
        FlowHigh::Continue(id) => MidIR::Continue(*id),
    }
}

pub proof fn lemma_flows_mid_prefix(v: Seq<HighView>, k: nat, g: FlowGraphView, stack: usize)
    requires
        k <= v.len(),
        spec_flows_mid(v, g, stack) is Some,
    ensures
        spec_flows_mid(v.take(k as int), g, stack) is Some,
        k > 0 ==> spec_flow_mid(v[k - 1], g, stack) is Some,
    decreases v.len() - k,
{
    if k < v.len() {
        lemma_flows_mid_prefix(v, k + 1, g, stack);
        let t = v.take(k + 1 as int);
        assert(t.drop_last() =~= v.take(k as int));
        assert(t[t.len() - 1] == v[k as int]);
    } else {
        assert(v.take(k as int) =~= v);
        if k > 0 {
            assert(v[v.len() - 1] == v[k - 1]);
        }
    }
}


/// How an argument of a function is used: as a value, or as a pointer to a
/// function taking arguments of the given kinds.
pub enum ArgType {
    Value,
    FunctionPointer { args: Vec<ArgType> },
}

/// A named argument of a function.
pub struct Argument {
    pub name: String,
    pub typ: ArgType,
}

/// A function found in a program: its address range, the size of its stack
/// frame, what is known of its arguments, calls and return point, and its
/// body.
pub struct FunctionRange {
    pub start: usize,
    pub end: usize,
    pub stack_size: usize,
    pub args: Vec<Argument>,
    pub static_calls: Vec<usize>,
    pub return_point: Option<usize>,
    pub block: MidIR,
}

/// The frame set-up at the start of a function: the words it covers and the
/// size of the frame.  The relative base moves up by a positive constant; in
/// the entry code at address 0 the frame counts as empty.
pub open spec fn spec_frame(off: int, prog: Seq<i128>) -> Result<(nat, usize), ParseError> {
    match spec_decode(off, prog) {
        Err(e) => Err(e),
        Ok((n, i)) => match i {
            GenericInstruction::AdjustRelativeBase(a) => match a.kind {
                Arg::Value(r) => if r > 0 {
                    Ok((n, if off == 0 { 0 } else { r as usize }))
                } else {
                    Err(ParseError::NoMatch)
                },
                _ => Err(ParseError::NoMatch),
            },
            _ => Err(ParseError::NoMatch),
        },
    }
}

/// The flow graph and the region of a function body whose walk ended in `w`.
pub open spec fn body_graph(w: FlowWalk) -> FlowGraphView {
    spec_build(walk_nodes(w))
}

/// The structure of the function body whose code starts at `start`: its
/// graph, its region and its structured flow, when the walk ends and the
/// region has a structure.
pub open spec fn body_flow(stack: usize, start: usize, prog: Seq<i128>) -> Option<(FlowWalk, HighView)> {
    match walk_from(stack, start, prog) {
        WalkEnd::Done(w) => {
            let g = body_graph(w);
            let region = Span { start, end: w.max };
            match spec_parse_flow(g, region, flow_fuel(g, region)) {
                Parsed::Done(_, h) => Some((w, h)),
                _ => None,
            }
        },
        WalkEnd::Panics => None,
    }
}

/// Whether a function can be parsed at `off`: after a frame set-up, its walk
/// ends, its region has a structure, and every part of the structure has a
/// statement.
pub open spec fn function_defined(off: usize, prog: Seq<i128>) -> bool {
    match spec_frame(off as int, prog) {
        Err(_) => true,
        Ok((n, stack)) => {
            let start = (off + n) as usize;
            let rest = after(prog, n);
            &&& flow_defined(stack, start, rest)
            &&& (walk_from(stack, start, rest) matches WalkEnd::Done(w) && parse_flow_terminates(
                body_graph(w),
                Span { start, end: w.max },
            ))
            &&& (body_flow(stack, start, rest) matches Some((w, h)) && spec_flow_mid(h, body_graph(w), stack) is Some)
        },
    }
}

/// Parses the function whose code starts at `input`: the frame set-up, then
/// the body, walked into a flow graph, structured, and turned into
/// statements.
pub fn parse_function(input: Input) -> (r: Result<FunctionRange, ParseError>)
    requires
        input_fits(input),
        function_defined(input.offset, input.prog@),
    ensures
        match spec_frame(input.offset as int, input.prog@) {
            Err(e) => r is Err && r->Err_0 == e,
            Ok((n, stack)) => r is Ok && ({
                let f = r->Ok_0;
                let start = (input.offset + n) as usize;
                &&& body_flow(stack, start, after(input.prog@, n)) matches Some((w, h))
                &&& f.start == input.offset
                &&& f.end == w.max
                &&& f.stack_size == stack
                &&& f.args@.len() == 0
                &&& f.static_calls@.len() == 0
                &&& f.return_point is None
                &&& f.block.view() == spec_flow_mid(h, body_graph(w), stack)->0
            }),
        },
{
    let start = input.offset;
    let (body, adjust_res) = match FatInstruction::parse_fat(input) {
        Ok(x) => x,
        Err(e) => return Err(e),
    };
    let stack_size = match adjust_res.kind {
        GenericInstruction::AdjustRelativeBase(OpArg { kind: Arg::Value(r), .. }) if r > 0 => {
            if adjust_res.span.start == 0 {
                0
            } else {
                #[verifier::truncate] (r as usize)
            }
        },
        _ => return Err(ParseError::NoMatch),
    };
    let parser = FunctionParser { stack_size };
    let flow = parser.analyze_flow(body);
    let flow_high = match parse_flow(&flow.graph, flow.span) {
        Ok(h) => h,
        Err(_) => {
            assert(false);
            return Err(ParseError::NoMatch);
        },
    };
    let mid_ir = flow_to_mid_ir(&flow_high, &flow.graph, &parser);
    Ok(FunctionRange {
        start: adjust_res.span.start,
        end: flow.span.end,
        stack_size,
        args: Vec::new(),
        static_calls: Vec::new(),
        return_point: None,
        block: mid_ir,
    })
}

/// The direct calls among simple statements: address and argument list.
pub open spec fn spec_calls(leaves: Seq<MidIRView>) -> Seq<(usize, Seq<ExprView>)>
    decreases leaves.len(),
{
    if leaves.len() == 0 {
        seq![]
    } else {
        let r = spec_calls(leaves.drop_last());
        match leaves.last() {
            MidIRView::FunctionCall(a, args) => r.push((a, args)),
            _ => r,
        }
    }
}

/// The direct calls in a function's body, in order.
pub open spec fn function_calls_of(f: FunctionRange) -> Seq<(usize, Seq<ExprView>)> {
    spec_calls(spec_children(f.block.view()))
}

/// The parameters through which calls are made among simple statements.
pub open spec fn spec_dynamic_calls(leaves: Seq<MidIRView>) -> Seq<usize>
    decreases leaves.len(),
{
    if leaves.len() == 0 {
        seq![]
    } else {
        let r = spec_dynamic_calls(leaves.drop_last());
        match leaves.last() {
            MidIRView::DynamicFunctionCall(ExprView::InArg(a), _) => r.push(a),
            _ => r,
        }
    }
}

/// The parameters of a function that it calls through, in order.
pub open spec fn dynamic_calls_of(f: FunctionRange) -> Seq<usize> {
    spec_dynamic_calls(spec_children(f.block.view()))
}

pub open spec fn found_calls_view(v: Seq<(usize, Vec<Expr>)>) -> Seq<(usize, Seq<ExprView>)> {
    Seq::new(v.len(), |i: int| (v[i].0, exprs_view(v[i].1@)))
}

/// The direct calls in a function's body; see [`function_calls_of`].
pub fn find_function_calls(f: &FunctionRange) -> (r: Vec<(usize, Vec<Expr>)>)
    ensures
        found_calls_view(r@) == function_calls_of(*f),
{
    let leaves = children_of(&f.block);
    let ghost lv = refs_view(leaves@);
    let mut calls: Vec<(usize, Vec<Expr>)> = Vec::new();
    let mut i: usize = 0;
    assert(lv.take(0) =~= seq![]);
    assert(found_calls_view(calls@) =~= seq![]);
    while i < leaves.len()
        invariant
            i <= leaves@.len(),
            lv == refs_view(leaves@),
            found_calls_view(calls@) == spec_calls(lv.take(i as int)),
        decreases leaves.len() - i,
    {
        proof {
            assert(lv.take(i + 1).drop_last() =~= lv.take(i as int));
            assert(lv.take(i + 1).last() == leaves@[i as int].view());
        }
        let ghost c0 = calls@;
        match leaves[i] {
            MidIR::FunctionCall(addr, args) => {
                calls.push((*addr, duplicate_exprs(args)));
                assert(found_calls_view(calls@) =~= found_calls_view(c0).push((*addr, exprs_view(args@))));
            },
            _ => {},
        }
        i = i + 1;
    }
    assert(lv.take(i as int) =~= lv);
    calls
}

/// The parameters a function calls through; see [`dynamic_calls_of`].
pub fn find_dynamic_function_calls(f: &FunctionRange) -> (r: Vec<usize>)
    ensures
        r@ == dynamic_calls_of(*f),
{
    let leaves = children_of(&f.block);
    let ghost lv = refs_view(leaves@);
    let mut res: Vec<usize> = Vec::new();
    let mut i: usize = 0;
    assert(lv.take(0) =~= seq![]);
    while i < leaves.len()
        invariant
            i <= leaves@.len(),
            lv == refs_view(leaves@),
            res@ == spec_dynamic_calls(lv.take(i as int)),
        decreases leaves.len() - i,
    {
        proof {
            assert(lv.take(i + 1).drop_last() =~= lv.take(i as int));
            assert(lv.take(i + 1).last() == leaves@[i as int].view());
        }
        match leaves[i] {
            MidIR::DynamicFunctionCall(Expr::InArg(arg), _) => {
                res.push(*arg);
            },
            _ => {},
        }
        i = i + 1;
    }
    assert(lv.take(i as int) =~= lv);
    res
}

/// The address a literal argument names.
pub open spec fn literal_address(e: ExprView) -> usize {
    match e {
        ExprView::Literal(x) => x as usize,
        _ => 0,
    }
}

/// The addresses passed at a call for each of the parameters `in_args`
/// (counted from one); a parameter past the call's arguments gives nothing.
pub open spec fn pointers_for_call(in_args: Seq<usize>, args: Seq<ExprView>) -> Seq<usize>
    decreases in_args.len(),
{
    if in_args.len() == 0 {
        seq![]
    } else {
        let r = pointers_for_call(in_args.drop_last(), args);
        let a = in_args.last();
        if a > args.len() {
            r
        } else {
            r.push(literal_address(args[a - 1]))
        }
    }
}

/// The addresses passed to the function at `start` by the calls.
pub open spec fn pointers_from_calls(start: usize, in_args: Seq<usize>, calls: Seq<(usize, Seq<ExprView>)>) -> Seq<usize>
    decreases calls.len(),
{
    if calls.len() == 0 {
        seq![]
    } else {
        let r = pointers_from_calls(start, in_args, calls.drop_last());
        let c = calls.last();
        if c.0 != start {
            r
        } else {
            r + pointers_for_call(in_args, c.1)
        }
    }
}

/// The addresses passed to the function at `start` by the calls of each
/// function, in order.
pub open spec fn pointers_from_functions(start: usize, in_args: Seq<usize>, gs: Seq<FunctionRange>) -> Seq<usize>
    decreases gs.len(),
{
    if gs.len() == 0 {
        seq![]
    } else {
        pointers_from_functions(start, in_args, gs.drop_last()) + pointers_from_calls(
            start,
            in_args,
            function_calls_of(gs.last()),
        )
    }
}

/// The addresses passed, for each function in `order`, to the parameters
/// it calls through.
pub open spec fn pointers_in_order(fs: Seq<FunctionRange>, order: Seq<usize>) -> Seq<usize>
    decreases order.len(),
{
    if order.len() == 0 {
        seq![]
    } else {
        let f = fs[order.last() as int];
        pointers_in_order(fs, order.drop_last()) + pointers_from_functions(f.start, dynamic_calls_of(f), fs)
    }
}

/// The items of `s`, each once, in the order of their first occurrence.
pub open spec fn unique_first(s: Seq<usize>) -> Seq<usize>
    decreases s.len(),
{
    if s.len() == 0 {
        seq![]
    } else {
        let u = unique_first(s.drop_last());
        if u.contains(s.last()) {
            u
        } else {
            u.push(s.last())
        }
    }
}

/// The positions of the functions ordered by start address.
pub open spec fn start_order(fs: Seq<FunctionRange>) -> Seq<usize> {
    spec_sorted_indices(spec_keyed(fs.map_values(|f: FunctionRange| f.start)))
}

/// The addresses that functions are called through: for each function, by
/// start address, that calls through a parameter, the literal passed for it
/// at each call of that function; each address once.
pub open spec fn spec_function_pointers(fs: Seq<FunctionRange>) -> Seq<usize> {
    unique_first(pointers_in_order(fs, start_order(fs)))
}

/// Whether every parameter that a function calls through is counted from
/// one, and every call of it passes a literal for it where it passes one.
pub open spec fn pointers_defined(fs: Seq<FunctionRange>) -> bool {
    forall|i: int, j: int, k: int, m: int|
        0 <= i < fs.len() && 0 <= j < fs.len() && 0 <= k < function_calls_of(fs[j]).len() && 0 <= m
            < dynamic_calls_of(fs[i]).len() && function_calls_of(fs[j])[k].0 == fs[i].start ==> {
            let a = #[trigger] dynamic_calls_of(fs[i])[m];
            let args = #[trigger] function_calls_of(fs[j])[k].1;
            a >= 1 && (a <= args.len() ==> args[a - 1] is Literal)
        }
}

/// The addresses that functions are called through; see
/// [`spec_function_pointers`].
pub fn discover_function_pointers(functions: &[FunctionRange]) -> (r: Vec<usize>)
    requires
        pointers_defined(functions@),
    ensures
        r@ == spec_function_pointers(functions@),
{
    let ghost fs = functions@;
    let mut keys: Vec<usize> = Vec::new();
    let mut i: usize = 0;
    while i < functions.len()
        invariant
            fs == functions@,
            i <= fs.len(),
            keys@ == fs.map_values(|f: FunctionRange| f.start).take(i as int),
        decreases functions.len() - i,
    {
        keys.push(functions[i].start);
        i = i + 1;
        assert(keys@ =~= fs.map_values(|f: FunctionRange| f.start).take(i as int));
    }
    assert(keys@ =~= fs.map_values(|f: FunctionRange| f.start));
    let order = sorted_indices(&keys);
    proof {
        lemma_sorted_indices_members(spec_keyed(keys@));
    }
    let mut new_funcs: Vec<usize> = Vec::new();
    let mut k: usize = 0;
    assert(order@.take(0) =~= seq![]);
    while k < order.len()
        invariant
            fs == functions@,
            pointers_defined(fs),
            order@ == start_order(fs),
            forall|j: int| 0 <= j < order@.len() ==> exists|q: int| 0 <= q < spec_keyed(keys@).len() && spec_keyed(keys@)[q].1 == #[trigger] order@[j],
            keys@.len() == fs.len(),
            k <= order@.len(),
            new_funcs@ == pointers_in_order(fs, order@.take(k as int)),
        decreases order.len() - k,
    {
        let fi = order[k];
        proof {
            let q = choose|q: int| 0 <= q < spec_keyed(keys@).len() && spec_keyed(keys@)[q].1 == order@[k as int];
            assert(fi < fs.len());
            assert(order@.take(k + 1).drop_last() =~= order@.take(k as int));
        }
        let f = &functions[fi];
        let in_args = find_dynamic_function_calls(f);
        let ghost base = new_funcs@;
        let mut gi: usize = 0;
        assert(fs.take(0) =~= seq![]);
        assert(base + pointers_from_functions(f.start, in_args@, fs.take(0)) =~= base);
        while gi < functions.len()
            invariant
                fs == functions@,
                pointers_defined(fs),
                fi < fs.len(),
                *f == fs[fi as int],
                in_args@ == dynamic_calls_of(*f),
                gi <= fs.len(),
                new_funcs@ == base + pointers_from_functions(f.start, in_args@, fs.take(gi as int)),
            decreases functions.len() - gi,
        {
            let calls = find_function_calls(&functions[gi]);
            let ghost cv = found_calls_view(calls@);
            let ghost base2 = new_funcs@;
            let mut ci: usize = 0;
            assert(cv.take(0) =~= seq![]);
            assert(base2 + pointers_from_calls(f.start, in_args@, cv.take(0)) =~= base2);
            while ci < calls.len()
                invariant
                    fs == functions@,
                    pointers_defined(fs),
                    fi < fs.len(),
                    gi < fs.len(),
                    *f == fs[fi as int],
                    in_args@ == dynamic_calls_of(*f),
                    cv == found_calls_view(calls@),
                    cv == function_calls_of(fs[gi as int]),
                    ci <= calls@.len(),
                    new_funcs@ == base2 + pointers_from_calls(f.start, in_args@, cv.take(ci as int)),
                decreases calls.len() - ci,
            {
                proof {
                    assert(cv.take(ci + 1).drop_last() =~= cv.take(ci as int));
                    assert(cv.take(ci + 1).last() == cv[ci as int]);
                }
                if calls[ci].0 != f.start {
                    ci = ci + 1;
                    continue;
                }
                let args = &calls[ci].1;
                let ghost base3 = new_funcs@;
                let mut ai: usize = 0;
                assert(in_args@.take(0) =~= seq![]);
                while ai < in_args.len()
                    invariant
                        fs == functions@,
                        pointers_defined(fs),
                        fi < fs.len(),
                        gi < fs.len(),
                        ci < calls@.len(),
                        *f == fs[fi as int],
                        in_args@ == dynamic_calls_of(*f),
                        cv == found_calls_view(calls@),
                        cv == function_calls_of(fs[gi as int]),
                        cv[ci as int].0 == f.start,
                        *args == calls@[ci as int].1,
                        ai <= in_args@.len(),
                        new_funcs@ == base3 + pointers_for_call(in_args@.take(ai as int), exprs_view(args@)),
                    decreases in_args.len() - ai,
                {
                    let arg = in_args[ai];
                    proof {
                        assert(in_args@.take(ai + 1).drop_last() =~= in_args@.take(ai as int));
                        assert(in_args@.take(ai + 1).last() == arg);
                        let a = dynamic_calls_of(fs[fi as int])[ai as int];
                        let xs = function_calls_of(fs[gi as int])[ci as int].1;
                        assert(a >= 1 && (a <= xs.len() ==> xs[a - 1] is Literal));
                        assert(xs == exprs_view(args@));
                    }
                    if arg > args.len() {
                    } else {
                        match &args[arg - 1] {
                            Expr::Literal(addr) => {
                                new_funcs.push(#[verifier::truncate] (*addr as usize));
                            },
                            _ => {
                                assert(false);
                            },
                        }
                    }
                    ai = ai + 1;
                }
                assert(in_args@.take(ai as int) =~= in_args@);
                ci = ci + 1;
            }
            assert(cv.take(ci as int) =~= cv);
            proof {
                assert(fs.take(gi + 1).drop_last() =~= fs.take(gi as int));
                assert(fs.take(gi + 1).last() == fs[gi as int]);
            }
            gi = gi + 1;
        }
        assert(fs.take(gi as int) =~= fs);
        k = k + 1;
    }
    assert(order@.take(k as int) =~= order@);
    let mut result: Vec<usize> = Vec::new();
    let mut u: usize = 0;
    assert(new_funcs@.take(0) =~= seq![]);
    while u < new_funcs.len()
        invariant
            u <= new_funcs@.len(),
            result@ == unique_first(new_funcs@.take(u as int)),
        decreases new_funcs.len() - u,
    {
        proof {
            assert(new_funcs@.take(u + 1).drop_last() =~= new_funcs@.take(u as int));
        }
        if !contains_address(&result, new_funcs[u]) {
            result.push(new_funcs[u]);
        }
        u = u + 1;
    }
    assert(new_funcs@.take(u as int) =~= new_funcs@);
    result
}

} // verus!
