//! Basic blocks and control flow graphs of functions.
use vstd::prelude::*;
use crate::low_ir::{ArgBase, GenericInstruction, Input, InstrView, ParseError, Span, spec_convert, spec_decode, lemma_decode_size};
use crate::function_parser::{after, lemma_after_after, spec_frame};
use crate::assoc::{Key, assoc_get, assoc_insert, insert_value, keys_distinct, lemma_insert_distinct};
use crate::low_ir::{Arg, ArgText, Instruction, spec_instr_text};
use crate::text::{append_str, append_uint, spec_uint_text, uint_text};
use crate::order::{spec_sorted_indices, spec_keyed, sorted_indices, lemma_sorted_indices_members};

verus! {

/// A basic block, named by its start address.
#[derive(Debug, Copy, Clone, PartialEq, Eq, Hash, PartialOrd, Ord, Structural)]
pub struct BlockId(pub usize);

impl BlockId {
    /// The start address of the block.
    pub fn addr(&self) -> (r: usize)
        ensures
            r == self.0,
    {
        self.0
    }

    /// The block starting at `id`.
    pub fn from_addr(id: usize) -> (r: BlockId)
        ensures
            r.0 == id,
    {
        BlockId(id)
    }
}

impl Key for BlockId {
    fn same(&self, other: &Self) -> (r: bool) {
        *self == *other
    }
}

/// A function, named by the address of its entry.
#[derive(Debug, Copy, Clone, PartialEq, Eq, Hash, PartialOrd, Ord, Structural)]
pub struct FunctionId(pub usize);

impl FunctionId {
    pub fn new(id: usize) -> (r: FunctionId)
        ensures
            r.0 == id,
    {
        FunctionId(id)
    }

    /// The entry block of the function.
    pub fn as_block_id(&self) -> (r: BlockId)
        ensures
            r.0 == self.0,
    {
        BlockId(self.0)
    }
}


/// A call that leaves a block: the calling block, the callee's address and
/// the block the call returns to.
#[derive(Debug, Copy, Clone)]
pub struct FunctionCall<A> {
    pub calling_block: BlockId,
    pub function_addr: A,
    pub return_block: BlockId,
}

/// A conditional jump that ends a block: the block it is in, the block it
/// jumps to, the block that follows it, the tested operand, and whether the
/// jump is taken when that operand is non-zero (`true`) or zero (`false`).
#[derive(Debug, Copy, Clone)]
pub struct Condition<A> {
    pub from_block: BlockId,
    pub jump_block: BlockId,
    pub follows_block: BlockId,
    pub arg: A,
    pub matches: bool,
}

/// How control leaves a block.
#[derive(Debug, Copy, Clone)]
pub enum NextKind<A> {
    /// The block runs into the block that immediately follows.
    Follows(BlockId),
    /// An unconditional jump.
    Goto(A),
    FunctionCall(FunctionCall<A>),
    Condition(Condition<A>),
    Halt,
    Unknown,
    Return,
}

/// How control enters a block from another one.
#[derive(Debug, Copy, Clone)]
pub enum PredecessorKind<A> {
    /// From the block immediately before.
    FollowsFrom(BlockId),
    /// From the block whose jump comes here.
    GotoFrom(BlockId),
    FunctionCallReturns(FunctionCall<A>),
    ConditionalFollow(Condition<A>),
    ConditionalJump(Condition<A>),
}

/// The block a predecessor entry names.
pub open spec fn pred_block<A>(p: PredecessorKind<A>) -> BlockId {
    match p {
        PredecessorKind::FollowsFrom(b) => b,
        PredecessorKind::GotoFrom(b) => b,
        PredecessorKind::FunctionCallReturns(fc) => fc.calling_block,
        PredecessorKind::ConditionalFollow(c) => c.from_block,
        PredecessorKind::ConditionalJump(c) => c.from_block,
    }
}

impl<A: ArgBase> PredecessorKind<A> {
    /// The block control comes from.
    pub fn block_id(&self) -> (r: BlockId)
        ensures
            r == pred_block(*self),
    {
        match self {
            PredecessorKind::FollowsFrom(block_id) => *block_id,
            PredecessorKind::GotoFrom(block_id) => *block_id,
            PredecessorKind::FunctionCallReturns(FunctionCall { calling_block, .. }) => *calling_block,
            PredecessorKind::ConditionalFollow(Condition { from_block, .. }) => *from_block,
            PredecessorKind::ConditionalJump(Condition { from_block, .. }) => *from_block,
        }
    }
}

/// A basic block: the blocks control comes from, its instructions with their
/// addresses, how control leaves it, and the addresses it covers (its final
/// jump included).
pub struct Block<A> {
    pub predecessors: Vec<PredecessorKind<A>>,
    pub ops: Vec<(usize, GenericInstruction<A>)>,
    pub next: NextKind<A>,
    pub span: Span,
}

pub open spec fn ops_view<A>(v: Seq<(usize, GenericInstruction<A>)>) -> Seq<(usize, InstrView<A>)> {
    Seq::new(v.len(), |i: int| (v[i].0, v[i].1@))
}

/// The mathematical value of a block.
pub ghost struct BlockView<A> {
    pub predecessors: Seq<PredecessorKind<A>>,
    pub ops: Seq<(usize, InstrView<A>)>,
    pub next: NextKind<A>,
    pub span: Span,
}

impl<A> Block<A> {
    pub open spec fn view(&self) -> BlockView<A> {
        BlockView { predecessors: self.predecessors@, ops: ops_view(self.ops@), next: self.next, span: self.span }
    }

    /// The block's name: its start address.
    pub fn id(&self) -> (r: BlockId)
        ensures
            r == BlockId(self.span.start),
    {
        BlockId(self.span.start)
    }
}

/// What a pattern at the end of a block adds: the words it covers, the
/// instructions it adds, and how the block is left; or why it does not match.
pub ghost enum Ending<A> {
    Yes(nat, Seq<(usize, InstrView<A>)>, NextKind<A>),
    No(ParseError),
}

/// A call: an assignment of a constant return address, then a jump that
/// returns right after itself.
pub open spec fn spec_block_call<A: ArgBase>(off: int, prog: Seq<i128>) -> Ending<A> {
    match spec_decode(off, prog) {
        Err(e) => Ending::No(e),
        Ok((n1, f1)) => {
            let i1 = spec_convert::<A>(f1@);
            match i1 {
                InstrView::Assign(_, arg) => match arg.spec_value() {
                    Some(v) => {
                        let ret = v as usize;
                        match spec_decode(off + n1, after(prog, n1)) {
                            Err(e) => Ending::No(e),
                            Ok((n2, f2)) => {
                                let i2 = spec_convert::<A>(f2@);
                                match i2 {
                                    InstrView::Goto(g) => if ret != off + n1 + n2 {
                                        Ending::No(ParseError::InvalidOpcode)
                                    } else {
                                        Ending::Yes(
                                            n1 + n2,
                                            seq![(off as usize, i1), ((off + n1) as usize, i2)],
                                            NextKind::FunctionCall(
                                                FunctionCall { calling_block: BlockId(0), function_addr: g, return_block: BlockId(ret) },
                                            ),
                                        )
                                    },
                                    _ => Ending::No(ParseError::InvalidOpcode),
                                }
                            },
                        }
                    },
                    None => Ending::No(ParseError::InvalidOpcode),
                },
                _ => Ending::No(ParseError::InvalidOpcode),
            }
        },
    }
}

/// A return: the relative base moved down by a constant, then a jump to the
/// address stored at the new base.
pub open spec fn spec_block_return<A: ArgBase>(off: int, prog: Seq<i128>) -> Ending<A> {
    match spec_decode(off, prog) {
        Err(e) => Ending::No(e),
        Ok((n1, f1)) => {
            let i1 = spec_convert::<A>(f1@);
            match i1 {
                InstrView::AdjustRelativeBase(arg) => if !(arg.spec_value() matches Some(r) && r < 0) {
                    Ending::No(ParseError::NoMatch)
                } else {
                    match spec_decode(off + n1, after(prog, n1)) {
                        Err(e) => Ending::No(e),
                        Ok((n2, f2)) => {
                            let i2 = spec_convert::<A>(f2@);
                            match i2 {
                                InstrView::Goto(g) => if g.spec_relative_mem() != Some(0i128) {
                                    Ending::No(ParseError::NoMatch)
                                } else {
                                    Ending::Yes(
                                        n1 + n2,
                                        seq![(off as usize, i1), ((off + n1) as usize, i2)],
                                        NextKind::Return,
                                    )
                                },
                                _ => Ending::No(ParseError::NoMatch),
                            }
                        },
                    }
                },
                _ => Ending::No(ParseError::NoMatch),
            }
        },
    }
}

/// Whether `v` holds `a`.
pub fn contains_address(v: &Vec<usize>, a: usize) -> (r: bool)
    ensures
        r == v@.contains(a),
{
    let mut i: usize = 0;
    while i < v.len()
        invariant
            i <= v@.len(),
            forall|j: int| 0 <= j < i ==> v@[j] != a,
        decreases v.len() - i,
    {
        if v[i] == a {
            assert(v@[i as int] == a);
            return true;
        }
        i = i + 1;
    }
    false
}

/// Whether an executable block is the view with the ending applied.
pub open spec fn ended<A>(before: BlockView<A>, after_block: BlockView<A>, add: Seq<(usize, InstrView<A>)>, next: NextKind<A>) -> bool {
    after_block == BlockView { ops: before.ops + add, next, ..before }
}

pub open spec fn input_fits(i: Input) -> bool {
    i.offset + i.prog@.len() + 4 <= usize::MAX
}


/// After a halt at `halt`: a jump back to the halt (recorded at the halt's
/// address), then possibly a return; the words covered and the instructions
/// added, or `None` when no such jump follows.
pub open spec fn spec_halt_exit<A: ArgBase>(halt: usize, off: int, prog: Seq<i128>) -> Option<(nat, Seq<(usize, InstrView<A>)>)> {
    match spec_decode(off, prog) {
        Err(_) => None,
        Ok((n, f)) => {
            let i = spec_convert::<A>(f@);
            match i {
                InstrView::Goto(a) => match a.spec_value() {
                    Some(v) => if (v as usize) != halt {
                        None
                    } else {
                        match spec_block_return::<A>(off + n, after(prog, n)) {
                            Ending::Yes(n2, add, _) => Some((n + n2, seq![(halt, i)] + add)),
                            Ending::No(_) => Some((n, seq![(halt, i)])),
                        }
                    },
                    None => None,
                },
                _ => None,
            }
        },
    }
}

/// One step of reading a block: the words covered, the instructions added,
/// the new way of leaving the block if it changes, and whether the block goes
/// on; or the error that stops it.
pub ghost enum Single<A> {
    Step(nat, Seq<(usize, InstrView<A>)>, Option<NextKind<A>>, bool),
    Fail(ParseError),
}

/// One step of reading a block: a call or a return ends it; otherwise one
/// instruction is added, and a jump or a halt ends the block.
#[verifier::opaque]
pub open spec fn spec_single<A: ArgBase>(off: int, prog: Seq<i128>) -> Single<A> {
    match spec_block_call::<A>(off, prog) {
        Ending::Yes(n, add, next) => Single::Step(n, add, Some(next), false),
        Ending::No(_) => match spec_block_return::<A>(off, prog) {
            Ending::Yes(n, add, next) => Single::Step(n, add, Some(next), false),
            Ending::No(_) => match spec_decode(off, prog) {
                Err(e) => Single::Fail(e),
                Ok((n, f)) => {
                    let i = spec_convert::<A>(f@);
                    let add = seq![(off as usize, i)];
                    match i {
                        InstrView::Goto(a) => Single::Step(n, add, Some(NextKind::Goto(a)), false),
                        InstrView::JumpIf(arg, m, ja) => match ja.spec_value() {
                            Some(v) => Single::Step(
                                n,
                                add,
                                Some(
                                    NextKind::Condition(
                                        Condition {
                                            from_block: BlockId(0),
                                            jump_block: BlockId(v as usize),
                                            follows_block: BlockId((off + n) as usize),
                                            arg,
                                            matches: m,
                                        },
                                    ),
                                ),
                                false,
                            ),
                            None => Single::Step(n, add, None, true),
                        },
                        InstrView::Halt => match spec_halt_exit::<A>(off as usize, off + n, after(prog, n)) {
                            Some((k, more)) => Single::Step(n + k, add + more, Some(NextKind::Halt), false),
                            None => Single::Step(n, add, Some(NextKind::Halt), false),
                        },
                        _ => Single::Step(n, add, None, true),
                    }
                },
            },
        },
    }
}

pub proof fn lemma_single_size<A: ArgBase>(off: int, prog: Seq<i128>)
    ensures
        spec_single::<A>(off, prog) matches Single::Step(n, _, _, _) ==> 1 <= n <= prog.len(),
        spec_decode(off, prog) matches Ok((_, f)) ==> !(f@ is Data),
{
    reveal(spec_single);
    lemma_decode_size(off, prog);
    if let Ok((n1, _)) = spec_decode(off, prog) {
        let p2 = after(prog, n1);
        lemma_decode_size(off + n1, p2);
        if let Ok((n2, _)) = spec_decode(off + n1, p2) {
            lemma_decode_size(off + n1 + n2, after(p2, n2));
        }
    }
}

/// Reading a block from `off` on, after the instructions `ops`, with `next`
/// as the way of leaving it so far: the block stops at a call, return, jump
/// or halt, before an address in `targets`, or at the end of the program.
pub open spec fn spec_block_rest<A: ArgBase>(
    off: int,
    prog: Seq<i128>,
    targets: Seq<usize>,
    ops: Seq<(usize, InstrView<A>)>,
    next: NextKind<A>,
) -> Result<(nat, Seq<(usize, InstrView<A>)>, NextKind<A>), ParseError>
    decreases prog.len(),
{
    if prog.len() == 0 && ops.len() > 0 {
        Ok((0, ops, next))
    } else {
    match spec_single::<A>(off, prog) {
        Single::Fail(e) => Err(e),
        Single::Step(n, add, nx, cont) => {
            let ops2 = ops + add;
            let next2 = match nx {
                Some(x) => x,
                None => next,
            };
            let off2 = off + n;
            if !cont {
                Ok((n, ops2, next2))
            } else if targets.contains(off2 as usize) {
                Ok((n, ops2, NextKind::Follows(BlockId(off2 as usize))))
            } else {
                proof {
                    lemma_single_size::<A>(off, prog);
                }
                match spec_block_rest::<A>(off2, after(prog, n), targets, ops2, next2) {
                    Ok((k, o, x)) => Ok((n + k, o, x)),
                    Err(e) => Err(e),
                }
            }
        },
    }
    }
}

/// The block that starts at `off`.
pub open spec fn spec_block<A: ArgBase>(off: usize, prog: Seq<i128>, targets: Seq<usize>) -> Result<BlockView<A>, ParseError> {
    match spec_block_rest::<A>(off as int, prog, targets, seq![], NextKind::Unknown) {
        Ok((n, ops, next)) => Ok(
            BlockView { predecessors: seq![], ops, next, span: Span { start: off, end: (off + n) as usize } },
        ),
        Err(e) => Err(e),
    }
}


/// Whether the way a block is left names its successors: an unconditional
/// jump must go to a constant address.
pub open spec fn next_defined<A: ArgBase>(n: NextKind<A>) -> bool {
    match n {
        NextKind::Goto(arg) => arg.spec_value() is Some,
        _ => true,
    }
}

/// The blocks control can go to when it leaves a block.
pub open spec fn next_targets<A: ArgBase>(n: NextKind<A>) -> Seq<BlockId> {
    match n {
        NextKind::Follows(a) => seq![a],
        NextKind::Goto(arg) => match arg.spec_value() {
            Some(v) => seq![BlockId(v as usize)],
            None => seq![],
        },
        NextKind::FunctionCall(fc) => seq![fc.return_block],
        NextKind::Condition(c) => seq![c.jump_block, c.follows_block],
        _ => seq![],
    }
}

impl<A: ArgBase> Block<A> {
    /// Recognises a call at the start of `input` and ends the block with it.
    fn parse_function_call<'a>(input: Input<'a>, block: &mut Block<A>) -> (r: Result<Input<'a>, ParseError>)
        requires
            input_fits(input),
        ensures
            match spec_block_call::<A>(input.offset as int, input.prog@) {
                Ending::Yes(n, add, next) => r is Ok && r->Ok_0.offset == input.offset + n
                    && r->Ok_0.prog@ == after(input.prog@, n) && ended(old(block).view(), final(block).view(), add, next),
                Ending::No(e) => r == Err::<Input<'a>, ParseError>(e) && final(block).view() == old(block).view(),
            },
    {
        let assign_offset = input.offset;
        let (input1, assign_op) = match GenericInstruction::<A>::parse(input) {
            Ok(x) => x,
            Err(e) => return Err(e),
        };
        proof {
            lemma_decode_size(input.offset as int, input.prog@);
        }
        let return_addr = match &assign_op {
            GenericInstruction::Assign(_, arg) => match arg.value() {
                Some(v) => v,
                None => return Err(ParseError::InvalidOpcode),
            },
            _ => return Err(ParseError::InvalidOpcode),
        };
        let return_addr = #[verifier::truncate] (return_addr as usize);
        let goto_offset = input1.offset;
        let (input2, goto_op) = match GenericInstruction::<A>::parse(input1) {
            Ok(x) => x,
            Err(e) => return Err(e),
        };
        proof {
            lemma_after_after(input.prog@, (input1.offset - input.offset) as nat, (input2.offset - input1.offset) as nat);
        }
        let goto_arg = match &goto_op {
            GenericInstruction::Goto(g) => *g,
            _ => return Err(ParseError::InvalidOpcode),
        };
        if return_addr != input2.offset {
            return Err(ParseError::InvalidOpcode);
        }
        block.next = NextKind::FunctionCall(
            FunctionCall { calling_block: BlockId(0), function_addr: goto_arg, return_block: BlockId(return_addr) },
        );
        let ghost before = ops_view(block.ops@);
        let ghost a1 = assign_op@;
        let ghost a2 = goto_op@;
        block.ops.push((assign_offset, assign_op));
        block.ops.push((goto_offset, goto_op));
        assert(ops_view(block.ops@) =~= before + seq![(assign_offset, a1), (goto_offset, a2)]);
        Ok(input2)
    }

    /// Recognises a return at the start of `input` and ends the block with it.
    fn parse_return<'a>(input: Input<'a>, block: &mut Block<A>) -> (r: Result<Input<'a>, ParseError>)
        requires
            input_fits(input),
        ensures
            match spec_block_return::<A>(input.offset as int, input.prog@) {
                Ending::Yes(n, add, next) => r is Ok && r->Ok_0.offset == input.offset + n
                    && r->Ok_0.prog@ == after(input.prog@, n) && ended(old(block).view(), final(block).view(), add, next),
                Ending::No(e) => r == Err::<Input<'a>, ParseError>(e) && final(block).view() == old(block).view(),
            },
    {
        let adjust_offset = input.offset;
        let (input1, adjust_op) = match GenericInstruction::<A>::parse(input) {
            Ok(x) => x,
            Err(e) => return Err(e),
        };
        proof {
            lemma_decode_size(input.offset as int, input.prog@);
        }
        match &adjust_op {
            GenericInstruction::AdjustRelativeBase(arg) => {
                match arg.value() {
                    Some(r) => {
                        if r >= 0 {
                            return Err(ParseError::NoMatch);
                        }
                    },
                    None => return Err(ParseError::NoMatch),
                }
            },
            _ => return Err(ParseError::NoMatch),
        }
        let goto_offset = input1.offset;
        let (input2, goto_op) = match GenericInstruction::<A>::parse(input1) {
            Ok(x) => x,
            Err(e) => return Err(e),
        };
        proof {
            lemma_after_after(input.prog@, (input1.offset - input.offset) as nat, (input2.offset - input1.offset) as nat);
        }
        match &goto_op {
            GenericInstruction::Goto(g) => {
                if g.relative_mem() != Some(0i128) {
                    return Err(ParseError::NoMatch);
                }
            },
            _ => return Err(ParseError::NoMatch),
        }
        block.next = NextKind::Return;
        let ghost before = ops_view(block.ops@);
        let ghost a1 = adjust_op@;
        let ghost a2 = goto_op@;
        block.ops.push((adjust_offset, adjust_op));
        block.ops.push((goto_offset, goto_op));
        assert(ops_view(block.ops@) =~= before + seq![(adjust_offset, a1), (goto_offset, a2)]);
        Ok(input2)
    }

    /// After a halt: a jump back to the halt and possibly a return.
    fn parse_halt_exit<'a>(block: &mut Block<A>, input: Input<'a>) -> (r: Result<Input<'a>, ParseError>)
        requires
            input_fits(input),
            input.offset >= 1,
        ensures
            match spec_halt_exit::<A>((input.offset - 1) as usize, input.offset as int, input.prog@) {
                Some((n, add)) => r is Ok && r->Ok_0.offset == input.offset + n && r->Ok_0.prog@ == after(input.prog@, n)
                    && final(block).view().ops == old(block).view().ops + add && final(block).view().span
                    == old(block).view().span && final(block).view().predecessors == old(block).view().predecessors,
                None => r is Err && final(block).view() == old(block).view(),
            },
    {
        let halt_offset = input.offset - 1;
        let (input1, op) = match GenericInstruction::<A>::parse(input) {
            Ok(x) => x,
            Err(e) => return Err(e),
        };
        proof {
            lemma_decode_size(input.offset as int, input.prog@);
        }
        let goto_offset = match &op {
            GenericInstruction::Goto(arg) => match arg.value() {
                Some(v) => #[verifier::truncate] (v as usize),
                None => return Err(ParseError::NoMatch),
            },
            _ => return Err(ParseError::NoMatch),
        };
        if goto_offset != halt_offset {
            return Err(ParseError::NoMatch);
        }
        let ghost before = ops_view(block.ops@);
        let ghost opv = op@;
        block.ops.push((halt_offset, op));
        assert(ops_view(block.ops@) =~= before + seq![(halt_offset, opv)]);
        let ghost mid = ops_view(block.ops@);
        match Self::parse_return(input1, block) {
            Ok(i) => {
                proof {
                    lemma_after_after(input.prog@, (input1.offset - input.offset) as nat, (i.offset - input1.offset) as nat);
                    assert(ops_view(block.ops@) =~= before + (seq![(halt_offset, opv)] + (ops_view(block.ops@).subrange(mid.len() as int, ops_view(block.ops@).len() as int))));
                }
                Ok(i)
            },
            Err(_) => Ok(input1),
        }
    }

    /// Reads one step of a block; `Ok((rest, true))` when the block goes on.
    fn parse_single<'a>(input: Input<'a>, block: &mut Block<A>) -> (r: Result<(Input<'a>, bool), ParseError>)
        requires
            input_fits(input),
        ensures
            match spec_single::<A>(input.offset as int, input.prog@) {
                Single::Step(n, add, nx, cont) => r is Ok && r->Ok_0.0.offset == input.offset + n && r->Ok_0.0.prog@
                    == after(input.prog@, n) && r->Ok_0.1 == cont && final(block).view() == (BlockView {
                    ops: old(block).view().ops + add,
                    next: match nx {
                        Some(x) => x,
                        None => old(block).view().next,
                    },
                    ..old(block).view()
                }),
                Single::Fail(e) => r == Err::<(Input<'a>, bool), ParseError>(e),
            },
    {
        proof {
            reveal(spec_single);
            lemma_single_size::<A>(input.offset as int, input.prog@);
        }
        match Self::parse_function_call(input, block) {
            Ok(i) => return Ok((i, false)),
            Err(_) => {},
        }
        match Self::parse_return(input, block) {
            Ok(i) => return Ok((i, false)),
            Err(_) => {},
        }
        let offset = input.offset;
        let (input1, op) = match GenericInstruction::<A>::parse(input) {
            Ok(x) => x,
            Err(e) => return Err(e),
        };
        let ghost before = ops_view(block.ops@);
        let ghost opv = op@;
        let kind = op.duplicate();
        block.ops.push((offset, op));
        assert(ops_view(block.ops@) =~= before + seq![(offset, opv)]);
        match &kind {
            GenericInstruction::Goto(op_arg) => {
                block.next = NextKind::Goto(*op_arg);
                Ok((input1, false))
            },
            GenericInstruction::JumpIf(arg, matches, jump_arg) => {
                match jump_arg.value() {
                    Some(v) => {
                        let jump_block = BlockId(#[verifier::truncate] (v as usize));
                        block.next = NextKind::Condition(
                            Condition {
                                from_block: BlockId(0),
                                jump_block,
                                follows_block: BlockId(input1.offset),
                                arg: *arg,
                                matches: *matches,
                            },
                        );
                        Ok((input1, false))
                    },
                    None => Ok((input1, true)),
                }
            },
            GenericInstruction::Halt => {
                let ghost b1 = block.view();
                let input2 = match Self::parse_halt_exit(block, input1) {
                    Ok(i) => i,
                    Err(_) => input1,
                };
                proof {
                    if let Some((k, more)) = spec_halt_exit::<A>(offset, input1.offset as int, input1.prog@) {
                        lemma_after_after(input.prog@, (input1.offset - input.offset) as nat, k);
                        assert(before + seq![(offset, opv)] + more =~= before + (seq![(offset, opv)] + more));
                    }
                }
                block.next = NextKind::Halt;
                Ok((input2, false))
            },
            GenericInstruction::Data(_) => {
                assert(false);
                Ok((input1, false))
            },
            _ => Ok((input1, true)),
        }
    }

    /// Reads the block that starts at `input`; it ends at a call, return,
    /// jump or halt, or before an address in `jump_targets`.
    pub fn parse(input: Input, jump_targets: &Vec<usize>) -> (r: Result<Block<A>, ParseError>)
        requires
            input_fits(input),
        ensures
            match spec_block::<A>(input.offset, input.prog@, jump_targets@) {
                Ok(b) => r is Ok && r->Ok_0.view() == b,
                Err(e) => r is Err && r->Err_0 == e,
            },
    {
        let mut block = Block {
            predecessors: Vec::new(),
            ops: Vec::new(),
            next: NextKind::Unknown,
            span: Span::new(input.offset, input.offset),
        };
        let ghost whole = spec_block_rest::<A>(input.offset as int, input.prog@, jump_targets@, seq![], NextKind::Unknown);
        assert(ops_view(block.ops@) =~= seq![]);
        assert(after(input.prog@, 0) =~= input.prog@);
        let start = input.offset;
        let mut cur = input;
        let mut cont = true;
        while cont
            invariant_except_break
                input_fits(cur),
                cur.offset + cur.prog@.len() == input.offset + input.prog@.len(),
                start == input.offset,
                whole == spec_block_rest::<A>(input.offset as int, input.prog@, jump_targets@, seq![], NextKind::Unknown),
                start <= cur.offset,
                block.predecessors@ == Seq::<PredecessorKind<A>>::empty(),
                block.span == (Span { start, end: start }),
                cont ==> whole == match spec_block_rest::<A>(cur.offset as int, cur.prog@, jump_targets@, ops_view(block.ops@), block.next) {
                    Ok((k, o, x)) => Ok((((cur.offset - start) + k) as nat, o, x)),
                    Err(e) => Err(e),
                },
                !cont ==> whole == Ok::<(nat, Seq<(usize, InstrView<A>)>, NextKind<A>), ParseError>(((cur.offset - start) as nat, ops_view(block.ops@), block.next)),
            ensures
                block.predecessors@ == Seq::<PredecessorKind<A>>::empty(),
                block.span == (Span { start, end: start }),
                start <= cur.offset,
                whole == Ok::<(nat, Seq<(usize, InstrView<A>)>, NextKind<A>), ParseError>(((cur.offset - start) as nat, ops_view(block.ops@), block.next)),
            decreases cur.prog@.len(),
        {
            if cur.prog.len() == 0 && block.ops.len() > 0 {
                assert(ops_view(block.ops@).len() > 0);
                break;
            }
            proof {
                lemma_single_size::<A>(cur.offset as int, cur.prog@);
            }
            let (next_input, next_cont) = match Self::parse_single(cur, &mut block) {
                Ok(x) => x,
                Err(e) => return Err(e),
            };
            cur = next_input;
            cont = next_cont;
            if cont && contains_address(jump_targets, next_input.offset) {
                block.next = NextKind::Follows(BlockId(next_input.offset));
                break;
            }
        }
        block.span.end = cur.offset;
        Ok(block)
    }

    /// The block that always comes next: the one this block runs into, or the
    /// target of its jump to a constant address.
    pub fn next_unconditional(&self) -> (r: Option<BlockId>)
        ensures
            r == match self.next {
                NextKind::Follows(b) => Some(b),
                NextKind::Goto(arg) => match arg.spec_value() {
                    Some(v) => Some(BlockId(v as usize)),
                    None => None,
                },
                _ => None,
            },
    {
        match &self.next {
            NextKind::Follows(block_id) => Some(*block_id),
            NextKind::Goto(arg) => match arg.value() {
                Some(v) => Some(BlockId(#[verifier::truncate] (v as usize))),
                None => None,
            },
            _ => None,
        }
    }

    /// The address of the function the block calls, when it is a constant.
    pub fn function_call_address(&self) -> (r: Option<usize>)
        ensures
            r == match self.next {
                NextKind::FunctionCall(fc) => match fc.function_addr.spec_value() {
                    Some(v) => Some(v as usize),
                    None => None,
                },
                _ => None,
            },
    {
        match &self.next {
            NextKind::FunctionCall(FunctionCall { function_addr: arg, .. }) => match arg.value() {
                Some(v) => Some(#[verifier::truncate] (v as usize)),
                None => None,
            },
            _ => None,
        }
    }

    /// The blocks control can go to from this block.
    pub fn next_blocks(&self) -> (r: Vec<BlockId>)
        requires
            next_defined(self.next),
        ensures
            r@ == next_targets(self.next),
    {
        let r = match &self.next {
            NextKind::Follows(addr) => vec![*addr],
            NextKind::Goto(arg) => match arg.value() {
                Some(v) => vec![BlockId(#[verifier::truncate] (v as usize))],
                None => Vec::new(),
            },
            NextKind::FunctionCall(FunctionCall { return_block, .. }) => vec![*return_block],
            NextKind::Halt => Vec::new(),
            NextKind::Unknown => Vec::new(),
            NextKind::Return => Vec::new(),
            NextKind::Condition(Condition { jump_block, follows_block, .. }) => vec![*jump_block, *follows_block],
        };
        assert(r@ =~= next_targets(self.next));
        r
    }
}


/// The control flow graph of a function: its entry block, the size of its
/// stack frame, and its blocks by start address, in the order they were
/// found.
pub struct ControlFlowGraph<A> {
    pub start: BlockId,
    pub stack_size: usize,
    pub blocks: Vec<(BlockId, Block<A>)>,
}

pub open spec fn blocks_view<A>(v: Seq<(BlockId, Block<A>)>) -> Seq<(BlockId, BlockView<A>)> {
    Seq::new(v.len(), |i: int| (v[i].0, v[i].1.view()))
}

pub open spec fn addrs_of(s: Seq<BlockId>) -> Seq<usize> {
    Seq::new(s.len(), |i: int| s[i].0)
}

/// The state of the search for a function's blocks: the addresses still to
/// visit (the last one first), those visited, the blocks found, and the
/// addresses that are jumped to.
pub ghost struct Explore<A> {
    pub stack: Seq<usize>,
    pub seen: Seq<usize>,
    pub blocks: Seq<(BlockId, BlockView<A>)>,
    pub targets: Seq<usize>,
}

/// How the search ends: with all blocks found, at a block that cannot be
/// read, at an address past the program or a jump to a computed address, or
/// not within the given number of steps.
pub ghost enum Explored<A> {
    Done(Explore<A>),
    Fail(ParseError),
    Panics,
    OutOfFuel,
}

/// The search, for at most `fuel` steps.
pub open spec fn spec_explore<A: ArgBase>(prog: Seq<i128>, e: Explore<A>, fuel: nat) -> Explored<A>
    decreases fuel,
{
    if e.stack.len() == 0 {
        Explored::Done(e)
    } else if fuel == 0 {
        Explored::OutOfFuel
    } else {
        let off = e.stack.last();
        let rest = Explore { stack: e.stack.drop_last(), ..e };
        if e.seen.contains(off) {
            spec_explore(prog, rest, (fuel - 1) as nat)
        } else if off > prog.len() {
            Explored::Panics
        } else {
            match spec_block::<A>(off, prog.skip(off as int), e.targets) {
                Err(err) => Explored::Fail(err),
                Ok(b) => if !next_defined(b.next) {
                    Explored::Panics
                } else {
                    let nb = addrs_of(next_targets(b.next));
                    spec_explore(
                        prog,
                        Explore {
                            stack: rest.stack + nb,
                            seen: e.seen.push(off),
                            blocks: assoc_insert(e.blocks, BlockId(off), b),
                            targets: e.targets + nb,
                        },
                        (fuel - 1) as nat,
                    )
                },
            }
        }
    }
}

/// The search for the blocks of the function whose entry is `start`.
pub open spec fn explore_from<A: ArgBase>(prog: Seq<i128>, start: usize, fuel: nat) -> Explored<A> {
    spec_explore(prog, Explore { stack: seq![start], seen: seq![], blocks: seq![], targets: seq![] }, fuel)
}

/// Whether the search ends within some number of steps, and without running
/// past the program or meeting a jump to a computed address.
pub open spec fn explore_ends<A: ArgBase>(prog: Seq<i128>, start: usize) -> bool {
    exists|fuel: nat| #![auto] !(explore_from::<A>(prog, start, fuel) is OutOfFuel) && !(explore_from::<A>(prog, start, fuel) is Panics)
}

pub open spec fn explore_fuel<A: ArgBase>(prog: Seq<i128>, start: usize) -> nat {
    choose|fuel: nat| #![auto] !(explore_from::<A>(prog, start, fuel) is OutOfFuel) && !(explore_from::<A>(prog, start, fuel) is Panics)
}

/// The input that starts at `offset`.
pub fn make_input(prog: &[i128], offset: usize) -> (r: Input<'_>)
    requires
        offset <= prog@.len(),
    ensures
        r.offset == offset,
        r.prog@ == prog@.skip(offset as int),
{
    let (_, rest) = prog.split_at(offset);
    assert(rest@ =~= prog@.skip(offset as int));
    Input::new(offset, rest)
}

fn push_addrs(v: &mut Vec<usize>, ids: &Vec<BlockId>)
    ensures
        final(v)@ == old(v)@ + addrs_of(ids@),
{
    let mut i: usize = 0;
    while i < ids.len()
        invariant
            i <= ids@.len(),
            v@ == old(v)@ + addrs_of(ids@).take(i as int),
        decreases ids.len() - i,
    {
        v.push(ids[i].0);
        i = i + 1;
        assert(v@ =~= old(v)@ + addrs_of(ids@).take(i as int));
    }
    assert(addrs_of(ids@).take(i as int) =~= addrs_of(ids@));
}


/// The jump targets strictly inside `lo..hi`, from the highest down.
pub open spec fn inner_targets(targets: Seq<usize>, lo: usize, hi: int) -> Seq<usize>
    decreases hi - lo,
{
    if hi <= lo + 1 {
        seq![]
    } else {
        let a = (hi - 1) as usize;
        (if targets.contains(a) { seq![a] } else { seq![] }) + inner_targets(targets, lo, hi - 1)
    }
}

/// The splits to make: for each block in order, the jump targets inside it,
/// from the highest down.
pub open spec fn split_pairs<A>(bs: Seq<(BlockId, BlockView<A>)>, targets: Seq<usize>) -> Seq<(BlockId, usize)>
    decreases bs.len(),
{
    if bs.len() == 0 {
        seq![]
    } else {
        let id = bs.last().0;
        let b = bs.last().1;
        split_pairs(bs.drop_last(), targets) + inner_targets(targets, b.span.start, b.span.end as int).map_values(
            |a: usize| (id, a),
        )
    }
}

/// The index of the first instruction at address `a`, or -1.
pub open spec fn op_index<A>(ops: Seq<(usize, InstrView<A>)>, a: usize) -> int
    decreases ops.len(),
{
    if ops.len() == 0 {
        -1
    } else if op_index(ops.drop_last(), a) >= 0 {
        op_index(ops.drop_last(), a)
    } else if ops.last().0 == a {
        ops.len() - 1
    } else {
        -1
    }
}

pub proof fn lemma_op_index<A>(ops: Seq<(usize, InstrView<A>)>, a: usize)
    ensures
        -1 <= op_index(ops, a) < ops.len(),
        op_index(ops, a) >= 0 ==> ops[op_index(ops, a)].0 == a,
        forall|i: int| 0 <= i < ops.len() && (op_index(ops, a) < 0 || i < op_index(ops, a)) ==> ops[i].0 != a,
    decreases ops.len(),
{
    if ops.len() > 0 {
        lemma_op_index(ops.drop_last(), a);
        assert forall|i: int| 0 <= i < ops.len() && (op_index(ops, a) < 0 || i < op_index(ops, a)) implies ops[i].0 != a by {
            if i < ops.len() - 1 {
                assert(ops.drop_last()[i] == ops[i]);
            }
        }
    }
}

/// Splitting block `id` before its instruction at `jt`: the front keeps the
/// predecessors and runs into the back, which becomes the block `jt`; `None`
/// where the block is missing or has no instruction at `jt`.
pub open spec fn spec_split_one<A>(bs: Seq<(BlockId, BlockView<A>)>, id: BlockId, jt: usize) -> Option<Seq<(BlockId, BlockView<A>)>> {
    match assoc_get(bs, id) {
        None => None,
        Some(b) => {
            let k = op_index(b.ops, jt);
            if k < 0 || jt > b.span.end {
                None
            } else {
                let back = BlockView {
                    predecessors: seq![],
                    ops: b.ops.skip(k),
                    next: b.next,
                    span: Span { start: jt, end: b.span.end },
                };
                let front = BlockView {
                    ops: b.ops.take(k),
                    next: NextKind::Follows(BlockId(jt)),
                    span: Span { start: b.span.start, end: jt },
                    ..b
                };
                Some(assoc_insert(assoc_insert(bs, id, front), BlockId(jt), back))
            }
        },
    }
}

/// The splits applied in order.
pub open spec fn spec_apply_splits<A>(bs: Seq<(BlockId, BlockView<A>)>, pairs: Seq<(BlockId, usize)>) -> Option<Seq<(BlockId, BlockView<A>)>>
    decreases pairs.len(),
{
    if pairs.len() == 0 {
        Some(bs)
    } else {
        match spec_apply_splits(bs, pairs.drop_last()) {
            None => None,
            Some(b2) => spec_split_one(b2, pairs.last().0, pairs.last().1),
        }
    }
}

/// The blocks split at every jump target inside them.
pub open spec fn spec_split_blocks<A>(bs: Seq<(BlockId, BlockView<A>)>, targets: Seq<usize>) -> Option<Seq<(BlockId, BlockView<A>)>> {
    spec_apply_splits(bs, split_pairs(bs, targets))
}


pub proof fn lemma_apply_prefix<A>(bs: Seq<(BlockId, BlockView<A>)>, pairs: Seq<(BlockId, usize)>, k: nat)
    requires
        k <= pairs.len(),
        spec_apply_splits(bs, pairs) is Some,
    ensures
        spec_apply_splits(bs, pairs.take(k as int)) is Some,
    decreases pairs.len() - k,
{
    if k < pairs.len() {
        lemma_apply_prefix(bs, pairs, k + 1);
        let t = pairs.take(k + 1 as int);
        assert(t.drop_last() =~= pairs.take(k as int));
    } else {
        assert(pairs.take(k as int) =~= pairs);
    }
}


/// The predecessor lists with `p` added to the list of `dst`.
pub open spec fn add_pred<A>(
    hm: Seq<(BlockId, Seq<PredecessorKind<A>>)>,
    dst: BlockId,
    p: PredecessorKind<A>,
) -> Seq<(BlockId, Seq<PredecessorKind<A>>)> {
    assoc_insert(
        hm,
        dst,
        match assoc_get(hm, dst) {
            Some(l) => l.push(p),
            None => seq![p],
        },
    )
}

/// The way a block is left, with the block recorded as the caller of its
/// call or the origin of its condition.
pub open spec fn sourced<A>(src: BlockId, n: NextKind<A>) -> NextKind<A> {
    match n {
        NextKind::FunctionCall(fc) => NextKind::FunctionCall(FunctionCall { calling_block: src, ..fc }),
        NextKind::Condition(c) => NextKind::Condition(Condition { from_block: src, ..c }),
        other => other,
    }
}

/// The predecessor entries that block `src`, left by `n`, gives its
/// successors.
pub open spec fn preds_of_next<A: ArgBase>(
    hm: Seq<(BlockId, Seq<PredecessorKind<A>>)>,
    src: BlockId,
    n: NextKind<A>,
) -> Seq<(BlockId, Seq<PredecessorKind<A>>)> {
    match sourced(src, n) {
        NextKind::Follows(p) => add_pred(hm, p, PredecessorKind::FollowsFrom(src)),
        NextKind::Goto(arg) => match arg.spec_value() {
            Some(v) => add_pred(hm, BlockId(v as usize), PredecessorKind::GotoFrom(src)),
            None => hm,
        },
        NextKind::FunctionCall(fc) => add_pred(hm, fc.return_block, PredecessorKind::FunctionCallReturns(fc)),
        NextKind::Condition(c) => add_pred(
            add_pred(hm, c.jump_block, PredecessorKind::ConditionalJump(c)),
            c.follows_block,
            PredecessorKind::ConditionalFollow(c),
        ),
        _ => hm,
    }
}

/// The predecessor lists of all blocks, built by walking the blocks in order.
pub open spec fn all_preds<A: ArgBase>(bs: Seq<(BlockId, BlockView<A>)>) -> Seq<(BlockId, Seq<PredecessorKind<A>>)>
    decreases bs.len(),
{
    if bs.len() == 0 {
        seq![]
    } else {
        preds_of_next(all_preds(bs.drop_last()), bs.last().0, bs.last().1.next)
    }
}

/// The blocks with their predecessor lists filled in and the sources of their
/// calls and conditions recorded.
pub open spec fn with_preds<A: ArgBase>(bs: Seq<(BlockId, BlockView<A>)>) -> Seq<(BlockId, BlockView<A>)> {
    let hm = all_preds(bs);
    Seq::new(
        bs.len(),
        |i: int|
            (
                bs[i].0,
                BlockView {
                    predecessors: match assoc_get(hm, bs[i].0) {
                        Some(l) => l,
                        None => bs[i].1.predecessors,
                    },
                    next: sourced(bs[i].0, bs[i].1.next),
                    ..bs[i].1
                },
            ),
    )
}

/// Whether the predecessor lists can be stored: every successor named by a
/// block is itself a block.
pub open spec fn preds_storable<A: ArgBase>(bs: Seq<(BlockId, BlockView<A>)>) -> bool {
    forall|k: BlockId| #[trigger] assoc_get(all_preds(bs), k) is Some ==> assoc_get(bs, k) is Some
}

pub proof fn lemma_add_pred_distinct<A>(hm: Seq<(BlockId, Seq<PredecessorKind<A>>)>, dst: BlockId, p: PredecessorKind<A>)
    requires
        keys_distinct(hm),
    ensures
        keys_distinct(add_pred(hm, dst, p)),
{
    lemma_insert_distinct(
        hm,
        dst,
        match assoc_get(hm, dst) {
            Some(l) => l.push(p),
            None => seq![p],
        },
    );
}

pub proof fn lemma_all_preds_distinct<A: ArgBase>(bs: Seq<(BlockId, BlockView<A>)>)
    ensures
        keys_distinct(all_preds(bs)),
    decreases bs.len(),
{
    if bs.len() > 0 {
        let d = bs.drop_last();
        lemma_all_preds_distinct(d);
        let hm = all_preds(d);
        let src = bs.last().0;
        match sourced(src, bs.last().1.next) {
            NextKind::Follows(p) => lemma_add_pred_distinct(hm, p, PredecessorKind::FollowsFrom(src)),
            NextKind::Goto(arg) => match arg.spec_value() {
                Some(v) => lemma_add_pred_distinct(hm, BlockId(v as usize), PredecessorKind::<A>::GotoFrom(src)),
                None => {},
            },
            NextKind::FunctionCall(fc) => lemma_add_pred_distinct(hm, fc.return_block, PredecessorKind::FunctionCallReturns(fc)),
            NextKind::Condition(c) => {
                lemma_add_pred_distinct(hm, c.jump_block, PredecessorKind::ConditionalJump(c));
                lemma_add_pred_distinct(
                    add_pred(hm, c.jump_block, PredecessorKind::ConditionalJump(c)),
                    c.follows_block,
                    PredecessorKind::ConditionalFollow(c),
                );
            },
            _ => {},
        }
    }
}


pub open spec fn preds_view<A>(v: Seq<(BlockId, Vec<PredecessorKind<A>>)>) -> Seq<(BlockId, Seq<PredecessorKind<A>>)> {
    Seq::new(v.len(), |i: int| (v[i].0, v[i].1@))
}

/// The blocks after the first `j` predecessor lists of `hm` are stored.
pub open spec fn stored_preds<A: ArgBase>(
    bs: Seq<(BlockId, BlockView<A>)>,
    hm: Seq<(BlockId, Seq<PredecessorKind<A>>)>,
) -> Seq<(BlockId, BlockView<A>)> {
    Seq::new(
        bs.len(),
        |i: int|
            (
                bs[i].0,
                BlockView {
                    predecessors: match assoc_get(hm, bs[i].0) {
                        Some(l) => l,
                        None => bs[i].1.predecessors,
                    },
                    ..bs[i].1
                },
            ),
    )
}

/// The blocks with the sources of the first `i` blocks' calls and conditions
/// recorded.
pub open spec fn sourced_prefix<A>(bs: Seq<(BlockId, BlockView<A>)>, i: int) -> Seq<(BlockId, BlockView<A>)> {
    Seq::new(
        bs.len(),
        |k: int|
            if k < i {
                (bs[k].0, BlockView { next: sourced(bs[k].0, bs[k].1.next), ..bs[k].1 })
            } else {
                bs[k]
            },
    )
}

pub proof fn lemma_get_push<K, V>(t: Seq<(K, V)>, k1: K, v1: V, k: K)
    ensures
        assoc_get(t.push((k1, v1)), k) == if assoc_get(t, k) is Some {
            assoc_get(t, k)
        } else if k == k1 {
            Some(v1)
        } else {
            None::<V>
        },
{
    let u = t.push((k1, v1));
    assert(u.drop_last() =~= t);
    crate::assoc::lemma_key_index(t, k);
    crate::assoc::lemma_key_index(u, k);
    if crate::assoc::key_index(t, k) >= 0 {
        assert(u[crate::assoc::key_index(t, k)] == t[crate::assoc::key_index(t, k)]);
    }
}

pub proof fn lemma_get_prefix<K, V>(s: Seq<(K, V)>, j: int, k: K)
    requires
        0 <= j < s.len(),
        keys_distinct(s),
    ensures
        assoc_get(s.take(j + 1), k) == if k == s[j].0 {
            Some(s[j].1)
        } else {
            assoc_get(s.take(j), k)
        },
{
    let t = s.take(j);
    assert(s.take(j + 1) =~= t.push(s[j]));
    lemma_get_push(t, s[j].0, s[j].1, k);
    if k == s[j].0 {
        crate::assoc::lemma_key_index(t, k);
        if crate::assoc::key_index(t, k) >= 0 {
            assert(t[crate::assoc::key_index(t, k)] == s[crate::assoc::key_index(t, k)]);
        }
    }
}


/// Every block's way out names its successors, and no block has
/// predecessors yet.
pub open spec fn nexts_defined<A: ArgBase>(bs: Seq<(BlockId, BlockView<A>)>) -> bool {
    &&& forall|i: int| 0 <= i < bs.len() ==> next_defined(#[trigger] bs[i].1.next)
    &&& forall|i: int| 0 <= i < bs.len() ==> (#[trigger] bs[i].1.predecessors).len() == 0
}

pub proof fn lemma_insert_nexts<A: ArgBase>(bs: Seq<(BlockId, BlockView<A>)>, k: BlockId, b: BlockView<A>)
    requires
        nexts_defined(bs),
        next_defined(b.next),
        b.predecessors.len() == 0,
    ensures
        nexts_defined(assoc_insert(bs, k, b)),
{
    crate::assoc::lemma_key_index(bs, k);
}

pub proof fn lemma_explore_keeps<A: ArgBase>(prog: Seq<i128>, e: Explore<A>, fuel: nat)
    requires
        keys_distinct(e.blocks),
        nexts_defined(e.blocks),
    ensures
        spec_explore(prog, e, fuel) matches Explored::Done(e2) ==> keys_distinct(e2.blocks) && nexts_defined(e2.blocks),
    decreases fuel,
{
    if e.stack.len() > 0 && fuel > 0 {
        let off = e.stack.last();
        let rest = Explore { stack: e.stack.drop_last(), ..e };
        if e.seen.contains(off) {
            lemma_explore_keeps(prog, rest, (fuel - 1) as nat);
        } else if off <= prog.len() {
            if let Ok(b) = spec_block::<A>(off, prog.skip(off as int), e.targets) {
                if next_defined(b.next) {
                    let nb = addrs_of(next_targets(b.next));
                    lemma_insert_distinct(e.blocks, BlockId(off), b);
                    lemma_insert_nexts(e.blocks, BlockId(off), b);
                    lemma_explore_keeps(
                        prog,
                        Explore {
                            stack: rest.stack + nb,
                            seen: e.seen.push(off),
                            blocks: assoc_insert(e.blocks, BlockId(off), b),
                            targets: e.targets + nb,
                        },
                        (fuel - 1) as nat,
                    );
                }
            }
        }
    }
}

pub proof fn lemma_splits_keep<A: ArgBase>(bs: Seq<(BlockId, BlockView<A>)>, pairs: Seq<(BlockId, usize)>)
    requires
        keys_distinct(bs),
        nexts_defined(bs),
    ensures
        spec_apply_splits(bs, pairs) matches Some(b2) ==> keys_distinct(b2) && nexts_defined(b2),
    decreases pairs.len(),
{
    if pairs.len() > 0 {
        lemma_splits_keep(bs, pairs.drop_last());
        if let Some(b2) = spec_apply_splits(bs, pairs.drop_last()) {
            let id = pairs.last().0;
            let jt = pairs.last().1;
            if let Some(b) = assoc_get(b2, id) {
                crate::assoc::lemma_key_index(b2, id);
                assert(next_defined(b.next) && b.predecessors.len() == 0) by {
                    assert(b2[crate::assoc::key_index(b2, id)].1 == b);
                }
                let k = op_index(b.ops, jt);
                let back = BlockView {
                    predecessors: seq![],
                    ops: b.ops.skip(k),
                    next: b.next,
                    span: Span { start: jt, end: b.span.end },
                };
                let front = BlockView {
                    ops: b.ops.take(k),
                    next: NextKind::Follows(BlockId(jt)),
                    span: Span { start: b.span.start, end: jt },
                    ..b
                };
                lemma_insert_distinct(b2, id, front);
                lemma_insert_nexts(b2, id, front);
                lemma_insert_distinct(assoc_insert(b2, id, front), BlockId(jt), back);
                lemma_insert_nexts(assoc_insert(b2, id, front), BlockId(jt), back);
            }
        }
    }
}

/// Whether blocks that start later also start after earlier blocks end.
pub open spec fn blocks_ordered<A>(bs: Seq<(BlockId, BlockView<A>)>) -> bool {
    forall|i: int, j: int|
        0 <= i < bs.len() && 0 <= j < bs.len() && bs[i].0.0 < bs[j].0.0 ==> #[trigger] bs[i].1.span.end
            <= #[trigger] bs[j].1.span.start
}

/// The mathematical value of a control flow graph.
pub ghost struct CfgView<A> {
    pub start: BlockId,
    pub stack_size: usize,
    pub blocks: Seq<(BlockId, BlockView<A>)>,
}


/// Whether some entry of a predecessor list names block `src`.
pub open spec fn lists_pred<A>(l: Seq<PredecessorKind<A>>, src: BlockId) -> bool {
    exists|k: int| 0 <= k < l.len() && pred_block(#[trigger] l[k]) == src
}

/// Whether the predecessor lists name `src` for `dst`.
pub open spec fn has_pred<A>(hm: Seq<(BlockId, Seq<PredecessorKind<A>>)>, dst: BlockId, src: BlockId) -> bool {
    match assoc_get(hm, dst) {
        Some(l) => lists_pred(l, src),
        None => false,
    }
}

pub proof fn lemma_add_pred_has<A>(hm: Seq<(BlockId, Seq<PredecessorKind<A>>)>, t: BlockId, p: PredecessorKind<A>, dst: BlockId, src: BlockId)
    ensures
        has_pred(add_pred(hm, t, p), dst, src) == (has_pred(hm, dst, src) || (dst == t && pred_block(p) == src)),
{
    let l = match assoc_get(hm, t) {
        Some(l) => l.push(p),
        None => seq![p],
    };
    crate::assoc::lemma_get_insert(hm, t, l, dst);
    if dst == t {
        match assoc_get(hm, t) {
            Some(l0) => {
                if lists_pred(l0, src) {
                    let k = choose|k: int| 0 <= k < l0.len() && pred_block(#[trigger] l0[k]) == src;
                    assert(l[k] == l0[k]);
                }
                if lists_pred(l, src) {
                    let k = choose|k: int| 0 <= k < l.len() && pred_block(#[trigger] l[k]) == src;
                    if k < l0.len() {
                        assert(l[k] == l0[k]);
                    }
                }
                if pred_block(p) == src {
                    assert(l[l0.len() as int] == p);
                }
            },
            None => {
                if pred_block(p) == src {
                    assert(l[0] == p);
                }
            },
        }
    }
}

/// The predecessor lists name `src` for `dst` exactly when a block named
/// `src` goes to `dst`.
pub proof fn lemma_all_preds_content<A: ArgBase>(bs: Seq<(BlockId, BlockView<A>)>, dst: BlockId, src: BlockId)
    ensures
        has_pred(all_preds(bs), dst, src) == exists|i: int|
            0 <= i < bs.len() && bs[i].0 == src && #[trigger] next_targets(bs[i].1.next).contains(dst),
    decreases bs.len(),
{
    if bs.len() == 0 {
    } else {
        let d = bs.drop_last();
        lemma_all_preds_content(d, dst, src);
        let hm = all_preds(d);
        let last = bs.len() - 1;
        let s0 = bs.last().0;
        let n = bs.last().1.next;
        let here = s0 == src && next_targets(n).contains(dst);
        assert(has_pred(all_preds(bs), dst, src) == (has_pred(hm, dst, src) || here)) by {
            match sourced(s0, n) {
                NextKind::Follows(p) => {
                    lemma_add_pred_has(hm, p, PredecessorKind::FollowsFrom(s0), dst, src);
                    assert(next_targets(n)[0] == p);
                    assert(next_targets(n).len() == 1);
                },
                NextKind::Goto(arg) => match arg.spec_value() {
                    Some(v) => {
                        lemma_add_pred_has(hm, BlockId(v as usize), PredecessorKind::<A>::GotoFrom(s0), dst, src);
                        assert(next_targets(n)[0] == BlockId(v as usize));
                        assert(next_targets(n).len() == 1);
                    },
                    None => {
                        assert(next_targets(n).len() == 0);
                    },
                },
                NextKind::FunctionCall(fc) => {
                    lemma_add_pred_has(hm, fc.return_block, PredecessorKind::FunctionCallReturns(fc), dst, src);
                    assert(next_targets(n)[0] == fc.return_block);
                    assert(next_targets(n).len() == 1);
                },
                NextKind::Condition(c) => {
                    let h1 = add_pred(hm, c.jump_block, PredecessorKind::ConditionalJump(c));
                    lemma_add_pred_has(hm, c.jump_block, PredecessorKind::ConditionalJump(c), dst, src);
                    lemma_add_pred_has(h1, c.follows_block, PredecessorKind::ConditionalFollow(c), dst, src);
                    assert(next_targets(n)[0] == c.jump_block);
                    assert(next_targets(n)[1] == c.follows_block);
                    assert(next_targets(n).len() == 2);
                },
                _ => {
                    assert(next_targets(n).len() == 0);
                },
            }
        }
        if here {
            assert(bs[last].0 == src && next_targets(bs[last].1.next).contains(dst));
        }
        if exists|i: int| 0 <= i < d.len() && d[i].0 == src && #[trigger] next_targets(d[i].1.next).contains(dst) {
            let i = choose|i: int| 0 <= i < d.len() && d[i].0 == src && #[trigger] next_targets(d[i].1.next).contains(dst);
            assert(bs[i] == d[i]);
        }
        if exists|i: int| 0 <= i < bs.len() && bs[i].0 == src && #[trigger] next_targets(bs[i].1.next).contains(dst) {
            let i = choose|i: int| 0 <= i < bs.len() && bs[i].0 == src && #[trigger] next_targets(bs[i].1.next).contains(dst);
            if i < last {
                assert(d[i] == bs[i]);
            }
        }
    }
}

/// The blocks found from `start`, split at their jump targets.
pub open spec fn found_blocks<A: ArgBase>(prog: Seq<i128>, start: usize) -> Option<Seq<(BlockId, BlockView<A>)>> {
    match explore_from::<A>(prog, start, explore_fuel::<A>(prog, start)) {
        Explored::Done(e) => spec_split_blocks(e.blocks, e.targets),
        _ => None,
    }
}

/// Whether the graph of the function at `start` can be built without failing
/// on the way: the entry lies in the program, and once the frame set-up is
/// read, the search for blocks ends without running past the program or
/// meeting a jump to a computed address, every jump target inside a block
/// starts an instruction, the blocks do not overlap, and every successor is a
/// block.
pub open spec fn cfg_defined<A: ArgBase>(prog: Seq<i128>, start: usize) -> bool {
    &&& start <= prog.len()
    &&& spec_frame(start as int, prog.skip(start as int)) is Ok ==> {
        &&& explore_ends::<A>(prog, start)
        &&& explore_from::<A>(prog, start, explore_fuel::<A>(prog, start)) is Done ==> {
            &&& found_blocks::<A>(prog, start) is Some
            &&& blocks_ordered(found_blocks::<A>(prog, start)->0)
            &&& preds_storable(found_blocks::<A>(prog, start)->0)
        }
    }
}

/// The graph of the function at `start`, or why it cannot be read.
pub open spec fn spec_build_cfg<A: ArgBase>(prog: Seq<i128>, start: usize) -> Result<CfgView<A>, ParseError> {
    match spec_frame(start as int, prog.skip(start as int)) {
        Err(e) => Err(e),
        Ok((_, size)) => match explore_from::<A>(prog, start, explore_fuel::<A>(prog, start)) {
            Explored::Fail(e) => Err(e),
            _ => Ok(
                CfgView { start: BlockId(start), stack_size: size, blocks: with_preds(found_blocks::<A>(prog, start)->0) },
            ),
        },
    }
}


pub proof fn lemma_sourced_targets<A: ArgBase>(x: BlockId, n: NextKind<A>)
    ensures
        next_targets(sourced(x, n)) == next_targets(n),
{
}

/// In a built graph, block `i` is listed among the predecessors of block `j`
/// exactly when control can go from block `i` to block `j`.
pub proof fn lemma_predecessors_are_sources<A: ArgBase>(prog: Seq<i128>, start: usize, i: int, j: int)
    requires
        cfg_defined::<A>(prog, start),
        spec_build_cfg::<A>(prog, start) matches Ok(g) && 0 <= i < g.blocks.len() && 0 <= j < g.blocks.len(),
    ensures
        spec_build_cfg::<A>(prog, start) matches Ok(g) && (lists_pred(g.blocks[j].1.predecessors, g.blocks[i].0)
            <==> next_targets(g.blocks[i].1.next).contains(g.blocks[j].0)),
{
    let fuel = explore_fuel::<A>(prog, start);
    let e0 = Explore { stack: seq![start], seen: seq![], blocks: seq![], targets: seq![] };
    lemma_explore_keeps::<A>(prog, e0, fuel);
    let e = explore_from::<A>(prog, start, fuel)->Done_0;
    lemma_splits_keep(e.blocks, split_pairs(e.blocks, e.targets));
    let bs = found_blocks::<A>(prog, start)->0;
    let g = spec_build_cfg::<A>(prog, start)->Ok_0;
    assert(g.blocks == with_preds(bs));
    let hm = all_preds(bs);
    let src = bs[i].0;
    let dst = bs[j].0;
    lemma_all_preds_content(bs, dst, src);
    lemma_sourced_targets(src, bs[i].1.next);
    assert(g.blocks[i].0 == src);
    assert(g.blocks[j].0 == dst);
    assert(bs[j].1.predecessors.len() == 0);
    assert(lists_pred(g.blocks[j].1.predecessors, src) == has_pred(hm, dst, src));
    if exists|k: int| 0 <= k < bs.len() && bs[k].0 == src && #[trigger] next_targets(bs[k].1.next).contains(dst) {
        let k = choose|k: int| 0 <= k < bs.len() && bs[k].0 == src && #[trigger] next_targets(bs[k].1.next).contains(dst);
        assert(k == i);
    }
}


/// In a built graph, every predecessor stored with a block names, by its
/// [`PredecessorKind::block_id`], a block of the graph that can go to it.
pub proof fn lemma_stored_predecessors_are_sources<A: ArgBase>(prog: Seq<i128>, start: usize, j: int, k: int)
    requires
        cfg_defined::<A>(prog, start),
        spec_build_cfg::<A>(prog, start) matches Ok(g) && 0 <= j < g.blocks.len() && 0 <= k < g.blocks[j].1.predecessors.len(),
    ensures
        spec_build_cfg::<A>(prog, start) matches Ok(g) && exists|i: int|
            0 <= i < g.blocks.len() && g.blocks[i].0 == pred_block(g.blocks[j].1.predecessors[k])
                && #[trigger] next_targets(g.blocks[i].1.next).contains(g.blocks[j].0),
{
    let fuel = explore_fuel::<A>(prog, start);
    let e0 = Explore { stack: seq![start], seen: seq![], blocks: seq![], targets: seq![] };
    lemma_explore_keeps::<A>(prog, e0, fuel);
    let e = explore_from::<A>(prog, start, fuel)->Done_0;
    lemma_splits_keep(e.blocks, split_pairs(e.blocks, e.targets));
    let bs = found_blocks::<A>(prog, start)->0;
    let g = spec_build_cfg::<A>(prog, start)->Ok_0;
    assert(g.blocks == with_preds(bs));
    let hm = all_preds(bs);
    let dst = bs[j].0;
    let p = g.blocks[j].1.predecessors[k];
    let src = pred_block(p);
    assert(bs[j].1.predecessors.len() == 0);
    assert(assoc_get(hm, dst) is Some);
    assert(lists_pred(g.blocks[j].1.predecessors, src));
    lemma_all_preds_content(bs, dst, src);
    let i = choose|i: int| 0 <= i < bs.len() && bs[i].0 == src && #[trigger] next_targets(bs[i].1.next).contains(dst);
    lemma_sourced_targets(bs[i].0, bs[i].1.next);
    assert(g.blocks[i].0 == src);
    assert(next_targets(g.blocks[i].1.next).contains(g.blocks[j].0));
}


/// In a built graph, every block that a block can go to is a block of the
/// graph; a call or a branch names the block it ends; and blocks with a
/// lower key end before blocks with a higher key start.
pub proof fn lemma_built_graph_shape<A: ArgBase>(prog: Seq<i128>, start: usize)
    requires
        cfg_defined::<A>(prog, start),
        spec_build_cfg::<A>(prog, start) is Ok,
    ensures
        spec_build_cfg::<A>(prog, start) matches Ok(g) && {
            &&& forall|i: int, s: BlockId|
                0 <= i < g.blocks.len() && #[trigger] next_targets(g.blocks[i].1.next).contains(s) ==> assoc_get(g.blocks, s) is Some
            &&& forall|i: int|
                0 <= i < g.blocks.len() ==> match (#[trigger] g.blocks[i]).1.next {
                    NextKind::FunctionCall(fc) => fc.calling_block == g.blocks[i].0,
                    NextKind::Condition(c) => c.from_block == g.blocks[i].0,
                    _ => true,
                }
            &&& blocks_ordered(g.blocks)
        },
{
    let fuel = explore_fuel::<A>(prog, start);
    let e0 = Explore { stack: seq![start], seen: seq![], blocks: seq![], targets: seq![] };
    lemma_explore_keeps::<A>(prog, e0, fuel);
    let e = explore_from::<A>(prog, start, fuel)->Done_0;
    lemma_splits_keep(e.blocks, split_pairs(e.blocks, e.targets));
    let bs = found_blocks::<A>(prog, start)->0;
    let g = spec_build_cfg::<A>(prog, start)->Ok_0;
    assert(g.blocks == with_preds(bs));
    assert forall|q: int| 0 <= q < bs.len() implies bs[q].0 == g.blocks[q].0 by {}
    assert forall|i: int, t: BlockId|
        0 <= i < g.blocks.len() && #[trigger] next_targets(g.blocks[i].1.next).contains(t) implies assoc_get(g.blocks, t) is Some by {
        lemma_sourced_targets(bs[i].0, bs[i].1.next);
        lemma_all_preds_content(bs, t, bs[i].0);
        assert(has_pred(all_preds(bs), t, bs[i].0));
        assert(assoc_get(all_preds(bs), t) is Some);
        crate::assoc::lemma_get_keys(bs, g.blocks, t);
    }
    assert forall|a: int, b: int|
        0 <= a < g.blocks.len() && 0 <= b < g.blocks.len() && g.blocks[a].0.0 < g.blocks[b].0.0 implies #[trigger] g.blocks[a].1.span.end
        <= #[trigger] g.blocks[b].1.span.start by {
        assert(bs[a].1.span.end <= bs[b].1.span.start);
    }
}

/// Whether address `a` lies in a block of one of the graphs.
pub open spec fn covered<A>(gs: Seq<CfgView<A>>, a: usize) -> bool {
    exists|gi: int, bi: int|
        0 <= gi < gs.len() && 0 <= bi < gs[gi].blocks.len() && (#[trigger] gs[gi].blocks[bi]).1.span.spec_contains_address(
            a as int,
        )
}

/// Whether the instruction at `start` moves the relative base up by a
/// constant, as a function's entry does.
pub open spec fn entry_like(prog: Seq<i128>, start: usize) -> bool {
    match spec_decode(start as int, prog.skip(start as int)) {
        Ok((_, f)) => match f {
            GenericInstruction::AdjustRelativeBase(a) => match a.kind {
                Arg::Value(r) => r >= 0,
                _ => false,
            },
            _ => false,
        },
        Err(_) => false,
    }
}

/// Whether the scan tries to build a graph at `start`.
pub open spec fn scan_tries<A>(prog: Seq<i128>, start: usize, gs: Seq<CfgView<A>>) -> bool {
    !covered(gs, start) && entry_like(prog, start)
}

/// The graphs after the scan has looked at `start`.
pub open spec fn scan_step<A: ArgBase>(prog: Seq<i128>, start: usize, gs: Seq<CfgView<A>>) -> Seq<CfgView<A>> {
    if scan_tries(prog, start, gs) {
        match spec_build_cfg::<A>(prog, start) {
            Ok(g) => gs.push(g),
            Err(_) => gs,
        }
    } else {
        gs
    }
}

/// The graphs found by scanning the addresses from `start` on, after `gs`.
pub open spec fn spec_scan_from<A: ArgBase>(prog: Seq<i128>, start: nat, gs: Seq<CfgView<A>>) -> Seq<CfgView<A>>
    decreases prog.len() - start,
{
    if start >= prog.len() {
        gs
    } else {
        spec_scan_from(prog, start + 1, scan_step(prog, start as usize, gs))
    }
}

/// Whether every graph the scan tries to build can be built without failing
/// on the way.
pub open spec fn scan_defined_from<A: ArgBase>(prog: Seq<i128>, start: nat, gs: Seq<CfgView<A>>) -> bool
    decreases prog.len() - start,
{
    start >= prog.len() || ((scan_tries(prog, start as usize, gs) ==> cfg_defined::<A>(prog, start as usize))
        && scan_defined_from(prog, start + 1, scan_step(prog, start as usize, gs)))
}

pub open spec fn cfgs_view<A>(v: Seq<ControlFlowGraph<A>>) -> Seq<CfgView<A>> {
    Seq::new(v.len(), |i: int| CfgView { start: v[i].start, stack_size: v[i].stack_size, blocks: blocks_view(v[i].blocks@) })
}

impl<A: ArgBase> ControlFlowGraph<A> {
    pub open spec fn view(&self) -> CfgView<A> {
        CfgView { start: self.start, stack_size: self.stack_size, blocks: blocks_view(self.blocks@) }
    }

    /// The size of the stack frame the function at `input` sets up.
    pub fn parse_stack_size(input: Input) -> (r: Result<usize, ParseError>)
        requires
            input_fits(input),
        ensures
            match spec_frame(input.offset as int, input.prog@) {
                Ok((_, size)) => r == Ok::<usize, ParseError>(size),
                Err(e) => r == Err::<usize, ParseError>(e),
            },
    {
        let (_, adjust_res) = match Instruction::parse(input) {
            Ok(x) => x,
            Err(e) => return Err(e),
        };
        match adjust_res {
            GenericInstruction::AdjustRelativeBase(Arg::Value(r)) => {
                if r > 0 {
                    if input.offset == 0 {
                        Ok(0)
                    } else {
                        Ok(#[verifier::truncate] (r as usize))
                    }
                } else {
                    Err(ParseError::NoMatch)
                }
            },
            _ => Err(ParseError::NoMatch),
        }
    }

    /// Finds the blocks of the function whose entry is `start`.
    fn explore(prog: &[i128], start: usize) -> (r: Result<(Vec<(BlockId, Block<A>)>, Vec<usize>), ParseError>)
        requires
            start <= prog@.len(),
            prog@.len() + 4 <= usize::MAX,
            explore_ends::<A>(prog@, start),
        ensures
            match explore_from::<A>(prog@, start, explore_fuel::<A>(prog@, start)) {
                Explored::Done(e) => r is Ok && blocks_view(r->Ok_0.0@) == e.blocks && r->Ok_0.1@ == e.targets,
                Explored::Fail(err) => r == Err::<(Vec<(BlockId, Block<A>)>, Vec<usize>), ParseError>(err),
                _ => false,
            },
    {
        let ghost fuel0 = explore_fuel::<A>(prog@, start);
        let ghost result = explore_from::<A>(prog@, start, fuel0);
        let mut blocks: Vec<(BlockId, Block<A>)> = Vec::new();
        let mut seen: Vec<usize> = Vec::new();
        let mut stack: Vec<usize> = Vec::new();
        let mut jump_targets: Vec<usize> = Vec::new();
        stack.push(start);
        let ghost mut fuel = fuel0;
        assert(blocks_view(blocks@) =~= seq![]);
        assert(stack@ =~= seq![start]);
        while stack.len() > 0
            invariant
                prog@.len() + 4 <= usize::MAX,
                !(result is OutOfFuel) && !(result is Panics),
                result == explore_from::<A>(prog@, start, explore_fuel::<A>(prog@, start)),
                result == spec_explore::<A>(
                    prog@,
                    Explore { stack: stack@, seen: seen@, blocks: blocks_view(blocks@), targets: jump_targets@ },
                    fuel,
                ),
            decreases fuel,
        {
            let ghost e = Explore { stack: stack@, seen: seen@, blocks: blocks_view(blocks@), targets: jump_targets@ };
            let offset = stack.pop().unwrap();
            assert(offset == e.stack.last());
            assert(stack@ == e.stack.drop_last());
            if contains_address(&seen, offset) {
                proof {
                    fuel = (fuel - 1) as nat;
                }
                continue;
            }
            seen.push(offset);
            let input = make_input(prog, offset);
            let block = match Block::<A>::parse(input, &jump_targets) {
                Ok(b) => b,
                Err(err) => return Err(err),
            };
            let next = block.next_blocks();
            push_addrs(&mut stack, &next);
            push_addrs(&mut jump_targets, &next);
            let ghost bv = block.view();
            let ghost before = blocks@;
            insert_value(&mut blocks, BlockId(offset), block);
            proof {
                crate::assoc::lemma_key_index_keys(before, blocks_view(before), BlockId(offset));
                crate::assoc::lemma_key_index(before, BlockId(offset));
                assert(blocks_view(blocks@) =~= assoc_insert(blocks_view(before), BlockId(offset), bv));
                fuel = (fuel - 1) as nat;
            }
        }
        Ok((blocks, jump_targets))
    }

    /// Splits every block at the jump targets inside it, so that each jump
    /// target starts a block.
    fn split_blocks(blocks: &mut Vec<(BlockId, Block<A>)>, jump_targets: &Vec<usize>)
        requires
            spec_split_blocks(blocks_view(old(blocks)@), jump_targets@) is Some,
        ensures
            blocks_view(final(blocks)@) == spec_split_blocks(blocks_view(old(blocks)@), jump_targets@)->0,
    {
        let ghost bs = blocks_view(blocks@);
        let mut pairs: Vec<(BlockId, usize)> = Vec::new();
        let mut i: usize = 0;
        assert(bs.take(0) =~= seq![]);
        while i < blocks.len()
            invariant
                i <= blocks@.len(),
                bs == blocks_view(blocks@),
                pairs@ == split_pairs(bs.take(i as int), jump_targets@),
            decreases blocks.len() - i,
        {
            let id = blocks[i].0;
            let lo = blocks[i].1.span.start;
            let hi = blocks[i].1.span.end;
            let ghost base = pairs@;
            let ghost mut collected: Seq<usize> = seq![];
            let mut a: usize = hi;
            while a > lo && a - 1 > lo
                invariant
                    a <= hi,
                    collected + inner_targets(jump_targets@, lo, a as int) == inner_targets(jump_targets@, lo, hi as int),
                    pairs@ == base + collected.map_values(|x: usize| (id, x)),
                decreases a,
            {
                let c = a - 1;
                let ghost prev = collected;
                if contains_address(jump_targets, c) {
                    pairs.push((id, c));
                    proof {
                        collected = collected.push(c);
                    }
                }
                proof {
                    assert(inner_targets(jump_targets@, lo, a as int) == (if jump_targets@.contains(c) { seq![c] } else { seq![] }) + inner_targets(jump_targets@, lo, c as int));
                    assert(collected + inner_targets(jump_targets@, lo, c as int) =~= prev + inner_targets(jump_targets@, lo, a as int));
                    assert(pairs@ =~= base + collected.map_values(|x: usize| (id, x)));
                }
                a = c;
            }
            proof {
                assert(inner_targets(jump_targets@, lo, a as int) =~= seq![]);
                assert(collected =~= inner_targets(jump_targets@, lo, hi as int));
                let t = bs.take(i + 1);
                assert(t.drop_last() =~= bs.take(i as int));
                assert(t.last() == bs[i as int]);
            }
            i = i + 1;
        }
        assert(bs.take(i as int) =~= bs);
        let ghost mut cur = bs;
        let mut k: usize = 0;
        assert(pairs@.take(0) =~= seq![]);
        while k < pairs.len()
            invariant
                k <= pairs@.len(),
                pairs@ == split_pairs(bs, jump_targets@),
                spec_apply_splits(bs, pairs@) is Some,
                spec_apply_splits(bs, pairs@.take(k as int)) == Some(blocks_view(blocks@)),
            decreases pairs.len() - k,
        {
            proof {
                let t = pairs@.take(k + 1);
                assert(t.drop_last() =~= pairs@.take(k as int));
                assert(t.last() == pairs@[k as int]);
                lemma_apply_prefix(bs, pairs@, (k + 1) as nat);
            }
            let (id, jt) = pairs[k];
            let ghost before = blocks_view(blocks@);
            proof {
                crate::assoc::lemma_get_keys(blocks@, before, id);
                crate::assoc::lemma_key_index(blocks@, id);
            }
            let idx = match crate::assoc::find_key(blocks, &id) {
                Some(x) => x,
                None => {
                    assert(false);
                    0
                },
            };
            proof {
                crate::assoc::lemma_key_index(before, id);
                lemma_op_index(before[idx as int].1.ops, jt);
            }
            let ghost b = before[idx as int].1;
            proof {
                crate::assoc::lemma_key_index_keys(blocks@, before, id);
                assert(assoc_get(before, id) == Some(b));
                assert(spec_split_one(before, id, jt) is Some);
            }
            let mut pos: usize = 0;
            let mut found = false;
            while pos < blocks[idx].1.ops.len()
                invariant
                    idx < blocks@.len(),
                    before == blocks_view(blocks@),
                    b == before[idx as int].1,
                    pos <= blocks@[idx as int].1.ops@.len(),
                    forall|j: int| 0 <= j < pos ==> b.ops[j].0 != jt,
                    found ==> pos < b.ops.len() && b.ops[pos as int].0 == jt,
                ensures
                    pos <= b.ops.len(),
                    forall|j: int| 0 <= j < pos ==> b.ops[j].0 != jt,
                    found ==> pos < b.ops.len() && b.ops[pos as int].0 == jt,
                    !found ==> pos == b.ops.len(),
                decreases blocks@[idx as int].1.ops@.len() - pos,
            {
                if blocks[idx].1.ops[pos].0 == jt {
                    found = true;
                    break;
                }
                pos = pos + 1;
            }
            proof {
                lemma_op_index(b.ops, jt);
                if !found {
                    assert(b.ops[op_index(b.ops, jt)].0 == jt);
                }
            }
            assert(op_index(b.ops, jt) == pos);
            let entry = &mut blocks[idx];
            let new_ops = entry.1.ops.split_off(pos);
            let new_block = Block {
                ops: new_ops,
                next: entry.1.next,
                span: entry.1.span.with_start(jt),
                predecessors: Vec::new(),
            };
            entry.1.next = NextKind::Follows(BlockId(jt));
            entry.1.span.end = jt;
            assert(ops_view(blocks@[idx as int].1.ops@) =~= b.ops.take(pos as int));
            assert(ops_view(new_block.ops@) =~= b.ops.skip(pos as int));
            assert(blocks_view(blocks@) =~= assoc_insert(before, id, BlockView {
                ops: b.ops.take(pos as int),
                next: NextKind::Follows(BlockId(jt)),
                span: Span { start: b.span.start, end: jt },
                ..b
            }));
            let ghost mid = blocks@;
            let ghost nbv = new_block.view();
            insert_value(blocks, BlockId(jt), new_block);
            proof {
                crate::assoc::lemma_key_index_keys(mid, blocks_view(mid), BlockId(jt));
                crate::assoc::lemma_key_index(mid, BlockId(jt));
                assert(blocks_view(blocks@) =~= assoc_insert(blocks_view(mid), BlockId(jt), nbv));
            }
            k = k + 1;
        }
        assert(pairs@.take(k as int) =~= pairs@);
    }

    fn sourced_next(src: BlockId, n: &NextKind<A>) -> (r: NextKind<A>)
        ensures
            r == sourced(src, *n),
    {
        match n {
            NextKind::FunctionCall(fc) => NextKind::FunctionCall(
                FunctionCall { calling_block: src, function_addr: fc.function_addr, return_block: fc.return_block },
            ),
            NextKind::Condition(c) => NextKind::Condition(
                Condition {
                    from_block: src,
                    jump_block: c.jump_block,
                    follows_block: c.follows_block,
                    arg: c.arg,
                    matches: c.matches,
                },
            ),
            other => *other,
        }
    }

    fn add_pred_entry(hm: &mut Vec<(BlockId, Vec<PredecessorKind<A>>)>, dst: BlockId, p: PredecessorKind<A>)
        ensures
            preds_view(final(hm)@) == add_pred(preds_view(old(hm)@), dst, p),
    {
        let ghost before = hm@;
        proof {
            crate::assoc::lemma_key_index_keys(before, preds_view(before), dst);
            crate::assoc::lemma_get_keys(before, preds_view(before), dst);
            crate::assoc::lemma_key_index(before, dst);
            crate::assoc::lemma_key_index(preds_view(before), dst);
        }
        match crate::assoc::find_key(hm, &dst) {
            Some(k) => {
                let ghost pv = preds_view(before);
                assert(crate::assoc::key_index(pv, dst) == k);
                assert(assoc_get(pv, dst) == Some(before[k as int].1@));
                let entry = &mut hm[k];
                entry.1.push(p);
                assert(hm@[k as int].1@ == before[k as int].1@.push(p));
                assert(hm@[k as int].0 == dst);
                assert forall|x: int| 0 <= x < hm@.len() && x != k implies hm@[x] == before[x] by {}
                assert(preds_view(hm@) =~= pv.update(k as int, (dst, before[k as int].1@.push(p))));
                assert(add_pred(pv, dst, p) == assoc_insert(pv, dst, before[k as int].1@.push(p)));
                assert(assoc_insert(pv, dst, before[k as int].1@.push(p)) == pv.update(k as int, (dst, before[k as int].1@.push(p))));
            },
            None => {
                let mut l: Vec<PredecessorKind<A>> = Vec::new();
                l.push(p);
                assert(l@ =~= seq![p]);
                hm.push((dst, l));
                assert(preds_view(hm@) =~= add_pred(preds_view(before), dst, p));
            },
        }
    }

    /// Fills in the predecessor lists and records each block as the source of
    /// its call or condition.
    fn update_predecessor(blocks: &mut Vec<(BlockId, Block<A>)>)
        requires
            keys_distinct(blocks_view(old(blocks)@)),
            forall|i: int| 0 <= i < old(blocks)@.len() ==> next_defined(#[trigger] old(blocks)@[i].1.next),
            preds_storable(blocks_view(old(blocks)@)),
        ensures
            blocks_view(final(blocks)@) == with_preds(blocks_view(old(blocks)@)),
    {
        let ghost bs = blocks_view(blocks@);
        let mut hm: Vec<(BlockId, Vec<PredecessorKind<A>>)> = Vec::new();
        let mut i: usize = 0;
        assert(preds_view(hm@) =~= all_preds(bs.take(0)));
        assert(blocks_view(blocks@) =~= sourced_prefix(bs, 0));
        while i < blocks.len()
            invariant
                i <= blocks@.len(),
                bs.len() == blocks@.len(),
                forall|k: int| 0 <= k < bs.len() ==> next_defined(#[trigger] bs[k].1.next),
                preds_view(hm@) == all_preds(bs.take(i as int)),
                blocks_view(blocks@) == sourced_prefix(bs, i as int),
            decreases blocks.len() - i,
        {
            let src = blocks[i].0;
            let n = Self::sourced_next(src, &blocks[i].1.next);
            assert(blocks_view(blocks@)[i as int] == bs[i as int]);
            assert(bs[i as int].0 == src);
            assert(next_defined(bs[i as int].1.next));
            let ghost pre_blocks = blocks@;
            let entry = &mut blocks[i];
            entry.1.next = n;
            assert forall|k: int| 0 <= k < bs.len() implies #[trigger] blocks_view(blocks@)[k] == sourced_prefix(bs, i + 1)[k] by {
                if k != i {
                    assert(blocks@[k] == pre_blocks[k]);
                    assert(blocks_view(pre_blocks)[k] == sourced_prefix(bs, i as int)[k]);
                }
            }
            assert(blocks_view(blocks@) =~= sourced_prefix(bs, i + 1));
            match n {
                NextKind::Follows(p) => Self::add_pred_entry(&mut hm, p, PredecessorKind::FollowsFrom(src)),
                NextKind::Goto(arg) => match arg.value() {
                    Some(v) => Self::add_pred_entry(&mut hm, BlockId(#[verifier::truncate] (v as usize)), PredecessorKind::GotoFrom(src)),
                    None => {
                        assert(false);
                    },
                },
                NextKind::FunctionCall(fc) => Self::add_pred_entry(&mut hm, fc.return_block, PredecessorKind::FunctionCallReturns(fc)),
                NextKind::Condition(c) => {
                    Self::add_pred_entry(&mut hm, c.jump_block, PredecessorKind::ConditionalJump(c));
                    Self::add_pred_entry(&mut hm, c.follows_block, PredecessorKind::ConditionalFollow(c));
                },
                _ => {},
            }
            proof {
                let t = bs.take(i + 1);
                assert(t.drop_last() =~= bs.take(i as int));
                assert(t.last() == bs[i as int]);
            }
            i = i + 1;
        }
        assert(bs.take(i as int) =~= bs);
        let ghost hv = preds_view(hm@);
        let ghost sb = sourced_prefix(bs, bs.len() as int);
        proof {
            lemma_all_preds_distinct(bs);
        }
        let mut j: usize = 0;
        assert(blocks_view(blocks@) =~= stored_preds(sb, hv.take(0)));
        while j < hm.len()
            invariant
                j <= hm@.len(),
                hv == preds_view(hm@),
                hv == all_preds(bs),
                keys_distinct(hv),
                keys_distinct(bs),
                bs.len() == sb.len(),
                forall|k: int| 0 <= k < bs.len() ==> #[trigger] sb[k].0 == bs[k].0,
                preds_storable(bs),
                blocks_view(blocks@) == stored_preds(sb, hv.take(j as int)),
            decreases hm.len() - j,
        {
            let dst = hm[j].0;
            let ghost cur = blocks@;
            proof {
                crate::assoc::lemma_key_index(hv, dst);
                assert(hv[j as int].0 == dst);
                crate::assoc::lemma_key_index(hv, dst);
                assert(crate::assoc::key_index(hv, dst) >= 0);
                assert(assoc_get(hv, dst) is Some);
                assert(assoc_get(bs, dst) is Some);
                crate::assoc::lemma_key_index(bs, dst);
                crate::assoc::lemma_key_index_keys(bs, blocks_view(cur), dst);
                crate::assoc::lemma_key_index_keys(cur, blocks_view(cur), dst);
                crate::assoc::lemma_key_index(cur, dst);
            }
            let idx = match crate::assoc::find_key(blocks, &dst) {
                Some(x) => x,
                None => {
                    assert(false);
                    0
                },
            };
            let mut l: Vec<PredecessorKind<A>> = Vec::new();
            let mut q: usize = 0;
            while q < hm[j].1.len()
                invariant
                    j < hm@.len(),
                    q <= hm@[j as int].1@.len(),
                    l@ == hm@[j as int].1@.take(q as int),
                decreases hm@[j as int].1@.len() - q,
            {
                l.push(hm[j].1[q]);
                q = q + 1;
                assert(l@ =~= hm@[j as int].1@.take(q as int));
            }
            assert(l@ =~= hv[j as int].1);
            let entry = &mut blocks[idx];
            entry.1.predecessors = l;
            proof {
                assert(cur[idx as int].0 == dst);
                assert(blocks_view(cur)[idx as int] == stored_preds(sb, hv.take(j as int))[idx as int]);
                assert(sb[idx as int].0 == dst);
                assert(bs[idx as int].0 == dst);
                assert forall|k: int| 0 <= k < bs.len() implies #[trigger] blocks_view(blocks@)[k] == stored_preds(sb, hv.take(j + 1))[k] by {
                    lemma_get_prefix(hv, j as int, sb[k].0);
                    assert(blocks_view(cur)[k] == stored_preds(sb, hv.take(j as int))[k]);
                    if k != idx {
                        assert(blocks@[k] == cur[k]);
                        assert(sb[k].0 != dst) by {
                            if sb[k].0 == dst {
                                assert(bs[k].0 == bs[idx as int].0);
                            }
                        }
                    }
                }
                assert(blocks_view(blocks@) =~= stored_preds(sb, hv.take(j + 1)));
            }
            j = j + 1;
        }
        assert(hv.take(j as int) =~= hv);
        assert(blocks_view(blocks@) =~= with_preds(bs));
    }

    /// The control flow graph of the function whose entry is `start`: its
    /// blocks, found by following every jump, call return and fall-through
    /// from the entry, split at every jump target, with their predecessors.
    pub fn build_from(prog: &[i128], start: usize) -> (r: Result<Self, ParseError>)
        requires
            prog@.len() + 4 <= usize::MAX,
            cfg_defined::<A>(prog@, start),
        ensures
            match spec_build_cfg::<A>(prog@, start) {
                Ok(g) => r is Ok && r->Ok_0.view() == g,
                Err(e) => r is Err && r->Err_0 == e,
            },
    {
        let stack_size = match Self::parse_stack_size(make_input(prog, start)) {
            Ok(s) => s,
            Err(e) => return Err(e),
        };
        let (mut blocks, jump_targets) = match Self::explore(prog, start) {
            Ok(x) => x,
            Err(e) => return Err(e),
        };
        proof {
            let e0 = Explore { stack: seq![start], seen: seq![], blocks: seq![], targets: seq![] };
            lemma_explore_keeps::<A>(prog@, e0, explore_fuel::<A>(prog@, start));
            lemma_splits_keep(blocks_view(blocks@), split_pairs(blocks_view(blocks@), jump_targets@));
        }
        Self::split_blocks(&mut blocks, &jump_targets);
        proof {
            lemma_all_preds_distinct(blocks_view(blocks@));
            assert forall|i: int| 0 <= i < blocks@.len() implies next_defined(#[trigger] blocks@[i].1.next) by {
                assert(blocks_view(blocks@)[i].1.next == blocks@[i].1.next);
            }
        }
        Self::update_predecessor(&mut blocks);
        Ok(ControlFlowGraph { start: BlockId(start), stack_size, blocks })
    }

    /// Whether address `a` lies in a block of one of the graphs.
    fn is_covered(graphs: &Vec<ControlFlowGraph<A>>, a: usize) -> (r: bool)
        ensures
            r == covered(cfgs_view(graphs@), a),
    {
        let ghost gs = cfgs_view(graphs@);
        let mut gi: usize = 0;
        while gi < graphs.len()
            invariant
                gi <= graphs@.len(),
                gs == cfgs_view(graphs@),
                forall|x: int, y: int|
                    0 <= x < gi && 0 <= y < gs[x].blocks.len() ==> !(#[trigger] gs[x].blocks[y]).1.span.spec_contains_address(a as int),
            decreases graphs.len() - gi,
        {
            let mut bi: usize = 0;
            while bi < graphs[gi].blocks.len()
                invariant
                    gi < graphs@.len(),
                    bi <= graphs@[gi as int].blocks@.len(),
                    gs == cfgs_view(graphs@),
                    forall|x: int, y: int|
                        0 <= x < gi && 0 <= y < gs[x].blocks.len() ==> !(#[trigger] gs[x].blocks[y]).1.span.spec_contains_address(a as int),
                    forall|y: int| 0 <= y < bi ==> !(#[trigger] gs[gi as int].blocks[y]).1.span.spec_contains_address(a as int),
                decreases graphs@[gi as int].blocks@.len() - bi,
            {
                assert(gs[gi as int].blocks[bi as int].1.span == graphs@[gi as int].blocks@[bi as int].1.span);
                if graphs[gi].blocks[bi].1.span.contains_address(a) {
                    return true;
                }
                bi = bi + 1;
            }
            gi = gi + 1;
        }
        false
    }

    /// The control flow graphs of all functions of a program: every address
    /// that lies in no graph found so far and moves the relative base up by a
    /// constant is tried as a function entry.
    pub fn scan(prog: &[i128]) -> (r: Vec<ControlFlowGraph<A>>)
        requires
            prog@.len() + 4 <= usize::MAX,
            scan_defined_from::<A>(prog@, 0, seq![]),
        ensures
            cfgs_view(r@) == spec_scan_from::<A>(prog@, 0, seq![]),
    {
        let mut graphs: Vec<ControlFlowGraph<A>> = Vec::new();
        let mut start: usize = 0;
        assert(cfgs_view(graphs@) =~= seq![]);
        while start < prog.len()
            invariant
                start <= prog@.len(),
                prog@.len() + 4 <= usize::MAX,
                scan_defined_from::<A>(prog@, start as nat, cfgs_view(graphs@)),
                spec_scan_from::<A>(prog@, 0, seq![]) == spec_scan_from::<A>(prog@, start as nat, cfgs_view(graphs@)),
            decreases prog.len() - start,
        {
            let ghost gs = cfgs_view(graphs@);
            if !Self::is_covered(&graphs, start) {
                let candidate = match Instruction::parse(make_input(prog, start)) {
                    Ok((_, GenericInstruction::AdjustRelativeBase(Arg::Value(r)))) => r >= 0,
                    _ => false,
                };
                if candidate {
                    match Self::build_from(prog, start) {
                        Ok(res) => {
                            graphs.push(res);
                            assert(cfgs_view(graphs@) =~= gs.push(spec_build_cfg::<A>(prog@, start)->Ok_0));
                        },
                        Err(_) => {},
                    }
                }
            }
            start = start + 1;
        }
        graphs
    }
}

/// `t` right-aligned in a field of `w` characters.
pub open spec fn pad_left(t: Seq<char>, w: nat) -> Seq<char> {
    if t.len() < w {
        Seq::new((w - t.len()) as nat, |i: int| ' ') + t
    } else {
        t
    }
}

pub open spec fn bool_text(b: bool) -> Seq<char> {
    if b {
        seq!['t', 'r', 'u', 'e']
    } else {
        seq!['f', 'a', 'l', 's', 'e']
    }
}

/// The text of a span: `start..end`.
pub open spec fn span_text(s: Span) -> Seq<char> {
    spec_uint_text(s.start as nat) + seq!['.', '.'] + spec_uint_text(s.end as nat)
}

/// How a block ends, as text, with the line's end.
pub open spec fn next_text<A: ArgText>(n: NextKind<A>) -> Seq<char> {
    match n {
        NextKind::Follows(b) => seq!['f', 'o', 'l', 'l', 'o', 'w', 's', ' '] + spec_uint_text(b.0 as nat) + seq!['\n'],
        NextKind::Goto(a) => seq!['g', 'o', 't', 'o', ' '] + a.spec_text() + seq!['\n'],
        NextKind::FunctionCall(c) => seq!['f', 'u', 'n', 'c', 't', 'i', 'o', 'n', ' ', 'c', 'a', 'l', 'l', ' ']
            + c.function_addr.spec_text() + seq![' ', 'r', 'e', 't', 'u', 'r', 'n', ' '] + spec_uint_text(
            c.return_block.0 as nat,
        ) + seq!['\n'],
        NextKind::Condition(c) => seq!['i', 'f', ' '] + c.arg.spec_text() + seq![' ', 'i', 's', ' '] + bool_text(c.matches)
            + seq![' ', 'g', 'o', 't', 'o', ' '] + spec_uint_text(c.jump_block.0 as nat) + seq![' ', 'e', 'l', 's', 'e', ' ']
            + spec_uint_text(c.follows_block.0 as nat) + seq!['\n'],
        NextKind::Halt => seq!['h', 'a', 'l', 't', '\n'],
        NextKind::Unknown => seq!['u', 'n', 'k', 'n', 'o', 'w', 'n', '\n'],
        NextKind::Return => seq!['r', 'e', 't', 'u', 'r', 'n', '\n'],
    }
}

/// The operations of a block, one per line: the address right-aligned in
/// eight places, two spaces, the instruction.
pub open spec fn ops_text<A: ArgText>(ops: Seq<(usize, InstrView<A>)>) -> Seq<char>
    decreases ops.len(),
{
    if ops.len() == 0 {
        seq![]
    } else {
        ops_text(ops.drop_last()) + pad_left(spec_uint_text(ops.last().0 as nat), 8) + seq![' ', ' ']
            + spec_instr_text(ops.last().1) + seq!['\n']
    }
}

/// The text of a block: its span, its operations, and how it ends.
pub open spec fn block_text<A: ArgText>(b: BlockView<A>) -> Seq<char> {
    seq!['B', 'l', 'o', 'c', 'k', ' '] + span_text(b.span) + seq![':', ' ', '\n'] + ops_text(b.ops) + seq![
        'N',
        'e',
        'x',
        't',
        ' ',
        'b',
        'l',
        'o',
        'c',
        'k',
        ':',
        ' ',
    ] + next_text(b.next)
}

fn append_padded_uint(out: &mut String, n: usize, w: usize)
    ensures
        final(out)@ == old(out)@ + pad_left(spec_uint_text(n as nat), w as nat),
{
    let t = uint_text(n);
    let len = t.unicode_len();
    let ghost o = out@;
    if len < w {
        let mut k: usize = len;
        assert(Seq::new((k - len) as nat, |i: int| ' ') =~= seq![]);
        assert(out@ =~= o + Seq::new((k - len) as nat, |i: int| ' '));
        while k < w
            invariant
                len <= k <= w,
                out@ == o + Seq::new((k - len) as nat, |i: int| ' '),
            decreases w - k,
        {
            crate::text::append_chars(out, &[' ']);
            k = k + 1;
            assert(out@ =~= o + Seq::new((k - len) as nat, |i: int| ' '));
        }
    }
    append_str(out, t.as_str());
    assert(out@ =~= o + pad_left(spec_uint_text(n as nat), w as nat));
}

impl<A: ArgText> Block<A> {
    /// The text of the block; see [`block_text`].
    #[verifier::spinoff_prover]
    #[verifier::rlimit(30)]
    pub fn to_text(&self) -> (r: String)
        ensures
            r@ == block_text(self.view()),
    {
        let mut out = String::new();
        crate::text::append_chars(&mut out, &['B', 'l', 'o', 'c', 'k', ' ']);
        append_uint(&mut out, self.span.start as u128);
        crate::text::append_chars(&mut out, &['.', '.']);
        append_uint(&mut out, self.span.end as u128);
        crate::text::append_chars(&mut out, &[':', ' ', '\n']);
        let ghost head = out@;
        let ghost ops = self.view().ops;
        let mut i: usize = 0;
        assert(ops.take(0) =~= seq![]);
        while i < self.ops.len()
            invariant
                i <= self.ops@.len(),
                ops == self.view().ops,
                ops.len() == self.ops@.len(),
                out@ == head + ops_text(ops.take(i as int)),
            decreases self.ops.len() - i,
        {
            proof {
                assert(ops.take(i + 1).drop_last() =~= ops.take(i as int));
                assert(ops.take(i + 1).last() == (self.ops@[i as int].0, self.ops@[i as int].1@));
            }
            append_padded_uint(&mut out, self.ops[i].0, 8);
            crate::text::append_chars(&mut out, &[' ', ' ']);
            self.ops[i].1.append_text(&mut out);
            crate::text::append_chars(&mut out, &['\n']);
            i = i + 1;
        }
        assert(ops.take(i as int) =~= ops);
        let ghost mid = out@;
        crate::text::append_chars(&mut out, &['N', 'e', 'x', 't', ' ', 'b', 'l', 'o', 'c', 'k', ':', ' ']);
        match &self.next {
            NextKind::Follows(b) => {
                crate::text::append_chars(&mut out, &['f', 'o', 'l', 'l', 'o', 'w', 's', ' ']);
                append_uint(&mut out, b.0 as u128);
            },
            NextKind::Goto(a) => {
                crate::text::append_chars(&mut out, &['g', 'o', 't', 'o', ' ']);
                a.write_text(&mut out);
            },
            NextKind::FunctionCall(c) => {
                crate::text::append_chars(&mut out, &['f', 'u', 'n', 'c', 't', 'i', 'o', 'n', ' ', 'c', 'a', 'l', 'l', ' ']);
                c.function_addr.write_text(&mut out);
                crate::text::append_chars(&mut out, &[' ', 'r', 'e', 't', 'u', 'r', 'n', ' ']);
                append_uint(&mut out, c.return_block.0 as u128);
            },
            NextKind::Condition(c) => {
                crate::text::append_chars(&mut out, &['i', 'f', ' ']);
                c.arg.write_text(&mut out);
                crate::text::append_chars(&mut out, &[' ', 'i', 's', ' ']);
                if c.matches {
                    crate::text::append_chars(&mut out, &['t', 'r', 'u', 'e']);
                } else {
                    crate::text::append_chars(&mut out, &['f', 'a', 'l', 's', 'e']);
                }
                crate::text::append_chars(&mut out, &[' ', 'g', 'o', 't', 'o', ' ']);
                append_uint(&mut out, c.jump_block.0 as u128);
                crate::text::append_chars(&mut out, &[' ', 'e', 'l', 's', 'e', ' ']);
                append_uint(&mut out, c.follows_block.0 as u128);
            },
            NextKind::Halt => crate::text::append_chars(&mut out, &['h', 'a', 'l', 't']),
            NextKind::Unknown => crate::text::append_chars(&mut out, &['u', 'n', 'k', 'n', 'o', 'w', 'n']),
            NextKind::Return => crate::text::append_chars(&mut out, &['r', 'e', 't', 'u', 'r', 'n']),
        }
        crate::text::append_chars(&mut out, &['\n']);
        assert(out@ =~= block_text(self.view()));
        out
    }
}

/// The text of a graph: for each block, by address, `addr `, the address,
/// `, ` and the block's text, then an empty line.
pub open spec fn cfg_text<A: ArgText>(blocks: Seq<(BlockId, BlockView<A>)>) -> Seq<char> {
    blocks_text(blocks, spec_sorted_indices(spec_keyed(blocks.map_values(|b: (BlockId, BlockView<A>)| b.0.0))))
}

pub open spec fn blocks_text<A: ArgText>(blocks: Seq<(BlockId, BlockView<A>)>, order: Seq<usize>) -> Seq<char>
    decreases order.len(),
{
    if order.len() == 0 {
        seq![]
    } else {
        let b = blocks[order.last() as int];
        blocks_text(blocks, order.drop_last()) + seq!['a', 'd', 'd', 'r', ' '] + spec_uint_text(b.0.0 as nat) + seq![',', ' ']
            + block_text(b.1) + seq!['\n']
    }
}

impl<A: ArgText> ControlFlowGraph<A> {
    /// The text of the graph; see [`cfg_text`].
    pub fn to_text(&self) -> (r: String)
        ensures
            r@ == cfg_text(blocks_view(self.blocks@)),
    {
        let ghost bv = blocks_view(self.blocks@);
        let mut keys: Vec<usize> = Vec::new();
        let mut i: usize = 0;
        while i < self.blocks.len()
            invariant
                i <= self.blocks@.len(),
                bv == blocks_view(self.blocks@),
                bv.len() == self.blocks@.len(),
                keys@ == bv.map_values(|b: (BlockId, BlockView<A>)| b.0.0).take(i as int),
            decreases self.blocks.len() - i,
        {
            keys.push(self.blocks[i].0.0);
            i = i + 1;
            assert(keys@ =~= bv.map_values(|b: (BlockId, BlockView<A>)| b.0.0).take(i as int));
        }
        assert(keys@ =~= bv.map_values(|b: (BlockId, BlockView<A>)| b.0.0));
        let order = sorted_indices(&keys);
        proof {
            lemma_sorted_indices_members(spec_keyed(keys@));
        }
        let mut out = String::new();
        let mut k: usize = 0;
        assert(order@.take(0) =~= seq![]);
        while k < order.len()
            invariant
                bv == blocks_view(self.blocks@),
                bv.len() == self.blocks@.len(),
                keys@.len() == bv.len(),
                forall|j: int| 0 <= j < order@.len() ==> exists|q: int| 0 <= q < spec_keyed(keys@).len() && spec_keyed(keys@)[q].1 == #[trigger] order@[j],
                k <= order@.len(),
                out@ == blocks_text(bv, order@.take(k as int)),
            decreases order.len() - k,
        {
            let bi = order[k];
            proof {
                let q = choose|q: int| 0 <= q < spec_keyed(keys@).len() && spec_keyed(keys@)[q].1 == order@[k as int];
                assert(bi < bv.len());
                assert(order@.take(k + 1).drop_last() =~= order@.take(k as int));
            }
            crate::text::append_chars(&mut out, &['a', 'd', 'd', 'r', ' ']);
            append_uint(&mut out, self.blocks[bi].0.0 as u128);
            crate::text::append_chars(&mut out, &[',', ' ']);
            let t = self.blocks[bi].1.to_text();
            append_str(&mut out, t.as_str());
            crate::text::append_chars(&mut out, &['\n']);
            k = k + 1;
        }
        assert(order@.take(k as int) =~= order@);
        out
    }
}

/// How a block ends, with `f` applied to each operand.
pub open spec fn next_map<A, T>(n: NextKind<A>, f: spec_fn(A) -> T) -> NextKind<T> {
    match n {
        NextKind::Follows(b) => NextKind::Follows(b),
        NextKind::Goto(a) => NextKind::Goto(f(a)),
        NextKind::FunctionCall(c) => NextKind::FunctionCall(
            FunctionCall { calling_block: c.calling_block, function_addr: f(c.function_addr), return_block: c.return_block },
        ),
        NextKind::Condition(c) => NextKind::Condition(
            Condition {
                from_block: c.from_block,
                jump_block: c.jump_block,
                follows_block: c.follows_block,
                arg: f(c.arg),
                matches: c.matches,
            },
        ),
        NextKind::Halt => NextKind::Halt,
        NextKind::Unknown => NextKind::Unknown,
        NextKind::Return => NextKind::Return,
    }
}

/// The block with the key `id`.
pub open spec fn block_of<A>(blocks: Seq<(BlockId, BlockView<A>)>, id: BlockId) -> BlockView<A> {
    assoc_get(blocks, id)->Some_0
}

/// Whether `path` leads from `from` to `to`, each step to a block that the
/// previous one can go to.
pub open spec fn is_path<A: ArgBase>(blocks: Seq<(BlockId, BlockView<A>)>, path: Seq<BlockId>, from: BlockId, to: BlockId) -> bool {
    &&& path.len() > 0
    &&& path[0] == from
    &&& path.last() == to
    &&& forall|k: int| 0 <= k < path.len() - 1 ==> next_targets(block_of(blocks, path[k]).next).contains(#[trigger] path[k + 1])
}

/// Whether control can get from `from` to `to`.
pub open spec fn reachable<A: ArgBase>(blocks: Seq<(BlockId, BlockView<A>)>, from: BlockId, to: BlockId) -> bool {
    exists|path: Seq<BlockId>| is_path(blocks, path, from, to)
}

/// Whether the set `v` holds every block that a block of `v` can go to.
pub open spec fn closed_under_successors<A: ArgBase>(blocks: Seq<(BlockId, BlockView<A>)>, v: Seq<BlockId>) -> bool {
    forall|x: BlockId, y: BlockId| v.contains(x) && #[trigger] next_targets(block_of(blocks, x).next).contains(y) ==> #[trigger] v.contains(y)
}

/// A set that holds the start and is closed under successors holds every
/// block reachable from the start.
pub proof fn lemma_closed_holds_reachable<A: ArgBase>(blocks: Seq<(BlockId, BlockView<A>)>, v: Seq<BlockId>, from: BlockId, to: BlockId)
    requires
        v.contains(from),
        closed_under_successors(blocks, v),
        reachable(blocks, from, to),
    ensures
        v.contains(to),
{
    let path = choose|path: Seq<BlockId>| is_path(blocks, path, from, to);
    lemma_path_in_closed(blocks, v, path, from, to, path.len() - 1);
}

proof fn lemma_path_in_closed<A: ArgBase>(
    blocks: Seq<(BlockId, BlockView<A>)>,
    v: Seq<BlockId>,
    path: Seq<BlockId>,
    from: BlockId,
    to: BlockId,
    k: int,
)
    requires
        v.contains(from),
        closed_under_successors(blocks, v),
        is_path(blocks, path, from, to),
        0 <= k < path.len(),
    ensures
        v.contains(path[k]),
    decreases k,
{
    if k > 0 {
        lemma_path_in_closed(blocks, v, path, from, to, k - 1);
        assert(next_targets(block_of(blocks, path[k - 1]).next).contains(path[k - 1 + 1]));
    }
}

} // verus!
