//! Reaching definitions and live operands of the blocks of a control flow
//! graph.
use vstd::prelude::*;
use crate::assoc::{Key, assoc_get, assoc_insert, find_key, insert_value, key_index, keys_distinct};
use crate::control_flow_graph::{
    Block, BlockId, BlockView, CfgView, ControlFlowGraph, NextKind, PredecessorKind, blocks_view, next_defined, next_targets,
    ops_view, pred_block,
};
use crate::low_ir::{Arg, ArgBase, InstrView, OpArg, Span, spec_non_values, spec_read_operands, spec_written};

verus! {

impl Key for Arg {
    fn same(&self, other: &Self) -> (r: bool) {
        *self == *other
    }
}

impl Key for OpArg {
    fn same(&self, other: &Self) -> (r: bool) {
        *self == *other
    }
}

/// A write of an operand: the instruction that writes it and its block.
#[derive(Debug, Clone, Copy, PartialEq, Eq)]
pub struct Definition<A> {
    pub instruction_addr: usize,
    pub arg: A,
    pub block: BlockId,
}

impl<A: Key> Key for Definition<A> {
    fn same(&self, other: &Self) -> (r: bool) {
        self.instruction_addr == other.instruction_addr && self.arg.same(&other.arg) && self.block == other.block
    }
}

/// Whether `v` holds `x`.
pub fn set_contains<T: Key>(v: &Vec<T>, x: &T) -> (r: bool)
    ensures
        r == v@.contains(*x),
{
    let mut i: usize = 0;
    while i < v.len()
        invariant
            i <= v@.len(),
            forall|j: int| 0 <= j < i ==> v@[j] != *x,
        decreases v.len() - i,
    {
        if v[i].same(x) {
            assert(v@[i as int] == *x);
            return true;
        }
        i = i + 1;
    }
    false
}

/// Adds `x` unless it is there already.
pub fn set_insert<T: Key>(v: &mut Vec<T>, x: T)
    ensures
        final(v)@.to_set() == old(v)@.to_set().insert(x),
{
    if !set_contains(v, &x) {
        let ghost before = v@;
        v.push(x);
        assert(v@.to_set() =~= before.to_set().insert(x)) by {
            assert forall|y: T| #[trigger] v@.to_set().contains(y) == before.to_set().insert(x).contains(y) by {
                if before.contains(y) {
                    let k = choose|k: int| 0 <= k < before.len() && before[k] == y;
                    assert(v@[k] == y);
                }
                if v@.contains(y) {
                    let k = choose|k: int| 0 <= k < v@.len() && v@[k] == y;
                    if k < before.len() {
                        assert(before[k] == y);
                    }
                }
                if y == x {
                    assert(v@[before.len() as int] == x);
                }
            }
        }
    } else {
        assert(v@.to_set() =~= v@.to_set().insert(x));
    }
}

/// Adds every element of `w`.
pub fn set_extend<T: Key>(v: &mut Vec<T>, w: &Vec<T>)
    ensures
        final(v)@.to_set() == old(v)@.to_set().union(w@.to_set()),
{
    let mut i: usize = 0;
    while i < w.len()
        invariant
            i <= w@.len(),
            v@.to_set() == old(v)@.to_set().union(w@.take(i as int).to_set()),
        decreases w.len() - i,
    {
        let ghost prev = v@.to_set();
        set_insert(v, w[i]);
        proof {
            let t = w@.take(i + 1);
            assert(t =~= w@.take(i as int).push(w@[i as int]));
            w@.take(i as int).lemma_push_to_set_commute(w@[i as int]);
            assert(v@.to_set() =~= old(v)@.to_set().union(w@.take(i + 1).to_set()));
        }
        i = i + 1;
    }
    assert(w@.take(i as int) =~= w@);
}

/// Whether `a` and `b` hold the same elements.
pub fn same_set<T: Key>(a: &Vec<T>, b: &Vec<T>) -> (r: bool)
    ensures
        r == (a@.to_set() == b@.to_set()),
{
    let mut i: usize = 0;
    while i < a.len()
        invariant
            i <= a@.len(),
            forall|j: int| 0 <= j < i ==> b@.contains(#[trigger] a@[j]),
        decreases a.len() - i,
    {
        if !set_contains(b, &a[i]) {
            assert(a@.to_set().contains(a@[i as int]));
            assert(!b@.to_set().contains(a@[i as int]));
            return false;
        }
        i = i + 1;
    }
    let mut k: usize = 0;
    while k < b.len()
        invariant
            k <= b@.len(),
            forall|j: int| 0 <= j < a@.len() ==> b@.contains(#[trigger] a@[j]),
            forall|j: int| 0 <= j < k ==> a@.contains(#[trigger] b@[j]),
        decreases b.len() - k,
    {
        if !set_contains(a, &b[k]) {
            assert(b@.to_set().contains(b@[k as int]));
            assert(!a@.to_set().contains(b@[k as int]));
            return false;
        }
        k = k + 1;
    }
    assert(a@.to_set() =~= b@.to_set()) by {
        assert forall|x: T| #[trigger] a@.to_set().contains(x) == b@.to_set().contains(x) by {
            if a@.contains(x) {
                let j = choose|j: int| 0 <= j < a@.len() && a@[j] == x;
                assert(b@.contains(a@[j]));
            }
            if b@.contains(x) {
                let j = choose|j: int| 0 <= j < b@.len() && b@[j] == x;
                assert(a@.contains(b@[j]));
            }
        }
    }
    true
}


/// The operand the frame set-up creates at slot `r` below the relative base.
pub open spec fn frame_arg<A: ArgBase>(r: nat, addr: usize) -> A {
    A::spec_from_op_arg(
        OpArg { kind: Arg::RelativeMem((-(r as int)) as i128), span: Span { start: addr, end: (addr + 2) as usize }, debug_marker: None },
    )
}

/// The definitions of the first `n` frame slots, made by the set-up at `addr`.
pub open spec fn frame_defs<A: ArgBase>(n: nat, addr: usize, block: BlockId) -> Seq<(A, Definition<A>)>
    decreases n,
{
    if n == 0 {
        seq![]
    } else {
        let a = frame_arg::<A>((n - 1) as nat, addr);
        assoc_insert(frame_defs((n - 1) as nat, addr, block), a, Definition { instruction_addr: addr, arg: a, block })
    }
}

/// The definitions made by the instructions of a block, after `start`: the
/// last write of each operand.
pub open spec fn op_defs<A>(start: Seq<(A, Definition<A>)>, ops: Seq<(usize, InstrView<A>)>, block: BlockId) -> Seq<(A, Definition<A>)>
    decreases ops.len(),
{
    if ops.len() == 0 {
        start
    } else {
        let prev = op_defs(start, ops.drop_last(), block);
        match spec_written(ops.last().1) {
            Some(a) => assoc_insert(prev, a, Definition { instruction_addr: ops.last().0, arg: a, block }),
            None => prev,
        }
    }
}

/// The definitions a block makes, by operand; the entry block of a function
/// whose frame is created (`create` gives its size and the set-up's address)
/// also defines the frame's slots.
pub open spec fn spec_definitions<A: ArgBase>(b: BlockView<A>, create: Option<(usize, usize)>) -> Seq<(A, Definition<A>)> {
    let id = BlockId(b.span.start);
    let base = match create {
        Some((size, addr)) => frame_defs::<A>(size as nat, addr, id),
        None => seq![],
    };
    op_defs(base, b.ops, id)
}

/// The operands a block reads before writing them, and the operands it writes.
pub open spec fn spec_uses<A: ArgBase>(ops: Seq<(usize, InstrView<A>)>) -> (Set<A>, Set<A>)
    decreases ops.len(),
{
    if ops.len() == 0 {
        (Set::empty(), Set::empty())
    } else {
        let (u, d) = spec_uses(ops.drop_last());
        let i = ops.last().1;
        let rs = spec_non_values(spec_read_operands(i)).to_set();
        (
            u.union(rs.filter(|r: A| !d.contains(r))),
            match spec_written(i) {
                Some(w) => d.insert(w),
                None => d,
            },
        )
    }
}

/// What is known of the data flow of a block: the definitions that reach its
/// start and its end, the operands live at its start and end, the
/// definitions it makes, and the operands it reads before writing them.
pub struct BlockDef<A> {
    pub defs_in: Vec<Definition<A>>,
    pub defs_out: Vec<Definition<A>>,
    pub live_in: Vec<A>,
    pub live_out: Vec<A>,
    pub gen_set: Vec<(A, Definition<A>)>,
    pub use_set: Vec<A>,
}

#[verifier::reject_recursive_types(A)]
pub ghost struct DefsView<A> {
    pub defs_in: Set<Definition<A>>,
    pub defs_out: Set<Definition<A>>,
    pub live_in: Set<A>,
    pub live_out: Set<A>,
    pub gen_set: Seq<(A, Definition<A>)>,
    pub use_set: Set<A>,
}

impl<A> BlockDef<A> {
    pub open spec fn view(&self) -> DefsView<A> {
        DefsView {
            defs_in: self.defs_in@.to_set(),
            defs_out: self.defs_out@.to_set(),
            live_in: self.live_in@.to_set(),
            live_out: self.live_out@.to_set(),
            gen_set: self.gen_set@,
            use_set: self.use_set@.to_set(),
        }
    }
}

/// The data flow of every block of a graph.
pub struct GraphDataFlow<A> {
    pub block_defs: Vec<(BlockId, BlockDef<A>)>,
}

pub open spec fn defs_view<A>(v: Seq<(BlockId, BlockDef<A>)>) -> Seq<(BlockId, DefsView<A>)> {
    Seq::new(v.len(), |i: int| (v[i].0, v[i].1.view()))
}

/// The definitions a block makes, by operand.
pub fn get_definitions<A: ArgBase + Key>(block: &Block<A>, create_stack: Option<(usize, usize)>) -> (r: Vec<(A, Definition<A>)>)
    requires
        create_stack matches Some((_, addr)) ==> addr + 2 <= usize::MAX,
    ensures
        r@ == spec_definitions(block.view(), create_stack),
{
    let id = block.id();
    let mut hm: Vec<(A, Definition<A>)> = Vec::new();
    match create_stack {
        Some((stack_size, instruction_addr)) => {
            let mut r: usize = 0;
            assert(hm@ =~= frame_defs::<A>(0, instruction_addr, id));
            while r < stack_size
                invariant
                    r <= stack_size,
                    instruction_addr + 2 <= usize::MAX,
                    hm@ == frame_defs::<A>(r as nat, instruction_addr, id),
                decreases stack_size - r,
            {
                let arg = A::from_op_arg(
                    OpArg {
                        kind: Arg::RelativeMem(-(r as i128)),
                        span: Span::new(instruction_addr, instruction_addr + 2),
                        debug_marker: None,
                    },
                );
                insert_value(&mut hm, arg, Definition { arg, instruction_addr, block: id });
                r = r + 1;
            }
        },
        None => {},
    }
    let ghost base = hm@;
    let mut i: usize = 0;
    assert(ops_view(block.ops@).take(0) =~= seq![]);
    while i < block.ops.len()
        invariant
            i <= block.ops@.len(),
            id == BlockId(block.span.start),
            hm@ == op_defs(base, ops_view(block.ops@).take(i as int), id),
        decreases block.ops.len() - i,
    {
        proof {
            let t = ops_view(block.ops@).take(i + 1);
            assert(t.drop_last() =~= ops_view(block.ops@).take(i as int));
        }
        match block.ops[i].1.writes() {
            Some(arg) => {
                insert_value(&mut hm, arg, Definition { arg, instruction_addr: block.ops[i].0, block: id });
            },
            None => {},
        }
        i = i + 1;
    }
    assert(ops_view(block.ops@).take(i as int) =~= ops_view(block.ops@));
    hm
}

/// The operands a block reads before writing them.
pub fn get_read_before_write<A: ArgBase + Key>(block: &Block<A>) -> (r: Vec<A>)
    ensures
        r@.to_set() == spec_uses(ops_view(block.ops@)).0,
{
    let mut use_set: Vec<A> = Vec::new();
    let mut defines: Vec<A> = Vec::new();
    let mut i: usize = 0;
    assert(ops_view(block.ops@).take(0) =~= seq![]);
    assert(use_set@.to_set() =~= Set::<A>::empty());
    assert(defines@.to_set() =~= Set::<A>::empty());
    while i < block.ops.len()
        invariant
            i <= block.ops@.len(),
            (use_set@.to_set(), defines@.to_set()) == spec_uses(ops_view(block.ops@).take(i as int)),
        decreases block.ops.len() - i,
    {
        proof {
            let t = ops_view(block.ops@).take(i + 1);
            assert(t.drop_last() =~= ops_view(block.ops@).take(i as int));
        }
        let inst = &block.ops[i].1;
        let reads = inst.reads();
        let ghost u0 = use_set@.to_set();
        let ghost d0 = defines@.to_set();
        let ghost rs = reads@.to_set();
        let mut k: usize = 0;
        while k < reads.len()
            invariant
                k <= reads@.len(),
                d0 == defines@.to_set(),
                use_set@.to_set() == u0.union(reads@.take(k as int).to_set().filter(|r: A| !d0.contains(r))),
            decreases reads.len() - k,
        {
            let ghost prev = use_set@.to_set();
            if !set_contains(&defines, &reads[k]) {
                set_insert(&mut use_set, reads[k]);
            }
            proof {
                let tk = reads@.take(k + 1);
                assert(tk =~= reads@.take(k as int).push(reads@[k as int]));
                reads@.take(k as int).lemma_push_to_set_commute(reads@[k as int]);
                assert(use_set@.to_set() =~= u0.union(reads@.take(k + 1).to_set().filter(|r: A| !d0.contains(r))));
            }
            k = k + 1;
        }
        assert(reads@.take(k as int) =~= reads@);
        match inst.writes() {
            Some(w) => set_insert(&mut defines, w),
            None => {},
        }
        i = i + 1;
    }
    assert(ops_view(block.ops@).take(i as int) =~= ops_view(block.ops@));
    use_set
}


/// The definitions that leave the predecessors `preds` in state `st`.
pub open spec fn preds_out<A>(st: Seq<(BlockId, DefsView<A>)>, preds: Seq<PredecessorKind<A>>) -> Set<Definition<A>>
    decreases preds.len(),
{
    if preds.len() == 0 {
        Set::empty()
    } else {
        preds_out(st, preds.drop_last()).union(assoc_get(st, pred_block(preds.last()))->0.defs_out)
    }
}

/// The definitions of a block, as a set.
pub open spec fn gen_values<A>(g: Seq<(A, Definition<A>)>) -> Set<Definition<A>> {
    g.map_values(|e: (A, Definition<A>)| e.1).to_set()
}

/// The definitions that leave a block: those that reach it, except where the
/// block writes the same operand again, and the block's own.
pub open spec fn transfer_defs<A>(ins: Set<Definition<A>>, g: Seq<(A, Definition<A>)>) -> Set<Definition<A>> {
    ins.filter(|x: Definition<A>| assoc_get(g, x.arg) is None).union(gen_values(g))
}

/// Recomputing what reaches and leaves block `addr` from its predecessors;
/// whether anything changed.
pub open spec fn fwd_update<A>(st: Seq<(BlockId, DefsView<A>)>, addr: BlockId, b: BlockView<A>) -> (Seq<(BlockId, DefsView<A>)>, bool) {
    let d = assoc_get(st, addr)->0;
    let ins = preds_out(st, b.predecessors);
    let outs = transfer_defs(ins, d.gen_set);
    (assoc_insert(st, addr, DefsView { defs_in: ins, defs_out: outs, ..d }), ins != d.defs_in || outs != d.defs_out)
}

/// One pass over the first `n` blocks in order.
pub open spec fn fwd_round<A>(bs: Seq<(BlockId, BlockView<A>)>, st: Seq<(BlockId, DefsView<A>)>, n: nat) -> (Seq<(BlockId, DefsView<A>)>, bool)
    decreases n,
{
    if n == 0 {
        (st, false)
    } else {
        let (s1, c1) = fwd_round(bs, st, (n - 1) as nat);
        let (s2, c2) = fwd_update(s1, bs[n - 1].0, bs[n - 1].1);
        (s2, c1 || c2)
    }
}

/// Passes until one changes nothing, at most `fuel` of them.
pub open spec fn spec_forward<A>(bs: Seq<(BlockId, BlockView<A>)>, st: Seq<(BlockId, DefsView<A>)>, fuel: nat) -> Option<Seq<(BlockId, DefsView<A>)>>
    decreases fuel,
{
    if fuel == 0 {
        None
    } else {
        let (s2, ch) = fwd_round(bs, st, bs.len());
        if !ch {
            Some(s2)
        } else {
            spec_forward(bs, s2, (fuel - 1) as nat)
        }
    }
}

/// The operands live at the start of the successors `succs` in state `st`.
pub open spec fn succs_in<A>(st: Seq<(BlockId, DefsView<A>)>, succs: Seq<BlockId>) -> Set<A>
    decreases succs.len(),
{
    if succs.len() == 0 {
        Set::empty()
    } else {
        succs_in(st, succs.drop_last()).union(assoc_get(st, succs.last())->0.live_in)
    }
}

/// The operands live at a block's start: those it reads before writing,
/// and those live at its end that it does not write.
pub open spec fn transfer_live<A>(outs: Set<A>, d: DefsView<A>) -> Set<A> {
    d.use_set.union(outs.filter(|a: A| assoc_get(d.gen_set, a) is None))
}

pub open spec fn live_update<A: ArgBase>(st: Seq<(BlockId, DefsView<A>)>, addr: BlockId, b: BlockView<A>) -> (Seq<(BlockId, DefsView<A>)>, bool) {
    let d = assoc_get(st, addr)->0;
    let outs = succs_in(st, next_targets(b.next));
    let ins = transfer_live(outs, d);
    (assoc_insert(st, addr, DefsView { live_in: ins, live_out: outs, ..d }), outs != d.live_out || ins != d.live_in)
}

pub open spec fn live_round<A: ArgBase>(bs: Seq<(BlockId, BlockView<A>)>, st: Seq<(BlockId, DefsView<A>)>, n: nat) -> (Seq<(BlockId, DefsView<A>)>, bool)
    decreases n,
{
    if n == 0 {
        (st, false)
    } else {
        let (s1, c1) = live_round(bs, st, (n - 1) as nat);
        let (s2, c2) = live_update(s1, bs[n - 1].0, bs[n - 1].1);
        (s2, c1 || c2)
    }
}

pub open spec fn spec_live<A: ArgBase>(bs: Seq<(BlockId, BlockView<A>)>, st: Seq<(BlockId, DefsView<A>)>, fuel: nat) -> Option<Seq<(BlockId, DefsView<A>)>>
    decreases fuel,
{
    if fuel == 0 {
        None
    } else {
        let (s2, ch) = live_round(bs, st, bs.len());
        if !ch {
            Some(s2)
        } else {
            spec_live(bs, s2, (fuel - 1) as nat)
        }
    }
}


/// Whether the states follow the blocks one for one, under the same names.
pub open spec fn parallel<A, B>(bs: Seq<(BlockId, A)>, st: Seq<(BlockId, B)>) -> bool {
    st.len() == bs.len() && forall|i: int| 0 <= i < bs.len() ==> #[trigger] st[i].0 == bs[i].0
}

/// Whether every predecessor of every block is a block.
pub open spec fn preds_known<A>(bs: Seq<(BlockId, BlockView<A>)>) -> bool {
    forall|i: int, k: int|
        0 <= i < bs.len() && 0 <= k < bs[i].1.predecessors.len() ==> assoc_get(
            bs,
            pred_block(#[trigger] bs[i].1.predecessors[k]),
        ) is Some
}

/// Whether every block names its successors and they are blocks.
pub open spec fn succs_known<A: ArgBase>(bs: Seq<(BlockId, BlockView<A>)>) -> bool {
    &&& forall|i: int| 0 <= i < bs.len() ==> next_defined(#[trigger] bs[i].1.next)
    &&& forall|i: int, k: int|
        0 <= i < bs.len() && 0 <= k < next_targets(bs[i].1.next).len() ==> assoc_get(
            bs,
            #[trigger] next_targets(bs[i].1.next)[k],
        ) is Some
}

pub proof fn lemma_distinct_index<K, V>(s: Seq<(K, V)>, i: int)
    requires
        keys_distinct(s),
        0 <= i < s.len(),
    ensures
        key_index(s, s[i].0) == i,
    decreases s.len(),
{
    crate::assoc::lemma_key_index(s, s[i].0);
    let j = key_index(s, s[i].0);
    if j != i {
        assert(s[j].0 == s[i].0);
    }
}

pub proof fn lemma_parallel_get<A, B>(bs: Seq<(BlockId, A)>, st: Seq<(BlockId, B)>, k: BlockId)
    requires
        parallel(bs, st),
    ensures
        key_index(st, k) == key_index(bs, k),
{
    crate::assoc::lemma_key_index_keys(bs, st, k);
}


/// Where the entry block of a graph creates the frame: the size and the
/// address of the set-up, unless the entry is address 0.
pub open spec fn create_for<A>(cfg: CfgView<A>, b: BlockView<A>) -> Option<(usize, usize)> {
    if BlockId(b.span.start) == cfg.start && b.span.start != 0 {
        Some((cfg.stack_size, b.span.start))
    } else {
        None
    }
}

/// The state before the analyses: for each block its definitions and the
/// operands it reads before writing them, and nothing else yet.
pub open spec fn init_defs<A: ArgBase>(cfg: CfgView<A>, n: nat) -> Seq<(BlockId, DefsView<A>)>
    decreases n,
{
    if n == 0 {
        seq![]
    } else {
        let b = cfg.blocks[n - 1].1;
        assoc_insert(
            init_defs(cfg, (n - 1) as nat),
            cfg.blocks[n - 1].0,
            DefsView {
                defs_in: Set::empty(),
                defs_out: Set::empty(),
                live_in: Set::empty(),
                live_out: Set::empty(),
                gen_set: spec_definitions(b, create_for(cfg, b)),
                use_set: spec_uses(b.ops).0,
            },
        )
    }
}

pub open spec fn spec_initial<A: ArgBase>(cfg: CfgView<A>) -> Seq<(BlockId, DefsView<A>)> {
    init_defs(cfg, cfg.blocks.len())
}

pub open spec fn spec_forward_result<A: ArgBase>(cfg: CfgView<A>) -> Seq<(BlockId, DefsView<A>)> {
    spec_forward(cfg.blocks, spec_initial(cfg), choose|fuel: nat| #[trigger] spec_forward(cfg.blocks, spec_initial(cfg), fuel) is Some)->0
}

/// The data flow of a graph: the reaching definitions, then the live
/// operands, each computed until a pass over the blocks changes nothing.
pub open spec fn spec_data_flow<A: ArgBase>(cfg: CfgView<A>) -> Seq<(BlockId, DefsView<A>)> {
    spec_live(
        cfg.blocks,
        spec_forward_result(cfg),
        choose|fuel: nat| #[trigger] spec_live(cfg.blocks, spec_forward_result(cfg), fuel) is Some,
    )->0
}

/// Whether the analyses of a graph can run: its blocks have distinct names,
/// their predecessors and successors are blocks, and addresses leave room for
/// the frame set-up. Both analyses then come to rest
/// ([`lemma_forward_terminates`], [`lemma_live_terminates`]).
pub open spec fn data_flow_defined<A: ArgBase>(cfg: CfgView<A>) -> bool {
    &&& keys_distinct(cfg.blocks)
    &&& preds_known(cfg.blocks)
    &&& succs_known(cfg.blocks)
    &&& forall|i: int| 0 <= i < cfg.blocks.len() ==> (#[trigger] cfg.blocks[i]).1.span.start + 2 <= usize::MAX
}

pub proof fn lemma_init_parallel<A: ArgBase>(cfg: CfgView<A>, n: nat)
    requires
        n <= cfg.blocks.len(),
        keys_distinct(cfg.blocks),
    ensures
        parallel(cfg.blocks.take(n as int), init_defs(cfg, n)),
    decreases n,
{
    if n > 0 {
        lemma_init_parallel(cfg, (n - 1) as nat);
        let prev = init_defs(cfg, (n - 1) as nat);
        let k = cfg.blocks[n - 1].0;
        crate::assoc::lemma_key_index(prev, k);
        if key_index(prev, k) >= 0 {
            let j = key_index(prev, k);
            assert(prev[j].0 == cfg.blocks.take(n - 1)[j].0);
            assert(cfg.blocks[j].0 == k);
        }
    }
}


/// Whether the reaching definitions of every block solve the data flow
/// equations: what reaches a block is what leaves its predecessors, and what
/// leaves it is its transfer of what reaches it.
pub open spec fn defs_stable<A>(bs: Seq<(BlockId, BlockView<A>)>, st: Seq<(BlockId, DefsView<A>)>) -> bool {
    forall|i: int|
        0 <= i < bs.len() ==> (#[trigger] st[i]).1.defs_in == preds_out(st, bs[i].1.predecessors) && st[i].1.defs_out
            == transfer_defs(st[i].1.defs_in, st[i].1.gen_set)
}

/// Whether the live operands of every block solve the data flow equations:
/// what is live at a block's end is what is live at its successors' starts,
/// and what is live at its start is its transfer of what is live at its end.
pub open spec fn live_stable<A: ArgBase>(bs: Seq<(BlockId, BlockView<A>)>, st: Seq<(BlockId, DefsView<A>)>) -> bool {
    forall|i: int|
        0 <= i < bs.len() ==> (#[trigger] st[i]).1.live_out == succs_in(st, next_targets(bs[i].1.next)) && st[i].1.live_in
            == transfer_live(st[i].1.live_out, st[i].1)
}

pub proof fn lemma_quiet_fwd_round<A>(bs: Seq<(BlockId, BlockView<A>)>, st: Seq<(BlockId, DefsView<A>)>, n: nat)
    requires
        parallel(bs, st),
        keys_distinct(bs),
        n <= bs.len(),
        !fwd_round(bs, st, n).1,
    ensures
        fwd_round(bs, st, n).0 == st,
        forall|i: int|
            0 <= i < n ==> (#[trigger] st[i]).1.defs_in == preds_out(st, bs[i].1.predecessors) && st[i].1.defs_out
                == transfer_defs(st[i].1.defs_in, st[i].1.gen_set),
    decreases n,
{
    if n > 0 {
        lemma_quiet_fwd_round(bs, st, (n - 1) as nat);
        let k = bs[n - 1].0;
        lemma_distinct_index(bs, n - 1);
        lemma_parallel_get(bs, st, k);
        let d = st[n - 1].1;
        assert(assoc_get(st, k) == Some(d));
        let ins = preds_out(st, bs[n - 1].1.predecessors);
        let nd = DefsView { defs_in: ins, defs_out: transfer_defs(ins, d.gen_set), ..d };
        assert(nd == d);
        assert(key_index(st, k) == n - 1);
        assert(st[n - 1] == (k, nd));
        assert(assoc_insert(st, k, nd) =~= st);
    }
}

pub proof fn lemma_quiet_live_round<A: ArgBase>(bs: Seq<(BlockId, BlockView<A>)>, st: Seq<(BlockId, DefsView<A>)>, n: nat)
    requires
        parallel(bs, st),
        keys_distinct(bs),
        n <= bs.len(),
        !live_round(bs, st, n).1,
    ensures
        live_round(bs, st, n).0 == st,
        forall|i: int|
            0 <= i < n ==> (#[trigger] st[i]).1.live_out == succs_in(st, next_targets(bs[i].1.next)) && st[i].1.live_in
                == transfer_live(st[i].1.live_out, st[i].1),
    decreases n,
{
    if n > 0 {
        lemma_quiet_live_round(bs, st, (n - 1) as nat);
        let k = bs[n - 1].0;
        lemma_distinct_index(bs, n - 1);
        lemma_parallel_get(bs, st, k);
        let d = st[n - 1].1;
        assert(assoc_get(st, k) == Some(d));
        let outs = succs_in(st, next_targets(bs[n - 1].1.next));
        let nd = DefsView { live_in: transfer_live(outs, d), live_out: outs, ..d };
        assert(nd == d);
        assert(key_index(st, k) == n - 1);
        assert(st[n - 1] == (k, nd));
        assert(assoc_insert(st, k, nd) =~= st);
    }
}

pub proof fn lemma_fwd_round_parallel<A>(bs: Seq<(BlockId, BlockView<A>)>, st: Seq<(BlockId, DefsView<A>)>, n: nat)
    requires
        parallel(bs, st),
        keys_distinct(bs),
        n <= bs.len(),
    ensures
        parallel(bs, fwd_round(bs, st, n).0),
    decreases n,
{
    if n > 0 {
        lemma_fwd_round_parallel(bs, st, (n - 1) as nat);
        let s1 = fwd_round(bs, st, (n - 1) as nat).0;
        lemma_distinct_index(bs, n - 1);
        lemma_parallel_get(bs, s1, bs[n - 1].0);
    }
}

pub proof fn lemma_live_round_parallel<A: ArgBase>(bs: Seq<(BlockId, BlockView<A>)>, st: Seq<(BlockId, DefsView<A>)>, n: nat)
    requires
        parallel(bs, st),
        keys_distinct(bs),
        n <= bs.len(),
    ensures
        parallel(bs, live_round(bs, st, n).0),
    decreases n,
{
    if n > 0 {
        lemma_live_round_parallel(bs, st, (n - 1) as nat);
        let s1 = live_round(bs, st, (n - 1) as nat).0;
        lemma_distinct_index(bs, n - 1);
        lemma_parallel_get(bs, s1, bs[n - 1].0);
    }
}

pub proof fn lemma_forward_stable<A>(bs: Seq<(BlockId, BlockView<A>)>, st: Seq<(BlockId, DefsView<A>)>, fuel: nat)
    requires
        parallel(bs, st),
        keys_distinct(bs),
        spec_forward(bs, st, fuel) is Some,
    ensures
        defs_stable(bs, spec_forward(bs, st, fuel)->0),
        parallel(bs, spec_forward(bs, st, fuel)->0),
    decreases fuel,
{
    let (s2, ch) = fwd_round(bs, st, bs.len());
    lemma_fwd_round_parallel(bs, st, bs.len());
    if !ch {
        lemma_quiet_fwd_round(bs, st, bs.len());
    } else {
        lemma_forward_stable(bs, s2, (fuel - 1) as nat);
    }
}

pub proof fn lemma_live_stable<A: ArgBase>(bs: Seq<(BlockId, BlockView<A>)>, st: Seq<(BlockId, DefsView<A>)>, fuel: nat)
    requires
        parallel(bs, st),
        keys_distinct(bs),
        spec_live(bs, st, fuel) is Some,
    ensures
        live_stable(bs, spec_live(bs, st, fuel)->0),
    decreases fuel,
{
    let (s2, ch) = live_round(bs, st, bs.len());
    lemma_live_round_parallel(bs, st, bs.len());
    if !ch {
        lemma_quiet_live_round(bs, st, bs.len());
    } else {
        lemma_live_stable(bs, s2, (fuel - 1) as nat);
    }
}

/// The reaching definitions the analysis gives solve the data flow equations
/// of the graph.
pub proof fn lemma_reaching_definitions_solve_equations<A: ArgBase>(cfg: CfgView<A>)
    requires
        data_flow_defined(cfg),
    ensures
        defs_stable(cfg.blocks, spec_forward_result(cfg)),
{
    lemma_forward_terminates(cfg);
    lemma_init_parallel(cfg, cfg.blocks.len());
    assert(cfg.blocks.take(cfg.blocks.len() as int) =~= cfg.blocks);
    let fuel = choose|fuel: nat| #[trigger] spec_forward(cfg.blocks, spec_initial(cfg), fuel) is Some;
    lemma_forward_stable(cfg.blocks, spec_initial(cfg), fuel);
}

/// The live operands the analysis gives solve the data flow equations of the
/// graph.
pub proof fn lemma_live_operands_solve_equations<A: ArgBase>(cfg: CfgView<A>)
    requires
        data_flow_defined(cfg),
    ensures
        live_stable(cfg.blocks, spec_data_flow(cfg)),
{
    lemma_forward_terminates(cfg);
    lemma_live_terminates(cfg);
    lemma_init_parallel(cfg, cfg.blocks.len());
    assert(cfg.blocks.take(cfg.blocks.len() as int) =~= cfg.blocks);
    let fuel = choose|fuel: nat| #[trigger] spec_forward(cfg.blocks, spec_initial(cfg), fuel) is Some;
    lemma_forward_stable(cfg.blocks, spec_initial(cfg), fuel);
    let fuel2 = choose|fuel: nat| #[trigger] spec_live(cfg.blocks, spec_forward_result(cfg), fuel) is Some;
    lemma_live_stable(cfg.blocks, spec_forward_result(cfg), fuel2);
}

/// Whether the reaching definitions of `st` lie within those of `st2`,
/// block by block, for the same blocks and definitions made.
pub open spec fn defs_below<A>(st: Seq<(BlockId, DefsView<A>)>, st2: Seq<(BlockId, DefsView<A>)>) -> bool {
    &&& st.len() == st2.len()
    &&& forall|i: int|
        0 <= i < st.len() ==> (#[trigger] st[i]).0 == st2[i].0 && st[i].1.defs_in.subset_of(st2[i].1.defs_in)
            && st[i].1.defs_out.subset_of(st2[i].1.defs_out) && st[i].1.gen_set == st2[i].1.gen_set
}

proof fn lemma_preds_out_below<A>(
    bs: Seq<(BlockId, BlockView<A>)>,
    st: Seq<(BlockId, DefsView<A>)>,
    st2: Seq<(BlockId, DefsView<A>)>,
    preds: Seq<PredecessorKind<A>>,
)
    requires
        parallel(bs, st),
        parallel(bs, st2),
        defs_below(st, st2),
        forall|k: int| 0 <= k < preds.len() ==> assoc_get(bs, pred_block(#[trigger] preds[k])) is Some,
    ensures
        preds_out(st, preds).subset_of(preds_out(st2, preds)),
    decreases preds.len(),
{
    if preds.len() > 0 {
        let p = preds.drop_last();
        assert forall|k: int| 0 <= k < p.len() implies assoc_get(bs, pred_block(#[trigger] p[k])) is Some by {
            assert(p[k] == preds[k]);
        }
        lemma_preds_out_below(bs, st, st2, p);
        let b = pred_block(preds.last());
        assert(assoc_get(bs, pred_block(preds[preds.len() - 1])) is Some);
        lemma_parallel_get(bs, st, b);
        lemma_parallel_get(bs, st2, b);
        crate::assoc::lemma_key_index(bs, b);
    }
}

proof fn lemma_fwd_round_below<A>(
    bs: Seq<(BlockId, BlockView<A>)>,
    st: Seq<(BlockId, DefsView<A>)>,
    st2: Seq<(BlockId, DefsView<A>)>,
    n: nat,
)
    requires
        parallel(bs, st),
        parallel(bs, st2),
        keys_distinct(bs),
        preds_known(bs),
        defs_below(st, st2),
        defs_stable(bs, st2),
        n <= bs.len(),
    ensures
        defs_below(fwd_round(bs, st, n).0, st2),
    decreases n,
{
    if n > 0 {
        lemma_fwd_round_below(bs, st, st2, (n - 1) as nat);
        lemma_fwd_round_parallel(bs, st, (n - 1) as nat);
        let s1 = fwd_round(bs, st, (n - 1) as nat).0;
        let m = n - 1;
        let k = bs[m].0;
        lemma_distinct_index(bs, m);
        lemma_parallel_get(bs, s1, k);
        let d = s1[m].1;
        assert(assoc_get(s1, k) == Some(d));
        let preds = bs[m].1.predecessors;
        assert forall|q: int| 0 <= q < preds.len() implies assoc_get(bs, pred_block(#[trigger] preds[q])) is Some by {
            assert(assoc_get(bs, pred_block(bs[m].1.predecessors[q])) is Some);
        }
        lemma_preds_out_below(bs, s1, st2, preds);
        let ins = preds_out(s1, preds);
        assert(st2[m].1.defs_in == preds_out(st2, bs[m].1.predecessors));
        let outs = transfer_defs(ins, d.gen_set);
        assert(outs.subset_of(st2[m].1.defs_out)) by {
            assert(st2[m].1.defs_out == transfer_defs(st2[m].1.defs_in, st2[m].1.gen_set));
        }
        let s2 = fwd_round(bs, st, n).0;
        assert(s2 == assoc_insert(s1, k, DefsView { defs_in: ins, defs_out: outs, ..d }));
        assert(key_index(s1, k) == m);
        assert forall|i: int| 0 <= i < s2.len() implies (#[trigger] s2[i]).0 == st2[i].0 && s2[i].1.defs_in.subset_of(st2[i].1.defs_in)
            && s2[i].1.defs_out.subset_of(st2[i].1.defs_out) && s2[i].1.gen_set == st2[i].1.gen_set by {
            if i != m {
                assert(s2[i] == s1[i]);
            }
        }
    }
}

proof fn lemma_forward_below<A>(
    bs: Seq<(BlockId, BlockView<A>)>,
    st: Seq<(BlockId, DefsView<A>)>,
    st2: Seq<(BlockId, DefsView<A>)>,
    fuel: nat,
)
    requires
        parallel(bs, st),
        parallel(bs, st2),
        keys_distinct(bs),
        preds_known(bs),
        defs_below(st, st2),
        defs_stable(bs, st2),
        spec_forward(bs, st, fuel) is Some,
    ensures
        defs_below(spec_forward(bs, st, fuel)->0, st2),
    decreases fuel,
{
    let (s2, ch) = fwd_round(bs, st, bs.len());
    lemma_fwd_round_below(bs, st, st2, bs.len());
    lemma_fwd_round_parallel(bs, st, bs.len());
    if ch {
        lemma_forward_below(bs, s2, st2, (fuel - 1) as nat);
    }
}

proof fn lemma_initial_empty<A: ArgBase>(cfg: CfgView<A>, n: nat)
    requires
        n <= cfg.blocks.len(),
    ensures
        forall|i: int|
            0 <= i < init_defs(cfg, n).len() ==> (#[trigger] init_defs(cfg, n)[i]).1.defs_in == Set::<Definition<A>>::empty()
                && init_defs(cfg, n)[i].1.defs_out == Set::<Definition<A>>::empty(),
    decreases n,
{
    if n > 0 {
        lemma_initial_empty(cfg, (n - 1) as nat);
        let prev = init_defs(cfg, (n - 1) as nat);
        crate::assoc::lemma_key_index(prev, cfg.blocks[n - 1].0);
    }
}

/// The reaching definitions the analysis gives are the least solution of
/// the data flow equations: every solution over the same blocks, with the
/// same definitions made in each, holds at least the definitions found to
/// reach and to leave each block.
pub proof fn lemma_reaching_definitions_least<A: ArgBase>(cfg: CfgView<A>, st2: Seq<(BlockId, DefsView<A>)>)
    requires
        data_flow_defined(cfg),
        parallel(cfg.blocks, st2),
        defs_stable(cfg.blocks, st2),
        forall|i: int| 0 <= i < cfg.blocks.len() ==> (#[trigger] st2[i]).1.gen_set == spec_initial(cfg)[i].1.gen_set,
    ensures
        defs_below(spec_forward_result(cfg), st2),
{
    lemma_forward_terminates(cfg);
    lemma_init_parallel(cfg, cfg.blocks.len());
    assert(cfg.blocks.take(cfg.blocks.len() as int) =~= cfg.blocks);
    lemma_initial_empty(cfg, cfg.blocks.len());
    let init = spec_initial(cfg);
    assert forall|i: int| 0 <= i < init.len() implies (#[trigger] init[i]).0 == st2[i].0 && init[i].1.defs_in.subset_of(st2[i].1.defs_in)
        && init[i].1.defs_out.subset_of(st2[i].1.defs_out) && init[i].1.gen_set == st2[i].1.gen_set by {
        assert(init[i].0 == cfg.blocks[i].0);
    }
    let fuel = choose|fuel: nat| #[trigger] spec_forward(cfg.blocks, spec_initial(cfg), fuel) is Some;
    lemma_forward_below(cfg.blocks, init, st2, fuel);
}

/// Whether the live operands of `st` lie within those of `st2`, block by
/// block, for the same blocks, definitions made and operands read first.
pub open spec fn live_below<A>(st: Seq<(BlockId, DefsView<A>)>, st2: Seq<(BlockId, DefsView<A>)>) -> bool {
    &&& st.len() == st2.len()
    &&& forall|i: int|
        0 <= i < st.len() ==> (#[trigger] st[i]).0 == st2[i].0 && st[i].1.live_in.subset_of(st2[i].1.live_in)
            && st[i].1.live_out.subset_of(st2[i].1.live_out) && st[i].1.gen_set == st2[i].1.gen_set
            && st[i].1.use_set == st2[i].1.use_set
}

proof fn lemma_succs_in_below<A: ArgBase>(
    bs: Seq<(BlockId, BlockView<A>)>,
    st: Seq<(BlockId, DefsView<A>)>,
    st2: Seq<(BlockId, DefsView<A>)>,
    succs: Seq<BlockId>,
)
    requires
        parallel(bs, st),
        parallel(bs, st2),
        live_below(st, st2),
        forall|k: int| 0 <= k < succs.len() ==> assoc_get(bs, #[trigger] succs[k]) is Some,
    ensures
        succs_in(st, succs).subset_of(succs_in(st2, succs)),
    decreases succs.len(),
{
    if succs.len() > 0 {
        let p = succs.drop_last();
        assert forall|k: int| 0 <= k < p.len() implies assoc_get(bs, #[trigger] p[k]) is Some by {
            assert(p[k] == succs[k]);
        }
        lemma_succs_in_below(bs, st, st2, p);
        let b = succs.last();
        assert(assoc_get(bs, succs[succs.len() - 1]) is Some);
        lemma_parallel_get(bs, st, b);
        lemma_parallel_get(bs, st2, b);
        crate::assoc::lemma_key_index(bs, b);
    }
}

proof fn lemma_live_round_below<A: ArgBase>(
    bs: Seq<(BlockId, BlockView<A>)>,
    st: Seq<(BlockId, DefsView<A>)>,
    st2: Seq<(BlockId, DefsView<A>)>,
    n: nat,
)
    requires
        parallel(bs, st),
        parallel(bs, st2),
        keys_distinct(bs),
        succs_known(bs),
        live_below(st, st2),
        live_stable(bs, st2),
        n <= bs.len(),
    ensures
        live_below(live_round(bs, st, n).0, st2),
    decreases n,
{
    if n > 0 {
        lemma_live_round_below(bs, st, st2, (n - 1) as nat);
        lemma_live_round_parallel(bs, st, (n - 1) as nat);
        let s1 = live_round(bs, st, (n - 1) as nat).0;
        let m = n - 1;
        let k = bs[m].0;
        lemma_distinct_index(bs, m);
        lemma_parallel_get(bs, s1, k);
        let d = s1[m].1;
        assert(assoc_get(s1, k) == Some(d));
        let succs = next_targets(bs[m].1.next);
        assert forall|q: int| 0 <= q < succs.len() implies assoc_get(bs, #[trigger] succs[q]) is Some by {
            assert(assoc_get(bs, next_targets(bs[m].1.next)[q]) is Some);
        }
        lemma_succs_in_below(bs, s1, st2, succs);
        let outs = succs_in(s1, succs);
        assert(st2[m].1.live_out == succs_in(st2, next_targets(bs[m].1.next)));
        let ins = transfer_live(outs, d);
        assert(ins.subset_of(st2[m].1.live_in)) by {
            assert(st2[m].1.live_in == transfer_live(st2[m].1.live_out, st2[m].1));
        }
        let s2 = live_round(bs, st, n).0;
        assert(s2 == assoc_insert(s1, k, DefsView { live_in: ins, live_out: outs, ..d }));
        assert(key_index(s1, k) == m);
        assert forall|i: int| 0 <= i < s2.len() implies (#[trigger] s2[i]).0 == st2[i].0 && s2[i].1.live_in.subset_of(st2[i].1.live_in)
            && s2[i].1.live_out.subset_of(st2[i].1.live_out) && s2[i].1.gen_set == st2[i].1.gen_set
            && s2[i].1.use_set == st2[i].1.use_set by {
            if i != m {
                assert(s2[i] == s1[i]);
            }
        }
    }
}

proof fn lemma_live_below_result<A: ArgBase>(
    bs: Seq<(BlockId, BlockView<A>)>,
    st: Seq<(BlockId, DefsView<A>)>,
    st2: Seq<(BlockId, DefsView<A>)>,
    fuel: nat,
)
    requires
        parallel(bs, st),
        parallel(bs, st2),
        keys_distinct(bs),
        succs_known(bs),
        live_below(st, st2),
        live_stable(bs, st2),
        spec_live(bs, st, fuel) is Some,
    ensures
        live_below(spec_live(bs, st, fuel)->0, st2),
    decreases fuel,
{
    let (s2, ch) = live_round(bs, st, bs.len());
    lemma_live_round_below(bs, st, st2, bs.len());
    lemma_live_round_parallel(bs, st, bs.len());
    if ch {
        lemma_live_below_result(bs, s2, st2, (fuel - 1) as nat);
    }
}

/// Whether the live operands of each block of `st` are none, and its
/// definitions made and operands read first are those of `st0`.
pub open spec fn live_unset<A>(st: Seq<(BlockId, DefsView<A>)>, st0: Seq<(BlockId, DefsView<A>)>) -> bool {
    &&& st.len() == st0.len()
    &&& forall|i: int|
        0 <= i < st.len() ==> (#[trigger] st[i]).1.live_in == Set::<A>::empty() && st[i].1.live_out == Set::<A>::empty()
            && st[i].1.gen_set == st0[i].1.gen_set && st[i].1.use_set == st0[i].1.use_set
}

proof fn lemma_fwd_round_live_unset<A>(bs: Seq<(BlockId, BlockView<A>)>, st: Seq<(BlockId, DefsView<A>)>, st0: Seq<(BlockId, DefsView<A>)>, n: nat)
    requires
        parallel(bs, st),
        keys_distinct(bs),
        live_unset(st, st0),
        n <= bs.len(),
    ensures
        live_unset(fwd_round(bs, st, n).0, st0),
    decreases n,
{
    if n > 0 {
        lemma_fwd_round_live_unset(bs, st, st0, (n - 1) as nat);
        lemma_fwd_round_parallel(bs, st, (n - 1) as nat);
        let s1 = fwd_round(bs, st, (n - 1) as nat).0;
        let m = n - 1;
        let k = bs[m].0;
        lemma_distinct_index(bs, m);
        lemma_parallel_get(bs, s1, k);
        assert(key_index(s1, k) == m);
        let s2 = fwd_round(bs, st, n).0;
        assert forall|i: int| 0 <= i < s2.len() implies (#[trigger] s2[i]).1.live_in == Set::<A>::empty() && s2[i].1.live_out
            == Set::<A>::empty() && s2[i].1.gen_set == st0[i].1.gen_set && s2[i].1.use_set == st0[i].1.use_set by {
            if i != m {
                assert(s2[i] == s1[i]);
            }
        }
    }
}

proof fn lemma_forward_live_unset<A>(bs: Seq<(BlockId, BlockView<A>)>, st: Seq<(BlockId, DefsView<A>)>, st0: Seq<(BlockId, DefsView<A>)>, fuel: nat)
    requires
        parallel(bs, st),
        keys_distinct(bs),
        live_unset(st, st0),
        spec_forward(bs, st, fuel) is Some,
    ensures
        live_unset(spec_forward(bs, st, fuel)->0, st0),
    decreases fuel,
{
    let (s2, ch) = fwd_round(bs, st, bs.len());
    lemma_fwd_round_live_unset(bs, st, st0, bs.len());
    lemma_fwd_round_parallel(bs, st, bs.len());
    if ch {
        lemma_forward_live_unset(bs, s2, st0, (fuel - 1) as nat);
    }
}

proof fn lemma_initial_live_unset<A: ArgBase>(cfg: CfgView<A>, n: nat)
    requires
        n <= cfg.blocks.len(),
    ensures
        forall|i: int|
            0 <= i < init_defs(cfg, n).len() ==> (#[trigger] init_defs(cfg, n)[i]).1.live_in == Set::<A>::empty()
                && init_defs(cfg, n)[i].1.live_out == Set::<A>::empty(),
    decreases n,
{
    if n > 0 {
        lemma_initial_live_unset(cfg, (n - 1) as nat);
        let prev = init_defs(cfg, (n - 1) as nat);
        crate::assoc::lemma_key_index(prev, cfg.blocks[n - 1].0);
    }
}

/// The live operands the analysis gives are the least solution of the data
/// flow equations: every solution over the same blocks, with the same
/// definitions made and operands read first in each, holds at least the
/// operands found live at the start and at the end of each block.
pub proof fn lemma_live_operands_least<A: ArgBase>(cfg: CfgView<A>, st2: Seq<(BlockId, DefsView<A>)>)
    requires
        data_flow_defined(cfg),
        parallel(cfg.blocks, st2),
        live_stable(cfg.blocks, st2),
        forall|i: int|
            0 <= i < cfg.blocks.len() ==> (#[trigger] st2[i]).1.gen_set == spec_initial(cfg)[i].1.gen_set && st2[i].1.use_set
                == spec_initial(cfg)[i].1.use_set,
    ensures
        live_below(spec_data_flow(cfg), st2),
{
    lemma_forward_terminates(cfg);
    lemma_live_terminates(cfg);
    lemma_init_parallel(cfg, cfg.blocks.len());
    assert(cfg.blocks.take(cfg.blocks.len() as int) =~= cfg.blocks);
    lemma_initial_live_unset(cfg, cfg.blocks.len());
    let init = spec_initial(cfg);
    assert(live_unset(init, init));
    let fuel = choose|fuel: nat| #[trigger] spec_forward(cfg.blocks, spec_initial(cfg), fuel) is Some;
    lemma_forward_live_unset(cfg.blocks, init, init, fuel);
    lemma_forward_stable(cfg.blocks, init, fuel);
    let fwd = spec_forward_result(cfg);
    assert forall|i: int| 0 <= i < fwd.len() implies (#[trigger] fwd[i]).0 == st2[i].0 && fwd[i].1.live_in.subset_of(st2[i].1.live_in)
        && fwd[i].1.live_out.subset_of(st2[i].1.live_out) && fwd[i].1.gen_set == st2[i].1.gen_set
        && fwd[i].1.use_set == st2[i].1.use_set by {
        assert(fwd[i].0 == cfg.blocks[i].0);
    }
    let fuel2 = choose|fuel: nat| #[trigger] spec_live(cfg.blocks, spec_forward_result(cfg), fuel) is Some;
    lemma_live_below_result(cfg.blocks, fwd, st2, fuel2);
}

/// The number of definitions found to reach and to leave the blocks of `st`.
pub open spec fn defs_count<A>(st: Seq<(BlockId, DefsView<A>)>) -> nat
    decreases st.len(),
{
    if st.len() == 0 {
        0
    } else {
        defs_count(st.drop_last()) + st.last().1.defs_in.len() + st.last().1.defs_out.len()
    }
}

/// Whether the reaching definitions of `st` are a state that the passes can
/// reach from nothing: within what the predecessors and the transfer give,
/// and within the definitions `u`, which hold every definition made.
pub open spec fn defs_within<A>(bs: Seq<(BlockId, BlockView<A>)>, st: Seq<(BlockId, DefsView<A>)>, u: Set<Definition<A>>) -> bool {
    forall|i: int|
        0 <= i < bs.len() ==> (#[trigger] st[i]).1.defs_in.subset_of(preds_out(st, bs[i].1.predecessors))
            && st[i].1.defs_out.subset_of(transfer_defs(st[i].1.defs_in, st[i].1.gen_set)) && st[i].1.defs_in.subset_of(u)
            && st[i].1.defs_out.subset_of(u) && gen_values(st[i].1.gen_set).subset_of(u)
}

proof fn lemma_strict_subset_len<T>(a: Set<T>, b: Set<T>)
    requires
        b.finite(),
        a.subset_of(b),
        a != b,
    ensures
        a.len() < b.len(),
{
    if forall|x: T| b.contains(x) ==> a.contains(x) {
        assert(a =~= b);
    }
    let x = choose|x: T| b.contains(x) && !a.contains(x);
    vstd::set_lib::lemma_len_subset(a, b.remove(x));
    vstd::set::axiom_set_remove_len(b, x);
}

proof fn lemma_defs_count_mono<A>(st: Seq<(BlockId, DefsView<A>)>, st2: Seq<(BlockId, DefsView<A>)>, j: int)
    requires
        defs_below(st, st2),
        forall|i: int| 0 <= i < st2.len() ==> (#[trigger] st2[i]).1.defs_in.finite() && st2[i].1.defs_out.finite(),
    ensures
        defs_count(st) <= defs_count(st2),
        0 <= j < st.len() && (st[j].1.defs_in != st2[j].1.defs_in || st[j].1.defs_out != st2[j].1.defs_out) ==> defs_count(st)
            < defs_count(st2),
    decreases st.len(),
{
    if st.len() > 0 {
        let m = st.len() - 1;
        lemma_defs_count_mono(st.drop_last(), st2.drop_last(), j);
        assert(st[m].0 == st2[m].0 && st2[m].1.defs_in.finite());
        vstd::set_lib::lemma_len_subset(st[m].1.defs_in, st2[m].1.defs_in);
        vstd::set_lib::lemma_len_subset(st[m].1.defs_out, st2[m].1.defs_out);
        if j == m {
            if st[m].1.defs_in != st2[m].1.defs_in {
                lemma_strict_subset_len(st[m].1.defs_in, st2[m].1.defs_in);
            }
            if st[m].1.defs_out != st2[m].1.defs_out {
                lemma_strict_subset_len(st[m].1.defs_out, st2[m].1.defs_out);
            }
        }
    }
}

proof fn lemma_defs_count_bound<A>(st: Seq<(BlockId, DefsView<A>)>, u: Set<Definition<A>>)
    requires
        u.finite(),
        forall|i: int| 0 <= i < st.len() ==> (#[trigger] st[i]).1.defs_in.subset_of(u) && st[i].1.defs_out.subset_of(u),
    ensures
        defs_count(st) <= st.len() * (2 * u.len()),
    decreases st.len(),
{
    if st.len() > 0 {
        let m = st.len() - 1;
        lemma_defs_count_bound(st.drop_last(), u);
        assert(st[m].1.defs_in.subset_of(u));
        vstd::set_lib::lemma_len_subset(st[m].1.defs_in, u);
        vstd::set_lib::lemma_len_subset(st[m].1.defs_out, u);
        let k = 2 * u.len();
        let n = st.len();
        assert((n - 1) * k + k == n * k) by (nonlinear_arith);
    }
}

proof fn lemma_preds_out_within<A>(bs: Seq<(BlockId, BlockView<A>)>, st: Seq<(BlockId, DefsView<A>)>, u: Set<Definition<A>>, preds: Seq<PredecessorKind<A>>)
    requires
        parallel(bs, st),
        forall|i: int| 0 <= i < st.len() ==> (#[trigger] st[i]).1.defs_out.subset_of(u),
        forall|k: int| 0 <= k < preds.len() ==> assoc_get(bs, pred_block(#[trigger] preds[k])) is Some,
    ensures
        preds_out(st, preds).subset_of(u),
    decreases preds.len(),
{
    if preds.len() > 0 {
        let p = preds.drop_last();
        assert forall|k: int| 0 <= k < p.len() implies assoc_get(bs, pred_block(#[trigger] p[k])) is Some by {
            assert(p[k] == preds[k]);
        }
        lemma_preds_out_within(bs, st, u, p);
        let b = pred_block(preds.last());
        assert(assoc_get(bs, pred_block(preds[preds.len() - 1])) is Some);
        lemma_parallel_get(bs, st, b);
        crate::assoc::lemma_key_index(bs, b);
    }
}

/// A pass only adds definitions; it keeps the state reachable, and when it
/// changes anything it adds at least one.
proof fn lemma_fwd_round_grows<A>(bs: Seq<(BlockId, BlockView<A>)>, st: Seq<(BlockId, DefsView<A>)>, u: Set<Definition<A>>, n: nat)
    requires
        parallel(bs, st),
        keys_distinct(bs),
        preds_known(bs),
        defs_within(bs, st, u),
        u.finite(),
        n <= bs.len(),
    ensures
        defs_within(bs, fwd_round(bs, st, n).0, u),
        defs_below(st, fwd_round(bs, st, n).0),
        fwd_round(bs, st, n).1 ==> defs_count(st) < defs_count(fwd_round(bs, st, n).0),
    decreases n,
{
    if n == 0 {
        assert(defs_below(st, st));
    } else {
        lemma_fwd_round_grows(bs, st, u, (n - 1) as nat);
        lemma_fwd_round_parallel(bs, st, (n - 1) as nat);
        let (s1, c1) = fwd_round(bs, st, (n - 1) as nat);
        let m = n - 1;
        let k = bs[m].0;
        lemma_distinct_index(bs, m);
        lemma_parallel_get(bs, s1, k);
        assert(key_index(s1, k) == m);
        let d = s1[m].1;
        assert(assoc_get(s1, k) == Some(d));
        let preds = bs[m].1.predecessors;
        assert forall|q: int| 0 <= q < preds.len() implies assoc_get(bs, pred_block(#[trigger] preds[q])) is Some by {
            assert(assoc_get(bs, pred_block(bs[m].1.predecessors[q])) is Some);
        }
        let ins = preds_out(s1, preds);
        let outs = transfer_defs(ins, d.gen_set);
        assert(d.defs_in.subset_of(ins));
        assert(d.defs_out.subset_of(outs)) by {
            assert(d.defs_out.subset_of(transfer_defs(d.defs_in, d.gen_set)));
        }
        lemma_preds_out_within(bs, s1, u, preds);
        assert(outs.subset_of(u)) by {
            assert(gen_values(d.gen_set).subset_of(u));
        }
        let (s2, c2) = fwd_update(s1, k, bs[m].1);
        assert(s2 == fwd_round(bs, st, n).0);
        assert(s2 == s1.update(m, (k, DefsView { defs_in: ins, defs_out: outs, ..d })));
        assert forall|i: int| 0 <= i < s1.len() implies (#[trigger] s1[i]).0 == s2[i].0 && s1[i].1.defs_in.subset_of(s2[i].1.defs_in)
            && s1[i].1.defs_out.subset_of(s2[i].1.defs_out) && s1[i].1.gen_set == s2[i].1.gen_set by {
            if i != m {
                assert(s2[i] == s1[i]);
            }
        }
        assert(defs_below(s1, s2));
        assert forall|i: int| 0 <= i < bs.len() implies (#[trigger] s2[i]).1.defs_in.subset_of(preds_out(s2, bs[i].1.predecessors))
            && s2[i].1.defs_out.subset_of(transfer_defs(s2[i].1.defs_in, s2[i].1.gen_set)) && s2[i].1.defs_in.subset_of(u)
            && s2[i].1.defs_out.subset_of(u) && gen_values(s2[i].1.gen_set).subset_of(u) by {
            let pi = bs[i].1.predecessors;
            assert forall|q: int| 0 <= q < pi.len() implies assoc_get(bs, pred_block(#[trigger] pi[q])) is Some by {
                assert(assoc_get(bs, pred_block(bs[i].1.predecessors[q])) is Some);
            }
            lemma_fwd_round_parallel(bs, st, n);
            lemma_preds_out_below(bs, s1, s2, pi);
            if i != m {
                assert(s2[i] == s1[i]);
                assert(s1[i].1.defs_in.subset_of(preds_out(s1, bs[i].1.predecessors)));
            }
        }
        assert forall|i: int| 0 <= i < st.len() implies (#[trigger] st[i]).0 == s2[i].0 && st[i].1.defs_in.subset_of(s2[i].1.defs_in)
            && st[i].1.defs_out.subset_of(s2[i].1.defs_out) && st[i].1.gen_set == s2[i].1.gen_set by {
            assert(st[i].0 == s1[i].0 && s1[i].0 == s2[i].0);
            assert(st[i].1.defs_in.subset_of(s1[i].1.defs_in) && s1[i].1.defs_in.subset_of(s2[i].1.defs_in));
            assert(st[i].1.defs_out.subset_of(s1[i].1.defs_out) && s1[i].1.defs_out.subset_of(s2[i].1.defs_out));
        }
        assert forall|i: int| 0 <= i < s2.len() implies (#[trigger] s2[i]).1.defs_in.finite() && s2[i].1.defs_out.finite() by {
            lemma_fwd_round_parallel(bs, st, n);
            vstd::set_lib::lemma_len_subset(s2[i].1.defs_in, u);
            vstd::set_lib::lemma_len_subset(s2[i].1.defs_out, u);
        }
        assert forall|i: int| 0 <= i < s1.len() implies (#[trigger] s1[i]).1.defs_in.finite() && s1[i].1.defs_out.finite() by {
            vstd::set_lib::lemma_len_subset(s1[i].1.defs_in, u);
            vstd::set_lib::lemma_len_subset(s1[i].1.defs_out, u);
        }
        lemma_defs_count_mono(st, s1, 0);
        lemma_defs_count_mono(s1, s2, m);
    }
}

proof fn lemma_forward_some<A>(bs: Seq<(BlockId, BlockView<A>)>, st: Seq<(BlockId, DefsView<A>)>, u: Set<Definition<A>>, fuel: nat)
    requires
        parallel(bs, st),
        keys_distinct(bs),
        preds_known(bs),
        defs_within(bs, st, u),
        u.finite(),
        fuel + defs_count(st) > bs.len() * (2 * u.len()),
    ensures
        spec_forward(bs, st, fuel) is Some,
    decreases fuel,
{
    lemma_defs_count_bound(st, u);
    lemma_fwd_round_grows(bs, st, u, bs.len());
    lemma_fwd_round_parallel(bs, st, bs.len());
    let (s2, ch) = fwd_round(bs, st, bs.len());
    if ch {
        lemma_defs_count_bound(s2, u);
        lemma_forward_some(bs, s2, u, (fuel - 1) as nat);
    }
}

/// The definitions made in the blocks of `st`.
pub open spec fn all_gens<A>(st: Seq<(BlockId, DefsView<A>)>) -> Set<Definition<A>>
    decreases st.len(),
{
    if st.len() == 0 {
        Set::empty()
    } else {
        all_gens(st.drop_last()).union(gen_values(st.last().1.gen_set))
    }
}

proof fn lemma_all_gens<A>(st: Seq<(BlockId, DefsView<A>)>)
    ensures
        all_gens(st).finite(),
        forall|i: int| 0 <= i < st.len() ==> gen_values((#[trigger] st[i]).1.gen_set).subset_of(all_gens(st)),
    decreases st.len(),
{
    if st.len() > 0 {
        let p = st.drop_last();
        lemma_all_gens(p);
        let g = st.last().1.gen_set.map_values(|e: (A, Definition<A>)| e.1);
        vstd::seq_lib::seq_to_set_is_finite(g);
        vstd::set::axiom_set_union_finite(all_gens(p), gen_values(st.last().1.gen_set));
        assert forall|i: int| 0 <= i < st.len() implies gen_values((#[trigger] st[i]).1.gen_set).subset_of(all_gens(st)) by {
            if i < st.len() - 1 {
                assert(st[i] == p[i]);
            }
        }
    }
}

/// The reaching definitions come to rest: some number of passes ends with
/// one that changes nothing.
pub proof fn lemma_forward_terminates<A: ArgBase>(cfg: CfgView<A>)
    requires
        keys_distinct(cfg.blocks),
        preds_known(cfg.blocks),
    ensures
        exists|fuel: nat| #[trigger] spec_forward(cfg.blocks, spec_initial(cfg), fuel) is Some,
{
    lemma_init_parallel(cfg, cfg.blocks.len());
    assert(cfg.blocks.take(cfg.blocks.len() as int) =~= cfg.blocks);
    lemma_initial_empty(cfg, cfg.blocks.len());
    let init = spec_initial(cfg);
    lemma_all_gens(init);
    let u = all_gens(init);
    assert(defs_within(cfg.blocks, init, u));
    let fuel = cfg.blocks.len() * (2 * u.len()) + 1;
    lemma_forward_some(cfg.blocks, init, u, fuel);
}

/// The number of operands found live at the starts and ends of the blocks
/// of `st`.
pub open spec fn live_count<A>(st: Seq<(BlockId, DefsView<A>)>) -> nat
    decreases st.len(),
{
    if st.len() == 0 {
        0
    } else {
        live_count(st.drop_last()) + st.last().1.live_in.len() + st.last().1.live_out.len()
    }
}

/// Whether the live operands of `st` are a state that the passes can reach
/// from nothing: within what the successors and the transfer give, and
/// within the operands `u`, which hold every operand read first.
pub open spec fn live_within<A: ArgBase>(bs: Seq<(BlockId, BlockView<A>)>, st: Seq<(BlockId, DefsView<A>)>, u: Set<A>) -> bool {
    forall|i: int|
        0 <= i < bs.len() ==> (#[trigger] st[i]).1.live_out.subset_of(succs_in(st, next_targets(bs[i].1.next)))
            && st[i].1.live_in.subset_of(transfer_live(st[i].1.live_out, st[i].1)) && st[i].1.live_in.subset_of(u)
            && st[i].1.live_out.subset_of(u) && st[i].1.use_set.subset_of(u)
}

proof fn lemma_live_count_mono<A>(st: Seq<(BlockId, DefsView<A>)>, st2: Seq<(BlockId, DefsView<A>)>, j: int)
    requires
        live_below(st, st2),
        forall|i: int| 0 <= i < st2.len() ==> (#[trigger] st2[i]).1.live_in.finite() && st2[i].1.live_out.finite(),
    ensures
        live_count(st) <= live_count(st2),
        0 <= j < st.len() && (st[j].1.live_in != st2[j].1.live_in || st[j].1.live_out != st2[j].1.live_out) ==> live_count(st)
            < live_count(st2),
    decreases st.len(),
{
    if st.len() > 0 {
        let m = st.len() - 1;
        lemma_live_count_mono(st.drop_last(), st2.drop_last(), j);
        assert(st[m].0 == st2[m].0 && st2[m].1.live_in.finite());
        vstd::set_lib::lemma_len_subset(st[m].1.live_in, st2[m].1.live_in);
        vstd::set_lib::lemma_len_subset(st[m].1.live_out, st2[m].1.live_out);
        if j == m {
            if st[m].1.live_in != st2[m].1.live_in {
                lemma_strict_subset_len(st[m].1.live_in, st2[m].1.live_in);
            }
            if st[m].1.live_out != st2[m].1.live_out {
                lemma_strict_subset_len(st[m].1.live_out, st2[m].1.live_out);
            }
        }
    }
}

proof fn lemma_live_count_bound<A>(st: Seq<(BlockId, DefsView<A>)>, u: Set<A>)
    requires
        u.finite(),
        forall|i: int| 0 <= i < st.len() ==> (#[trigger] st[i]).1.live_in.subset_of(u) && st[i].1.live_out.subset_of(u),
    ensures
        live_count(st) <= st.len() * (2 * u.len()),
    decreases st.len(),
{
    if st.len() > 0 {
        let m = st.len() - 1;
        lemma_live_count_bound(st.drop_last(), u);
        assert(st[m].1.live_in.subset_of(u));
        vstd::set_lib::lemma_len_subset(st[m].1.live_in, u);
        vstd::set_lib::lemma_len_subset(st[m].1.live_out, u);
        let k = 2 * u.len();
        let n = st.len();
        assert((n - 1) * k + k == n * k) by (nonlinear_arith);
    }
}

proof fn lemma_succs_in_within<A: ArgBase>(bs: Seq<(BlockId, BlockView<A>)>, st: Seq<(BlockId, DefsView<A>)>, u: Set<A>, succs: Seq<BlockId>)
    requires
        parallel(bs, st),
        forall|i: int| 0 <= i < st.len() ==> (#[trigger] st[i]).1.live_in.subset_of(u),
        forall|k: int| 0 <= k < succs.len() ==> assoc_get(bs, #[trigger] succs[k]) is Some,
    ensures
        succs_in(st, succs).subset_of(u),
    decreases succs.len(),
{
    if succs.len() > 0 {
        let p = succs.drop_last();
        assert forall|k: int| 0 <= k < p.len() implies assoc_get(bs, #[trigger] p[k]) is Some by {
            assert(p[k] == succs[k]);
        }
        lemma_succs_in_within(bs, st, u, p);
        let b = succs.last();
        assert(assoc_get(bs, succs[succs.len() - 1]) is Some);
        lemma_parallel_get(bs, st, b);
        crate::assoc::lemma_key_index(bs, b);
    }
}

/// A pass only adds live operands; it keeps the state reachable, and when
/// it changes anything it adds at least one.
proof fn lemma_live_round_grows<A: ArgBase>(bs: Seq<(BlockId, BlockView<A>)>, st: Seq<(BlockId, DefsView<A>)>, u: Set<A>, n: nat)
    requires
        parallel(bs, st),
        keys_distinct(bs),
        succs_known(bs),
        live_within(bs, st, u),
        u.finite(),
        n <= bs.len(),
    ensures
        live_within(bs, live_round(bs, st, n).0, u),
        live_below(st, live_round(bs, st, n).0),
        live_round(bs, st, n).1 ==> live_count(st) < live_count(live_round(bs, st, n).0),
    decreases n,
{
    if n == 0 {
        assert(live_below(st, st));
    } else {
        lemma_live_round_grows(bs, st, u, (n - 1) as nat);
        lemma_live_round_parallel(bs, st, (n - 1) as nat);
        let (s1, c1) = live_round(bs, st, (n - 1) as nat);
        let m = n - 1;
        let k = bs[m].0;
        lemma_distinct_index(bs, m);
        lemma_parallel_get(bs, s1, k);
        assert(key_index(s1, k) == m);
        let d = s1[m].1;
        assert(assoc_get(s1, k) == Some(d));
        let succs = next_targets(bs[m].1.next);
        assert forall|q: int| 0 <= q < succs.len() implies assoc_get(bs, #[trigger] succs[q]) is Some by {
            assert(assoc_get(bs, next_targets(bs[m].1.next)[q]) is Some);
        }
        let outs = succs_in(s1, succs);
        let ins = transfer_live(outs, d);
        assert(d.live_out.subset_of(outs));
        assert(d.live_in.subset_of(ins)) by {
            assert(d.live_in.subset_of(transfer_live(d.live_out, d)));
        }
        lemma_succs_in_within(bs, s1, u, succs);
        let (s2, c2) = live_update(s1, k, bs[m].1);
        assert(s2 == live_round(bs, st, n).0);
        assert(s2 == s1.update(m, (k, DefsView { live_in: ins, live_out: outs, ..d })));
        assert forall|i: int| 0 <= i < s1.len() implies (#[trigger] s1[i]).0 == s2[i].0 && s1[i].1.live_in.subset_of(s2[i].1.live_in)
            && s1[i].1.live_out.subset_of(s2[i].1.live_out) && s1[i].1.gen_set == s2[i].1.gen_set
            && s1[i].1.use_set == s2[i].1.use_set by {
            if i != m {
                assert(s2[i] == s1[i]);
            }
        }
        assert(live_below(s1, s2));
        assert forall|i: int| 0 <= i < bs.len() implies (#[trigger] s2[i]).1.live_out.subset_of(succs_in(s2, next_targets(bs[i].1.next)))
            && s2[i].1.live_in.subset_of(transfer_live(s2[i].1.live_out, s2[i].1)) && s2[i].1.live_in.subset_of(u)
            && s2[i].1.live_out.subset_of(u) && s2[i].1.use_set.subset_of(u) by {
            let si = next_targets(bs[i].1.next);
            assert forall|q: int| 0 <= q < si.len() implies assoc_get(bs, #[trigger] si[q]) is Some by {
                assert(assoc_get(bs, next_targets(bs[i].1.next)[q]) is Some);
            }
            lemma_live_round_parallel(bs, st, n);
            lemma_succs_in_below(bs, s1, s2, si);
            if i != m {
                assert(s2[i] == s1[i]);
                assert(s1[i].1.live_out.subset_of(succs_in(s1, next_targets(bs[i].1.next))));
            }
        }
        assert forall|i: int| 0 <= i < st.len() implies (#[trigger] st[i]).0 == s2[i].0 && st[i].1.live_in.subset_of(s2[i].1.live_in)
            && st[i].1.live_out.subset_of(s2[i].1.live_out) && st[i].1.gen_set == s2[i].1.gen_set
            && st[i].1.use_set == s2[i].1.use_set by {
            assert(st[i].0 == s1[i].0 && s1[i].0 == s2[i].0);
            assert(st[i].1.live_in.subset_of(s1[i].1.live_in) && s1[i].1.live_in.subset_of(s2[i].1.live_in));
            assert(st[i].1.live_out.subset_of(s1[i].1.live_out) && s1[i].1.live_out.subset_of(s2[i].1.live_out));
        }
        assert forall|i: int| 0 <= i < s2.len() implies (#[trigger] s2[i]).1.live_in.finite() && s2[i].1.live_out.finite() by {
            lemma_live_round_parallel(bs, st, n);
            vstd::set_lib::lemma_len_subset(s2[i].1.live_in, u);
            vstd::set_lib::lemma_len_subset(s2[i].1.live_out, u);
        }
        assert forall|i: int| 0 <= i < s1.len() implies (#[trigger] s1[i]).1.live_in.finite() && s1[i].1.live_out.finite() by {
            vstd::set_lib::lemma_len_subset(s1[i].1.live_in, u);
            vstd::set_lib::lemma_len_subset(s1[i].1.live_out, u);
        }
        lemma_live_count_mono(st, s1, 0);
        lemma_live_count_mono(s1, s2, m);
    }
}

proof fn lemma_live_some<A: ArgBase>(bs: Seq<(BlockId, BlockView<A>)>, st: Seq<(BlockId, DefsView<A>)>, u: Set<A>, fuel: nat)
    requires
        parallel(bs, st),
        keys_distinct(bs),
        succs_known(bs),
        live_within(bs, st, u),
        u.finite(),
        fuel + live_count(st) > bs.len() * (2 * u.len()),
    ensures
        spec_live(bs, st, fuel) is Some,
    decreases fuel,
{
    lemma_live_count_bound(st, u);
    lemma_live_round_grows(bs, st, u, bs.len());
    lemma_live_round_parallel(bs, st, bs.len());
    let (s2, ch) = live_round(bs, st, bs.len());
    if ch {
        lemma_live_count_bound(s2, u);
        lemma_live_some(bs, s2, u, (fuel - 1) as nat);
    }
}

/// The operands read first in the blocks of `st`.
pub open spec fn all_uses<A>(st: Seq<(BlockId, DefsView<A>)>) -> Set<A>
    decreases st.len(),
{
    if st.len() == 0 {
        Set::empty()
    } else {
        all_uses(st.drop_last()).union(st.last().1.use_set)
    }
}

proof fn lemma_uses_finite<A: ArgBase>(ops: Seq<(usize, InstrView<A>)>)
    ensures
        spec_uses(ops).0.finite(),
    decreases ops.len(),
{
    if ops.len() > 0 {
        lemma_uses_finite(ops.drop_last());
        let (u, d) = spec_uses(ops.drop_last());
        let rs = spec_non_values(spec_read_operands(ops.last().1)).to_set();
        vstd::seq_lib::seq_to_set_is_finite(spec_non_values(spec_read_operands(ops.last().1)));
        let f = rs.filter(|r: A| !d.contains(r));
        vstd::set_lib::lemma_len_subset(f, rs);
        vstd::set::axiom_set_union_finite(u, f);
    }
}

proof fn lemma_all_uses<A>(st: Seq<(BlockId, DefsView<A>)>)
    requires
        forall|i: int| 0 <= i < st.len() ==> (#[trigger] st[i]).1.use_set.finite(),
    ensures
        all_uses(st).finite(),
        forall|i: int| 0 <= i < st.len() ==> (#[trigger] st[i]).1.use_set.subset_of(all_uses(st)),
    decreases st.len(),
{
    if st.len() > 0 {
        let p = st.drop_last();
        assert forall|i: int| 0 <= i < p.len() implies (#[trigger] p[i]).1.use_set.finite() by {
            assert(p[i] == st[i]);
        }
        lemma_all_uses(p);
        assert(st[st.len() - 1].1.use_set.finite());
        vstd::set::axiom_set_union_finite(all_uses(p), st.last().1.use_set);
        assert forall|i: int| 0 <= i < st.len() implies (#[trigger] st[i]).1.use_set.subset_of(all_uses(st)) by {
            if i < st.len() - 1 {
                assert(st[i] == p[i]);
            }
        }
    }
}

proof fn lemma_initial_uses_finite<A: ArgBase>(cfg: CfgView<A>, n: nat)
    requires
        n <= cfg.blocks.len(),
    ensures
        forall|i: int| 0 <= i < init_defs(cfg, n).len() ==> (#[trigger] init_defs(cfg, n)[i]).1.use_set.finite(),
    decreases n,
{
    if n > 0 {
        lemma_initial_uses_finite(cfg, (n - 1) as nat);
        let prev = init_defs(cfg, (n - 1) as nat);
        crate::assoc::lemma_key_index(prev, cfg.blocks[n - 1].0);
        lemma_uses_finite(cfg.blocks[n - 1].1.ops);
    }
}

/// The live operands come to rest: some number of passes, after the
/// reaching definitions, ends with one that changes nothing.
pub proof fn lemma_live_terminates<A: ArgBase>(cfg: CfgView<A>)
    requires
        keys_distinct(cfg.blocks),
        preds_known(cfg.blocks),
        succs_known(cfg.blocks),
    ensures
        exists|fuel: nat| #[trigger] spec_live(cfg.blocks, spec_forward_result(cfg), fuel) is Some,
{
    lemma_forward_terminates(cfg);
    lemma_init_parallel(cfg, cfg.blocks.len());
    assert(cfg.blocks.take(cfg.blocks.len() as int) =~= cfg.blocks);
    lemma_initial_live_unset(cfg, cfg.blocks.len());
    lemma_initial_uses_finite(cfg, cfg.blocks.len());
    let init = spec_initial(cfg);
    assert(live_unset(init, init));
    let fuel = choose|fuel: nat| #[trigger] spec_forward(cfg.blocks, spec_initial(cfg), fuel) is Some;
    lemma_forward_live_unset(cfg.blocks, init, init, fuel);
    lemma_forward_stable(cfg.blocks, init, fuel);
    let fwd = spec_forward_result(cfg);
    assert forall|i: int| 0 <= i < fwd.len() implies (#[trigger] fwd[i]).1.use_set.finite() by {
        assert(fwd[i].1.use_set == init[i].1.use_set);
    }
    lemma_all_uses(fwd);
    let u = all_uses(fwd);
    assert(live_within(cfg.blocks, fwd, u));
    let fuel2 = cfg.blocks.len() * (2 * u.len()) + 1;
    lemma_live_some(cfg.blocks, fwd, u, fuel2);
}

impl<A: ArgBase + Key> GraphDataFlow<A> {
    pub open spec fn view(&self) -> Seq<(BlockId, DefsView<A>)> {
        defs_view(self.block_defs@)
    }

    /// The union of the definitions that leave the given predecessors.
    fn defs_from_preds(&self, preds: &Vec<PredecessorKind<A>>, Ghost(bs): Ghost<Seq<(BlockId, BlockView<A>)>>) -> (r: Vec<Definition<A>>)
        requires
            parallel(bs, self.view()),
            forall|k: int| 0 <= k < preds@.len() ==> assoc_get(bs, pred_block(#[trigger] preds@[k])) is Some,
        ensures
            r@.to_set() == preds_out(self.view(), preds@),
    {
        let mut in_set: Vec<Definition<A>> = Vec::new();
        let mut p: usize = 0;
        assert(preds@.take(0) =~= seq![]);
        assert(in_set@.to_set() =~= Set::<Definition<A>>::empty());
        while p < preds.len()
            invariant
                p <= preds@.len(),
                parallel(bs, self.view()),
                forall|k: int| 0 <= k < preds@.len() ==> assoc_get(bs, pred_block(#[trigger] preds@[k])) is Some,
                in_set@.to_set() == preds_out(self.view(), preds@.take(p as int)),
            decreases preds.len() - p,
        {
            let pid = preds[p].block_id();
            proof {
                assert(assoc_get(bs, pred_block(preds@[p as int])) is Some);
                lemma_parallel_get(bs, self.view(), pid);
                crate::assoc::lemma_key_index(bs, pid);
                crate::assoc::lemma_key_index_keys(self.block_defs@, self.view(), pid);
                crate::assoc::lemma_key_index(self.view(), pid);
            }
            let k = match find_key(&self.block_defs, &pid) {
                Some(k) => k,
                None => {
                    assert(false);
                    0
                },
            };
            set_extend(&mut in_set, &self.block_defs[k].1.defs_out);
            proof {
                let t = preds@.take(p + 1);
                assert(t.drop_last() =~= preds@.take(p as int));
                assert(t.last() == preds@[p as int]);
                assert(assoc_get(self.view(), pid) == Some(self.view()[k as int].1));
            }
            p = p + 1;
        }
        assert(preds@.take(p as int) =~= preds@);
        in_set
    }

    /// The definitions that leave a block whose reaching definitions are
    /// `ins` and whose own definitions are `g`.
    fn transfer(ins: &Vec<Definition<A>>, g: &Vec<(A, Definition<A>)>) -> (r: Vec<Definition<A>>)
        ensures
            r@.to_set() == transfer_defs(ins@.to_set(), g@),
    {
        let mut out: Vec<Definition<A>> = Vec::new();
        let mut i: usize = 0;
        assert(out@.to_set() =~= Set::<Definition<A>>::empty());
        while i < ins.len()
            invariant
                i <= ins@.len(),
                out@.to_set() == ins@.take(i as int).to_set().filter(|x: Definition<A>| assoc_get(g@, x.arg) is None),
            decreases ins.len() - i,
        {
            proof {
                crate::assoc::lemma_key_index(g@, ins@[i as int].arg);
            }
            if find_key(g, &ins[i].arg).is_none() {
                set_insert(&mut out, ins[i]);
            }
            proof {
                let t = ins@.take(i + 1);
                assert(t =~= ins@.take(i as int).push(ins@[i as int]));
                ins@.take(i as int).lemma_push_to_set_commute(ins@[i as int]);
                assert(out@.to_set() =~= ins@.take(i + 1).to_set().filter(|x: Definition<A>| assoc_get(g@, x.arg) is None));
            }
            i = i + 1;
        }
        assert(ins@.take(i as int) =~= ins@);
        let ghost filtered = out@.to_set();
        let mut j: usize = 0;
        assert(g@.map_values(|e: (A, Definition<A>)| e.1).take(0).to_set() =~= Set::<Definition<A>>::empty());
        while j < g.len()
            invariant
                j <= g@.len(),
                out@.to_set() == filtered.union(g@.map_values(|e: (A, Definition<A>)| e.1).take(j as int).to_set()),
            decreases g.len() - j,
        {
            set_insert(&mut out, g[j].1);
            proof {
                let mv = g@.map_values(|e: (A, Definition<A>)| e.1);
                assert(mv.take(j + 1) =~= mv.take(j as int).push(mv[j as int]));
                mv.take(j as int).lemma_push_to_set_commute(mv[j as int]);
                assert(out@.to_set() =~= filtered.union(mv.take(j + 1).to_set()));
            }
            j = j + 1;
        }
        proof {
            let mv = g@.map_values(|e: (A, Definition<A>)| e.1);
            assert(mv.take(j as int) =~= mv);
        }
        out
    }

    /// Passes over the blocks, recomputing the definitions that reach and
    /// leave each one, until a pass changes nothing.
    fn forward_analysis(&mut self, control_flow: &ControlFlowGraph<A>)
        requires
            parallel(blocks_view(control_flow.blocks@), old(self).view()),
            keys_distinct(blocks_view(control_flow.blocks@)),
            preds_known(blocks_view(control_flow.blocks@)),
            exists|fuel: nat| #[trigger] spec_forward(blocks_view(control_flow.blocks@), old(self).view(), fuel) is Some,
        ensures
            parallel(blocks_view(control_flow.blocks@), final(self).view()),
            final(self).view() == spec_forward(
                blocks_view(control_flow.blocks@),
                old(self).view(),
                choose|fuel: nat| #[trigger] spec_forward(blocks_view(control_flow.blocks@), old(self).view(), fuel) is Some,
            )->0,
    {
        let ghost bs = blocks_view(control_flow.blocks@);
        let ghost fuel0 = choose|fuel: nat| #[trigger] spec_forward(bs, self.view(), fuel) is Some;
        let ghost result = spec_forward(bs, self.view(), fuel0);
        let ghost mut fuel = fuel0;
        loop
            invariant_except_break
                bs == blocks_view(control_flow.blocks@),
                parallel(bs, self.view()),
                keys_distinct(bs),
                preds_known(bs),
                result is Some,
                result == spec_forward(bs, self.view(), fuel),
            ensures
                parallel(bs, self.view()),
                result == Some(self.view()),
            decreases fuel,
        {
            let ghost start = self.view();
            let mut changed = false;
            let mut i: usize = 0;
            while i < control_flow.blocks.len()
                invariant
                    bs == blocks_view(control_flow.blocks@),
                    i <= bs.len(),
                    parallel(bs, self.view()),
                    keys_distinct(bs),
                    preds_known(bs),
                    (self.view(), changed) == fwd_round(bs, start, i as nat),
                decreases control_flow.blocks.len() - i,
            {
                let addr = control_flow.blocks[i].0;
                let block = &control_flow.blocks[i].1;
                assert(bs[i as int].0 == addr);
                assert(bs[i as int].1 == block.view());
                let ghost cur = self.view();
                assert forall|k: int| 0 <= k < block.predecessors@.len() implies assoc_get(
                    bs,
                    pred_block(#[trigger] block.predecessors@[k]),
                ) is Some by {
                    assert(bs[i as int].1.predecessors[k] == block.predecessors@[k]);
                }
                let in_set = self.defs_from_preds(&block.predecessors, Ghost(bs));
                proof {
                    lemma_distinct_index(bs, i as int);
                    lemma_parallel_get(bs, cur, addr);
                    crate::assoc::lemma_key_index_keys(self.block_defs@, cur, addr);
                    crate::assoc::lemma_key_index(cur, addr);
                }
                let idx = match find_key(&self.block_defs, &addr) {
                    Some(k) => k,
                    None => {
                        assert(false);
                        0
                    },
                };
                assert(idx == i);
                let ghost d = cur[i as int].1;
                let entry = &mut self.block_defs[idx];
                if !same_set(&in_set, &entry.1.defs_in) {
                    changed = true;
                    entry.1.defs_in = in_set;
                }
                let out_set = Self::transfer(&entry.1.defs_in, &entry.1.gen_set);
                if !same_set(&out_set, &entry.1.defs_out) {
                    changed = true;
                    entry.1.defs_out = out_set;
                }
                proof {
                    let ins = preds_out(cur, bs[i as int].1.predecessors);
                    let nd = DefsView { defs_in: ins, defs_out: transfer_defs(ins, d.gen_set), ..d };
                    assert(self.view()[i as int].1 == nd);
                    assert(self.view() =~= assoc_insert(cur, addr, nd));
                }
                i = i + 1;
            }
            if !changed {
                break;
            }
            proof {
                fuel = (fuel - 1) as nat;
            }
        }
    }

    /// The union of the operands live at the start of the given successors.
    fn live_from_succs(&self, succs: &Vec<BlockId>, Ghost(bs): Ghost<Seq<(BlockId, BlockView<A>)>>) -> (r: Vec<A>)
        requires
            parallel(bs, self.view()),
            forall|k: int| 0 <= k < succs@.len() ==> assoc_get(bs, #[trigger] succs@[k]) is Some,
        ensures
            r@.to_set() == succs_in(self.view(), succs@),
    {
        let mut out: Vec<A> = Vec::new();
        let mut p: usize = 0;
        assert(succs@.take(0) =~= seq![]);
        assert(out@.to_set() =~= Set::<A>::empty());
        while p < succs.len()
            invariant
                p <= succs@.len(),
                parallel(bs, self.view()),
                forall|k: int| 0 <= k < succs@.len() ==> assoc_get(bs, #[trigger] succs@[k]) is Some,
                out@.to_set() == succs_in(self.view(), succs@.take(p as int)),
            decreases succs.len() - p,
        {
            let sid = succs[p];
            proof {
                assert(assoc_get(bs, succs@[p as int]) is Some);
                lemma_parallel_get(bs, self.view(), sid);
                crate::assoc::lemma_key_index(bs, sid);
                crate::assoc::lemma_key_index_keys(self.block_defs@, self.view(), sid);
                crate::assoc::lemma_key_index(self.view(), sid);
            }
            let k = match find_key(&self.block_defs, &sid) {
                Some(k) => k,
                None => {
                    assert(false);
                    0
                },
            };
            set_extend(&mut out, &self.block_defs[k].1.live_in);
            proof {
                let t = succs@.take(p + 1);
                assert(t.drop_last() =~= succs@.take(p as int));
                assert(t.last() == succs@[p as int]);
                assert(assoc_get(self.view(), sid) == Some(self.view()[k as int].1));
            }
            p = p + 1;
        }
        assert(succs@.take(p as int) =~= succs@);
        out
    }

    /// The operands live at the start of a block whose live operands at its
    /// end are `outs`.
    fn transfer_live_set(outs: &Vec<A>, use_set: &Vec<A>, g: &Vec<(A, Definition<A>)>) -> (r: Vec<A>)
        ensures
            r@.to_set() == use_set@.to_set().union(outs@.to_set().filter(|a: A| assoc_get(g@, a) is None)),
    {
        let mut r: Vec<A> = Vec::new();
        set_extend(&mut r, use_set);
        assert(Set::<A>::empty().union(use_set@.to_set()) =~= use_set@.to_set());
        let ghost base = r@.to_set();
        let mut i: usize = 0;
        while i < outs.len()
            invariant
                i <= outs@.len(),
                r@.to_set() == base.union(outs@.take(i as int).to_set().filter(|a: A| assoc_get(g@, a) is None)),
            decreases outs.len() - i,
        {
            proof {
                crate::assoc::lemma_key_index(g@, outs@[i as int]);
            }
            if find_key(g, &outs[i]).is_none() {
                set_insert(&mut r, outs[i]);
            }
            proof {
                let t = outs@.take(i + 1);
                assert(t =~= outs@.take(i as int).push(outs@[i as int]));
                outs@.take(i as int).lemma_push_to_set_commute(outs@[i as int]);
                assert(r@.to_set() =~= base.union(outs@.take(i + 1).to_set().filter(|a: A| assoc_get(g@, a) is None)));
            }
            i = i + 1;
        }
        assert(outs@.take(i as int) =~= outs@);
        r
    }

    /// Passes over the blocks, recomputing the operands live at the end and
    /// start of each one from its successors, until a pass changes nothing.
    fn live_variable_analysis(&mut self, control_flow: &ControlFlowGraph<A>)
        requires
            parallel(blocks_view(control_flow.blocks@), old(self).view()),
            keys_distinct(blocks_view(control_flow.blocks@)),
            succs_known(blocks_view(control_flow.blocks@)),
            exists|fuel: nat| #[trigger] spec_live(blocks_view(control_flow.blocks@), old(self).view(), fuel) is Some,
        ensures
            parallel(blocks_view(control_flow.blocks@), final(self).view()),
            final(self).view() == spec_live(
                blocks_view(control_flow.blocks@),
                old(self).view(),
                choose|fuel: nat| #[trigger] spec_live(blocks_view(control_flow.blocks@), old(self).view(), fuel) is Some,
            )->0,
    {
        let ghost bs = blocks_view(control_flow.blocks@);
        let ghost fuel0 = choose|fuel: nat| #[trigger] spec_live(bs, self.view(), fuel) is Some;
        let ghost result = spec_live(bs, self.view(), fuel0);
        let ghost mut fuel = fuel0;
        loop
            invariant_except_break
                bs == blocks_view(control_flow.blocks@),
                parallel(bs, self.view()),
                keys_distinct(bs),
                succs_known(bs),
                result is Some,
                result == spec_live(bs, self.view(), fuel),
            ensures
                parallel(bs, self.view()),
                result == Some(self.view()),
            decreases fuel,
        {
            let ghost start = self.view();
            let mut changed = false;
            let mut i: usize = 0;
            while i < control_flow.blocks.len()
                invariant
                    bs == blocks_view(control_flow.blocks@),
                    i <= bs.len(),
                    parallel(bs, self.view()),
                    keys_distinct(bs),
                    succs_known(bs),
                    (self.view(), changed) == live_round(bs, start, i as nat),
                decreases control_flow.blocks.len() - i,
            {
                let addr = control_flow.blocks[i].0;
                let block = &control_flow.blocks[i].1;
                assert(bs[i as int].0 == addr);
                assert(bs[i as int].1 == block.view());
                let ghost cur = self.view();
                assert(next_defined(bs[i as int].1.next));
                let succs = block.next_blocks();
                assert forall|k: int| 0 <= k < succs@.len() implies assoc_get(bs, #[trigger] succs@[k]) is Some by {
                    assert(next_targets(bs[i as int].1.next)[k] == succs@[k]);
                }
                let live_out_set = self.live_from_succs(&succs, Ghost(bs));
                proof {
                    lemma_distinct_index(bs, i as int);
                    lemma_parallel_get(bs, cur, addr);
                    crate::assoc::lemma_key_index_keys(self.block_defs@, cur, addr);
                    crate::assoc::lemma_key_index(cur, addr);
                }
                let idx = match find_key(&self.block_defs, &addr) {
                    Some(k) => k,
                    None => {
                        assert(false);
                        0
                    },
                };
                assert(idx == i);
                let ghost d = cur[i as int].1;
                let entry = &mut self.block_defs[idx];
                if !same_set(&live_out_set, &entry.1.live_out) {
                    changed = true;
                    entry.1.live_out = live_out_set;
                }
                let live_in_set = Self::transfer_live_set(&entry.1.live_out, &entry.1.use_set, &entry.1.gen_set);
                if !same_set(&live_in_set, &entry.1.live_in) {
                    changed = true;
                    entry.1.live_in = live_in_set;
                }
                proof {
                    let outs = succs_in(cur, next_targets(bs[i as int].1.next));
                    let nd = DefsView { live_in: transfer_live(outs, d), live_out: outs, ..d };
                    assert(self.view()[i as int].1 == nd);
                    assert(self.view() =~= assoc_insert(cur, addr, nd));
                }
                i = i + 1;
            }
            if !changed {
                break;
            }
            proof {
                fuel = (fuel - 1) as nat;
            }
        }
    }

    /// The data flow of a graph: for each block its definitions and the
    /// operands it reads before writing them, then the definitions that reach
    /// each block and the operands live at each block.
    pub fn build_for(control_flow: &ControlFlowGraph<A>) -> (r: GraphDataFlow<A>)
        requires
            data_flow_defined(control_flow.view()),
        ensures
            r.view() == spec_data_flow(control_flow.view()),
    {
        let ghost cfg = control_flow.view();
        let mut flow = GraphDataFlow { block_defs: Vec::new() };
        let mut i: usize = 0;
        assert(flow.view() =~= init_defs(cfg, 0));
        while i < control_flow.blocks.len()
            invariant
                i <= control_flow.blocks@.len(),
                cfg == control_flow.view(),
                data_flow_defined(cfg),
                flow.view() == init_defs(cfg, i as nat),
            decreases control_flow.blocks.len() - i,
        {
            let addr = control_flow.blocks[i].0;
            let block = &control_flow.blocks[i].1;
            assert(cfg.blocks[i as int].1 == block.view());
            assert(cfg.blocks[i as int].1.span.start + 2 <= usize::MAX);
            let create_stack = if block.id() == control_flow.start && block.span.start != 0 {
                Some((control_flow.stack_size, block.span.start))
            } else {
                None
            };
            let gen_set = get_definitions(block, create_stack);
            let use_set = get_read_before_write(block);
            let block_def = BlockDef {
                defs_in: Vec::new(),
                defs_out: Vec::new(),
                live_in: Vec::new(),
                live_out: Vec::new(),
                gen_set,
                use_set,
            };
            assert(block_def.defs_in@.to_set() =~= Set::<Definition<A>>::empty());
            assert(block_def.defs_out@.to_set() =~= Set::<Definition<A>>::empty());
            assert(block_def.live_in@.to_set() =~= Set::<A>::empty());
            assert(block_def.live_out@.to_set() =~= Set::<A>::empty());
            assert(block_def.view() == DefsView {
                defs_in: Set::<Definition<A>>::empty(),
                defs_out: Set::<Definition<A>>::empty(),
                live_in: Set::<A>::empty(),
                live_out: Set::<A>::empty(),
                gen_set: spec_definitions(cfg.blocks[i as int].1, create_for(cfg, cfg.blocks[i as int].1)),
                use_set: spec_uses(cfg.blocks[i as int].1.ops).0,
            });
            let ghost before = flow.block_defs@;
            let ghost bv = block_def.view();
            insert_value(&mut flow.block_defs, addr, block_def);
            proof {
                crate::assoc::lemma_key_index_keys(before, defs_view(before), addr);
                crate::assoc::lemma_key_index(before, addr);
                assert(flow.view() =~= assoc_insert(defs_view(before), addr, bv));
            }
            i = i + 1;
        }
        proof {
            lemma_init_parallel(cfg, cfg.blocks.len());
            assert(cfg.blocks.take(cfg.blocks.len() as int) =~= cfg.blocks);
            lemma_forward_terminates(cfg);
            lemma_live_terminates(cfg);
        }
        flow.forward_analysis(control_flow);
        flow.live_variable_analysis(control_flow);
        flow
    }
}

} // verus!
