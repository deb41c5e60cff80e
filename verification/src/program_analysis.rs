//! Analysis of a whole program: the graphs and data flows of its functions,
//! and what calls tell about each function's arguments and results.
use vstd::prelude::*;
use vstd::relations::{sorted_by, total_ordering};
use crate::low_ir::{Arg, OpArg};
use crate::assoc::{assoc_get, assoc_insert, find_key, insert_value};
use crate::control_flow_graph::{BlockId, BlockView, ControlFlowGraph, FunctionCall, FunctionId, PredecessorKind, blocks_view};
use crate::data_flow_analysis::{BlockDef, GraphDataFlow, data_flow_defined, spec_data_flow};
use crate::control_flow_graph::{CfgView, cfgs_view, scan_defined_from, spec_scan_from};

verus! {

broadcast use vstd::seq_lib::group_to_multiset_ensures;

/// The rank of an operand's kind in the order of operands: data cells, then
/// values, then frame slots, then patched cells.
pub open spec fn arg_rank(a: Arg) -> int {
    match a {
        Arg::Mem(_) => 0,
        Arg::Value(_) => 1,
        Arg::RelativeMem(_) => 2,
        Arg::Deref(_) => 3,
    }
}

pub open spec fn arg_payload(a: Arg) -> int {
    match a {
        Arg::Mem(x) => x as int,
        Arg::Value(x) => x as int,
        Arg::RelativeMem(x) => x as int,
        Arg::Deref(x) => x as int,
    }
}

/// The order of operands: by kind, then by number.
pub open spec fn arg_leq(a: Arg, b: Arg) -> bool {
    arg_rank(a) < arg_rank(b) || (arg_rank(a) == arg_rank(b) && arg_payload(a) <= arg_payload(b))
}

pub open spec fn arg_order() -> spec_fn(Arg, Arg) -> bool {
    |a: Arg, b: Arg| arg_leq(a, b)
}

pub proof fn lemma_arg_order_total()
    ensures
        total_ordering(arg_order()),
{
    assert forall|a: Arg, b: Arg| #[trigger] arg_order()(a, b) && #[trigger] arg_order()(b, a) implies a == b by {
        assert(arg_rank(a) == arg_rank(b));
        assert(arg_payload(a) == arg_payload(b));
    }
}

/// Whether `a` comes before `b` or equals it.
pub fn arg_le(a: &Arg, b: &Arg) -> (r: bool)
    ensures
        r == arg_leq(*a, *b),
{
    let ra: u8 = match a {
        Arg::Mem(_) => 0,
        Arg::Value(_) => 1,
        Arg::RelativeMem(_) => 2,
        Arg::Deref(_) => 3,
    };
    let rb: u8 = match b {
        Arg::Mem(_) => 0,
        Arg::Value(_) => 1,
        Arg::RelativeMem(_) => 2,
        Arg::Deref(_) => 3,
    };
    if ra != rb {
        return ra < rb;
    }
    match (a, b) {
        (Arg::Mem(x), Arg::Mem(y)) => *x <= *y,
        (Arg::Value(x), Arg::Value(y)) => *x <= *y,
        (Arg::RelativeMem(x), Arg::RelativeMem(y)) => *x <= *y,
        (Arg::Deref(x), Arg::Deref(y)) => *x <= *y,
        _ => false,
    }
}

/// The operands of `v` in order.
pub fn sort_args(v: &Vec<Arg>) -> (r: Vec<Arg>)
    ensures
        r@ == v@.sort_by(arg_order()),
{
    let mut res: Vec<Arg> = Vec::new();
    let mut i: usize = 0;
    proof {
        lemma_arg_order_total();
    }
    assert(v@.take(0) =~= seq![]);
    while i < v.len()
        invariant
            i <= v@.len(),
            total_ordering(arg_order()),
            sorted_by(res@, arg_order()),
            res@.to_multiset() == v@.take(i as int).to_multiset(),
        decreases v.len() - i,
    {
        let x = v[i];
        let mut p: usize = 0;
        while p < res.len() && arg_le(&res[p], &x)
            invariant
                p <= res@.len(),
                forall|k: int| 0 <= k < p ==> arg_leq(#[trigger] res@[k], x),
            decreases res.len() - p,
        {
            p = p + 1;
        }
        let ghost old_res = res@;
        res.insert(p, x);
        proof {
            assert(p < old_res.len() ==> !arg_leq(old_res[p as int], x));
            assert forall|a: int, b: int| 0 <= a < b < res@.len() implies #[trigger] arg_order()(res@[a], res@[b]) by {
                if b < p {
                    assert(arg_order()(old_res[a], old_res[b]));
                } else if b == p {
                    assert(res@[a] == old_res[a]);
                } else if a < p {
                    assert(res@[b] == old_res[b - 1]);
                    if a < b - 1 {
                        assert(arg_order()(old_res[a], old_res[b - 1]));
                    }
                } else if a == p {
                    assert(res@[b] == old_res[b - 1]);
                    assert(arg_order()(old_res[p as int], old_res[b - 1]) || b - 1 == p);
                } else {
                    assert(arg_order()(old_res[a - 1], old_res[b - 1]));
                }
            }
            assert(v@.take(i + 1) =~= v@.take(i as int).push(x));
        }
        i = i + 1;
    }
    proof {
        assert(v@.take(i as int) =~= v@);
        v@.lemma_sort_by_ensures(arg_order());
        vstd::seq_lib::lemma_sorted_unique(res@, v@.sort_by(arg_order()), arg_order());
    }
    res
}


/// What calls tell about a function: its frame size, the frame slots it
/// reads as arguments (numbered from the bottom of its frame), the slots above
/// the caller's base where its results are read, and its local slots.
pub struct FunctionInfo {
    pub function_id: FunctionId,
    pub stack_size: usize,
    pub args: Vec<Arg>,
    pub return_vars: Vec<Arg>,
    pub local_vars: Vec<Arg>,
}

pub ghost struct InfoView {
    pub function_id: FunctionId,
    pub stack_size: usize,
    pub args: Seq<Arg>,
    pub return_vars: Seq<Arg>,
    pub local_vars: Seq<Arg>,
}

impl FunctionInfo {
    pub open spec fn view(&self) -> InfoView {
        InfoView {
            function_id: self.function_id,
            stack_size: self.stack_size,
            args: self.args@,
            return_vars: self.return_vars@,
            local_vars: self.local_vars@,
        }
    }
}

pub open spec fn infos_view(v: Seq<(FunctionId, FunctionInfo)>) -> Seq<(FunctionId, InfoView)> {
    Seq::new(v.len(), |i: int| (v[i].0, v[i].1.view()))
}

pub open spec fn calls_view(v: Seq<(FunctionId, Vec<FunctionId>)>) -> Seq<(FunctionId, Seq<FunctionId>)> {
    Seq::new(v.len(), |i: int| (v[i].0, v[i].1@))
}

/// Whether an operand is a frame slot above the base.
pub open spec fn above_base(a: Arg) -> bool {
    a matches Arg::RelativeMem(r) && r > 0
}

pub open spec fn above_base_pred() -> spec_fn(Arg) -> bool {
    |a: Arg| above_base(a)
}

pub open spec fn kind_of() -> spec_fn(OpArg) -> Arg {
    |a: OpArg| a.kind
}

/// The slots above the base among the operands, in order.
pub open spec fn return_slots(uses: Seq<OpArg>) -> Seq<Arg> {
    uses.map_values(kind_of()).filter(above_base_pred()).sort_by(arg_order())
}

/// The slots below the base among the operands, numbered from the bottom of a
/// frame of `stack` words.
pub open spec fn slots_below(live: Seq<OpArg>, stack: usize) -> Seq<Arg>
    decreases live.len(),
{
    if live.len() == 0 {
        seq![]
    } else {
        let t = slots_below(live.drop_last(), stack);
        match live.last().kind {
            Arg::RelativeMem(r) => if r < 0 {
                t.push(Arg::RelativeMem((stack + r) as i128))
            } else {
                t
            },
            _ => t,
        }
    }
}

/// The sequence without repeats of the element just before.
pub open spec fn dedup(s: Seq<Arg>) -> Seq<Arg>
    decreases s.len(),
{
    if s.len() <= 1 {
        s
    } else {
        let d = dedup(s.drop_last());
        if s.last() == s[s.len() - 2] {
            d
        } else {
            d.push(s.last())
        }
    }
}

/// The first call that returns into a block.
pub open spec fn first_call_return(preds: Seq<PredecessorKind<OpArg>>) -> Option<FunctionCall<OpArg>>
    decreases preds.len(),
{
    if preds.len() == 0 {
        None
    } else {
        match preds[0] {
            PredecessorKind::FunctionCallReturns(fc) => Some(fc),
            _ => first_call_return(preds.drop_first()),
        }
    }
}

/// What a block tells about a call that returns into it: nothing, a failure
/// to find a graph or data flow that the analysis needs, or the callee and
/// what the call shows of it.
pub ghost enum CallStep {
    Skip,
    Panics,
    Call(FunctionId, InfoView),
}

pub open spec fn call_step(
    cfs: Seq<(FunctionId, ControlFlowGraph<OpArg>)>,
    dfs: Seq<(FunctionId, GraphDataFlow<OpArg>)>,
    caller_start: BlockId,
    bid: BlockId,
    b: BlockView<OpArg>,
) -> CallStep {
    match first_call_return(b.predecessors) {
        None => CallStep::Skip,
        Some(fc) => match assoc_get(dfs, FunctionId(caller_start.0)) {
            None => CallStep::Panics,
            Some(cdf) => match assoc_get(cdf.block_defs@, bid) {
                None => CallStep::Panics,
                Some(bd) => {
                    let rv = return_slots(bd.use_set@);
                    match fc.function_addr.kind {
                        Arg::Value(a) => {
                            let callee = FunctionId(a as usize);
                            match (assoc_get(dfs, callee), assoc_get(cfs, callee)) {
                                (Some(ddf), Some(ccf)) => match assoc_get(ddf.block_defs@, BlockId(callee.0)) {
                                    Some(cbd) => CallStep::Call(
                                        callee,
                                        InfoView {
                                            function_id: callee,
                                            stack_size: ccf.stack_size,
                                            args: slots_below(cbd.live_in@, ccf.stack_size).sort_by(arg_order()),
                                            return_vars: rv,
                                            local_vars: seq![],
                                        },
                                    ),
                                    None => CallStep::Panics,
                                },
                                _ => CallStep::Panics,
                            }
                        },
                        _ => CallStep::Skip,
                    }
                },
            },
        },
    }
}

/// The state of the call analysis: what is known of each callee and the
/// callees of each caller, or `None` once a call contradicts an earlier one
/// about a callee's arguments or a needed graph or data flow is missing.
pub type CallState = Option<(Seq<(FunctionId, InfoView)>, Seq<(FunctionId, Seq<FunctionId>)>)>;

pub open spec fn record_call(st: CallState, caller: FunctionId, step: CallStep) -> CallState {
    match st {
        None => None,
        Some((infos, graph)) => match step {
            CallStep::Skip => st,
            CallStep::Panics => None,
            CallStep::Call(callee, fi) => {
                let graph2 = assoc_insert(
                    graph,
                    caller,
                    match assoc_get(graph, caller) {
                        Some(l) => l.push(callee),
                        None => seq![callee],
                    },
                );
                match assoc_get(infos, callee) {
                    Some(o) => if o.args != fi.args || o.local_vars != fi.local_vars {
                        None
                    } else {
                        Some(
                            (
                                assoc_insert(
                                    infos,
                                    callee,
                                    InfoView {
                                        return_vars: dedup(o.return_vars + fi.return_vars).sort_by(arg_order()),
                                        ..o
                                    },
                                ),
                                graph2,
                            ),
                        )
                    },
                    None => Some((assoc_insert(infos, callee, fi), graph2)),
                }
            },
        },
    }
}

/// The calls returning into the first `n` blocks of the caller at index `ci`.
pub open spec fn calls_in_blocks(
    cfs: Seq<(FunctionId, ControlFlowGraph<OpArg>)>,
    dfs: Seq<(FunctionId, GraphDataFlow<OpArg>)>,
    ci: int,
    n: nat,
    st: CallState,
) -> CallState
    decreases n,
{
    if n == 0 {
        st
    } else {
        let c = cfs[ci].1;
        let bs = blocks_view(c.blocks@);
        let prev = calls_in_blocks(cfs, dfs, ci, (n - 1) as nat, st);
        record_call(prev, cfs[ci].0, call_step(cfs, dfs, c.start, bs[n - 1].0, bs[n - 1].1))
    }
}

/// The calls of the first `n` callers.
pub open spec fn calls_in_graphs(
    cfs: Seq<(FunctionId, ControlFlowGraph<OpArg>)>,
    dfs: Seq<(FunctionId, GraphDataFlow<OpArg>)>,
    n: nat,
) -> CallState
    decreases n,
{
    if n == 0 {
        Some((seq![], seq![]))
    } else {
        calls_in_blocks(cfs, dfs, n - 1, cfs[n - 1].1.blocks@.len(), calls_in_graphs(cfs, dfs, (n - 1) as nat))
    }
}

pub open spec fn spec_call_analysis(
    cfs: Seq<(FunctionId, ControlFlowGraph<OpArg>)>,
    dfs: Seq<(FunctionId, GraphDataFlow<OpArg>)>,
) -> CallState {
    calls_in_graphs(cfs, dfs, cfs.len())
}


/// The slots above the base among `uses`, in order.
fn return_slots_of(uses: &Vec<OpArg>) -> (r: Vec<Arg>)
    ensures
        r@ == return_slots(uses@),
{
    let mut v: Vec<Arg> = Vec::new();
    let mut i: usize = 0;
    let ghost kinds = uses@.map_values(kind_of());
    proof {
        reveal(Seq::filter);
    }
    assert(kinds.take(0).filter(above_base_pred()) =~= seq![]);
    while i < uses.len()
        invariant
            i <= uses@.len(),
            kinds == uses@.map_values(kind_of()),
            v@ == kinds.take(i as int).filter(above_base_pred()),
        decreases uses.len() - i,
    {
        let a = uses[i].kind;
        let ghost prev = v@;
        proof {
            let t = kinds.take(i + 1);
            assert(t.drop_last() =~= kinds.take(i as int));
            assert(kinds[i as int] == uses@[i as int].kind);
            assert(t.last() == a);
            assert(above_base_pred()(a) == above_base(a));
        }
        match a {
            Arg::RelativeMem(r) => {
                if r > 0 {
                    v.push(a);
                }
            },
            _ => {},
        }
        proof {
            reveal(Seq::filter);
            let t = kinds.take(i + 1);
            assert(t.filter(above_base_pred()) == if above_base_pred()(t.last()) {
                t.drop_last().filter(above_base_pred()).push(t.last())
            } else {
                t.drop_last().filter(above_base_pred())
            });
            assert(v@ =~= t.filter(above_base_pred()));
        }
        i = i + 1;
    }
    assert(kinds.take(i as int) =~= kinds);
    sort_args(&v)
}

/// The slots below the base among `live`, numbered from the bottom of a frame
/// of `stack` words, in order.
fn arg_slots_of(live: &Vec<OpArg>, stack: usize) -> (r: Vec<Arg>)
    ensures
        r@ == slots_below(live@, stack).sort_by(arg_order()),
{
    let mut v: Vec<Arg> = Vec::new();
    let mut i: usize = 0;
    assert(live@.take(0) =~= seq![]);
    while i < live.len()
        invariant
            i <= live@.len(),
            v@ == slots_below(live@.take(i as int), stack),
        decreases live.len() - i,
    {
        proof {
            let t = live@.take(i + 1);
            assert(t.drop_last() =~= live@.take(i as int));
        }
        match live[i].kind {
            Arg::RelativeMem(r) => {
                if r < 0 {
                    v.push(Arg::RelativeMem((stack as i128) + r));
                }
            },
            _ => {},
        }
        i = i + 1;
    }
    assert(live@.take(i as int) =~= live@);
    sort_args(&v)
}

/// The operands without repeats of the one just before.
fn dedup_args(v: &Vec<Arg>) -> (r: Vec<Arg>)
    ensures
        r@ == dedup(v@),
{
    let mut out: Vec<Arg> = Vec::new();
    let mut i: usize = 0;
    assert(v@.take(0) =~= seq![]);
    while i < v.len()
        invariant
            i <= v@.len(),
            out@ == dedup(v@.take(i as int)),
        decreases v.len() - i,
    {
        proof {
            let t = v@.take(i + 1);
            assert(t.drop_last() =~= v@.take(i as int));
            if i == 0 {
                assert(dedup(t) == t);
                assert(t =~= seq![v@[0]]);
            }
        }
        if i == 0 || v[i] != v[i - 1] {
            out.push(v[i]);
        }
        proof {
            if i == 0 {
                assert(out@ =~= v@.take(1));
            }
        }
        i = i + 1;
    }
    assert(v@.take(i as int) =~= v@);
    out
}

/// The first call that returns into a block.
fn first_call_return_of(preds: &Vec<PredecessorKind<OpArg>>) -> (r: Option<FunctionCall<OpArg>>)
    ensures
        r == first_call_return(preds@),
{
    let mut i: usize = 0;
    assert(preds@.skip(0) =~= preds@);
    while i < preds.len()
        invariant
            i <= preds@.len(),
            first_call_return(preds@) == first_call_return(preds@.skip(i as int)),
        decreases preds.len() - i,
    {
        assert(preds@.skip(i as int)[0] == preds@[i as int]);
        assert(preds@.skip(i as int).drop_first() =~= preds@.skip(i + 1));
        match preds[i] {
            PredecessorKind::FunctionCallReturns(fc) => return Some(fc),
            _ => {},
        }
        i = i + 1;
    }
    assert(preds@.skip(i as int).len() == 0);
    None
}

/// Whether two lists of operands are equal.
fn same_args(a: &Vec<Arg>, b: &Vec<Arg>) -> (r: bool)
    ensures
        r == (a@ == b@),
{
    if a.len() != b.len() {
        return false;
    }
    let mut i: usize = 0;
    while i < a.len()
        invariant
            i <= a@.len(),
            a@.len() == b@.len(),
            forall|k: int| 0 <= k < i ==> a@[k] == b@[k],
        decreases a.len() - i,
    {
        if a[i] != b[i] {
            return false;
        }
        i = i + 1;
    }
    assert(a@ =~= b@);
    true
}


pub proof fn lemma_blocks_none(cfs: Seq<(FunctionId, ControlFlowGraph<OpArg>)>, dfs: Seq<(FunctionId, GraphDataFlow<OpArg>)>, ci: int, n: nat)
    ensures
        calls_in_blocks(cfs, dfs, ci, n, None) is None,
    decreases n,
{
    if n > 0 {
        lemma_blocks_none(cfs, dfs, ci, (n - 1) as nat);
    }
}

pub proof fn lemma_blocks_prefix(
    cfs: Seq<(FunctionId, ControlFlowGraph<OpArg>)>,
    dfs: Seq<(FunctionId, GraphDataFlow<OpArg>)>,
    ci: int,
    j: nat,
    n: nat,
    st: CallState,
)
    requires
        j <= n,
        calls_in_blocks(cfs, dfs, ci, n, st) is Some,
    ensures
        calls_in_blocks(cfs, dfs, ci, j, st) is Some,
    decreases n,
{
    if j < n {
        lemma_blocks_prefix(cfs, dfs, ci, j, (n - 1) as nat, st);
    }
}

pub proof fn lemma_graphs_prefix(cfs: Seq<(FunctionId, ControlFlowGraph<OpArg>)>, dfs: Seq<(FunctionId, GraphDataFlow<OpArg>)>, m: nat, n: nat)
    requires
        m <= n,
        calls_in_graphs(cfs, dfs, n) is Some,
    ensures
        calls_in_graphs(cfs, dfs, m) is Some,
    decreases n,
{
    if m < n {
        if calls_in_graphs(cfs, dfs, (n - 1) as nat) is None {
            lemma_blocks_none(cfs, dfs, n - 1, cfs[n - 1].1.blocks@.len());
        }
        lemma_graphs_prefix(cfs, dfs, m, (n - 1) as nat);
    }
}

/// What the block `bid` of the caller whose entry is `caller_start` tells
/// about a call that returns into it.
fn call_of_block(
    control_flows: &Vec<(FunctionId, ControlFlowGraph<OpArg>)>,
    data_flows: &Vec<(FunctionId, GraphDataFlow<OpArg>)>,
    caller_start: BlockId,
    bid: BlockId,
    block: &crate::control_flow_graph::Block<OpArg>,
) -> (r: Option<(FunctionId, FunctionInfo)>)
    requires
        !(call_step(control_flows@, data_flows@, caller_start, bid, block.view()) is Panics),
    ensures
        match call_step(control_flows@, data_flows@, caller_start, bid, block.view()) {
            CallStep::Call(callee, fi) => match r {
                Some(p) => p.0 == callee && p.1.view() == fi,
                None => false,
            },
            _ => r is None,
        },
{
    let fc = match first_call_return_of(&block.predecessors) {
        Some(fc) => fc,
        None => return None,
    };
    let caller_key = FunctionId(caller_start.0);
    proof {
        crate::assoc::lemma_get_keys(data_flows@, data_flows@, caller_key);
    }
    let cdf = match crate::assoc::get_value(data_flows, &caller_key) {
        Some(d) => d,
        None => {
            assert(false);
            return None;
        },
    };
    let bd = match crate::assoc::get_value(&cdf.block_defs, &bid) {
        Some(b) => b,
        None => {
            assert(false);
            return None;
        },
    };
    let return_vars = return_slots_of(&bd.use_set);
    let callee_addr = match fc.function_addr.kind {
        Arg::Value(a) => a,
        _ => return None,
    };
    let callee = FunctionId(#[verifier::truncate] (callee_addr as usize));
    let ddf = match crate::assoc::get_value(data_flows, &callee) {
        Some(d) => d,
        None => {
            assert(false);
            return None;
        },
    };
    let cbd = match crate::assoc::get_value(&ddf.block_defs, &BlockId(callee.0)) {
        Some(b) => b,
        None => {
            assert(false);
            return None;
        },
    };
    let ccf = match crate::assoc::get_value(control_flows, &callee) {
        Some(c) => c,
        None => {
            assert(false);
            return None;
        },
    };
    let stack_size = ccf.stack_size;
    let args = arg_slots_of(&cbd.live_in, stack_size);
    let info = FunctionInfo { function_id: callee, stack_size, args, return_vars, local_vars: Vec::new() };
    assert(info.local_vars@ =~= seq![]);
    Some((callee, info))
}

/// What calls tell about each function, and the callees of each function.
pub fn function_call_analysis(
    control_flows: &Vec<(FunctionId, ControlFlowGraph<OpArg>)>,
    data_flows: &Vec<(FunctionId, GraphDataFlow<OpArg>)>,
) -> (r: (Vec<(FunctionId, FunctionInfo)>, Vec<(FunctionId, Vec<FunctionId>)>))
    requires
        spec_call_analysis(control_flows@, data_flows@) is Some,
    ensures
        spec_call_analysis(control_flows@, data_flows@) == Some((infos_view(r.0@), calls_view(r.1@))),
{
    let ghost cfs = control_flows@;
    let ghost dfs = data_flows@;
    let mut function_infos: Vec<(FunctionId, FunctionInfo)> = Vec::new();
    let mut call_graph: Vec<(FunctionId, Vec<FunctionId>)> = Vec::new();
    let mut ci: usize = 0;
    assert(infos_view(function_infos@) =~= seq![]);
    assert(calls_view(call_graph@) =~= seq![]);
    while ci < control_flows.len()
        invariant
            ci <= cfs.len(),
            cfs == control_flows@,
            dfs == data_flows@,
            calls_in_graphs(cfs, dfs, cfs.len()) is Some,
            calls_in_graphs(cfs, dfs, ci as nat) == Some((infos_view(function_infos@), calls_view(call_graph@))),
        decreases control_flows.len() - ci,
    {
        let caller_id = control_flows[ci].0;
        let caller = &control_flows[ci].1;
        let ghost g0 = calls_in_graphs(cfs, dfs, ci as nat);
        proof {
            lemma_graphs_prefix(cfs, dfs, (ci + 1) as nat, cfs.len());
        }
        let mut bi: usize = 0;
        while bi < caller.blocks.len()
            invariant
                ci < cfs.len(),
                cfs == control_flows@,
                dfs == data_flows@,
                caller_id == cfs[ci as int].0,
                *caller == cfs[ci as int].1,
                calls_in_blocks(cfs, dfs, ci as int, caller.blocks@.len(), g0) is Some,
                bi <= caller.blocks@.len(),
                calls_in_blocks(cfs, dfs, ci as int, bi as nat, g0) == Some((infos_view(function_infos@), calls_view(call_graph@))),
            decreases caller.blocks.len() - bi,
        {
            let bid = caller.blocks[bi].0;
            let block = &caller.blocks[bi].1;
            proof {
                lemma_blocks_prefix(cfs, dfs, ci as int, (bi + 1) as nat, caller.blocks@.len(), g0);
                assert(blocks_view(caller.blocks@)[bi as int] == (bid, block.view()));
            }
            let ghost st = calls_in_blocks(cfs, dfs, ci as int, bi as nat, g0);
            let ghost step = call_step(cfs, dfs, caller.start, bid, block.view());
            assert(calls_in_blocks(cfs, dfs, ci as int, (bi + 1) as nat, g0) == record_call(st, caller_id, step));
            match call_of_block(control_flows, data_flows, caller.start, bid, block) {
                None => {},
                Some((callee, fi)) => {
                    let ghost iv = infos_view(function_infos@);
                    let ghost fv = fi.view();
                    proof {
                        crate::assoc::lemma_get_keys(function_infos@, iv, callee);
                        crate::assoc::lemma_key_index_keys(function_infos@, iv, callee);
                        crate::assoc::lemma_key_index(iv, callee);
                    }
                    match find_key(&function_infos, &callee) {
                        Some(k) => {
                            let entry = &mut function_infos[k];
                            if !same_args(&entry.1.args, &fi.args) || !same_args(&entry.1.local_vars, &fi.local_vars) {
                                assert(false);
                            }
                            let ghost o = entry.1.view();
                            let mut merged = Vec::new();
                            let mut q: usize = 0;
                            while q < entry.1.return_vars.len()
                                invariant
                                    q <= entry.1.return_vars@.len(),
                                    merged@ == entry.1.return_vars@.take(q as int),
                                decreases entry.1.return_vars.len() - q,
                            {
                                merged.push(entry.1.return_vars[q]);
                                q = q + 1;
                                assert(merged@ =~= entry.1.return_vars@.take(q as int));
                            }
                            let mut q2: usize = 0;
                            assert(entry.1.return_vars@.take(q as int) =~= entry.1.return_vars@);
                            while q2 < fi.return_vars.len()
                                invariant
                                    q2 <= fi.return_vars@.len(),
                                    merged@ == o.return_vars + fi.return_vars@.take(q2 as int),
                                decreases fi.return_vars.len() - q2,
                            {
                                merged.push(fi.return_vars[q2]);
                                q2 = q2 + 1;
                                assert(merged@ =~= o.return_vars + fi.return_vars@.take(q2 as int));
                            }
                            assert(fi.return_vars@.take(q2 as int) =~= fi.return_vars@);
                            let deduped = dedup_args(&merged);
                            entry.1.return_vars = sort_args(&deduped);
                            proof {
                                assert(infos_view(function_infos@) =~= assoc_insert(
                                    iv,
                                    callee,
                                    InfoView { return_vars: dedup(o.return_vars + fv.return_vars).sort_by(arg_order()), ..o },
                                ));
                            }
                        },
                        None => {
                            function_infos.push((callee, fi));
                            assert(infos_view(function_infos@) =~= assoc_insert(iv, callee, fv));
                        },
                    }
                    let ghost gv = calls_view(call_graph@);
                    proof {
                        crate::assoc::lemma_get_keys(call_graph@, gv, caller_id);
                        crate::assoc::lemma_key_index_keys(call_graph@, gv, caller_id);
                        crate::assoc::lemma_key_index(gv, caller_id);
                    }
                    match find_key(&call_graph, &caller_id) {
                        Some(k) => {
                            let ghost l = call_graph@[k as int].1@;
                            let entry = &mut call_graph[k];
                            entry.1.push(callee);
                            assert(calls_view(call_graph@) =~= assoc_insert(gv, caller_id, l.push(callee)));
                        },
                        None => {
                            let mut l: Vec<FunctionId> = Vec::new();
                            l.push(callee);
                            assert(l@ =~= seq![callee]);
                            call_graph.push((caller_id, l));
                            assert(calls_view(call_graph@) =~= assoc_insert(gv, caller_id, seq![callee]));
                        },
                    }
                },
            }
            bi = bi + 1;
        }
        ci = ci + 1;
    }
    (function_infos, call_graph)
}


/// The analysis of a whole program: the graph and data flow of each function
/// found, what calls tell about each callee, and the callees of each caller.
pub struct ProgramAnalysis {
    pub control_flows: Vec<(FunctionId, ControlFlowGraph<OpArg>)>,
    pub data_flows: Vec<(FunctionId, GraphDataFlow<OpArg>)>,
    pub function_infos: Vec<(FunctionId, FunctionInfo)>,
    pub call_graph: Vec<(FunctionId, Vec<FunctionId>)>,
}

/// The graphs of the functions of a program, as the scan finds them.
pub open spec fn program_graphs(binary: Seq<i128>) -> Seq<CfgView<OpArg>> {
    spec_scan_from::<OpArg>(binary, 0, seq![])
}

/// Whether `cfs` holds the graphs `gs`, each under the name of its entry.
pub open spec fn graphs_match(cfs: Seq<(FunctionId, ControlFlowGraph<OpArg>)>, gs: Seq<CfgView<OpArg>>) -> bool {
    &&& cfs.len() == gs.len()
    &&& forall|i: int| 0 <= i < gs.len() ==> (#[trigger] cfs[i]).0 == FunctionId(gs[i].start.0) && cfs[i].1.view() == gs[i]
}

/// Whether `dfs` holds the data flow of each graph of `cfs`, under its name.
pub open spec fn flows_match(dfs: Seq<(FunctionId, GraphDataFlow<OpArg>)>, cfs: Seq<(FunctionId, ControlFlowGraph<OpArg>)>) -> bool {
    &&& dfs.len() == cfs.len()
    &&& forall|i: int| 0 <= i < cfs.len() ==> (#[trigger] dfs[i]).0 == cfs[i].0 && dfs[i].1.view() == spec_data_flow(cfs[i].1.view())
}

/// Whether a program can be analysed without failing on the way: the scan
/// for graphs, the data flow of each graph, and the call analysis over them.
pub open spec fn program_defined(binary: Seq<i128>) -> bool {
    &&& binary.len() + 4 <= usize::MAX
    &&& scan_defined_from::<OpArg>(binary, 0, seq![])
    &&& forall|i: int| 0 <= i < program_graphs(binary).len() ==> data_flow_defined(#[trigger] program_graphs(binary)[i])
    &&& forall|cfs: Seq<(FunctionId, ControlFlowGraph<OpArg>)>, dfs: Seq<(FunctionId, GraphDataFlow<OpArg>)>|
        graphs_match(cfs, program_graphs(binary)) && #[trigger] flows_match(dfs, cfs) ==> spec_call_analysis(cfs, dfs) is Some
}

impl ProgramAnalysis {
    /// Analyses a program: finds the graph of each function, computes the data
    /// flow of each, and what the calls tell about the functions.
    pub fn build(binary: &[i128]) -> (r: ProgramAnalysis)
        requires
            program_defined(binary@),
        ensures
            graphs_match(r.control_flows@, program_graphs(binary@)),
            flows_match(r.data_flows@, r.control_flows@),
            spec_call_analysis(r.control_flows@, r.data_flows@) == Some(
                (infos_view(r.function_infos@), calls_view(r.call_graph@)),
            ),
    {
        let graphs = ControlFlowGraph::<OpArg>::scan(binary);
        let ghost gs = program_graphs(binary@);
        let mut graphs = graphs;
        let mut control_flows: Vec<(FunctionId, ControlFlowGraph<OpArg>)> = Vec::new();
        let mut k: usize = 0;
        let n = graphs.len();
        let ghost all = graphs@;
        while k < n
            invariant
                k <= n,
                n == all.len(),
                cfgs_view(all) == gs,
                graphs@ == all.skip(k as int),
                control_flows@.len() == k,
                forall|i: int| 0 <= i < k ==> (#[trigger] control_flows@[i]).0 == FunctionId(gs[i].start.0) && control_flows@[i].1.view() == gs[i],
            decreases n - k,
        {
            let g = graphs.remove(0);
            assert(g == all[k as int]);
            assert(cfgs_view(all)[k as int] == gs[k as int]);
            let id = FunctionId(g.start.0);
            control_flows.push((id, g));
            assert(graphs@ =~= all.skip(k + 1));
            k = k + 1;
        }
        let mut data_flows: Vec<(FunctionId, GraphDataFlow<OpArg>)> = Vec::new();
        let mut i: usize = 0;
        while i < control_flows.len()
            invariant
                i <= control_flows@.len(),
                graphs_match(control_flows@, gs),
                forall|j: int| 0 <= j < gs.len() ==> data_flow_defined(#[trigger] gs[j]),
                data_flows@.len() == i,
                forall|j: int| 0 <= j < i ==> (#[trigger] data_flows@[j]).0 == control_flows@[j].0 && data_flows@[j].1.view()
                    == spec_data_flow(control_flows@[j].1.view()),
            decreases control_flows.len() - i,
        {
            assert(data_flow_defined(gs[i as int]));
            let flow = GraphDataFlow::build_for(&control_flows[i].1);
            data_flows.push((control_flows[i].0, flow));
            i = i + 1;
        }
        assert(graphs_match(control_flows@, gs) && flows_match(data_flows@, control_flows@));
        let (function_infos, call_graph) = function_call_analysis(&control_flows, &data_flows);
        ProgramAnalysis { control_flows, data_flows, function_infos, call_graph }
    }
}

} // verus!
