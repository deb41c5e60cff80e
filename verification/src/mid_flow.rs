//! Recovering structured control flow (ifs, loops, return statements) from the jumps of
//! a function.
use vstd::prelude::*;
use crate::assoc::{assoc_get, assoc_insert, find_key, insert_value, key_index, lemma_key_index};
use crate::low_ir::{Arg, Span};
use crate::mid_ir::{MidIR, MidIRView, duplicate_midirs, midirs_view};

verus! {

/// Why a region of code does not match a structure.
#[derive(Debug, Clone, Copy, PartialEq, Eq, Structural)]
pub enum ControlFlowError {
    LoopNoBackJump,
    WhileNoConditionalJump,
    WhileJumpBackDoesNotMatchJumpIf,
    IfNoConditionalJump,
    NoMatch,
    UnexpectedGoto,
}

/// What a node of the flow graph does at its end.
#[derive(Debug, PartialEq)]
pub enum FlowNodeKind {
    NonBranching(Vec<MidIR>),
    JumpIf { value: Arg, equal_to: bool, target: usize },
    Goto(usize),
    Return,
}

pub ghost enum FlowKindView {
    NonBranching(Seq<MidIRView>),
    JumpIf { value: Arg, equal_to: bool, target: usize },
    Goto(usize),
    Return,
}

impl FlowNodeKind {
    pub open spec fn view(&self) -> FlowKindView {
        match self {
            FlowNodeKind::NonBranching(v) => FlowKindView::NonBranching(midirs_view(v@)),
            FlowNodeKind::JumpIf { value, equal_to, target } => FlowKindView::JumpIf {
                value: *value,
                equal_to: *equal_to,
                target: *target,
            },
            FlowNodeKind::Goto(t) => FlowKindView::Goto(*t),
            FlowNodeKind::Return => FlowKindView::Return,
        }
    }

    pub fn duplicate(&self) -> (r: Self)
        ensures
            r.view() == self.view(),
    {
        match self {
            FlowNodeKind::NonBranching(v) => FlowNodeKind::NonBranching(duplicate_midirs(v)),
            FlowNodeKind::JumpIf { value, equal_to, target } => FlowNodeKind::JumpIf {
                value: *value,
                equal_to: *equal_to,
                target: *target,
            },
            FlowNodeKind::Goto(t) => FlowNodeKind::Goto(*t),
            FlowNodeKind::Return => FlowNodeKind::Return,
        }
    }
}

/// The address a jump goes to.
pub open spec fn jump_target(k: FlowKindView) -> Option<usize> {
    match k {
        FlowKindView::JumpIf { target, .. } => Some(target),
        FlowKindView::Goto(t) => Some(t),
        _ => None,
    }
}

/// A stretch of code: straight-line instructions, or one jump or return.
#[derive(Debug, PartialEq)]
pub struct FlowNode {
    pub kind: FlowNodeKind,
    pub span: Span,
}

pub ghost struct FlowNodeView {
    pub kind: FlowKindView,
    pub span: Span,
}

impl FlowNode {
    pub open spec fn view(&self) -> FlowNodeView {
        FlowNodeView { kind: self.kind.view(), span: self.span }
    }

    pub fn duplicate(&self) -> (r: Self)
        ensures
            r.view() == self.view(),
    {
        FlowNode { kind: self.kind.duplicate(), span: self.span }
    }

    pub fn non_branching(span: Span, instructions: Vec<MidIR>) -> (r: Self)
        ensures
            r.view() == (FlowNodeView {
                kind: FlowKindView::NonBranching(midirs_view(instructions@)),
                span,
            }),
    {
        FlowNode { kind: FlowNodeKind::NonBranching(instructions), span }
    }

    pub fn jump_if(span: Span, value: Arg, equal_to: bool, target: usize) -> (r: Self)
        ensures
            r.view() == (FlowNodeView { kind: FlowKindView::JumpIf { value, equal_to, target }, span }),
    {
        FlowNode { kind: FlowNodeKind::JumpIf { value, equal_to, target }, span }
    }

    pub fn goto(span: Span, target: usize) -> (r: Self)
        ensures
            r.view() == (FlowNodeView { kind: FlowKindView::Goto(target), span }),
    {
        FlowNode { kind: FlowNodeKind::Goto(target), span }
    }

    pub fn new_return(span: Span) -> (r: Self)
        ensures
            r.view() == (FlowNodeView { kind: FlowKindView::Return, span }),
    {
        FlowNode { kind: FlowNodeKind::Return, span }
    }
}

/// The nodes of a function by start address, and for each jump target the
/// start addresses of the nodes that jump there.
pub struct FlowGraph {
    nodes: Vec<(usize, FlowNode)>,
    inbounds: Vec<(usize, Vec<usize>)>,
}

pub ghost struct FlowGraphView {
    pub nodes: Seq<(usize, FlowNodeView)>,
    pub inbounds: Seq<(usize, Seq<usize>)>,
}

pub open spec fn node_entries(v: Seq<(usize, FlowNode)>) -> Seq<(usize, FlowNodeView)> {
    Seq::new(v.len(), |i: int| (v[i].0, v[i].1.view()))
}

pub open spec fn inbound_entries(v: Seq<(usize, Vec<usize>)>) -> Seq<(usize, Seq<usize>)> {
    Seq::new(v.len(), |i: int| (v[i].0, v[i].1@))
}

/// The graph of a list of nodes: a later node with the same start replaces
/// an earlier one; each jump adds its start to the list of its target.
pub open spec fn spec_build(ns: Seq<FlowNodeView>) -> FlowGraphView
    decreases ns.len(),
{
    if ns.len() == 0 {
        FlowGraphView { nodes: seq![], inbounds: seq![] }
    } else {
        let g = spec_build(ns.drop_last());
        let n = ns.last();
        FlowGraphView {
            nodes: assoc_insert(g.nodes, n.span.start, n),
            inbounds: match jump_target(n.kind) {
                Some(t) => assoc_insert(
                    g.inbounds,
                    t,
                    match assoc_get(g.inbounds, t) {
                        Some(l) => l,
                        None => seq![],
                    }.push(n.span.start),
                ),
                None => g.inbounds,
            },
        }
    }
}

pub open spec fn node_views(ns: Seq<FlowNode>) -> Seq<FlowNodeView> {
    Seq::new(ns.len(), |i: int| ns[i].view())
}

/// Every jump of the nodes goes to the start of one of them.
pub open spec fn targets_known(ns: Seq<FlowNodeView>) -> bool {
    forall|i: int|
        0 <= i < ns.len() && jump_target(#[trigger] ns[i].kind) is Some ==> exists|j: int|
            0 <= j < ns.len() && ns[j].span.start == jump_target(ns[i].kind)->0
}

fn copy_addresses(v: &Vec<usize>) -> (r: Vec<usize>)
    ensures
        r@ == v@,
{
    let mut out: Vec<usize> = Vec::new();
    let mut i: usize = 0;
    while i < v.len()
        invariant
            i <= v.len(),
            out@ == v@.subrange(0, i as int),
        decreases v.len() - i,
    {
        out.push(v[i]);
        i = i + 1;
        assert(out@ =~= v@.subrange(0, i as int));
    }
    assert(v@.subrange(0, i as int) =~= v@);
    out
}

impl FlowGraph {
    pub closed spec fn view(&self) -> FlowGraphView {
        FlowGraphView { nodes: node_entries(self.nodes@), inbounds: inbound_entries(self.inbounds@) }
    }

    /// The graph of the nodes. Every jump must go to the start of a node.
    pub fn build_from(nodes: &[FlowNode]) -> (r: Self)
        requires
            targets_known(node_views(nodes@)),
        ensures
            r.view() == spec_build(node_views(nodes@)),
    {
        let mut graph = FlowGraph { nodes: Vec::new(), inbounds: Vec::new() };
        let mut i: usize = 0;
        assert(node_views(nodes@).take(0) =~= seq![]);
        assert(graph.view().nodes =~= seq![]);
        assert(graph.view().inbounds =~= seq![]);
        while i < nodes.len()
            invariant
                i <= nodes@.len(),
                graph.view() == spec_build(node_views(nodes@).take(i as int)),
            decreases nodes.len() - i,
        {
            let ghost pre = node_views(nodes@).take(i as int);
            let ghost next = node_views(nodes@).take(i + 1);
            assert(next.drop_last() =~= pre);
            assert(next.last() == nodes@[i as int].view());
            let node = &nodes[i];
            let ghost old_nodes = graph.nodes@;
            let ghost old_in = graph.inbounds@;
            insert_value(&mut graph.nodes, node.span.start, node.duplicate());
            proof {
                crate::assoc::lemma_key_index_keys(old_nodes, node_entries(old_nodes), node.span.start);
                lemma_key_index(old_nodes, node.span.start);
                assert(node_entries(graph.nodes@) =~= assoc_insert(
                    node_entries(old_nodes),
                    node.span.start,
                    node.view(),
                ));
            }
            let target = match &node.kind {
                FlowNodeKind::JumpIf { target, .. } => Some(*target),
                FlowNodeKind::Goto(t) => Some(*t),
                _ => None,
            };
            match target {
                Some(t) => {
                    let mut list = match find_key(&graph.inbounds, &t) {
                        Some(k) => copy_addresses(&graph.inbounds[k].1),
                        None => Vec::new(),
                    };
                    list.push(node.span.start);
                    proof {
                        crate::assoc::lemma_get_keys(old_in, inbound_entries(old_in), t);
                    }
                    let ghost lv = list@;
                    insert_value(&mut graph.inbounds, t, list);
                    proof {
                        crate::assoc::lemma_key_index_keys(old_in, inbound_entries(old_in), t);
                        lemma_key_index(old_in, t);
                        assert(inbound_entries(graph.inbounds@) =~= assoc_insert(
                            inbound_entries(old_in),
                            t,
                            lv,
                        ));
                    }
                },
                None => {},
            }
            i = i + 1;
        }
        assert(node_views(nodes@).take(nodes@.len() as int) =~= node_views(nodes@));
        graph
    }
}

/// Identifies a loop, for the `break` and `continue` statements that leave
/// or restart it.
#[derive(Debug, PartialEq, Eq, Clone, Copy, Structural)]
pub struct LoopId(pub usize);

/// Structured control flow.
#[derive(Debug, PartialEq)]
pub enum FlowHigh {
    /// A code range without jumps.
    NonBranching { span: Span, instructions: Vec<MidIR> },
    /// Flows that execute one after the other.
    Composite(Vec<FlowHigh>),
    While { id: LoopId, jump_if_span: Span, expr: Option<Box<FlowHigh>>, body: Box<FlowHigh> },
    DoWhile { id: LoopId, body: Box<FlowHigh>, jump_if_span: Span },
    Loop { id: LoopId, body: Box<FlowHigh> },
    If { jump_if_span: Span, then: Box<FlowHigh> },
    IfElse { jump_if_span: Span, then: Box<FlowHigh>, els: Box<FlowHigh> },
    Return,
    Break(LoopId),
    Continue(LoopId),
}

pub ghost enum HighView {
    NonBranching { span: Span, instructions: Seq<MidIRView> },
    Composite(Seq<HighView>),
    While { id: LoopId, jump_if_span: Span, expr: Option<Box<HighView>>, body: Box<HighView> },
    DoWhile { id: LoopId, body: Box<HighView>, jump_if_span: Span },
    Loop { id: LoopId, body: Box<HighView> },
    If { jump_if_span: Span, then: Box<HighView> },
    IfElse { jump_if_span: Span, then: Box<HighView>, els: Box<HighView> },
    Return,
    Break(LoopId),
    Continue(LoopId),
}

pub open spec fn highs_view(v: Seq<FlowHigh>) -> Seq<HighView>
    decreases v,
{
    if v.len() == 0 {
        seq![]
    } else {
        highs_view(v.drop_last()).push(high_view(v.last()))
    }
}

pub open spec fn high_view(h: FlowHigh) -> HighView
    decreases h,
{
    match h {
        FlowHigh::NonBranching { span, instructions } => HighView::NonBranching {
            span,
            instructions: midirs_view(instructions@),
        },
        FlowHigh::Composite(v) => HighView::Composite(highs_view(v@)),
        FlowHigh::While { id, jump_if_span, expr, body } => HighView::While {
            id,
            jump_if_span,
            expr: match expr {
                Some(e) => Some(Box::new(high_view(*e))),
                None => None,
            },
            body: Box::new(high_view(*body)),
        },
        FlowHigh::DoWhile { id, body, jump_if_span } => HighView::DoWhile {
            id,
            body: Box::new(high_view(*body)),
            jump_if_span,
        },
        FlowHigh::Loop { id, body } => HighView::Loop { id, body: Box::new(high_view(*body)) },
        FlowHigh::If { jump_if_span, then } => HighView::If {
            jump_if_span,
            then: Box::new(high_view(*then)),
        },
        FlowHigh::IfElse { jump_if_span, then, els } => HighView::IfElse {
            jump_if_span,
            then: Box::new(high_view(*then)),
            els: Box::new(high_view(*els)),
        },
        FlowHigh::Return => HighView::Return,
        FlowHigh::Break(id) => HighView::Break(id),
        FlowHigh::Continue(id) => HighView::Continue(id),
    }
}

pub proof fn lemma_highs_view_len(v: Seq<FlowHigh>)
    ensures
        highs_view(v).len() == v.len(),
    decreases v.len(),
{
    if v.len() > 0 {
        lemma_highs_view_len(v.drop_last());
    }
}

/// The view of a list of flows holds the view of each flow.
pub proof fn lemma_highs_view_index(v: Seq<FlowHigh>, i: int)
    requires
        0 <= i < v.len(),
    ensures
        highs_view(v)[i] == high_view(v[i]),
    decreases v.len(),
{
    lemma_highs_view_len(v.drop_last());
    if i < v.len() - 1 {
        lemma_highs_view_index(v.drop_last(), i);
        assert(v.drop_last()[i] == v[i]);
    }
}

impl FlowHigh {
    pub open spec fn view(&self) -> HighView {
        high_view(*self)
    }

    pub fn non_branching(span: Span, instructions: Vec<MidIR>) -> (r: Self)
        ensures
            r.view() == (HighView::NonBranching { span, instructions: midirs_view(instructions@) }),
    {
        FlowHigh::NonBranching { span, instructions }
    }

    pub fn composite(flows: Vec<FlowHigh>) -> (r: Self)
        ensures
            r.view() == HighView::Composite(highs_view(flows@)),
    {
        FlowHigh::Composite(flows)
    }

    pub fn while_loop(loop_id: LoopId, expr: Option<FlowHigh>, body: FlowHigh, jump_if_span: Span) -> (r: Self)
        ensures
            r.view() == (HighView::While {
                id: loop_id,
                jump_if_span,
                expr: match expr {
                    Some(e) => Some(Box::new(e.view())),
                    None => None,
                },
                body: Box::new(body.view()),
            }),
    {
        let expr = match expr {
            Some(e) => Some(Box::new(e)),
            None => None,
        };
        FlowHigh::While { id: loop_id, expr, body: Box::new(body), jump_if_span }
    }

    pub fn do_while_loop(id: LoopId, body: FlowHigh, jump_if_span: Span) -> (r: Self)
        ensures
            r.view() == (HighView::DoWhile { id, body: Box::new(body.view()), jump_if_span }),
    {
        FlowHigh::DoWhile { id, body: Box::new(body), jump_if_span }
    }

    pub fn loop_body(id: LoopId, body: FlowHigh) -> (r: Self)
        ensures
            r.view() == (HighView::Loop { id, body: Box::new(body.view()) }),
    {
        FlowHigh::Loop { id, body: Box::new(body) }
    }

    pub fn conditional(jump_if_span: Span, then: FlowHigh) -> (r: Self)
        ensures
            r.view() == (HighView::If { jump_if_span, then: Box::new(then.view()) }),
    {
        FlowHigh::If { then: Box::new(then), jump_if_span }
    }

    pub fn if_else(jump_if_span: Span, then: FlowHigh, els: FlowHigh) -> (r: Self)
        ensures
            r.view() == (HighView::IfElse {
                jump_if_span,
                then: Box::new(then.view()),
                els: Box::new(els.view()),
            }),
    {
        FlowHigh::IfElse { then: Box::new(then), els: Box::new(els), jump_if_span }
    }

    pub fn return_flow() -> (r: Self)
        ensures
            r.view() == HighView::Return,
    {
        FlowHigh::Return
    }
}

/// Where a jump to a known address leads, inside the structure being built.
#[derive(Debug, Clone, Copy, PartialEq, Eq, Structural)]
pub enum Jump {
    Return,
    Break(LoopId),
    Continue(LoopId),
}

pub open spec fn jump_view(j: Jump) -> HighView {
    match j {
        Jump::Return => HighView::Return,
        Jump::Break(id) => HighView::Break(id),
        Jump::Continue(id) => HighView::Continue(id),
    }
}

/// What the parser knows while it works on a region: the addresses of the
/// reachable return statements, the jumps that leave or restart the
/// enclosing loops (a later one overrides an earlier one), and the
/// innermost loop.
pub ghost struct CtxView {
    pub return_points: Set<usize>,
    pub overrides: Seq<(usize, Jump)>,
    pub current: Option<LoopId>,
}

pub open spec fn lookup_last(s: Seq<(usize, Jump)>, a: usize) -> Option<Jump>
    decreases s.len(),
{
    if s.len() == 0 {
        None
    } else if s.last().0 == a {
        Some(s.last().1)
    } else {
        lookup_last(s.drop_last(), a)
    }
}

/// The structure that a jump to `a` stands for, where it is known.
pub open spec fn known(ctx: CtxView, a: usize) -> Option<Jump> {
    match lookup_last(ctx.overrides, a) {
        Some(j) => Some(j),
        None => if ctx.return_points.contains(a) {
            Some(Jump::Return)
        } else {
            None
        },
    }
}

/// The context inside a new loop that restarts at `cont` and is left by a
/// jump to `brk`; `None` when the loop number would overflow.
pub open spec fn spec_next_loop(ctx: CtxView, cont: usize, brk: usize) -> Option<CtxView> {
    let n: int = match ctx.current {
        Some(i) => i.0 + 1,
        None => 1,
    };
    if n > usize::MAX {
        None
    } else {
        let id = LoopId(n as usize);
        Some(
            CtxView {
                return_points: ctx.return_points,
                overrides: ctx.overrides.push((brk, Jump::Break(id))).push((cont, Jump::Continue(id))),
                current: Some(id),
            },
        )
    }
}

/// The result of parsing a region: the rest of the region and a structure,
/// a failure, or `Stuck` where the parser would not come back (a panic or
/// an endless recursion).
pub ghost enum Parsed {
    Done(Span, HighView),
    Fail(ControlFlowError),
    Stuck,
}

pub open spec fn node_at(g: FlowGraphView, a: usize) -> Option<FlowNodeView> {
    assoc_get(g.nodes, a)
}

/// The nodes at the addresses of `list` that lie inside `region`; `None`
/// when one of them is missing.
pub open spec fn inbound_nodes(g: FlowGraphView, list: Seq<usize>, region: Span) -> Option<Seq<FlowNodeView>>
    decreases list.len(),
{
    if list.len() == 0 {
        Some(seq![])
    } else {
        match inbound_nodes(g, list.drop_last(), region) {
            None => None,
            Some(prev) => {
                let a = list.last();
                if region.spec_contains_address(a as int) {
                    match node_at(g, a) {
                        Some(n) => Some(prev.push(n)),
                        None => None,
                    }
                } else {
                    Some(prev)
                }
            },
        }
    }
}

/// The nodes inside `region` that jump to the start of `n`.
pub open spec fn inbound(g: FlowGraphView, n: FlowNodeView, region: Span) -> Option<Seq<FlowNodeView>> {
    inbound_nodes(
        g,
        match assoc_get(g.inbounds, n.span.start) {
            Some(l) => l,
            None => seq![],
        },
        region,
    )
}

/// The node with the greatest start; the last of them where several share
/// it.
pub open spec fn max_start(s: Seq<FlowNodeView>) -> FlowNodeView
    decreases s.len(),
{
    if s.len() <= 1 {
        s[0]
    } else {
        let m = max_start(s.drop_last());
        if s.last().span.start >= m.span.start {
            s.last()
        } else {
            m
        }
    }
}

pub open spec fn is_goto(n: FlowNodeView) -> bool {
    n.kind is Goto
}

pub open spec fn is_jump_if(n: FlowNodeView) -> bool {
    n.kind is JumpIf
}

/// The rest of `region` from `start` on; `None` past its end.
pub open spec fn rest_from(region: Span, start: usize) -> Option<Span> {
    if start <= region.end {
        Some(Span { start, end: region.end })
    } else {
        None
    }
}

/// The span `a..b`; `None` when `b` comes before `a`.
pub open spec fn span_of(a: usize, b: usize) -> Option<Span> {
    if a <= b {
        Some(Span { start: a, end: b })
    } else {
        None
    }
}

pub open spec fn spec_parse_return(g: FlowGraphView, region: Span) -> Parsed {
    match node_at(g, region.start) {
        None => Parsed::Stuck,
        Some(n) => if n.kind is Return {
            match rest_from(region, n.span.end) {
                Some(r) => Parsed::Done(r, HighView::Return),
                None => Parsed::Stuck,
            }
        } else {
            Parsed::Fail(ControlFlowError::NoMatch)
        },
    }
}

pub open spec fn spec_parse_goto_marker(g: FlowGraphView, region: Span, ctx: CtxView) -> Parsed {
    match node_at(g, region.start) {
        None => Parsed::Stuck,
        Some(n) => match n.kind {
            FlowKindView::Goto(target) => match known(ctx, target) {
                Some(j) => match rest_from(region, n.span.end) {
                    Some(r) => Parsed::Done(r, jump_view(j)),
                    None => Parsed::Stuck,
                },
                None => Parsed::Fail(ControlFlowError::UnexpectedGoto),
            },
            _ => Parsed::Fail(ControlFlowError::NoMatch),
        },
    }
}

/// Whether `n` is a jump that ends at `target` and goes to an address
/// without a known meaning: the jump over the else branch.
pub open spec fn is_else_jump(n: FlowNodeView, target: usize, ctx: CtxView) -> bool {
    n.span.end == target && n.kind is Goto && known(ctx, n.kind->Goto_0) is None
}

/// Index of the first node, in the order of the graph, that jumps over an
/// else branch ending at `target`; -1 when there is none.
pub open spec fn first_else_jump(s: Seq<(usize, FlowNodeView)>, target: usize, ctx: CtxView) -> int
    decreases s.len(),
{
    if s.len() == 0 {
        -1
    } else {
        let j = first_else_jump(s.drop_last(), target, ctx);
        if j >= 0 {
            j
        } else if is_else_jump(s.last().1, target, ctx) {
            s.len() - 1
        } else {
            -1
        }
    }
}

/// `if` and `if`/`else`: a conditional jump forward, over the then branch;
/// where a jump ends just before the target, it skips the else branch.
pub open spec fn spec_parse_if(g: FlowGraphView, region: Span, ctx: CtxView, fuel: nat) -> Parsed
    decreases fuel, 2nat,
{
    match node_at(g, region.start) {
        None => Parsed::Stuck,
        Some(n) => match n.kind {
            FlowKindView::JumpIf { target, .. } => match known(ctx, target) {
                Some(j) => match rest_from(region, n.span.end) {
                    Some(r) => Parsed::Done(
                        r,
                        HighView::If { jump_if_span: n.span, then: Box::new(jump_view(j)) },
                    ),
                    None => Parsed::Stuck,
                },
                None => if target < n.span.start {
                    Parsed::Fail(ControlFlowError::IfNoConditionalJump)
                } else if n.span.end > target {
                    Parsed::Stuck
                } else {
                    let gi = first_else_jump(g.nodes, target, ctx);
                    if gi >= 0 {
                        let gn = g.nodes[gi].1;
                        let else_end = gn.kind->Goto_0;
                        match (span_of(n.span.end, gn.span.start), span_of(target, else_end)) {
                            (Some(then_span), Some(else_span)) => match spec_inner(
                                g,
                                then_span,
                                ctx,
                                fuel,
                            ) {
                                Parsed::Done(_, then) => match spec_inner(g, else_span, ctx, fuel) {
                                    Parsed::Done(_, els) => match rest_from(region, else_end) {
                                        Some(r) => Parsed::Done(
                                            r,
                                            HighView::IfElse {
                                                jump_if_span: n.span,
                                                then: Box::new(then),
                                                els: Box::new(els),
                                            },
                                        ),
                                        None => Parsed::Stuck,
                                    },
                                    other => other,
                                },
                                other => other,
                            },
                            _ => Parsed::Stuck,
                        }
                    } else {
                        match span_of(n.span.end, target) {
                            Some(then_span) => match spec_inner(g, then_span, ctx, fuel) {
                                Parsed::Done(_, then) => match rest_from(region, target) {
                                    Some(r) => Parsed::Done(
                                        r,
                                        HighView::If { jump_if_span: n.span, then: Box::new(then) },
                                    ),
                                    None => Parsed::Stuck,
                                },
                                other => other,
                            },
                            None => Parsed::Stuck,
                        }
                    }
                },
            },
            _ => Parsed::Fail(ControlFlowError::IfNoConditionalJump),
        },
    }
}

/// The node after `n`, unless `n` is a return.
pub open spec fn next_node(g: FlowGraphView, n: FlowNodeView) -> Option<FlowNodeView> {
    if n.kind is Return {
        None
    } else {
        node_at(g, n.span.end)
    }
}

/// `while`: an optional header and a conditional jump out of the loop,
/// then the body and a jump back to the start.
pub open spec fn spec_parse_while(g: FlowGraphView, region: Span, ctx: CtxView, fuel: nat) -> Parsed
    decreases fuel, 2nat,
{
    match node_at(g, region.start) {
        None => Parsed::Stuck,
        Some(start_node) => match inbound(g, start_node, region) {
            None => Parsed::Stuck,
            Some(ins) => if ins.len() == 0 {
                Parsed::Fail(ControlFlowError::LoopNoBackJump)
            } else {
                let mj = max_start(ins);
                if !(is_goto(mj) && region.spec_contains(mj.span)) {
                    Parsed::Fail(ControlFlowError::LoopNoBackJump)
                } else {
                    let cond = if is_jump_if(start_node) {
                        Some(start_node)
                    } else if start_node.kind is NonBranching {
                        match next_node(g, start_node) {
                            Some(c) => if is_jump_if(c) {
                                Some(c)
                            } else {
                                None
                            },
                            None => None,
                        }
                    } else {
                        None
                    };
                    match cond {
                        None => Parsed::Fail(ControlFlowError::WhileNoConditionalJump),
                        Some(c) => {
                            let end_address = c.kind->JumpIf_target;
                            if end_address != mj.span.end {
                                Parsed::Fail(ControlFlowError::WhileJumpBackDoesNotMatchJumpIf)
                            } else {
                                match (
                                    span_of(c.span.end, mj.span.start),
                                    spec_next_loop(ctx, region.start, end_address),
                                ) {
                                    (Some(body_span), Some(lctx)) => {
                                        let expr = if is_jump_if(start_node) {
                                            None
                                        } else {
                                            Some(spec_inner(g, start_node.span, lctx, fuel))
                                        };
                                        match expr {
                                            Some(Parsed::Fail(e)) => Parsed::Fail(e),
                                            Some(Parsed::Stuck) => Parsed::Stuck,
                                            _ => match spec_inner(g, body_span, lctx, fuel) {
                                                Parsed::Done(_, body) => match rest_from(
                                                    region,
                                                    end_address,
                                                ) {
                                                    Some(r) => Parsed::Done(
                                                        r,
                                                        HighView::While {
                                                            id: lctx.current->0,
                                                            jump_if_span: c.span,
                                                            expr: match expr {
                                                                Some(Parsed::Done(_, h)) => Some(
                                                                    Box::new(h),
                                                                ),
                                                                _ => None,
                                                            },
                                                            body: Box::new(body),
                                                        },
                                                    ),
                                                    None => Parsed::Stuck,
                                                },
                                                other => other,
                                            },
                                        }
                                    },
                                    _ => Parsed::Stuck,
                                }
                            }
                        },
                    }
                }
            },
        },
    }
}

/// `do`/`while`: a body, then a conditional jump back to its start.
pub open spec fn spec_parse_do_while(g: FlowGraphView, region: Span, ctx: CtxView, fuel: nat) -> Parsed
    decreases fuel, 2nat,
{
    match node_at(g, region.start) {
        None => Parsed::Stuck,
        Some(start_node) => match inbound(g, start_node, region) {
            None => Parsed::Stuck,
            Some(ins) => if ins.len() == 0 {
                Parsed::Fail(ControlFlowError::LoopNoBackJump)
            } else {
                let c = max_start(ins);
                if !(is_jump_if(c) && region.spec_contains(c.span)) {
                    Parsed::Fail(ControlFlowError::LoopNoBackJump)
                } else if c.kind->JumpIf_target != region.start {
                    Parsed::Stuck
                } else {
                    match spec_next_loop(ctx, region.start, c.span.end) {
                        None => Parsed::Stuck,
                        Some(lctx) => match spec_inner(
                            g,
                            Span { start: region.start, end: c.span.start },
                            lctx,
                            fuel,
                        ) {
                            Parsed::Done(_, body) => Parsed::Done(
                                Span { start: c.span.end, end: region.end },
                                HighView::DoWhile {
                                    id: lctx.current->0,
                                    body: Box::new(body),
                                    jump_if_span: c.span,
                                },
                            ),
                            other => other,
                        },
                    }
                }
            },
        },
    }
}

/// The jumps of `s` that are gotos lying inside `region`.
pub open spec fn loop_jumps(s: Seq<FlowNodeView>, region: Span) -> Seq<FlowNodeView>
    decreases s.len(),
{
    if s.len() == 0 {
        seq![]
    } else {
        let p = loop_jumps(s.drop_last(), region);
        if is_goto(s.last()) && region.spec_contains(s.last().span) {
            p.push(s.last())
        } else {
            p
        }
    }
}

/// An endless loop: a body and an unconditional jump back to its start.
pub open spec fn spec_parse_loop(g: FlowGraphView, region: Span, ctx: CtxView, fuel: nat) -> Parsed
    decreases fuel, 2nat,
{
    match node_at(g, region.start) {
        None => Parsed::Stuck,
        Some(start_node) => match inbound(g, start_node, region) {
            None => Parsed::Stuck,
            Some(ins) => {
                let cands = loop_jumps(ins, region);
                if cands.len() == 0 {
                    Parsed::Fail(ControlFlowError::LoopNoBackJump)
                } else {
                    let mj = max_start(cands);
                    match spec_next_loop(ctx, region.start, mj.span.end) {
                        None => Parsed::Stuck,
                        Some(lctx) => match spec_inner(
                            g,
                            Span { start: region.start, end: mj.span.start },
                            lctx,
                            fuel,
                        ) {
                            Parsed::Done(_, body) => Parsed::Done(
                                Span { start: mj.span.end, end: region.end },
                                HighView::Loop { id: lctx.current->0, body: Box::new(body) },
                            ),
                            other => other,
                        },
                    }
                }
            },
        },
    }
}

/// The structures tried, in order, at a node that does not simply run on.
pub open spec fn spec_alternatives(g: FlowGraphView, region: Span, ctx: CtxView, fuel: nat) -> Parsed
    decreases fuel, 3nat,
{
    match spec_parse_return(g, region) {
        Parsed::Fail(_) => match spec_parse_goto_marker(g, region, ctx) {
            Parsed::Fail(_) => match spec_parse_if(g, region, ctx, fuel) {
                Parsed::Fail(_) => match spec_parse_while(g, region, ctx, fuel) {
                    Parsed::Fail(_) => match spec_parse_do_while(g, region, ctx, fuel) {
                        Parsed::Fail(_) => spec_parse_loop(g, region, ctx, fuel),
                        other => other,
                    },
                    other => other,
                },
                other => other,
            },
            other => other,
        },
        other => other,
    }
}

/// The flows of `acc` as one flow.
pub open spec fn combine(acc: Seq<HighView>) -> HighView {
    if acc.len() == 1 {
        acc[0]
    } else {
        HighView::Composite(acc)
    }
}

/// The flows of a region from its start on, after `acc`.
pub open spec fn spec_inner_loop(g: FlowGraphView, region: Span, ctx: CtxView, acc: Seq<HighView>, fuel: nat) -> Parsed
    decreases fuel, 0nat,
{
    if fuel == 0 {
        Parsed::Stuck
    } else if !(region.start < region.end) {
        Parsed::Done(region, combine(acc))
    } else {
        match node_at(g, region.start) {
            None => Parsed::Stuck,
            Some(n) => {
                let plain = match n.kind {
                    FlowKindView::NonBranching(instrs) => match inbound(g, n, region) {
                        None => None,
                        Some(ins) => Some(ins.len() == 0),
                    },
                    _ => Some(false),
                };
                match plain {
                    None => Parsed::Stuck,
                    Some(true) => match rest_from(region, n.span.end) {
                        Some(r) => spec_inner_loop(
                            g,
                            r,
                            ctx,
                            acc.push(
                                HighView::NonBranching {
                                    span: n.span,
                                    instructions: n.kind->NonBranching_0,
                                },
                            ),
                            (fuel - 1) as nat,
                        ),
                        None => Parsed::Stuck,
                    },
                    Some(false) => match spec_alternatives(g, region, ctx, (fuel - 1) as nat) {
                        Parsed::Done(r, h) => spec_inner_loop(g, r, ctx, acc.push(h), (fuel - 1) as nat),
                        other => other,
                    },
                }
            },
        }
    }
}

/// The flows of a region, one after the other.
pub open spec fn spec_inner(g: FlowGraphView, region: Span, ctx: CtxView, fuel: nat) -> Parsed
    decreases fuel, 1nat,
{
    spec_inner_loop(g, region, ctx, seq![], fuel)
}

/// A parse result as the model sees it.
pub open spec fn outcome(r: Result<(Span, FlowHigh), ControlFlowError>) -> Parsed {
    match r {
        Ok((s, h)) => Parsed::Done(s, h.view()),
        Err(e) => Parsed::Fail(e),
    }
}

pub open spec fn ref_views(v: Seq<&FlowNode>) -> Seq<FlowNodeView> {
    Seq::new(v.len(), |i: int| v[i].view())
}

/// What the parser knows while it works on a region.
struct ParseContext {
    return_points: Vec<usize>,
    overrides: Vec<(usize, Jump)>,
    current_loop_id: Option<LoopId>,
}

impl ParseContext {
    spec fn view(&self) -> CtxView {
        CtxView {
            return_points: Set::new(|a: usize| self.return_points@.contains(a)),
            overrides: self.overrides@,
            current: self.current_loop_id,
        }
    }

    fn known(&self, a: usize) -> (r: Option<Jump>)
        ensures
            r == known(self.view(), a),
    {
        let mut i = self.overrides.len();
        assert(self.overrides@.take(i as int) =~= self.overrides@);
        while i > 0
            invariant
                i <= self.overrides@.len(),
                lookup_last(self.overrides@, a) == lookup_last(self.overrides@.take(i as int), a),
            decreases i,
        {
            let ghost t = self.overrides@.take(i as int);
            assert(t.drop_last() =~= self.overrides@.take(i - 1));
            assert(t.last() == self.overrides@[i - 1]);
            if self.overrides[i - 1].0 == a {
                return Some(self.overrides[i - 1].1);
            }
            i = i - 1;
        }
        assert(self.overrides@.take(0) =~= seq![]);
        let mut k: usize = 0;
        while k < self.return_points.len()
            invariant
                k <= self.return_points@.len(),
                lookup_last(self.overrides@, a) is None,
                forall|j: int| 0 <= j < k ==> self.return_points@[j] != a,
            decreases self.return_points.len() - k,
        {
            if self.return_points[k] == a {
                assert(self.return_points@[k as int] == a);
                assert(self.return_points@.contains(a));
                assert(self.view().return_points.contains(a));
                assert(lookup_last(self.overrides@, a) is None);
                return Some(Jump::Return);
            }
            k = k + 1;
        }
        assert(!self.return_points@.contains(a));
        assert(!self.view().return_points.contains(a));
        None
    }

    fn with_next_loop_id(&self, continue_addr: usize, break_addr: usize) -> (r: ParseContext)
        requires
            spec_next_loop(self.view(), continue_addr, break_addr) is Some,
        ensures
            r.view() == spec_next_loop(self.view(), continue_addr, break_addr)->0,
    {
        let id = match self.current_loop_id {
            Some(i) => LoopId(i.0 + 1),
            None => LoopId(1),
        };
        let return_points = copy_addresses(&self.return_points);
        let mut overrides: Vec<(usize, Jump)> = Vec::new();
        let mut i: usize = 0;
        while i < self.overrides.len()
            invariant
                i <= self.overrides@.len(),
                overrides@ == self.overrides@.take(i as int),
            decreases self.overrides.len() - i,
        {
            overrides.push(self.overrides[i]);
            i = i + 1;
            assert(overrides@ =~= self.overrides@.take(i as int));
        }
        assert(self.overrides@.take(i as int) =~= self.overrides@);
        overrides.push((break_addr, Jump::Break(id)));
        overrides.push((continue_addr, Jump::Continue(id)));
        let r = ParseContext { return_points, overrides, current_loop_id: Some(id) };
        assert(r.view().return_points =~= self.view().return_points);
        r
    }
}

fn jump_flow(j: Jump) -> (r: FlowHigh)
    ensures
        r.view() == jump_view(j),
{
    match j {
        Jump::Return => FlowHigh::Return,
        Jump::Break(id) => FlowHigh::Break(id),
        Jump::Continue(id) => FlowHigh::Continue(id),
    }
}

/// The node that starts at address `a`.
pub fn node_lookup<'a>(g: &'a FlowGraph, a: usize) -> (r: Option<&'a FlowNode>)
    ensures
        match r {
            Some(n) => node_at(g.view(), a) == Some(n.view()),
            None => node_at(g.view(), a) is None,
        },
{
    proof {
        crate::assoc::lemma_get_keys(g.nodes@, g.view().nodes, a);
    }
    match crate::assoc::get_value(&g.nodes, &a) {
        Some(n) => Some(n),
        None => None,
    }
}

fn inbound_by_jump<'a>(g: &'a FlowGraph, node: &FlowNode, region: Span) -> (r: Option<Vec<&'a FlowNode>>)
    ensures
        match r {
            Some(v) => inbound(g.view(), node.view(), region) == Some(ref_views(v@)),
            None => inbound(g.view(), node.view(), region) is None,
        },
{
    proof {
        crate::assoc::lemma_get_keys(g.inbounds@, g.view().inbounds, node.span.start);
    }
    let empty: Vec<usize> = Vec::new();
    let list = match crate::assoc::get_value(&g.inbounds, &node.span.start) {
        Some(l) => l,
        None => &empty,
    };
    let ghost lv = match assoc_get(g.view().inbounds, node.span.start) {
        Some(l) => l,
        None => seq![],
    };
    assert(list@ == lv);
    let mut out: Vec<&'a FlowNode> = Vec::new();
    let mut i: usize = 0;
    assert(lv.take(0) =~= seq![]);
    assert(ref_views(out@) =~= seq![]);
    while i < list.len()
        invariant
            i <= list@.len(),
            list@ == lv,
            lv == match assoc_get(g.view().inbounds, node.span.start) {
                Some(l) => l,
                None => seq![],
            },
            inbound_nodes(g.view(), lv.take(i as int), region) == Some(ref_views(out@)),
        decreases list.len() - i,
    {
        let ghost t = lv.take(i + 1);
        assert(t.drop_last() =~= lv.take(i as int));
        assert(t.last() == lv[i as int]);
        let a = list[i];
        if region.contains_address(a) {
            match node_lookup(g, a) {
                Some(n) => {
                    let ghost before = out@;
                    out.push(n);
                    assert(ref_views(out@) =~= ref_views(before).push(n.view()));
                },
                None => {
                    proof {
                        assert(node_at(g.view(), a) is None);
                        assert(inbound_nodes(g.view(), t, region) is None);
                        lemma_inbound_none(g.view(), lv, region, i + 1);
                        assert(inbound(g.view(), node.view(), region) == inbound_nodes(g.view(), lv, region));
                    }
                    return None;
                },
            }
        }
        i = i + 1;
    }
    assert(lv.take(list.len() as int) =~= lv);
    Some(out)
}

proof fn lemma_inbound_none(g: FlowGraphView, list: Seq<usize>, region: Span, k: int)
    requires
        0 <= k <= list.len(),
        inbound_nodes(g, list.take(k), region) is None,
    ensures
        inbound_nodes(g, list, region) is None,
    decreases list.len() - k,
{
    if k < list.len() {
        assert(list.take(k + 1).drop_last() =~= list.take(k));
        lemma_inbound_none(g, list, region, k + 1);
    } else {
        assert(list.take(k) =~= list);
    }
}

fn max_start_node<'a>(v: &Vec<&'a FlowNode>) -> (r: &'a FlowNode)
    requires
        v.len() > 0,
    ensures
        r.view() == max_start(ref_views(v@)),
{
    let mut m = v[0];
    let mut i: usize = 1;
    assert(ref_views(v@).take(1) =~= seq![v@[0].view()]);
    while i < v.len()
        invariant
            1 <= i <= v@.len(),
            m.view() == max_start(ref_views(v@).take(i as int)),
        decreases v.len() - i,
    {
        let ghost t = ref_views(v@).take(i + 1);
        assert(t.drop_last() =~= ref_views(v@).take(i as int));
        assert(t.last() == v@[i as int].view());
        if v[i].span.start >= m.span.start {
            m = v[i];
        }
        i = i + 1;
    }
    assert(ref_views(v@).take(v.len() as int) =~= ref_views(v@));
    m
}

fn loop_jump_nodes<'a>(v: &Vec<&'a FlowNode>, region: Span) -> (r: Vec<&'a FlowNode>)
    ensures
        ref_views(r@) == loop_jumps(ref_views(v@), region),
{
    let mut out: Vec<&'a FlowNode> = Vec::new();
    let mut i: usize = 0;
    assert(ref_views(v@).take(0) =~= seq![]);
    assert(ref_views(out@) =~= seq![]);
    while i < v.len()
        invariant
            i <= v@.len(),
            ref_views(out@) == loop_jumps(ref_views(v@).take(i as int), region),
        decreases v.len() - i,
    {
        let ghost t = ref_views(v@).take(i + 1);
        assert(t.drop_last() =~= ref_views(v@).take(i as int));
        assert(t.last() == v@[i as int].view());
        let n = v[i];
        let goto = match &n.kind {
            FlowNodeKind::Goto(_) => true,
            _ => false,
        };
        if goto && region.contains(&n.span) {
            let ghost before = out@;
            out.push(n);
            assert(ref_views(out@) =~= ref_views(before).push(n.view()));
        }
        i = i + 1;
    }
    assert(ref_views(v@).take(v.len() as int) =~= ref_views(v@));
    out
}

proof fn lemma_max_start_member(s: Seq<FlowNodeView>)
    requires
        s.len() > 0,
    ensures
        exists|i: int| 0 <= i < s.len() && s[i] == max_start(s),
    decreases s.len(),
{
    if s.len() > 1 {
        lemma_max_start_member(s.drop_last());
        let i = choose|i: int| 0 <= i < s.len() - 1 && s.drop_last()[i] == max_start(s.drop_last());
        assert(s[i] == s.drop_last()[i]);
        assert(s[s.len() - 1] == s.last());
    } else {
        assert(s[0] == max_start(s));
    }
}

proof fn lemma_loop_jumps(s: Seq<FlowNodeView>, region: Span)
    ensures
        forall|i: int|
            0 <= i < loop_jumps(s, region).len() ==> is_goto(#[trigger] loop_jumps(s, region)[i])
                && region.spec_contains(loop_jumps(s, region)[i].span),
    decreases s.len(),
{
    if s.len() > 0 {
        lemma_loop_jumps(s.drop_last(), region);
    }
}

proof fn lemma_first_else_jump(s: Seq<(usize, FlowNodeView)>, target: usize, ctx: CtxView)
    ensures
        -1 <= first_else_jump(s, target, ctx) < s.len(),
        first_else_jump(s, target, ctx) >= 0 ==> is_else_jump(
            s[first_else_jump(s, target, ctx)].1,
            target,
            ctx,
        ),
        forall|j: int|
            0 <= j < s.len() && (first_else_jump(s, target, ctx) < 0 || j < first_else_jump(
                s,
                target,
                ctx,
            )) ==> !is_else_jump(#[trigger] s[j].1, target, ctx),
    decreases s.len(),
{
    if s.len() > 0 {
        lemma_first_else_jump(s.drop_last(), target, ctx);
        assert forall|j: int| 0 <= j < s.len() - 1 implies s.drop_last()[j] == s[j] by {}
    }
}

fn find_else_jump(g: &FlowGraph, target: usize, ctx: &ParseContext) -> (r: Option<usize>)
    ensures
        match r {
            Some(i) => i < g.view().nodes.len() && first_else_jump(g.view().nodes, target, ctx.view()) == i,
            None => first_else_jump(g.view().nodes, target, ctx.view()) < 0,
        },
{
    let ghost s = g.view().nodes;
    proof {
        lemma_first_else_jump(s, target, ctx.view());
    }
    let mut i: usize = 0;
    while i < g.nodes.len()
        invariant
            i <= g.nodes@.len(),
            s == g.view().nodes,
            s.len() == g.nodes@.len(),
            forall|j: int| 0 <= j < i ==> !is_else_jump(#[trigger] s[j].1, target, ctx.view()),
            -1 <= first_else_jump(s, target, ctx.view()) < s.len(),
            first_else_jump(s, target, ctx.view()) >= 0 ==> is_else_jump(
                s[first_else_jump(s, target, ctx.view())].1,
                target,
                ctx.view(),
            ),
            forall|j: int|
                0 <= j < s.len() && (first_else_jump(s, target, ctx.view()) < 0 || j
                    < first_else_jump(s, target, ctx.view())) ==> !is_else_jump(
                    #[trigger] s[j].1,
                    target,
                    ctx.view(),
                ),
        decreases g.nodes.len() - i,
    {
        let n = &g.nodes[i].1;
        assert(s[i as int].1 == n.view());
        let hit = match &n.kind {
            FlowNodeKind::Goto(t) => n.span.end == target && ctx.known(*t).is_none(),
            _ => false,
        };
        if hit {
            assert(is_else_jump(s[i as int].1, target, ctx.view()));
            return Some(i);
        }
        i = i + 1;
    }
    None
}

fn parse_return(g: &FlowGraph, region: Span) -> (r: Result<(Span, FlowHigh), ControlFlowError>)
    requires
        !(spec_parse_return(g.view(), region) is Stuck),
    ensures
        outcome(r) == spec_parse_return(g.view(), region),
{
    let node = match node_lookup(g, region.start) {
        Some(n) => n,
        None => {
            return Err(ControlFlowError::NoMatch);
        },
    };
    match &node.kind {
        FlowNodeKind::Return => Ok((region.with_start(node.span.end), FlowHigh::Return)),
        _ => Err(ControlFlowError::NoMatch),
    }
}

fn parse_goto_marker(g: &FlowGraph, region: Span, ctx: &ParseContext) -> (r: Result<(Span, FlowHigh), ControlFlowError>)
    requires
        !(spec_parse_goto_marker(g.view(), region, ctx.view()) is Stuck),
    ensures
        outcome(r) == spec_parse_goto_marker(g.view(), region, ctx.view()),
{
    let node = match node_lookup(g, region.start) {
        Some(n) => n,
        None => {
            return Err(ControlFlowError::NoMatch);
        },
    };
    match &node.kind {
        FlowNodeKind::Goto(target) => match ctx.known(*target) {
            Some(j) => Ok((region.with_start(node.span.end), jump_flow(j))),
            None => Err(ControlFlowError::UnexpectedGoto),
        },
        _ => Err(ControlFlowError::NoMatch),
    }
}

fn parse_if(g: &FlowGraph, region: Span, ctx: &ParseContext, Ghost(fuel): Ghost<nat>) -> (r: Result<(Span, FlowHigh), ControlFlowError>)
    requires
        !(spec_parse_if(g.view(), region, ctx.view(), fuel) is Stuck),
    ensures
        outcome(r) == spec_parse_if(g.view(), region, ctx.view(), fuel),
    decreases fuel, 2nat,
{
    let node = match node_lookup(g, region.start) {
        Some(n) => n,
        None => {
            return Err(ControlFlowError::NoMatch);
        },
    };
    let jump_target = match &node.kind {
        FlowNodeKind::JumpIf { target, .. } => *target,
        _ => {
            return Err(ControlFlowError::IfNoConditionalJump);
        },
    };
    match ctx.known(jump_target) {
        Some(j) => {
            return Ok((region.with_start(node.span.end), FlowHigh::conditional(node.span, jump_flow(j))));
        },
        None => {},
    }
    if jump_target < node.span.start {
        return Err(ControlFlowError::IfNoConditionalJump);
    }
    match find_else_jump(g, jump_target, ctx) {
        Some(gi) => {
            proof {
                lemma_first_else_jump(g.view().nodes, jump_target, ctx.view());
            }
            let goto_node = &g.nodes[gi].1;
            assert(g.view().nodes[gi as int].1 == goto_node.view());
            let else_end = match &goto_node.kind {
                FlowNodeKind::Goto(t) => *t,
                _ => {
                    return Err(ControlFlowError::NoMatch);
                },
            };
            let then_span = Span::new(node.span.end, goto_node.span.start);
            let else_span = Span::new(jump_target, else_end);
            let then = match parse_flow_inner(g, then_span, ctx, Ghost(fuel)) {
                Ok((_, h)) => h,
                Err(e) => {
                    return Err(e);
                },
            };
            let els = match parse_flow_inner(g, else_span, ctx, Ghost(fuel)) {
                Ok((_, h)) => h,
                Err(e) => {
                    return Err(e);
                },
            };
            Ok((region.with_start(else_end), FlowHigh::if_else(node.span, then, els)))
        },
        None => {
            let then_span = Span::new(node.span.end, jump_target);
            let then = match parse_flow_inner(g, then_span, ctx, Ghost(fuel)) {
                Ok((_, h)) => h,
                Err(e) => {
                    return Err(e);
                },
            };
            Ok((region.with_start(jump_target), FlowHigh::conditional(node.span, then)))
        },
    }
}

fn parse_while(g: &FlowGraph, region: Span, ctx: &ParseContext, Ghost(fuel): Ghost<nat>) -> (r: Result<(Span, FlowHigh), ControlFlowError>)
    requires
        !(spec_parse_while(g.view(), region, ctx.view(), fuel) is Stuck),
    ensures
        outcome(r) == spec_parse_while(g.view(), region, ctx.view(), fuel),
    decreases fuel, 2nat,
{
    let start_node = match node_lookup(g, region.start) {
        Some(n) => n,
        None => {
            return Err(ControlFlowError::NoMatch);
        },
    };
    let ins = match inbound_by_jump(g, start_node, region) {
        Some(v) => v,
        None => {
            return Err(ControlFlowError::NoMatch);
        },
    };
    if ins.len() == 0 {
        return Err(ControlFlowError::LoopNoBackJump);
    }
    let max_jump_back = max_start_node(&ins);
    let back_is_goto = match &max_jump_back.kind {
        FlowNodeKind::Goto(_) => true,
        _ => false,
    };
    if !(back_is_goto && region.contains(&max_jump_back.span)) {
        return Err(ControlFlowError::LoopNoBackJump);
    }
    let start_is_jump_if = match &start_node.kind {
        FlowNodeKind::JumpIf { .. } => true,
        _ => false,
    };
    let cond_node = if start_is_jump_if {
        start_node
    } else {
        match &start_node.kind {
            FlowNodeKind::NonBranching(_) => match node_lookup(g, start_node.span.end) {
                Some(c) => match &c.kind {
                    FlowNodeKind::JumpIf { .. } => c,
                    _ => {
                        return Err(ControlFlowError::WhileNoConditionalJump);
                    },
                },
                None => {
                    return Err(ControlFlowError::WhileNoConditionalJump);
                },
            },
            _ => {
                return Err(ControlFlowError::WhileNoConditionalJump);
            },
        }
    };
    let end_address = match &cond_node.kind {
        FlowNodeKind::JumpIf { target, .. } => *target,
        _ => {
            return Err(ControlFlowError::NoMatch);
        },
    };
    if end_address != max_jump_back.span.end {
        return Err(ControlFlowError::WhileJumpBackDoesNotMatchJumpIf);
    }
    let body_span = Span::new(cond_node.span.end, max_jump_back.span.start);
    let loop_ctx = ctx.with_next_loop_id(region.start, end_address);
    let expr = if start_is_jump_if {
        None
    } else {
        match parse_flow_inner(g, start_node.span, &loop_ctx, Ghost(fuel)) {
            Ok((_, h)) => Some(h),
            Err(e) => {
                return Err(e);
            },
        }
    };
    let body = match parse_flow_inner(g, body_span, &loop_ctx, Ghost(fuel)) {
        Ok((_, h)) => h,
        Err(e) => {
            return Err(e);
        },
    };
    let id = match loop_ctx.current_loop_id {
        Some(i) => i,
        None => LoopId(0),
    };
    Ok((region.with_start(end_address), FlowHigh::while_loop(id, expr, body, cond_node.span)))
}

fn parse_do_while(g: &FlowGraph, region: Span, ctx: &ParseContext, Ghost(fuel): Ghost<nat>) -> (r: Result<(Span, FlowHigh), ControlFlowError>)
    requires
        !(spec_parse_do_while(g.view(), region, ctx.view(), fuel) is Stuck),
    ensures
        outcome(r) == spec_parse_do_while(g.view(), region, ctx.view(), fuel),
    decreases fuel, 2nat,
{
    let start_node = match node_lookup(g, region.start) {
        Some(n) => n,
        None => {
            return Err(ControlFlowError::NoMatch);
        },
    };
    let ins = match inbound_by_jump(g, start_node, region) {
        Some(v) => v,
        None => {
            return Err(ControlFlowError::NoMatch);
        },
    };
    if ins.len() == 0 {
        return Err(ControlFlowError::LoopNoBackJump);
    }
    let cond_node = max_start_node(&ins);
    let start_address = match &cond_node.kind {
        FlowNodeKind::JumpIf { target, .. } => *target,
        _ => {
            return Err(ControlFlowError::LoopNoBackJump);
        },
    };
    if !region.contains(&cond_node.span) {
        return Err(ControlFlowError::LoopNoBackJump);
    }
    if start_address != region.start {
        return Err(ControlFlowError::NoMatch);
    }
    let loop_ctx = ctx.with_next_loop_id(region.start, cond_node.span.end);
    let body_span = Span::new(region.start, cond_node.span.start);
    let body = match parse_flow_inner(g, body_span, &loop_ctx, Ghost(fuel)) {
        Ok((_, h)) => h,
        Err(e) => {
            return Err(e);
        },
    };
    let id = match loop_ctx.current_loop_id {
        Some(i) => i,
        None => LoopId(0),
    };
    Ok((region.with_start(cond_node.span.end), FlowHigh::do_while_loop(id, body, cond_node.span)))
}

fn parse_loop(g: &FlowGraph, region: Span, ctx: &ParseContext, Ghost(fuel): Ghost<nat>) -> (r: Result<(Span, FlowHigh), ControlFlowError>)
    requires
        !(spec_parse_loop(g.view(), region, ctx.view(), fuel) is Stuck),
    ensures
        outcome(r) == spec_parse_loop(g.view(), region, ctx.view(), fuel),
    decreases fuel, 2nat,
{
    let node = match node_lookup(g, region.start) {
        Some(n) => n,
        None => {
            return Err(ControlFlowError::NoMatch);
        },
    };
    let ins = match inbound_by_jump(g, node, region) {
        Some(v) => v,
        None => {
            return Err(ControlFlowError::NoMatch);
        },
    };
    let cands = loop_jump_nodes(&ins, region);
    if cands.len() == 0 {
        return Err(ControlFlowError::LoopNoBackJump);
    }
    let max_jump_back = max_start_node(&cands);
    proof {
        lemma_loop_jumps(ref_views(ins@), region);
        lemma_max_start_member(ref_views(cands@));
    }
    assert(region.spec_contains(max_jump_back.span));
    let loop_ctx = ctx.with_next_loop_id(region.start, max_jump_back.span.end);
    let body = match parse_flow_inner(
        g,
        Span::new(region.start, max_jump_back.span.start),
        &loop_ctx,
        Ghost(fuel),
    ) {
        Ok((_, h)) => h,
        Err(e) => {
            return Err(e);
        },
    };
    let id = match loop_ctx.current_loop_id {
        Some(i) => i,
        None => LoopId(0),
    };
    Ok((region.with_start(max_jump_back.span.end), FlowHigh::loop_body(id, body)))
}

fn parse_alternatives(g: &FlowGraph, region: Span, ctx: &ParseContext, Ghost(fuel): Ghost<nat>) -> (r: Result<(Span, FlowHigh), ControlFlowError>)
    requires
        !(spec_alternatives(g.view(), region, ctx.view(), fuel) is Stuck),
    ensures
        outcome(r) == spec_alternatives(g.view(), region, ctx.view(), fuel),
    decreases fuel, 3nat,
{
    match parse_return(g, region) {
        Ok(x) => {
            return Ok(x);
        },
        Err(_) => {},
    }
    match parse_goto_marker(g, region, ctx) {
        Ok(x) => {
            return Ok(x);
        },
        Err(_) => {},
    }
    match parse_if(g, region, ctx, Ghost(fuel)) {
        Ok(x) => {
            return Ok(x);
        },
        Err(_) => {},
    }
    match parse_while(g, region, ctx, Ghost(fuel)) {
        Ok(x) => {
            return Ok(x);
        },
        Err(_) => {},
    }
    match parse_do_while(g, region, ctx, Ghost(fuel)) {
        Ok(x) => {
            return Ok(x);
        },
        Err(_) => {},
    }
    parse_loop(g, region, ctx, Ghost(fuel))
}

fn parse_flow_inner(g: &FlowGraph, region: Span, ctx: &ParseContext, Ghost(fuel): Ghost<nat>) -> (r: Result<(Span, FlowHigh), ControlFlowError>)
    requires
        !(spec_inner(g.view(), region, ctx.view(), fuel) is Stuck),
    ensures
        outcome(r) == spec_inner(g.view(), region, ctx.view(), fuel),
    decreases fuel, 1nat,
{
    let mut result: Vec<FlowHigh> = Vec::new();
    let mut cur = region;
    let ghost mut f: nat = fuel;
    assert(highs_view(result@) =~= seq![]);
    while cur.start < cur.end
        invariant
            f <= fuel,
            spec_inner(g.view(), region, ctx.view(), fuel) == spec_inner_loop(
                g.view(),
                cur,
                ctx.view(),
                highs_view(result@),
                f,
            ),
            !(spec_inner(g.view(), region, ctx.view(), fuel) is Stuck),
        decreases f,
    {
        let node = match node_lookup(g, cur.start) {
            Some(n) => n,
            None => {
                return Err(ControlFlowError::NoMatch);
            },
        };
        match &node.kind {
            FlowNodeKind::NonBranching(instructions) => {
                let ins = match inbound_by_jump(g, node, cur) {
                    Some(v) => v,
                    None => {
                        return Err(ControlFlowError::NoMatch);
                    },
                };
                if ins.len() == 0 {
                    let h = FlowHigh::non_branching(node.span, duplicate_midirs(instructions));
                    let ghost before = result@;
                    result.push(h);
                    assert(result@.drop_last() =~= before);
                    cur = cur.with_start(node.span.end);
                    proof {
                        f = (f - 1) as nat;
                    }
                    continue;
                }
            },
            _ => {},
        }
        match parse_alternatives(g, cur, ctx, Ghost((f - 1) as nat)) {
            Ok((next, h)) => {
                let ghost before = result@;
                result.push(h);
                assert(result@.drop_last() =~= before);
                cur = next;
                proof {
                    f = (f - 1) as nat;
                }
            },
            Err(e) => {
                return Err(e);
            },
        }
    }
    proof {
        lemma_highs_view_len(result@);
    }
    if result.len() == 1 {
        let ghost acc = result@;
        assert(acc.drop_last() =~= seq![]);
        assert(highs_view(acc) =~= seq![high_view(acc[0])]);
        let h = result.pop().unwrap();
        assert(h == acc[0]);
        Ok((cur, h))
    } else {
        Ok((cur, FlowHigh::composite(result)))
    }
}

/// The addresses control can go to from `s` inside `region`: none from the
/// end of the region, from a return or from an address without a node.
pub open spec fn flow_successors(g: FlowGraphView, region: Span, s: usize) -> Seq<usize> {
    if s == region.end {
        seq![]
    } else {
        match node_at(g, s) {
            None => seq![],
            Some(n) => match n.kind {
                FlowKindView::Return => seq![],
                FlowKindView::NonBranching(_) => seq![n.span.end],
                FlowKindView::JumpIf { target, .. } => seq![target, n.span.end],
                FlowKindView::Goto(t) => seq![t, n.span.end],
            },
        }
    }
}

/// A path of addresses along which control can go.
pub open spec fn flow_path(g: FlowGraphView, region: Span, p: Seq<usize>) -> bool {
    p.len() >= 1 && forall|i: int|
        0 <= i < p.len() - 1 ==> #[trigger] flow_successors(g, region, p[i]).contains(p[i + 1])
}

/// Whether control can go from `start` to `x`.
pub open spec fn flow_reachable(g: FlowGraphView, region: Span, start: usize, x: usize) -> bool {
    exists|p: Seq<usize>| flow_path(g, region, p) && p[0] == start && p.last() == x
}

fn successors_of(g: &FlowGraph, region: Span, s: usize) -> (r: Vec<usize>)
    ensures
        r@ == flow_successors(g.view(), region, s),
{
    if s == region.end {
        return Vec::new();
    }
    match node_lookup(g, s) {
        None => Vec::new(),
        Some(n) => match &n.kind {
            FlowNodeKind::Return => Vec::new(),
            FlowNodeKind::NonBranching(_) => {
                let mut v: Vec<usize> = Vec::new();
                v.push(n.span.end);
                assert(v@ =~= seq![n.span.end]);
                v
            },
            FlowNodeKind::JumpIf { target, .. } => {
                let mut v: Vec<usize> = Vec::new();
                v.push(*target);
                v.push(n.span.end);
                assert(v@ =~= seq![*target, n.span.end]);
                v
            },
            FlowNodeKind::Goto(t) => {
                let mut v: Vec<usize> = Vec::new();
                v.push(*t);
                v.push(n.span.end);
                assert(v@ =~= seq![*t, n.span.end]);
                v
            },
        },
    }
}

/// The addresses that control can reach from `start`, `start` included,
/// each once, found by `pathfinding::directed::dfs::dfs_reach`.
#[verifier::external_body]
fn reachable_addresses(g: &FlowGraph, region: Span, start: usize) -> (r: Vec<usize>)
    ensures
        forall|x: usize| r@.contains(x) <==> flow_reachable(g.view(), region, start, x),
{
    pathfinding::directed::dfs::dfs_reach(start, |s: &usize| successors_of(g, region, *s)).collect()
}

/// Whether the node at `x` is a return.
pub open spec fn is_return_at(g: FlowGraphView, x: usize) -> bool {
    match node_at(g, x) {
        Some(n) => n.kind is Return,
        None => false,
    }
}

/// The reachable return statements of a region.
pub open spec fn flow_returns(g: FlowGraphView, region: Span, start: usize) -> Set<usize> {
    Set::new(
        |x: usize|
            flow_reachable(g, region, start, x) && x != region.end && is_return_at(g, x),
    )
}

/// The addresses of `s`, in order, that are returns other than the end of
/// the region.
pub open spec fn returns_in(g: FlowGraphView, region: Span, s: Seq<usize>) -> Seq<usize>
    decreases s.len(),
{
    if s.len() == 0 {
        seq![]
    } else {
        let p = returns_in(g, region, s.drop_last());
        if s.last() != region.end && is_return_at(g, s.last()) {
            p.push(s.last())
        } else {
            p
        }
    }
}

proof fn lemma_returns_in(g: FlowGraphView, region: Span, s: Seq<usize>)
    ensures
        forall|x: usize|
            returns_in(g, region, s).contains(x) <==> (s.contains(x) && x != region.end
                && is_return_at(g, x)),
    decreases s.len(),
{
    if s.len() > 0 {
        let d = s.drop_last();
        lemma_returns_in(g, region, d);
        let p = returns_in(g, region, d);
        assert forall|x: usize|
            returns_in(g, region, s).contains(x) <==> (s.contains(x) && x != region.end
                && is_return_at(g, x)) by {
            if s.contains(x) && x != s.last() {
                let k = choose|k: int| 0 <= k < s.len() && s[k] == x;
                assert(d[k] == x);
                assert(d.contains(x));
            }
            if d.contains(x) {
                let k = choose|k: int| 0 <= k < d.len() && d[k] == x;
                assert(s[k] == x);
            }
            if s.last() != region.end && is_return_at(g, s.last()) {
                assert(p.push(s.last()).last() == s.last());
                if p.contains(x) {
                    let k = choose|k: int| 0 <= k < p.len() && p[k] == x;
                    assert(p.push(s.last())[k] == x);
                }
                if p.push(s.last()).contains(x) && x != s.last() {
                    let k = choose|k: int| 0 <= k < p.len() + 1 && p.push(s.last())[k] == x;
                    assert(p[k] == x);
                }
            }
            assert(s[s.len() - 1] == s.last());
        }
    }
}

/// The structure of a whole region, parsed with `fuel`.
pub open spec fn spec_parse_flow(g: FlowGraphView, region: Span, fuel: nat) -> Parsed {
    match node_at(g, region.start) {
        None => Parsed::Stuck,
        Some(n) => if exists|x: usize|
            flow_reachable(g, region, n.span.start, x) && x != region.end && node_at(g, x) is None {
            Parsed::Stuck
        } else {
            let ctx = CtxView {
                return_points: flow_returns(g, region, n.span.start),
                overrides: seq![],
                current: None,
            };
            match spec_inner(g, region, ctx, fuel) {
                Parsed::Done(end, h) => if end.start == region.end {
                    Parsed::Done(end, h)
                } else {
                    Parsed::Stuck
                },
                other => other,
            }
        },
    }
}

/// Whether parsing the region comes back, with a structure or an error.
pub open spec fn parse_flow_terminates(g: FlowGraphView, region: Span) -> bool {
    exists|fuel: nat| !(spec_parse_flow(g, region, fuel) is Stuck)
}

/// Enough fuel to parse the region.
pub open spec fn flow_fuel(g: FlowGraphView, region: Span) -> nat {
    choose|fuel: nat| !(spec_parse_flow(g, region, fuel) is Stuck)
}

/// The structured control flow of `region`: its straight-line code, ifs,
/// loops, returns, breaks and continues.
pub fn parse_flow(graph: &FlowGraph, region: Span) -> (r: Result<FlowHigh, ControlFlowError>)
    requires
        parse_flow_terminates(graph.view(), region),
    ensures
        match r {
            Ok(h) => spec_parse_flow(graph.view(), region, flow_fuel(graph.view(), region)) matches Parsed::Done(
                _,
                v,
            ) && v == h.view(),
            Err(e) => spec_parse_flow(graph.view(), region, flow_fuel(graph.view(), region))
                == Parsed::Fail(e),
        },
{
    let ghost fuel = flow_fuel(graph.view(), region);
    let ghost gv = graph.view();
    let node = match node_lookup(graph, region.start) {
        Some(n) => n,
        None => {
            return Err(ControlFlowError::NoMatch);
        },
    };
    let start = node.span.start;
    let reach = reachable_addresses(graph, region, start);
    let mut return_points: Vec<usize> = Vec::new();
    let mut i: usize = 0;
    assert(reach@.take(0) =~= seq![]);
    while i < reach.len()
        invariant
            i <= reach@.len(),
            gv == graph.view(),
            !(spec_parse_flow(gv, region, fuel) is Stuck),
            node_at(gv, region.start) == Some(node.view()),
            start == node.span.start,
            forall|x: usize| reach@.contains(x) <==> flow_reachable(gv, region, start, x),
            return_points@ == returns_in(gv, region, reach@.take(i as int)),
        decreases reach.len() - i,
    {
        let a = reach[i];
        assert(reach@.contains(a));
        let ghost t = reach@.take(i + 1);
        assert(t.drop_last() =~= reach@.take(i as int));
        assert(t.last() == a);
        if a != region.end {
            match node_lookup(graph, a) {
                Some(n) => {
                    let is_return = match &n.kind {
                        FlowNodeKind::Return => true,
                        _ => false,
                    };
                    if is_return {
                        return_points.push(a);
                    }
                },
                None => {
                    return Err(ControlFlowError::NoMatch);
                },
            }
        }
        i = i + 1;
    }
    assert(reach@.take(reach@.len() as int) =~= reach@);
    proof {
        lemma_returns_in(gv, region, reach@);
    }
    let ctx = ParseContext { return_points, overrides: Vec::new(), current_loop_id: None };
    assert(ctx.return_points@ == returns_in(gv, region, reach@));
    assert forall|x: usize| #[trigger] ctx.view().return_points.contains(x) <==> flow_returns(gv, region, start).contains(x) by {
        assert(ctx.view().return_points.contains(x) == ctx.return_points@.contains(x));
        assert(reach@.contains(x) <==> flow_reachable(gv, region, start, x));
    }
    assert(ctx.view().return_points =~= flow_returns(gv, region, start));
    assert(ctx.view().overrides =~= seq![]);
    match parse_flow_inner(graph, region, &ctx, Ghost(fuel)) {
        Ok((end, h)) => {
            if end.start == region.end {
                Ok(h)
            } else {
                Err(ControlFlowError::NoMatch)
            }
        },
        Err(e) => Err(e),
    }
}

} // verus!
