//! Depth-first traversal of a function of the high-level representation,
//! with callbacks on entering and finishing each block, statement and
//! expression.
use vstd::prelude::*;
use crate::hlr::ast::{HlrExpression, HlrFunction, HlrStatement};
use crate::hlr::model::{
    ExprView, StmtView, expr_view, exprs_view, stmt_view, stmts_view, lemma_exprs_view_index, lemma_exprs_view_len,
    lemma_stmts_view_index, lemma_stmts_view_len,
};

verus! {

/// A node of the tree, handed to a callback for reading or changing.
#[derive(Debug)]
pub enum HlrNode<'a> {
    Block(&'a mut Vec<HlrStatement>),
    Statement(&'a mut HlrStatement),
    Expression(&'a mut HlrExpression),
}

/// The traversal enters a node before its children and finishes it after.
#[derive(Debug)]
pub enum HlrVisitEvent<'a> {
    Enter(HlrNode<'a>),
    Finish(HlrNode<'a>),
}

/// What a callback asks of the traversal.
#[derive(Debug, Copy, Clone, PartialEq, Eq, Hash, Structural)]
pub enum Control {
    /// Go on as normal.
    Continue,
    /// Skip the children of the node just entered; the node is still
    /// finished.
    Prune,
}

/// The answer of a callback: whether to skip the children of a node.
pub trait ControlFlow: Sized {
    spec fn spec_prune(&self) -> bool;

    /// Whether the traversal should skip the children of the node.
    fn should_prune(&self) -> (r: bool)
        ensures
            r == self.spec_prune(),
    ;

    /// The answer that goes on with the traversal.
    fn continuing() -> (r: Self)
        ensures
            !r.spec_prune(),
    ;
}

impl ControlFlow for Control {
    open spec fn spec_prune(&self) -> bool {
        *self == Control::Prune
    }

    fn should_prune(&self) -> (r: bool) {
        match self {
            Control::Continue => false,
            Control::Prune => true,
        }
    }

    fn continuing() -> (r: Self) {
        Control::Continue
    }
}

impl ControlFlow for () {
    open spec fn spec_prune(&self) -> bool {
        false
    }

    fn should_prune(&self) -> (r: bool) {
        false
    }

    fn continuing() -> (r: Self) {
    }
}

/// A node of the tree as the model sees it.
pub ghost enum NodeView {
    Block(Seq<StmtView>),
    Statement(StmtView),
    Expression(ExprView),
}

/// Where a visited node is, for a traversal that numbers them.
pub ghost enum Loc {
    Block(BlockLocation),
    Statement(StatementLocation),
    Expression(ExpressionLocation),
    Unnumbered,
}

/// What a traversal did at one node: the node as handed to the enter
/// callback, whether that asked to skip the children, the node as that
/// callback left it, the walks of the children, the node as handed to the
/// finish callback, and as that callback left it.
pub ghost struct VisitTree {
    pub loc: Loc,
    pub entered: NodeView,
    pub pruned: bool,
    pub opened: NodeView,
    pub children: Seq<VisitTree>,
    pub finished: NodeView,
    pub left: NodeView,
}

/// The children a traversal visits, in order: the statements of a block;
/// the expression and blocks of a statement (not an assignment's target);
/// the operands of an expression, a call's function before its arguments.
pub open spec fn children_of(n: NodeView) -> Seq<NodeView> {
    match n {
        NodeView::Block(ss) => Seq::new(ss.len(), |i: int| NodeView::Statement(ss[i])),
        NodeView::Statement(s) => match s {
            StmtView::VarDef(_, e) => seq![NodeView::Expression(e)],
            StmtView::Assignment(_, e) => seq![NodeView::Expression(e)],
            StmtView::Loop(b) => seq![NodeView::Block(b)],
            StmtView::If(c, t, f) => seq![NodeView::Expression(c), NodeView::Block(t), NodeView::Block(f)],
            StmtView::While(c, b) => seq![NodeView::Expression(c), NodeView::Block(b)],
            StmtView::DoWhile(b, c) => seq![NodeView::Block(b), NodeView::Expression(c)],
            StmtView::Return(es) => Seq::new(es.len(), |i: int| NodeView::Expression(es[i])),
            StmtView::Output(e) => seq![NodeView::Expression(e)],
            _ => seq![],
        },
        NodeView::Expression(e) => match e {
            ExprView::Deref(x) => seq![NodeView::Expression(*x)],
            ExprView::BinaryOp { left, right, .. } => seq![NodeView::Expression(*left), NodeView::Expression(*right)],
            ExprView::UnaryOperator { expr, .. } => seq![NodeView::Expression(*expr)],
            ExprView::FunctionCall(f, args) => seq![NodeView::Expression(*f)] + Seq::new(
                args.len(),
                |i: int| NodeView::Expression(args[i]),
            ),
            _ => seq![],
        },
    }
}

pub open spec fn as_stmt(n: NodeView) -> StmtView {
    n->Statement_0
}

pub open spec fn as_expr(n: NodeView) -> ExprView {
    n->Expression_0
}

pub open spec fn as_block(n: NodeView) -> Seq<StmtView> {
    n->Block_0
}

/// The node `n` with its children, in the order of [`children_of`],
/// replaced by `kids`.
pub open spec fn rebuild(n: NodeView, kids: Seq<NodeView>) -> NodeView {
    match n {
        NodeView::Block(ss) => NodeView::Block(Seq::new(kids.len(), |i: int| as_stmt(kids[i]))),
        NodeView::Statement(s) => NodeView::Statement(
            match s {
                StmtView::VarDef(vs, _) => StmtView::VarDef(vs, as_expr(kids[0])),
                StmtView::Assignment(t, _) => StmtView::Assignment(t, as_expr(kids[0])),
                StmtView::Loop(_) => StmtView::Loop(as_block(kids[0])),
                StmtView::If(..) => StmtView::If(as_expr(kids[0]), as_block(kids[1]), as_block(kids[2])),
                StmtView::While(..) => StmtView::While(as_expr(kids[0]), as_block(kids[1])),
                StmtView::DoWhile(..) => StmtView::DoWhile(as_block(kids[0]), as_expr(kids[1])),
                StmtView::Return(_) => StmtView::Return(Seq::new(kids.len(), |i: int| as_expr(kids[i]))),
                StmtView::Output(_) => StmtView::Output(as_expr(kids[0])),
                _ => s,
            },
        ),
        NodeView::Expression(e) => NodeView::Expression(
            match e {
                ExprView::Deref(_) => ExprView::Deref(Box::new(as_expr(kids[0]))),
                ExprView::BinaryOp { op, result_type, .. } => ExprView::BinaryOp {
                    op,
                    left: Box::new(as_expr(kids[0])),
                    right: Box::new(as_expr(kids[1])),
                    result_type,
                },
                ExprView::UnaryOperator { op, .. } => ExprView::UnaryOperator { op, expr: Box::new(as_expr(kids[0])) },
                ExprView::FunctionCall(..) => ExprView::FunctionCall(
                    Box::new(as_expr(kids[0])),
                    Seq::new((kids.len() - 1) as nat, |i: int| as_expr(kids[i + 1])),
                ),
                _ => e,
            },
        ),
    }
}

/// Whether two nodes are of the same kind.
pub open spec fn same_kind(a: NodeView, b: NodeView) -> bool {
    match (a, b) {
        (NodeView::Block(_), NodeView::Block(_)) => true,
        (NodeView::Statement(_), NodeView::Statement(_)) => true,
        (NodeView::Expression(_), NodeView::Expression(_)) => true,
        _ => false,
    }
}

/// The nodes the walks in `kids` left behind.
pub open spec fn lefts(kids: Seq<VisitTree>) -> Seq<NodeView> {
    Seq::new(kids.len(), |i: int| kids[i].left)
}

/// Whether `t` is a depth-first walk of the node it entered, descending at
/// most `depth` levels: the children of the node as the enter callback left
/// it are walked in order unless it asked to skip them, and the finish
/// callback is handed that node with each child as its walk left it.
pub open spec fn walk_ok(t: VisitTree, depth: nat) -> bool
    decreases t,
{
    &&& same_kind(t.entered, t.opened)
    &&& same_kind(t.entered, t.finished)
    &&& same_kind(t.entered, t.left)
    &&& if t.pruned || depth == 0 {
        &&& t.children.len() == 0
        &&& t.finished == t.opened
    } else {
        &&& t.children.len() == children_of(t.opened).len()
        &&& forall|k: int| 0 <= k < t.children.len() ==> (#[trigger] t.children[k]).entered == children_of(t.opened)[k]
            && walk_ok(t.children[k], (depth - 1) as nat)
        &&& t.finished == rebuild(t.opened, lefts(t.children))
    }
}

/// A counter that stops at `usize::MAX`.
pub open spec fn bump(n: usize) -> usize {
    if n < usize::MAX {
        (n + 1) as usize
    } else {
        n
    }
}

/// The counters after numbering the node `n` itself.
pub open spec fn bump_for(n: NodeView, c: LocationCounters) -> LocationCounters {
    match n {
        NodeView::Block(_) => LocationCounters { next_block_id: bump(c.next_block_id), ..c },
        NodeView::Statement(_) => LocationCounters { next_statement_id: bump(c.next_statement_id), ..c },
        NodeView::Expression(_) => LocationCounters { next_expression_id: bump(c.next_expression_id), ..c },
    }
}

/// The counters after the walk `t`, from `c`.
pub open spec fn counters_after(t: VisitTree, c: LocationCounters) -> LocationCounters
    decreases t, 0int,
{
    counters_kids(t.children, t.children.len() as int, bump_for(t.entered, c))
}

/// The counters after the first `n` walks of `kids`, from `c`.
pub open spec fn counters_kids(kids: Seq<VisitTree>, n: int, c: LocationCounters) -> LocationCounters
    decreases kids, n,
{
    if n <= 0 || n > kids.len() {
        c
    } else {
        counters_after(kids[n - 1], counters_kids(kids, n - 1, c))
    }
}

/// The counters after the first `n` walks depend on those walks only.
proof fn lemma_counters_kids_prefix(a: Seq<VisitTree>, b: Seq<VisitTree>, n: int, c: LocationCounters)
    requires
        0 <= n <= a.len(),
        n <= b.len(),
        forall|j: int| 0 <= j < n ==> a[j] == b[j],
    ensures
        counters_kids(a, n, c) == counters_kids(b, n, c),
    decreases n,
{
    if n > 0 {
        lemma_counters_kids_prefix(a, b, n - 1, c);
    }
}

/// Whether the walk `t`, started with the counters `c` inside the block
/// `blk` and, for an expression, the statement `st`, numbers each node as it
/// is entered.
pub open spec fn numbered(t: VisitTree, c: LocationCounters, blk: BlockLocation, st: StatementLocation) -> bool
    decreases t,
{
    let inner = bump_for(t.entered, c);
    &&& t.loc == match t.entered {
        NodeView::Block(_) => Loc::Block(BlockLocation { block_id: c.next_block_id }),
        NodeView::Statement(_) => Loc::Statement(StatementLocation { block_location: blk, statement_id: c.next_statement_id }),
        NodeView::Expression(_) => Loc::Expression(ExpressionLocation { containing_statement: st, expression_id: c.next_expression_id }),
    }
    &&& forall|k: int|
        0 <= k < t.children.len() ==> numbered(
            #[trigger] t.children[k],
            counters_kids(t.children, k, inner),
            match t.loc {
                Loc::Block(b) => b,
                _ => blk,
            },
            match t.loc {
                Loc::Statement(s) => s,
                _ => st,
            },
        )
}

/// Callbacks that may be called with any event, and never ask to skip
/// children when a node is finished.
pub open spec fn finish_never_prunes<C: ControlFlow, F: FnMut(HlrVisitEvent) -> C>(f: F) -> bool {
    &&& forall|e: HlrVisitEvent| call_requires(f, (e,))
    &&& forall|n: HlrNode, c: C| call_ensures(f, (HlrVisitEvent::Finish(n),), c) ==> !c.spec_prune()
}

/// Visits every block, statement and expression of `func` in depth-first
/// order: each node is entered, then its children are visited unless the
/// callback asked to prune, then it is finished. Nesting deeper than
/// `usize::MAX` levels is not descended into. The walk it made is returned:
/// a depth-first walk of the body (see [`walk_ok`]), and the body is left as
/// the walk left it.
pub fn visit_function<C: ControlFlow, F: FnMut(HlrVisitEvent) -> C>(func: &mut HlrFunction, visitor: F) -> (walk: Ghost<
    VisitTree,
>)
    requires
        finish_never_prunes(visitor),
    ensures
        walk@.entered == NodeView::Block(stmts_view(old(func).body@)),
        walk@.left == NodeView::Block(stmts_view(final(func).body@)),
        walk_ok(walk@, usize::MAX as nat),
{
    let mut visitor = visitor;
    visit_block(&mut func.body, &mut visitor, usize::MAX)
}

/// A node of a walk that does not number its nodes, over children walked
/// as [`walk_ok`] asks, is a walk.
proof fn lemma_plain_node_ok(t: VisitTree, depth: nat)
    requires
        same_kind(t.entered, t.opened),
        same_kind(t.entered, t.finished),
        same_kind(t.entered, t.left),
        (t.pruned || depth == 0) ==> t.children.len() == 0 && t.finished == t.opened,
        !(t.pruned || depth == 0) ==> t.children.len() == children_of(t.opened).len() && t.finished == rebuild(t.opened, lefts(t.children))
            && forall|k: int| 0 <= k < t.children.len() ==> (#[trigger] t.children[k]).entered == children_of(t.opened)[k],
        forall|k: int| 0 <= k < t.children.len() ==> walk_ok(#[trigger] t.children[k], (depth - 1) as nat),
    ensures
        walk_ok(t, depth),
{
}

fn visit_block<C: ControlFlow, F: FnMut(HlrVisitEvent) -> C>(block: &mut Vec<HlrStatement>, visitor: &mut F, depth: usize) -> (t: Ghost<
    VisitTree,
>)
    requires
        finish_never_prunes(*old(visitor)),
    ensures
        finish_never_prunes(*final(visitor)),
        t@.entered == NodeView::Block(stmts_view(old(block)@)),
        t@.left == NodeView::Block(stmts_view(final(block)@)),
        walk_ok(t@, depth as nat),
    decreases depth,
{
    let ghost b0 = stmts_view(block@);
    let control = visitor(HlrVisitEvent::Enter(HlrNode::Block(block)));
    let pruned = control.should_prune();
    let ghost opened_v = block@;
    let ghost opened = NodeView::Block(stmts_view(block@));
    let ghost mut kids: Seq<VisitTree> = seq![];
    proof {
        lemma_stmts_view_len(opened_v);
    }
    if !pruned && depth > 0 {
        let mut i: usize = 0;
        while i < block.len()
            invariant
                finish_never_prunes(*visitor),
                depth > 0,
                i <= block@.len(),
                block@.len() == opened_v.len(),
                kids.len() == i,
                forall|j: int| i <= j < block@.len() ==> #[trigger] block@[j] == opened_v[j],
                forall|j: int|
                    0 <= j < i ==> (#[trigger] kids[j]).entered == NodeView::Statement(stmt_view(opened_v[j])) && kids[j].left
                        == NodeView::Statement(stmt_view(block@[j])) && walk_ok(kids[j], (depth - 1) as nat),
            decreases block.len() - i,
        {
            let ghost kb = kids;
            let ghost bb = block@;
            let k = visit_statement(&mut block[i], visitor, depth - 1);
            proof {
                kids = kb.push(k@);
                assert(block@ == bb.update(i as int, block@[i as int]));
            }
            i = i + 1;
        }
    }
    let ghost finished_v = block@;
    let ghost finished = NodeView::Block(stmts_view(block@));
    let _ = visitor(HlrVisitEvent::Finish(HlrNode::Block(block)));
    let ghost t = VisitTree {
        loc: Loc::Unnumbered,
        entered: NodeView::Block(b0),
        pruned,
        opened,
        children: kids,
        finished,
        left: NodeView::Block(stmts_view(block@)),
    };
    proof {
        lemma_stmts_view_len(finished_v);
        if !(pruned || depth == 0) {
            let ch = children_of(opened);
            assert forall|k: int| 0 <= k < kids.len() implies (#[trigger] kids[k]).entered == ch[k] by {
                lemma_stmts_view_index(opened_v, k);
            }
            assert forall|k: int| 0 <= k < kids.len() implies #[trigger] stmts_view(finished_v)[k] == as_stmt(lefts(kids)[k]) by {
                lemma_stmts_view_index(finished_v, k);
            }
            assert(stmts_view(finished_v) =~= Seq::new(kids.len(), |i: int| as_stmt(lefts(kids)[i])));
        }
        assert(t.children == kids);
        lemma_plain_node_ok(t, depth as nat);
    }
    Ghost(t)
}

#[verifier::spinoff_prover]
#[verifier::rlimit(60)]
fn visit_statement<C: ControlFlow, F: FnMut(HlrVisitEvent) -> C>(stmt: &mut HlrStatement, visitor: &mut F, depth: usize) -> (t: Ghost<
    VisitTree,
>)
    requires
        finish_never_prunes(*old(visitor)),
    ensures
        finish_never_prunes(*final(visitor)),
        t@.entered == NodeView::Statement(stmt_view(*old(stmt))),
        t@.left == NodeView::Statement(stmt_view(*final(stmt))),
        walk_ok(t@, depth as nat),
    decreases depth,
{
    let ghost s0 = stmt_view(*stmt);
    let control = visitor(HlrVisitEvent::Enter(HlrNode::Statement(stmt)));
    let pruned = control.should_prune();
    let ghost opened = NodeView::Statement(stmt_view(*stmt));
    let ghost mut kids: Seq<VisitTree> = seq![];
    if !pruned && depth > 0 {
        match stmt {
            HlrStatement::VarDef(_, expr) => {
                let k = visit_expression(expr, visitor, depth - 1);
                proof {
                    kids = seq![k@];
                }
            },
            HlrStatement::Loop(body) => {
                let k = visit_block(body, visitor, depth - 1);
                proof {
                    kids = seq![k@];
                }
            },
            HlrStatement::Assignment(_, expr) => {
                let k = visit_expression(expr, visitor, depth - 1);
                proof {
                    kids = seq![k@];
                }
            },
            HlrStatement::If(cond, then_branch, else_branch) => {
                let k0 = visit_expression(cond, visitor, depth - 1);
                let k1 = visit_block(then_branch, visitor, depth - 1);
                let k2 = visit_block(else_branch, visitor, depth - 1);
                proof {
                    kids = seq![k0@, k1@, k2@];
                }
            },
            HlrStatement::While(cond, body) => {
                let k0 = visit_expression(cond, visitor, depth - 1);
                let k1 = visit_block(body, visitor, depth - 1);
                proof {
                    kids = seq![k0@, k1@];
                }
            },
            HlrStatement::DoWhile(body, cond) => {
                let k0 = visit_block(body, visitor, depth - 1);
                let k1 = visit_expression(cond, visitor, depth - 1);
                proof {
                    kids = seq![k0@, k1@];
                }
            },
            HlrStatement::Return(exprs) => {
                let ghost es0 = exprs@;
                let r = visit_exprs(exprs, visitor, depth - 1);
                proof {
                    kids = r@;
                    lemma_exprs_view_len(es0);
                    lemma_exprs_view_len(exprs@);
                    let ch = children_of(NodeView::Statement(StmtView::Return(exprs_view(es0))));
                    assert forall|k: int| 0 <= k < kids.len() implies (#[trigger] kids[k]).entered == ch[k] by {
                        lemma_exprs_view_index(es0, k);
                    }
                    assert forall|k: int| 0 <= k < kids.len() implies #[trigger] exprs_view(exprs@)[k] == as_expr(lefts(kids)[k]) by {
                        lemma_exprs_view_index(exprs@, k);
                    }
                    assert(exprs_view(exprs@) =~= Seq::new(kids.len(), |i: int| as_expr(lefts(kids)[i])));
                }
            },
            HlrStatement::Output(expr) => {
                let k = visit_expression(expr, visitor, depth - 1);
                proof {
                    kids = seq![k@];
                }
            },
            _ => {},
        }
    }
    let ghost finished = NodeView::Statement(stmt_view(*stmt));
    let _ = visitor(HlrVisitEvent::Finish(HlrNode::Statement(stmt)));
    let ghost t = VisitTree {
        loc: Loc::Unnumbered,
        entered: NodeView::Statement(s0),
        pruned,
        opened,
        children: kids,
        finished,
        left: NodeView::Statement(stmt_view(*stmt)),
    };
    proof {
        assert(t.children == kids);
        lemma_plain_node_ok(t, depth as nat);
    }
    Ghost(t)
}

/// Visits the expressions of `exprs` in order.
fn visit_exprs<C: ControlFlow, F: FnMut(HlrVisitEvent) -> C>(exprs: &mut Vec<HlrExpression>, visitor: &mut F, depth: usize) -> (r: Ghost<
    Seq<VisitTree>,
>)
    requires
        finish_never_prunes(*old(visitor)),
    ensures
        finish_never_prunes(*final(visitor)),
        final(exprs)@.len() == old(exprs)@.len(),
        r@.len() == old(exprs)@.len(),
        forall|j: int|
            0 <= j < r@.len() ==> (#[trigger] r@[j]).entered == NodeView::Expression(expr_view(old(exprs)@[j])) && r@[j].left
                == NodeView::Expression(expr_view(final(exprs)@[j])) && walk_ok(r@[j], depth as nat),
    decreases depth, 1int,
{
    let ghost es0 = exprs@;
    let ghost mut kids: Seq<VisitTree> = seq![];
    let mut i: usize = 0;
    while i < exprs.len()
        invariant
            finish_never_prunes(*visitor),
            i <= exprs@.len(),
            exprs@.len() == es0.len(),
            kids.len() == i,
            forall|j: int| i <= j < exprs@.len() ==> #[trigger] exprs@[j] == es0[j],
            forall|j: int|
                0 <= j < i ==> (#[trigger] kids[j]).entered == NodeView::Expression(expr_view(es0[j])) && kids[j].left
                    == NodeView::Expression(expr_view(exprs@[j])) && walk_ok(kids[j], depth as nat),
        decreases exprs.len() - i,
    {
        let ghost kb = kids;
        let ghost eb = exprs@;
        let k = visit_expression(&mut exprs[i], visitor, depth);
        proof {
            kids = kb.push(k@);
            assert(exprs@ == eb.update(i as int, exprs@[i as int]));
        }
        i = i + 1;
    }
    Ghost(kids)
}

#[verifier::spinoff_prover]
#[verifier::rlimit(60)]
fn visit_expression<C: ControlFlow, F: FnMut(HlrVisitEvent) -> C>(expr: &mut HlrExpression, visitor: &mut F, depth: usize) -> (t: Ghost<
    VisitTree,
>)
    requires
        finish_never_prunes(*old(visitor)),
    ensures
        finish_never_prunes(*final(visitor)),
        t@.entered == NodeView::Expression(expr_view(*old(expr))),
        t@.left == NodeView::Expression(expr_view(*final(expr))),
        walk_ok(t@, depth as nat),
    decreases depth, 0int,
{
    let ghost e0 = expr_view(*expr);
    let control = visitor(HlrVisitEvent::Enter(HlrNode::Expression(expr)));
    let pruned = control.should_prune();
    let ghost opened = NodeView::Expression(expr_view(*expr));
    let ghost mut kids: Seq<VisitTree> = seq![];
    if !pruned && depth > 0 {
        match expr {
            HlrExpression::Deref(inner) => {
                let k = visit_expression(inner, visitor, depth - 1);
                proof {
                    kids = seq![k@];
                }
            },
            HlrExpression::BinaryOp { left, right, .. } => {
                let k1 = visit_expression(left, visitor, depth - 1);
                let k2 = visit_expression(right, visitor, depth - 1);
                proof {
                    kids = seq![k1@, k2@];
                }
            },
            HlrExpression::UnaryOperator { expr: inner, .. } => {
                let k = visit_expression(inner, visitor, depth - 1);
                proof {
                    kids = seq![k@];
                }
            },
            HlrExpression::FunctionCall(func, args) => {
                let k0 = visit_expression(func, visitor, depth - 1);
                let ghost args0 = args@;
                let r = visit_exprs(args, visitor, depth - 1);
                proof {
                    let first = seq![k0@];
                    kids = first + r@;
                    lemma_exprs_view_len(args0);
                    lemma_exprs_view_len(args@);
                    assert forall|k: int| 0 <= k < r@.len() implies #[trigger] kids[k + 1] == r@[k] by {}
                    assert forall|k: int| 0 <= k < args0.len() implies kids[k + 1].entered == NodeView::Expression(
                        #[trigger] exprs_view(args0)[k],
                    ) by {
                        lemma_exprs_view_index(args0, k);
                    }
                    assert forall|k: int| 0 <= k < r@.len() implies #[trigger] exprs_view(args@)[k] == as_expr(lefts(kids)[k + 1]) by {
                        lemma_exprs_view_index(args@, k);
                    }
                    assert(exprs_view(args@) =~= Seq::new((kids.len() - 1) as nat, |i: int| as_expr(lefts(kids)[i + 1])));
                }
            },
            _ => {},
        }
    }
    let ghost finished = NodeView::Expression(expr_view(*expr));
    let _ = visitor(HlrVisitEvent::Finish(HlrNode::Expression(expr)));
    let ghost t = VisitTree {
        loc: Loc::Unnumbered,
        entered: NodeView::Expression(e0),
        pruned,
        opened,
        children: kids,
        finished,
        left: NodeView::Expression(expr_view(*expr)),
    };
    proof {
        assert(t.children == kids);
        lemma_plain_node_ok(t, depth as nat);
    }
    Ghost(t)
}

/// Where a block is: blocks are numbered in the order they are entered.
#[derive(Debug, Copy, Clone, PartialEq, Eq, Hash, PartialOrd, Ord, Structural)]
pub struct BlockLocation {
    pub block_id: usize,
}

/// Where a statement is: its block, and its number in the order statements
/// are entered.
#[derive(Debug, Copy, Clone, PartialEq, Eq, Hash, PartialOrd, Ord, Structural)]
pub struct StatementLocation {
    pub block_location: BlockLocation,
    pub statement_id: usize,
}

/// Where an expression is: its statement, and its number in the order
/// expressions are entered.
#[derive(Debug, Copy, Clone, PartialEq, Eq, Hash, PartialOrd, Ord, Structural)]
pub struct ExpressionLocation {
    pub containing_statement: StatementLocation,
    pub expression_id: usize,
}

impl StatementLocation {
    pub fn get_containing_block(&self) -> (r: BlockLocation)
        ensures
            r == self.block_location,
    {
        self.block_location
    }
}

impl ExpressionLocation {
    pub fn get_containing_statement(&self) -> (r: StatementLocation)
        ensures
            r == self.containing_statement,
    {
        self.containing_statement
    }

    pub fn get_containing_block(&self) -> (r: BlockLocation)
        ensures
            r == self.containing_statement.block_location,
    {
        self.containing_statement.get_containing_block()
    }
}

/// Callbacks of a traversal that tells each node where it is. A finish
/// callback never asks to skip children.
pub trait HlrFunctionVisitor<C: ControlFlow> {
    fn enter_block(&mut self, location: BlockLocation, block: &mut Vec<HlrStatement>) -> (r: C) {
        C::continuing()
    }

    fn finish_block(&mut self, location: BlockLocation, block: &mut Vec<HlrStatement>) -> (r: C)
        ensures
            !r.spec_prune(),
    {
        C::continuing()
    }

    fn enter_statement(&mut self, location: StatementLocation, stmt: &mut HlrStatement) -> (r: C) {
        C::continuing()
    }

    fn finish_statement(&mut self, location: StatementLocation, stmt: &mut HlrStatement) -> (r: C)
        ensures
            !r.spec_prune(),
    {
        C::continuing()
    }

    fn enter_expression(&mut self, location: ExpressionLocation, expr: &mut HlrExpression) -> (r: C) {
        C::continuing()
    }

    fn finish_expression(&mut self, location: ExpressionLocation, expr: &mut HlrExpression) -> (r: C)
        ensures
            !r.spec_prune(),
    {
        C::continuing()
    }
}

/// The counters that number blocks, statements and expressions.
pub struct LocationCounters {
    pub next_block_id: usize,
    pub next_statement_id: usize,
    pub next_expression_id: usize,
}

/// Whether the walks `kids` are numbered in turn from the counters `base`.
pub open spec fn kids_numbered(kids: Seq<VisitTree>, base: LocationCounters, blk: BlockLocation, st: StatementLocation) -> bool {
    forall|k: int| 0 <= k < kids.len() ==> numbered(#[trigger] kids[k], counters_kids(kids, k, base), blk, st)
}

/// A node walked as [`walk_ok`] asks, over children walked so, is a walk.
proof fn lemma_node_ok(t: VisitTree, c0: LocationCounters, depth: nat, blk: BlockLocation, st: StatementLocation)
    requires
        t.loc == match t.entered {
            NodeView::Block(_) => Loc::Block(BlockLocation { block_id: c0.next_block_id }),
            NodeView::Statement(_) => Loc::Statement(StatementLocation { block_location: blk, statement_id: c0.next_statement_id }),
            NodeView::Expression(_) => Loc::Expression(ExpressionLocation { containing_statement: st, expression_id: c0.next_expression_id }),
        },
        same_kind(t.entered, t.opened),
        same_kind(t.entered, t.finished),
        same_kind(t.entered, t.left),
        (t.pruned || depth == 0) ==> t.children.len() == 0 && t.finished == t.opened,
        !(t.pruned || depth == 0) ==> t.children.len() == children_of(t.opened).len() && t.finished == rebuild(t.opened, lefts(t.children))
            && forall|k: int| 0 <= k < t.children.len() ==> (#[trigger] t.children[k]).entered == children_of(t.opened)[k],
        forall|k: int| 0 <= k < t.children.len() ==> walk_ok(#[trigger] t.children[k], (depth - 1) as nat),
        kids_numbered(
            t.children,
            bump_for(t.entered, c0),
            match t.loc {
                Loc::Block(b) => b,
                _ => blk,
            },
            match t.loc {
                Loc::Statement(s) => s,
                _ => st,
            },
        ),
    ensures
        walk_ok(t, depth),
        numbered(t, c0, blk, st),
        counters_after(t, c0) == counters_kids(t.children, t.children.len() as int, bump_for(t.entered, c0)),
{
}

/// Visits `func` as [`visit_function`] does, numbering the blocks,
/// statements and expressions in the order they are entered, from 0. A
/// counter stops at `usize::MAX`. The walk it made is returned: it is a
/// depth-first walk of the body (see [`walk_ok`]) whose nodes are numbered
/// so (see [`numbered`]), and the body is left as the walk left it.
pub fn visit_with_locations<C: ControlFlow, F: HlrFunctionVisitor<C>>(func: &mut HlrFunction, visitor: &mut F) -> (walk: Ghost<
    VisitTree,
>)
    ensures
        walk@.entered == NodeView::Block(stmts_view(old(func).body@)),
        walk@.left == NodeView::Block(stmts_view(final(func).body@)),
        walk_ok(walk@, usize::MAX as nat),
        numbered(
            walk@,
            LocationCounters { next_block_id: 0, next_statement_id: 0, next_expression_id: 0 },
            BlockLocation { block_id: 0 },
            StatementLocation { block_location: BlockLocation { block_id: 0 }, statement_id: 0 },
        ),
{
    let mut counters = LocationCounters { next_block_id: 0, next_statement_id: 0, next_expression_id: 0 };
    let blk = BlockLocation { block_id: 0 };
    visit_block_at(
        &mut func.body,
        visitor,
        &mut counters,
        usize::MAX,
        Ghost(blk),
        Ghost(StatementLocation { block_location: blk, statement_id: 0 }),
    )
}

fn next_id(n: &mut usize) -> (r: usize)
    ensures
        r == *old(n),
        *final(n) == if *old(n) < usize::MAX {
            *old(n) + 1
        } else {
            *old(n) as int
        },
{
    let r = *n;
    if *n < usize::MAX {
        *n = *n + 1;
    }
    r
}

fn visit_block_at<C: ControlFlow, F: HlrFunctionVisitor<C>>(
    block: &mut Vec<HlrStatement>,
    visitor: &mut F,
    counters: &mut LocationCounters,
    depth: usize,
    Ghost(blk): Ghost<BlockLocation>,
    Ghost(st): Ghost<StatementLocation>,
) -> (t: Ghost<VisitTree>)
    ensures
        t@.entered == NodeView::Block(stmts_view(old(block)@)),
        t@.left == NodeView::Block(stmts_view(final(block)@)),
        walk_ok(t@, depth as nat),
        numbered(t@, *old(counters), blk, st),
        *final(counters) == counters_after(t@, *old(counters)),
    decreases depth,
{
    let ghost c0 = *counters;
    let ghost b0 = stmts_view(block@);
    let location = BlockLocation { block_id: next_id(&mut counters.next_block_id) };
    let ghost inner_c = *counters;
    let control = visitor.enter_block(location, block);
    let pruned = control.should_prune();
    let ghost opened_v = block@;
    let ghost opened = NodeView::Block(stmts_view(block@));
    let ghost mut kids: Seq<VisitTree> = seq![];
    proof {
        lemma_stmts_view_len(opened_v);
    }
    if !pruned && depth > 0 {
        let mut i: usize = 0;
        while i < block.len()
            invariant
                depth > 0,
                i <= block@.len(),
                block@.len() == opened_v.len(),
                kids.len() == i,
                forall|j: int| i <= j < block@.len() ==> #[trigger] block@[j] == opened_v[j],
                forall|j: int|
                    0 <= j < i ==> (#[trigger] kids[j]).entered == NodeView::Statement(stmt_view(opened_v[j])) && kids[j].left
                        == NodeView::Statement(stmt_view(block@[j])) && walk_ok(kids[j], (depth - 1) as nat) && numbered(
                        kids[j],
                        counters_kids(kids, j, inner_c),
                        location,
                        st,
                    ),
                *counters == counters_kids(kids, kids.len() as int, inner_c),
            decreases block.len() - i,
        {
            let ghost kb = kids;
            let ghost bb = block@;
            let k = visit_statement_at(&mut block[i], location, visitor, counters, depth - 1, Ghost(st));
            proof {
                kids = kb.push(k@);
                assert forall|j: int| 0 <= j <= kb.len() implies counters_kids(kids, j, inner_c) == counters_kids(kb, j, inner_c) by {
                    lemma_counters_kids_prefix(kb, kids, j, inner_c);
                }
                assert(block@ == bb.update(i as int, block@[i as int]));
            }
            i = i + 1;
        }
    }
    let ghost finished_v = block@;
    let ghost finished = NodeView::Block(stmts_view(block@));
    let _ = visitor.finish_block(location, block);
    let ghost t = VisitTree {
        loc: Loc::Block(location),
        entered: NodeView::Block(b0),
        pruned,
        opened,
        children: kids,
        finished,
        left: NodeView::Block(stmts_view(block@)),
    };
    proof {
        reveal_with_fuel(counters_kids, 2);
        lemma_stmts_view_len(finished_v);
        if !(pruned || depth == 0) {
            let ch = children_of(opened);
            assert forall|k: int| 0 <= k < kids.len() implies (#[trigger] kids[k]).entered == ch[k] by {
                lemma_stmts_view_index(opened_v, k);
            }
            assert forall|k: int| 0 <= k < kids.len() implies #[trigger] stmts_view(finished_v)[k] == as_stmt(lefts(kids)[k]) by {
                lemma_stmts_view_index(finished_v, k);
            }
            assert(stmts_view(finished_v) =~= Seq::new(kids.len(), |i: int| as_stmt(lefts(kids)[i])));
        }
    }
    Ghost(t)
}

#[verifier::spinoff_prover]
#[verifier::rlimit(60)]
fn visit_statement_at<C: ControlFlow, F: HlrFunctionVisitor<C>>(
    stmt: &mut HlrStatement,
    block_location: BlockLocation,
    visitor: &mut F,
    counters: &mut LocationCounters,
    depth: usize,
    Ghost(st): Ghost<StatementLocation>,
) -> (t: Ghost<VisitTree>)
    ensures
        t@.entered == NodeView::Statement(stmt_view(*old(stmt))),
        t@.left == NodeView::Statement(stmt_view(*final(stmt))),
        walk_ok(t@, depth as nat),
        numbered(t@, *old(counters), block_location, st),
        *final(counters) == counters_after(t@, *old(counters)),
    decreases depth,
{
    let ghost c0 = *counters;
    let ghost s0 = stmt_view(*stmt);
    let location = StatementLocation { block_location, statement_id: next_id(&mut counters.next_statement_id) };
    let ghost inner_c = *counters;
    let control = visitor.enter_statement(location, stmt);
    let pruned = control.should_prune();
    let ghost opened = NodeView::Statement(stmt_view(*stmt));
    let ghost mut kids: Seq<VisitTree> = seq![];
    if !pruned && depth > 0 {
        match stmt {
            HlrStatement::VarDef(_, expr) => {
                let k = visit_expression_at(expr, location, visitor, counters, depth - 1);
                proof {
                    kids = seq![k@];
                    assert(kids_numbered(kids, inner_c, block_location, location) && *counters == counters_kids(kids, kids.len() as int, inner_c)) by {
                        reveal_with_fuel(counters_kids, 4);
                    }
                }
            },
            HlrStatement::Loop(body) => {
                let k = visit_block_at(body, visitor, counters, depth - 1, Ghost(block_location), Ghost(location));
                proof {
                    kids = seq![k@];
                    assert(kids_numbered(kids, inner_c, block_location, location) && *counters == counters_kids(kids, kids.len() as int, inner_c)) by {
                        reveal_with_fuel(counters_kids, 4);
                    }
                }
            },
            HlrStatement::Assignment(_, expr) => {
                let k = visit_expression_at(expr, location, visitor, counters, depth - 1);
                proof {
                    kids = seq![k@];
                    assert(kids_numbered(kids, inner_c, block_location, location) && *counters == counters_kids(kids, kids.len() as int, inner_c)) by {
                        reveal_with_fuel(counters_kids, 4);
                    }
                }
            },
            HlrStatement::If(cond, then_branch, else_branch) => {
                let k0 = visit_expression_at(cond, location, visitor, counters, depth - 1);
                let k1 = visit_block_at(then_branch, visitor, counters, depth - 1, Ghost(block_location), Ghost(location));
                let k2 = visit_block_at(else_branch, visitor, counters, depth - 1, Ghost(block_location), Ghost(location));
                proof {
                    kids = seq![k0@, k1@, k2@];
                    assert(kids_numbered(kids, inner_c, block_location, location) && *counters == counters_kids(kids, kids.len() as int, inner_c)) by {
                        reveal_with_fuel(counters_kids, 4);
                    }
                }
            },
            HlrStatement::While(cond, body) => {
                let k0 = visit_expression_at(cond, location, visitor, counters, depth - 1);
                let k1 = visit_block_at(body, visitor, counters, depth - 1, Ghost(block_location), Ghost(location));
                proof {
                    kids = seq![k0@, k1@];
                    assert(kids_numbered(kids, inner_c, block_location, location) && *counters == counters_kids(kids, kids.len() as int, inner_c)) by {
                        reveal_with_fuel(counters_kids, 4);
                    }
                }
            },
            HlrStatement::DoWhile(body, cond) => {
                let k0 = visit_block_at(body, visitor, counters, depth - 1, Ghost(block_location), Ghost(location));
                let k1 = visit_expression_at(cond, location, visitor, counters, depth - 1);
                proof {
                    kids = seq![k0@, k1@];
                    assert(kids_numbered(kids, inner_c, block_location, location) && *counters == counters_kids(kids, kids.len() as int, inner_c)) by {
                        reveal_with_fuel(counters_kids, 4);
                    }
                }
            },
            HlrStatement::Return(exprs) => {
                let ghost es0 = exprs@;
                proof {
                    reveal_with_fuel(counters_kids, 2);
                }
                let ghost none: Seq<VisitTree> = Seq::empty();
                let r = visit_exprs_at(exprs, location, visitor, counters, depth - 1, Ghost(none), Ghost(inner_c));
                proof {
                    kids = r@;
                    assert(none + r@ =~= r@);
                    assert(kids_numbered(kids, inner_c, block_location, location));
                    lemma_exprs_view_len(es0);
                    lemma_exprs_view_len(exprs@);
                    let ch = children_of(NodeView::Statement(StmtView::Return(exprs_view(es0))));
                    assert forall|k: int| 0 <= k < kids.len() implies (#[trigger] kids[k]).entered == ch[k] by {
                        lemma_exprs_view_index(es0, k);
                    }
                    assert forall|k: int| 0 <= k < kids.len() implies #[trigger] exprs_view(exprs@)[k] == as_expr(lefts(kids)[k]) by {
                        lemma_exprs_view_index(exprs@, k);
                    }
                    assert(exprs_view(exprs@) =~= Seq::new(kids.len(), |i: int| as_expr(lefts(kids)[i])));
                }
            },
            HlrStatement::Output(expr) => {
                let k = visit_expression_at(expr, location, visitor, counters, depth - 1);
                proof {
                    kids = seq![k@];
                    assert(kids_numbered(kids, inner_c, block_location, location) && *counters == counters_kids(kids, kids.len() as int, inner_c)) by {
                        reveal_with_fuel(counters_kids, 4);
                    }
                }
            },
            _ => {},
        }
    }
    proof {
        if kids.len() == 0 {
            assert(*counters == counters_kids(kids, 0, inner_c));
        }
    }
    let ghost finished = NodeView::Statement(stmt_view(*stmt));
    let _ = visitor.finish_statement(location, stmt);
    let ghost t = VisitTree {
        loc: Loc::Statement(location),
        entered: NodeView::Statement(s0),
        pruned,
        opened,
        children: kids,
        finished,
        left: NodeView::Statement(stmt_view(*stmt)),
    };
    proof {
        assert(t.children == kids);
        lemma_node_ok(t, c0, depth as nat, block_location, st);
    }
    Ghost(t)
}

/// Visits the expressions of `exprs` in order, after the walks `before`
/// that started from the counters `base`.
fn visit_exprs_at<C: ControlFlow, F: HlrFunctionVisitor<C>>(
    exprs: &mut Vec<HlrExpression>,
    statement: StatementLocation,
    visitor: &mut F,
    counters: &mut LocationCounters,
    depth: usize,
    Ghost(before): Ghost<Seq<VisitTree>>,
    Ghost(base): Ghost<LocationCounters>,
) -> (r: Ghost<Seq<VisitTree>>)
    requires
        *old(counters) == counters_kids(before, before.len() as int, base),
    ensures
        final(exprs)@.len() == old(exprs)@.len(),
        r@.len() == old(exprs)@.len(),
        forall|j: int|
            0 <= j < r@.len() ==> (#[trigger] r@[j]).entered == NodeView::Expression(expr_view(old(exprs)@[j])) && r@[j].left
                == NodeView::Expression(expr_view(final(exprs)@[j])) && walk_ok(r@[j], depth as nat) && numbered(
                r@[j],
                counters_kids(before + r@, before.len() + j, base),
                statement.block_location,
                statement,
            ),
        *final(counters) == counters_kids(before + r@, (before.len() + r@.len()) as int, base),
    decreases depth, 1int,
{
    let ghost es0 = exprs@;
    let ghost mut kids: Seq<VisitTree> = seq![];
    proof {
        assert(before + kids =~= before);
    }
    let mut i: usize = 0;
    while i < exprs.len()
        invariant
            i <= exprs@.len(),
            exprs@.len() == es0.len(),
            kids.len() == i,
            forall|j: int| i <= j < exprs@.len() ==> #[trigger] exprs@[j] == es0[j],
            forall|j: int|
                0 <= j < i ==> (#[trigger] kids[j]).entered == NodeView::Expression(expr_view(es0[j])) && kids[j].left
                    == NodeView::Expression(expr_view(exprs@[j])) && walk_ok(kids[j], depth as nat) && numbered(
                    kids[j],
                    counters_kids(before + kids, before.len() + j, base),
                    statement.block_location,
                    statement,
                ),
            *counters == counters_kids(before + kids, (before.len() + kids.len()) as int, base),
        decreases exprs.len() - i,
    {
        let ghost kb = kids;
        let ghost eb = exprs@;
        let k = visit_expression_at(&mut exprs[i], statement, visitor, counters, depth);
        proof {
            kids = kb.push(k@);
            assert(before + kids =~= (before + kb).push(k@));
            assert forall|j: int| 0 <= j <= before.len() + kb.len() implies counters_kids(before + kids, j, base) == counters_kids(
                before + kb,
                j,
                base,
            ) by {
                lemma_counters_kids_prefix(before + kb, before + kids, j, base);
            }
            assert(exprs@ == eb.update(i as int, exprs@[i as int]));
        }
        i = i + 1;
    }
    Ghost(kids)
}

#[verifier::spinoff_prover]
#[verifier::rlimit(60)]
fn visit_expression_at<C: ControlFlow, F: HlrFunctionVisitor<C>>(
    expr: &mut HlrExpression,
    statement: StatementLocation,
    visitor: &mut F,
    counters: &mut LocationCounters,
    depth: usize,
) -> (t: Ghost<VisitTree>)
    ensures
        t@.entered == NodeView::Expression(expr_view(*old(expr))),
        t@.left == NodeView::Expression(expr_view(*final(expr))),
        walk_ok(t@, depth as nat),
        numbered(t@, *old(counters), statement.block_location, statement),
        *final(counters) == counters_after(t@, *old(counters)),
    decreases depth, 0int,
{
    let ghost c0 = *counters;
    let ghost e0 = expr_view(*expr);
    let location = ExpressionLocation {
        containing_statement: statement,
        expression_id: next_id(&mut counters.next_expression_id),
    };
    let ghost inner_c = *counters;
    assert(inner_c == bump_for(NodeView::Expression(e0), c0));
    let control = visitor.enter_expression(location, expr);
    let pruned = control.should_prune();
    let ghost opened = NodeView::Expression(expr_view(*expr));
    let ghost mut kids: Seq<VisitTree> = seq![];
    if !pruned && depth > 0 {
        match expr {
            HlrExpression::Deref(inner) => {
                let k = visit_expression_at(inner, statement, visitor, counters, depth - 1);
                proof {
                    kids = seq![k@];
                    assert(kids_numbered(kids, inner_c, statement.block_location, statement) && *counters == counters_kids(kids, kids.len() as int, inner_c)) by {
                        reveal_with_fuel(counters_kids, 4);
                    }
                }
            },
            HlrExpression::BinaryOp { left, right, .. } => {
                let k1 = visit_expression_at(left, statement, visitor, counters, depth - 1);
                let k2 = visit_expression_at(right, statement, visitor, counters, depth - 1);
                proof {
                    kids = seq![k1@, k2@];
                    assert(kids_numbered(kids, inner_c, statement.block_location, statement) && *counters == counters_kids(kids, kids.len() as int, inner_c)) by {
                        reveal_with_fuel(counters_kids, 4);
                    }
                }
            },
            HlrExpression::UnaryOperator { expr: inner, .. } => {
                let k = visit_expression_at(inner, statement, visitor, counters, depth - 1);
                proof {
                    kids = seq![k@];
                    assert(kids_numbered(kids, inner_c, statement.block_location, statement) && *counters == counters_kids(kids, kids.len() as int, inner_c)) by {
                        reveal_with_fuel(counters_kids, 4);
                    }
                }
            },
            HlrExpression::FunctionCall(func, args) => {
                let k0 = visit_expression_at(func, statement, visitor, counters, depth - 1);
                proof {
                    reveal_with_fuel(counters_kids, 2);
                    assert(*counters == counters_kids(seq![k0@], 1, inner_c));
                }
                proof {
                }
                let ghost args0 = args@;
                let ghost first: Seq<VisitTree> = seq![k0@];
                let r = visit_exprs_at(args, statement, visitor, counters, depth - 1, Ghost(first), Ghost(inner_c));
                proof {
                    kids = first + r@;
                    assert forall|k: int| 0 <= k < kids.len() implies numbered(
                        #[trigger] kids[k],
                        counters_kids(kids, k, inner_c),
                        statement.block_location,
                        statement,
                    ) by {
                        if k == 0 {
                            reveal_with_fuel(counters_kids, 2);
                        }
                    }
                    lemma_exprs_view_len(args0);
                    lemma_exprs_view_len(args@);
                    assert forall|k: int| 0 <= k < r@.len() implies #[trigger] kids[k + 1] == r@[k] by {}
                    assert forall|k: int| 0 <= k < args0.len() implies kids[k + 1].entered == NodeView::Expression(
                        #[trigger] exprs_view(args0)[k],
                    ) by {
                        lemma_exprs_view_index(args0, k);
                    }
                    assert forall|k: int| 0 <= k < r@.len() implies #[trigger] exprs_view(args@)[k] == as_expr(lefts(kids)[k + 1]) by {
                        lemma_exprs_view_index(args@, k);
                    }
                    assert(exprs_view(args@) =~= Seq::new((kids.len() - 1) as nat, |i: int| as_expr(lefts(kids)[i + 1])));
                }
            },
            _ => {},
        }
    }
    proof {
        if kids.len() == 0 {
            assert(*counters == counters_kids(kids, 0, inner_c));
        }
    }
    let ghost finished = NodeView::Expression(expr_view(*expr));
    let _ = visitor.finish_expression(location, expr);
    let ghost t = VisitTree {
        loc: Loc::Expression(location),
        entered: NodeView::Expression(e0),
        pruned,
        opened,
        children: kids,
        finished,
        left: NodeView::Expression(expr_view(*expr)),
    };
    proof {
        assert(t.children == kids);
        lemma_node_ok(t, c0, depth as nat, statement.block_location, statement);
    }
    Ghost(t)
}

} // verus!
