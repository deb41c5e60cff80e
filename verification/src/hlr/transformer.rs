//! Deleting statements and replacing variables in a function of the
//! high-level representation.
use vstd::prelude::*;
use crate::assoc::{assoc_get, assoc_insert, key_index, lemma_key_index};
use crate::control_flow_graph::FunctionId;
use crate::hlr::ast::{
    HlrAssignmentTarget, HlrExpression, HlrFunction, HlrStatement, HlrVariable, Scope,
};
use crate::hlr::model::{
    ExprView, StmtView, expr_view, exprs_view, lemma_exprs_view_index, lemma_exprs_view_len,
    lemma_same_view, lemma_stmts_view_index, lemma_stmts_view_len, stmt_view, stmts_view,
};
use crate::hlr::visitor::{BlockLocation, StatementLocation};
use crate::symbol_renaming::str_equals;
use crate::value_types::Type;

verus! {

broadcast use vstd::std_specs::vec::axiom_vec_decreases_to_view;

/// What a transformation did.
#[derive(Debug, Clone, Copy, PartialEq, Eq)]
pub struct TransformationStats {
    /// Statements deleted.
    pub deleted_statements: usize,
    /// Variable references replaced.
    pub replaced_variables: usize,
}

impl Default for TransformationStats {
    fn default() -> (r: Self)
        ensures
            r.deleted_statements == 0,
            r.replaced_variables == 0,
    {
        TransformationStats { deleted_statements: 0, replaced_variables: 0 }
    }
}

/// Replacements by variable name.
pub type Replacements = Seq<(Seq<char>, ExprView)>;

/// An expression with each variable that has a replacement replaced, and
/// the number of replacements. A replacement is not searched again.
pub open spec fn tr_expr(e: ExprView, reps: Replacements) -> (ExprView, nat)
    decreases e,
{
    match e {
        ExprView::Variable(v) => match assoc_get(reps, v.name) {
            Some(x) => (x, 1),
            None => (e, 0),
        },
        ExprView::Deref(x) => {
            let (y, c) = tr_expr(*x, reps);
            (ExprView::Deref(Box::new(y)), c)
        },
        ExprView::BinaryOp { op, left, right, result_type } => {
            let (l, c1) = tr_expr(*left, reps);
            let (r, c2) = tr_expr(*right, reps);
            (ExprView::BinaryOp { op, left: Box::new(l), right: Box::new(r), result_type }, c1 + c2)
        },
        ExprView::UnaryOperator { op, expr } => {
            let (x, c) = tr_expr(*expr, reps);
            (ExprView::UnaryOperator { op, expr: Box::new(x) }, c)
        },
        ExprView::FunctionCall(f, args) => {
            let (f2, c1) = tr_expr(*f, reps);
            let (a2, c2) = tr_exprs(args, reps);
            (ExprView::FunctionCall(Box::new(f2), a2), c1 + c2)
        },
        _ => (e, 0),
    }
}

/// `tr_expr` on each expression, from the first to the last.
pub open spec fn tr_exprs(es: Seq<ExprView>, reps: Replacements) -> (Seq<ExprView>, nat)
    decreases es,
{
    if es.len() == 0 {
        (seq![], 0)
    } else {
        let (p, c) = tr_exprs(es.drop_last(), reps);
        let (x, d) = tr_expr(es.last(), reps);
        (p.push(x), c + d)
    }
}

/// The counters of a transformation: the next block and statement numbers,
/// and the deletions and replacements so far.
pub ghost struct TrState {
    pub next_block: nat,
    pub next_stmt: nat,
    pub deleted: nat,
    pub replaced: nat,
}

pub open spec fn with_replaced(st: TrState, c: nat) -> TrState {
    TrState { replaced: st.replaced + c, ..st }
}

/// The statements that are not `Nop`.
pub open spec fn remove_nops(b: Seq<StmtView>) -> Seq<StmtView>
    decreases b.len(),
{
    if b.len() == 0 {
        seq![]
    } else {
        let p = remove_nops(b.drop_last());
        if b.last() is Nop {
            p
        } else {
            p.push(b.last())
        }
    }
}

/// A block after the transformation: the block takes the next block
/// number, its statements are transformed in order, and the `Nop`
/// statements are removed.
pub open spec fn tr_block(b: Seq<StmtView>, dels: Set<StatementLocation>, reps: Replacements, st: TrState) -> (Seq<StmtView>, TrState)
    decreases b, 2nat,
{
    let (out, st2) = tr_stmts(b, st.next_block, dels, reps, TrState { next_block: st.next_block + 1, ..st });
    (remove_nops(out), st2)
}

pub open spec fn tr_stmts(b: Seq<StmtView>, bid: nat, dels: Set<StatementLocation>, reps: Replacements, st: TrState) -> (Seq<StmtView>, TrState)
    decreases b, 1nat,
{
    if b.len() == 0 {
        (seq![], st)
    } else {
        let (p, st1) = tr_stmts(b.drop_last(), bid, dels, reps, st);
        let (s, st2) = tr_stmt(b.last(), bid, dels, reps, st1);
        (p.push(s), st2)
    }
}

/// A statement after the transformation: it takes the next statement
/// number; a statement marked for deletion becomes `Nop` and nothing in it
/// is visited; otherwise its expressions and blocks are transformed in
/// order (the target of an assignment is not).
pub open spec fn tr_stmt(s: StmtView, bid: nat, dels: Set<StatementLocation>, reps: Replacements, st: TrState) -> (StmtView, TrState)
    decreases s, 0nat,
{
    let loc = StatementLocation {
        block_location: BlockLocation { block_id: bid as usize },
        statement_id: st.next_stmt as usize,
    };
    let st1 = TrState { next_stmt: st.next_stmt + 1, ..st };
    if dels.contains(loc) {
        (StmtView::Nop, TrState { deleted: st1.deleted + 1, ..st1 })
    } else {
        match s {
            StmtView::VarDef(vars, e) => {
                let (e2, c) = tr_expr(e, reps);
                (StmtView::VarDef(vars, e2), with_replaced(st1, c))
            },
            StmtView::Assignment(t, e) => {
                let (e2, c) = tr_expr(e, reps);
                (StmtView::Assignment(t, e2), with_replaced(st1, c))
            },
            StmtView::Loop(body) => {
                let (b2, st2) = tr_block(body, dels, reps, st1);
                (StmtView::Loop(b2), st2)
            },
            StmtView::If(c, t, f) => {
                let (c2, k) = tr_expr(c, reps);
                let (t2, st3) = tr_block(t, dels, reps, with_replaced(st1, k));
                let (f2, st4) = tr_block(f, dels, reps, st3);
                (StmtView::If(c2, t2, f2), st4)
            },
            StmtView::While(c, body) => {
                let (c2, k) = tr_expr(c, reps);
                let (b2, st3) = tr_block(body, dels, reps, with_replaced(st1, k));
                (StmtView::While(c2, b2), st3)
            },
            StmtView::DoWhile(body, c) => {
                let (b2, st2) = tr_block(body, dels, reps, st1);
                let (c2, k) = tr_expr(c, reps);
                (StmtView::DoWhile(b2, c2), with_replaced(st2, k))
            },
            StmtView::Return(es) => {
                let (es2, k) = tr_exprs(es, reps);
                (StmtView::Return(es2), with_replaced(st1, k))
            },
            StmtView::Output(e) => {
                let (e2, k) = tr_expr(e, reps);
                (StmtView::Output(e2), with_replaced(st1, k))
            },
            _ => (s, st1),
        }
    }
}

/// The names that have a replacement.
pub open spec fn replaced_names(reps: Replacements) -> Set<Seq<char>> {
    Set::new(|n: Seq<char>| assoc_get(reps, n) is Some)
}

/// Whether a variable named in `names` occurs in `e` at a place the
/// visitor reaches: the expression itself, what it dereferences, the
/// operands of an operation, a called function and its arguments.
pub open spec fn mentions(e: ExprView, names: Set<Seq<char>>) -> bool
    decreases e,
{
    match e {
        ExprView::Variable(v) => names.contains(v.name),
        ExprView::Deref(x) => mentions(*x, names),
        ExprView::BinaryOp { left, right, .. } => mentions(*left, names) || mentions(*right, names),
        ExprView::UnaryOperator { expr, .. } => mentions(*expr, names),
        ExprView::FunctionCall(f, args) => mentions(*f, names) || mentions_any(args, names),
        _ => false,
    }
}

pub open spec fn mentions_any(es: Seq<ExprView>, names: Set<Seq<char>>) -> bool
    decreases es,
{
    if es.len() == 0 {
        false
    } else {
        mentions_any(es.drop_last(), names) || mentions(es.last(), names)
    }
}

/// Whether a variable named in `names` occurs in an expression of `s` that
/// the visitor reaches: the value of a definition or an assignment (not its
/// target), a condition, a returned or output value, and the statements of
/// its blocks.
pub open spec fn stmt_mentions(s: StmtView, names: Set<Seq<char>>) -> bool
    decreases s, 0nat,
{
    match s {
        StmtView::VarDef(_, e) => mentions(e, names),
        StmtView::Assignment(_, e) => mentions(e, names),
        StmtView::Loop(b) => block_mentions(b, names),
        StmtView::If(c, t, f) => mentions(c, names) || block_mentions(t, names) || block_mentions(f, names),
        StmtView::While(c, b) => mentions(c, names) || block_mentions(b, names),
        StmtView::DoWhile(b, c) => block_mentions(b, names) || mentions(c, names),
        StmtView::Return(es) => mentions_any(es, names),
        StmtView::Output(e) => mentions(e, names),
        _ => false,
    }
}

pub open spec fn block_mentions(b: Seq<StmtView>, names: Set<Seq<char>>) -> bool
    decreases b, 1nat,
{
    if b.len() == 0 {
        false
    } else {
        block_mentions(b.drop_last(), names) || stmt_mentions(b.last(), names)
    }
}

/// Whether no replacement names a variable that has a replacement.
pub open spec fn replacements_closed(reps: Replacements) -> bool {
    forall|n: Seq<char>| #[trigger] assoc_get(reps, n) matches Some(x) ==> !mentions(x, replaced_names(reps))
}

proof fn lemma_expr_clean(e: ExprView, reps: Replacements)
    requires
        replacements_closed(reps),
    ensures
        !mentions(tr_expr(e, reps).0, replaced_names(reps)),
    decreases e,
{
    match e {
        ExprView::Variable(v) => {
            assert(assoc_get(reps, v.name) is None ==> !replaced_names(reps).contains(v.name));
        },
        ExprView::Deref(x) => lemma_expr_clean(*x, reps),
        ExprView::BinaryOp { left, right, .. } => {
            lemma_expr_clean(*left, reps);
            lemma_expr_clean(*right, reps);
        },
        ExprView::UnaryOperator { expr, .. } => lemma_expr_clean(*expr, reps),
        ExprView::FunctionCall(f, args) => {
            lemma_expr_clean(*f, reps);
            lemma_exprs_clean(args, reps);
        },
        _ => {},
    }
}

proof fn lemma_exprs_clean(es: Seq<ExprView>, reps: Replacements)
    requires
        replacements_closed(reps),
    ensures
        !mentions_any(tr_exprs(es, reps).0, replaced_names(reps)),
    decreases es,
{
    if es.len() > 0 {
        lemma_exprs_clean(es.drop_last(), reps);
        lemma_expr_clean(es.last(), reps);
        let p = tr_exprs(es.drop_last(), reps).0;
        let x = tr_expr(es.last(), reps).0;
        assert(p.push(x).drop_last() =~= p);
    }
}

proof fn lemma_remove_nops_clean(b: Seq<StmtView>, names: Set<Seq<char>>)
    requires
        !block_mentions(b, names),
    ensures
        !block_mentions(remove_nops(b), names),
    decreases b.len(),
{
    if b.len() > 0 {
        lemma_remove_nops_clean(b.drop_last(), names);
        let p = remove_nops(b.drop_last());
        assert(p.push(b.last()).drop_last() =~= p);
    }
}

proof fn lemma_block_clean(b: Seq<StmtView>, dels: Set<StatementLocation>, reps: Replacements, st: TrState)
    requires
        replacements_closed(reps),
    ensures
        !block_mentions(tr_block(b, dels, reps, st).0, replaced_names(reps)),
    decreases b, 2nat,
{
    lemma_stmts_clean(b, st.next_block, dels, reps, TrState { next_block: st.next_block + 1, ..st });
    lemma_remove_nops_clean(tr_stmts(b, st.next_block, dels, reps, TrState { next_block: st.next_block + 1, ..st }).0, replaced_names(reps));
}

proof fn lemma_stmts_clean(b: Seq<StmtView>, bid: nat, dels: Set<StatementLocation>, reps: Replacements, st: TrState)
    requires
        replacements_closed(reps),
    ensures
        !block_mentions(tr_stmts(b, bid, dels, reps, st).0, replaced_names(reps)),
    decreases b, 1nat,
{
    if b.len() > 0 {
        lemma_stmts_clean(b.drop_last(), bid, dels, reps, st);
        let (p, st1) = tr_stmts(b.drop_last(), bid, dels, reps, st);
        lemma_stmt_clean(b.last(), bid, dels, reps, st1);
        let x = tr_stmt(b.last(), bid, dels, reps, st1).0;
        assert(p.push(x).drop_last() =~= p);
    }
}

proof fn lemma_stmt_clean(s: StmtView, bid: nat, dels: Set<StatementLocation>, reps: Replacements, st: TrState)
    requires
        replacements_closed(reps),
    ensures
        !stmt_mentions(tr_stmt(s, bid, dels, reps, st).0, replaced_names(reps)),
    decreases s, 0nat,
{
    let st1 = TrState { next_stmt: st.next_stmt + 1, ..st };
    let loc = StatementLocation {
        block_location: BlockLocation { block_id: bid as usize },
        statement_id: st.next_stmt as usize,
    };
    if !dels.contains(loc) {
        match s {
            StmtView::VarDef(_, e) => lemma_expr_clean(e, reps),
            StmtView::Assignment(_, e) => lemma_expr_clean(e, reps),
            StmtView::Loop(body) => lemma_block_clean(body, dels, reps, st1),
            StmtView::If(c, t, f) => {
                let k = tr_expr(c, reps).1;
                lemma_expr_clean(c, reps);
                lemma_block_clean(t, dels, reps, with_replaced(st1, k));
                let st3 = tr_block(t, dels, reps, with_replaced(st1, k)).1;
                lemma_block_clean(f, dels, reps, st3);
            },
            StmtView::While(c, body) => {
                let k = tr_expr(c, reps).1;
                lemma_expr_clean(c, reps);
                lemma_block_clean(body, dels, reps, with_replaced(st1, k));
            },
            StmtView::DoWhile(body, c) => {
                lemma_block_clean(body, dels, reps, st1);
                lemma_expr_clean(c, reps);
            },
            StmtView::Return(es) => lemma_exprs_clean(es, reps),
            StmtView::Output(e) => lemma_expr_clean(e, reps),
            _ => {},
        }
    }
}

/// After a transformation no variable that has a replacement is left where
/// the visitor reaches, in any statement that is not deleted, provided no
/// replacement itself names such a variable (a replacement is not searched
/// again).
pub proof fn lemma_transform_replaces_all(body: Seq<StmtView>, dels: Set<StatementLocation>, reps: Replacements, st: TrState)
    requires
        replacements_closed(reps),
    ensures
        !block_mentions(tr_block(body, dels, reps, st).0, replaced_names(reps)),
{
    lemma_block_clean(body, dels, reps, st);
}

/// How many variables named in `names` occur in `e` at places the visitor
/// reaches.
pub open spec fn occurrences(e: ExprView, names: Set<Seq<char>>) -> nat
    decreases e,
{
    match e {
        ExprView::Variable(v) => if names.contains(v.name) {
            1
        } else {
            0
        },
        ExprView::Deref(x) => occurrences(*x, names),
        ExprView::BinaryOp { left, right, .. } => occurrences(*left, names) + occurrences(*right, names),
        ExprView::UnaryOperator { expr, .. } => occurrences(*expr, names),
        ExprView::FunctionCall(f, args) => occurrences(*f, names) + occurrences_all(args, names),
        _ => 0,
    }
}

pub open spec fn occurrences_all(es: Seq<ExprView>, names: Set<Seq<char>>) -> nat
    decreases es,
{
    if es.len() == 0 {
        0
    } else {
        occurrences_all(es.drop_last(), names) + occurrences(es.last(), names)
    }
}

/// How many variables named in `names` occur in the expressions of `s`
/// that the visitor reaches.
pub open spec fn stmt_occurrences(s: StmtView, names: Set<Seq<char>>) -> nat
    decreases s, 0nat,
{
    match s {
        StmtView::VarDef(_, e) => occurrences(e, names),
        StmtView::Assignment(_, e) => occurrences(e, names),
        StmtView::Loop(b) => block_occurrences(b, names),
        StmtView::If(c, t, f) => occurrences(c, names) + block_occurrences(t, names) + block_occurrences(f, names),
        StmtView::While(c, b) => occurrences(c, names) + block_occurrences(b, names),
        StmtView::DoWhile(b, c) => block_occurrences(b, names) + occurrences(c, names),
        StmtView::Return(es) => occurrences_all(es, names),
        StmtView::Output(e) => occurrences(e, names),
        _ => 0,
    }
}

pub open spec fn block_occurrences(b: Seq<StmtView>, names: Set<Seq<char>>) -> nat
    decreases b, 1nat,
{
    if b.len() == 0 {
        0
    } else {
        block_occurrences(b.drop_last(), names) + stmt_occurrences(b.last(), names)
    }
}

proof fn lemma_expr_count(e: ExprView, reps: Replacements)
    ensures
        tr_expr(e, reps).1 == occurrences(e, replaced_names(reps)),
    decreases e,
{
    match e {
        ExprView::Variable(v) => {
            assert(replaced_names(reps).contains(v.name) == (assoc_get(reps, v.name) is Some));
        },
        ExprView::Deref(x) => lemma_expr_count(*x, reps),
        ExprView::BinaryOp { left, right, .. } => {
            lemma_expr_count(*left, reps);
            lemma_expr_count(*right, reps);
        },
        ExprView::UnaryOperator { expr, .. } => lemma_expr_count(*expr, reps),
        ExprView::FunctionCall(f, args) => {
            lemma_expr_count(*f, reps);
            lemma_exprs_count(args, reps);
        },
        _ => {},
    }
}

proof fn lemma_exprs_count(es: Seq<ExprView>, reps: Replacements)
    ensures
        tr_exprs(es, reps).1 == occurrences_all(es, replaced_names(reps)),
    decreases es,
{
    if es.len() > 0 {
        lemma_exprs_count(es.drop_last(), reps);
        lemma_expr_count(es.last(), reps);
    }
}

proof fn lemma_block_count(b: Seq<StmtView>, reps: Replacements, st: TrState)
    ensures
        tr_block(b, Set::empty(), reps, st).1.replaced == st.replaced + block_occurrences(b, replaced_names(reps)),
    decreases b, 2nat,
{
    lemma_stmts_count(b, st.next_block, reps, TrState { next_block: st.next_block + 1, ..st });
}

proof fn lemma_stmts_count(b: Seq<StmtView>, bid: nat, reps: Replacements, st: TrState)
    ensures
        tr_stmts(b, bid, Set::empty(), reps, st).1.replaced == st.replaced + block_occurrences(b, replaced_names(reps)),
    decreases b, 1nat,
{
    if b.len() > 0 {
        lemma_stmts_count(b.drop_last(), bid, reps, st);
        let st1 = tr_stmts(b.drop_last(), bid, Set::empty(), reps, st).1;
        lemma_stmt_count(b.last(), bid, reps, st1);
    }
}

proof fn lemma_stmt_count(s: StmtView, bid: nat, reps: Replacements, st: TrState)
    ensures
        tr_stmt(s, bid, Set::empty(), reps, st).1.replaced == st.replaced + stmt_occurrences(s, replaced_names(reps)),
    decreases s, 0nat,
{
    let st1 = TrState { next_stmt: st.next_stmt + 1, ..st };
    let dels = Set::<StatementLocation>::empty();
    match s {
        StmtView::VarDef(_, e) => lemma_expr_count(e, reps),
        StmtView::Assignment(_, e) => lemma_expr_count(e, reps),
        StmtView::Loop(body) => lemma_block_count(body, reps, st1),
        StmtView::If(c, t, f) => {
            let k = tr_expr(c, reps).1;
            lemma_expr_count(c, reps);
            lemma_block_count(t, reps, with_replaced(st1, k));
            let st3 = tr_block(t, dels, reps, with_replaced(st1, k)).1;
            lemma_block_count(f, reps, st3);
        },
        StmtView::While(c, body) => {
            let k = tr_expr(c, reps).1;
            lemma_expr_count(c, reps);
            lemma_block_count(body, reps, with_replaced(st1, k));
        },
        StmtView::DoWhile(body, c) => {
            lemma_block_count(body, reps, st1);
            lemma_expr_count(c, reps);
        },
        StmtView::Return(es) => lemma_exprs_count(es, reps),
        StmtView::Output(e) => lemma_expr_count(e, reps),
        _ => {},
    }
}

/// With nothing deleted, a transformation counts one replacement for each
/// variable with a replacement at a place the visitor reaches, in every
/// statement of the body.
pub proof fn lemma_transform_counts_replacements(body: Seq<StmtView>, reps: Replacements, st: TrState)
    ensures
        tr_block(body, Set::empty(), reps, st).1.replaced == st.replaced + block_occurrences(body, replaced_names(reps)),
{
    lemma_block_count(body, reps, st);
}

/// One state is no later than another: no counter went back.
pub open spec fn le_state(a: TrState, b: TrState) -> bool {
    a.next_block <= b.next_block && a.next_stmt <= b.next_stmt && a.deleted <= b.deleted
        && a.replaced <= b.replaced
}

pub open spec fn state_fits(st: TrState) -> bool {
    st.next_block <= usize::MAX && st.next_stmt <= usize::MAX && st.deleted <= usize::MAX
        && st.replaced <= usize::MAX
}

proof fn lemma_block_mono(b: Seq<StmtView>, dels: Set<StatementLocation>, reps: Replacements, st: TrState)
    ensures
        le_state(st, tr_block(b, dels, reps, st).1),
        st.next_block < tr_block(b, dels, reps, st).1.next_block,
    decreases b, 2nat,
{
    lemma_stmts_mono(b, st.next_block, dels, reps, TrState { next_block: st.next_block + 1, ..st });
}

proof fn lemma_stmts_mono(b: Seq<StmtView>, bid: nat, dels: Set<StatementLocation>, reps: Replacements, st: TrState)
    ensures
        le_state(st, tr_stmts(b, bid, dels, reps, st).1),
    decreases b, 1nat,
{
    if b.len() > 0 {
        lemma_stmts_mono(b.drop_last(), bid, dels, reps, st);
        let st1 = tr_stmts(b.drop_last(), bid, dels, reps, st).1;
        lemma_stmt_mono(b.last(), bid, dels, reps, st1);
    }
}

proof fn lemma_stmt_mono(s: StmtView, bid: nat, dels: Set<StatementLocation>, reps: Replacements, st: TrState)
    ensures
        le_state(st, tr_stmt(s, bid, dels, reps, st).1),
        st.next_stmt < tr_stmt(s, bid, dels, reps, st).1.next_stmt,
    decreases s, 0nat,
{
    let st1 = TrState { next_stmt: st.next_stmt + 1, ..st };
    let loc = StatementLocation {
        block_location: BlockLocation { block_id: bid as usize },
        statement_id: st.next_stmt as usize,
    };
    if !dels.contains(loc) {
        match s {
            StmtView::Loop(body) => {
                lemma_block_mono(body, dels, reps, st1);
            },
            StmtView::If(c, t, f) => {
                let k = tr_expr(c, reps).1;
                lemma_block_mono(t, dels, reps, with_replaced(st1, k));
                let st3 = tr_block(t, dels, reps, with_replaced(st1, k)).1;
                lemma_block_mono(f, dels, reps, st3);
            },
            StmtView::While(c, body) => {
                let k = tr_expr(c, reps).1;
                lemma_block_mono(body, dels, reps, with_replaced(st1, k));
            },
            StmtView::DoWhile(body, c) => {
                lemma_block_mono(body, dels, reps, st1);
            },
            _ => {},
        }
    }
}

/// Replacements as the model sees them.
pub open spec fn reps_view(v: Seq<(String, HlrExpression)>) -> Replacements {
    Seq::new(v.len(), |i: int| (v[i].0@, expr_view(v[i].1)))
}

/// Deletes statements by location and replaces variables by name.
pub struct HlrTransformer {
    statements_to_delete: Vec<StatementLocation>,
    variable_replacements: Vec<(String, HlrExpression)>,
    stats: TransformationStats,
}

impl HlrTransformer {
    /// The statements to delete.
    pub closed spec fn deletions(&self) -> Set<StatementLocation> {
        Set::new(|l: StatementLocation| self.statements_to_delete@.contains(l))
    }

    /// The replacements, by variable name.
    pub closed spec fn replacements(&self) -> Replacements {
        reps_view(self.variable_replacements@)
    }

    pub closed spec fn spec_stats(&self) -> TransformationStats {
        self.stats
    }

    /// A transformer that changes nothing.
    pub fn new() -> (r: Self)
        ensures
            r.deletions() == Set::<StatementLocation>::empty(),
            r.replacements() == Seq::<(Seq<char>, ExprView)>::empty(),
            r.spec_stats() == (TransformationStats { deleted_statements: 0, replaced_variables: 0 }),
    {
        let r = HlrTransformer {
            statements_to_delete: Vec::new(),
            variable_replacements: Vec::new(),
            stats: TransformationStats { deleted_statements: 0, replaced_variables: 0 },
        };
        assert(r.deletions() =~= Set::<StatementLocation>::empty());
        assert(r.replacements() =~= Seq::<(Seq<char>, ExprView)>::empty());
        r
    }

    /// Marks the statement at `location` for deletion.
    pub fn delete_statement(&mut self, location: StatementLocation) -> (r: &mut Self)
        ensures
            r.deletions() == old(self).deletions().insert(location),
            r.replacements() == old(self).replacements(),
            r.spec_stats() == old(self).spec_stats(),
            *final(self) == *final(r),
    {
        let ghost before = self.statements_to_delete@;
        self.statements_to_delete.push(location);
        assert(self.deletions() =~= old(self).deletions().insert(location)) by {
            assert forall|l: StatementLocation| #[trigger] self.statements_to_delete@.contains(l) <==> (before.contains(l) || l == location) by {
                if self.statements_to_delete@.contains(l) && l != location {
                    let k = choose|k: int| 0 <= k < self.statements_to_delete@.len() && self.statements_to_delete@[k] == l;
                    assert(before[k] == l);
                }
                if before.contains(l) {
                    let k = choose|k: int| 0 <= k < before.len() && before[k] == l;
                    assert(self.statements_to_delete@[k] == l);
                }
                if l == location {
                    assert(self.statements_to_delete@[before.len() as int] == l);
                }
            }
        }
        self
    }

    /// Lets `to` replace every use of a variable named as `from`; a later
    /// replacement for the same name takes the place of an earlier one.
    pub fn replace_variable(&mut self, from: &HlrVariable, to: HlrExpression) -> (r: &mut Self)
        ensures
            r.replacements() == assoc_insert(old(self).replacements(), from.name@, expr_view(to)),
            r.deletions() == old(self).deletions(),
            r.spec_stats() == old(self).spec_stats(),
            *final(self) == *final(r),
    {
        let ghost old_v = self.variable_replacements@;
        let ghost tv = expr_view(to);
        let i = find_replacement(&self.variable_replacements, from.name.as_str());
        let name = from.name.clone();
        match i {
            Some(k) => {
                self.variable_replacements.set(k, (name, to));
            },
            None => {
                self.variable_replacements.push((name, to));
            },
        }
        proof {
            lemma_key_index(reps_view(old_v), from.name@);
        }
        assert(self.replacements() =~= assoc_insert(reps_view(old_v), from.name@, tv));
        self
    }

    /// Applies the deletions and replacements to `func` and tells how many
    /// were made, counted on from those of earlier transformations.
    pub fn transform(self, func: &mut HlrFunction) -> (r: TransformationStats)
        requires
            state_fits(
                tr_block(
                    stmts_view(old(func).body@),
                    self.deletions(),
                    self.replacements(),
                    TrState {
                        next_block: 0,
                        next_stmt: 0,
                        deleted: self.spec_stats().deleted_statements as nat,
                        replaced: self.spec_stats().replaced_variables as nat,
                    },
                ).1,
            ),
        ensures
            ({
                let (body, st) = tr_block(
                    stmts_view(old(func).body@),
                    self.deletions(),
                    self.replacements(),
                    TrState {
                        next_block: 0,
                        next_stmt: 0,
                        deleted: self.spec_stats().deleted_statements as nat,
                        replaced: self.spec_stats().replaced_variables as nat,
                    },
                );
                &&& stmts_view(final(func).body@) == body
                &&& r.deleted_statements == st.deleted
                &&& r.replaced_variables == st.replaced
            }),
            final(func).original_id == old(func).original_id,
            final(func).name == old(func).name,
            final(func).args == old(func).args,
            final(func).return_type == old(func).return_type,
    {
        let mut counters = TrCounters {
            next_block: 0,
            next_stmt: 0,
            deleted: self.stats.deleted_statements,
            replaced: self.stats.replaced_variables,
        };
        let ctx = TrContext {
            deletions: &self.statements_to_delete,
            replacements: &self.variable_replacements,
        };
        tr_block_exec(&mut func.body, &ctx, &mut counters);
        TransformationStats { deleted_statements: counters.deleted, replaced_variables: counters.replaced }
    }
}

fn find_replacement(v: &Vec<(String, HlrExpression)>, name: &str) -> (r: Option<usize>)
    ensures
        match r {
            Some(i) => i < v.len() && key_index(reps_view(v@), name@) == i,
            None => key_index(reps_view(v@), name@) < 0,
        },
{
    proof {
        lemma_key_index(reps_view(v@), name@);
    }
    let mut i: usize = 0;
    while i < v.len()
        invariant
            i <= v.len(),
            forall|j: int| 0 <= j < i ==> reps_view(v@)[j].0 != name@,
            -1 <= key_index(reps_view(v@), name@) < v@.len(),
            key_index(reps_view(v@), name@) >= 0 ==> reps_view(v@)[key_index(reps_view(v@), name@)].0
                == name@,
            forall|j: int|
                0 <= j < v.len() && (key_index(reps_view(v@), name@) < 0 || j < key_index(
                    reps_view(v@),
                    name@,
                )) ==> reps_view(v@)[j].0 != name@,
        decreases v.len() - i,
    {
        assert(reps_view(v@)[i as int].0 == v@[i as int].0@);
        if str_equals(v[i].0.as_str(), name) {
            return Some(i);
        }
        i = i + 1;
    }
    None
}

/// The counters of a running transformation.
struct TrCounters {
    next_block: usize,
    next_stmt: usize,
    deleted: usize,
    replaced: usize,
}

impl TrCounters {
    spec fn view(&self) -> TrState {
        TrState {
            next_block: self.next_block as nat,
            next_stmt: self.next_stmt as nat,
            deleted: self.deleted as nat,
            replaced: self.replaced as nat,
        }
    }
}

/// What a running transformation deletes and replaces.
struct TrContext<'a> {
    deletions: &'a Vec<StatementLocation>,
    replacements: &'a Vec<(String, HlrExpression)>,
}

impl<'a> TrContext<'a> {
    spec fn dels(&self) -> Set<StatementLocation> {
        Set::new(|l: StatementLocation| self.deletions@.contains(l))
    }

    spec fn reps(&self) -> Replacements {
        reps_view(self.replacements@)
    }

    fn is_deleted(&self, loc: StatementLocation) -> (r: bool)
        ensures
            r == self.dels().contains(loc),
    {
        let mut i: usize = 0;
        while i < self.deletions.len()
            invariant
                i <= self.deletions@.len(),
                forall|j: int| 0 <= j < i ==> self.deletions@[j] != loc,
            decreases self.deletions.len() - i,
        {
            if self.deletions[i] == loc {
                assert(self.deletions@[i as int] == loc);
                return true;
            }
            i = i + 1;
        }
        false
    }
}

fn tr_expr_exec(e: &mut HlrExpression, ctx: &TrContext) -> (c: usize)
    requires
        tr_expr(expr_view(*old(e)), ctx.reps()).1 <= usize::MAX,
    ensures
        expr_view(*final(e)) == tr_expr(expr_view(*old(e)), ctx.reps()).0,
        c == tr_expr(expr_view(*old(e)), ctx.reps()).1,
    decreases *old(e),
{
    let hit = match &*e {
        HlrExpression::Variable(v) => find_replacement(ctx.replacements, v.name.as_str()),
        _ => None,
    };
    match hit {
        Some(i) => {
            let d = ctx.replacements[i].1.duplicate();
            proof {
                lemma_same_view(ctx.replacements@[i as int].1, d);
            }
            *e = d;
            return 1;
        },
        None => {},
    }
    match e {
        HlrExpression::Deref(x) => tr_expr_exec(x, ctx),
        HlrExpression::BinaryOp { left, right, .. } => {
            let c1 = tr_expr_exec(left, ctx);
            let c2 = tr_expr_exec(right, ctx);
            c1 + c2
        },
        HlrExpression::UnaryOperator { expr, .. } => tr_expr_exec(expr, ctx),
        HlrExpression::FunctionCall(f, args) => {
            let c1 = tr_expr_exec(f, ctx);
            let c2 = tr_exprs_exec(args, ctx);
            c1 + c2
        },
        _ => 0,
    }
}

fn tr_exprs_exec(es: &mut Vec<HlrExpression>, ctx: &TrContext) -> (c: usize)
    requires
        tr_exprs(exprs_view(old(es)@), ctx.reps()).1 <= usize::MAX,
    ensures
        exprs_view(final(es)@) == tr_exprs(exprs_view(old(es)@), ctx.reps()).0,
        c == tr_exprs(exprs_view(old(es)@), ctx.reps()).1,
    decreases *old(es),
{
    let ghost orig = es@;
    let mut total: usize = 0;
    let mut i: usize = 0;
    proof {
        lemma_exprs_view_len(orig);
    }
    assert(exprs_view(orig).take(0) =~= seq![]);
    while i < es.len()
        invariant
            i <= es.len(),
            orig == old(es)@,
            es.len() == orig.len(),
            forall|j: int| i <= j < orig.len() ==> es@[j] == orig[j],
            exprs_view(es@.take(i as int)) == tr_exprs(exprs_view(orig).take(i as int), ctx.reps()).0,
            total == tr_exprs(exprs_view(orig).take(i as int), ctx.reps()).1,
            tr_exprs(exprs_view(orig), ctx.reps()).1 <= usize::MAX,
            exprs_view(orig).len() == orig.len(),
        decreases es.len() - i,
    {
        proof {
            vstd::std_specs::vec::axiom_vec_index_decreases(*old(es), i as int);
            lemma_tr_exprs_prefix(exprs_view(orig), ctx.reps(), i + 1);
            lemma_exprs_view_index(orig, i as int);
            assert(exprs_view(orig).take(i + 1).drop_last() =~= exprs_view(orig).take(i as int));
            assert(exprs_view(orig).take(i + 1).last() == expr_view(orig[i as int]));
        }
        let ghost before = es@;
        let c = tr_expr_exec(&mut es[i], ctx);
        total = total + c;
        proof {
            assert(es@.take(i + 1).drop_last() =~= before.take(i as int));
        }
        i = i + 1;
    }
    assert(es@.take(i as int) =~= es@);
    assert(exprs_view(orig).take(i as int) =~= exprs_view(orig));
    total
}

/// The count of a prefix is no more than the count of the whole.
proof fn lemma_tr_exprs_prefix(es: Seq<ExprView>, reps: Replacements, k: int)
    requires
        0 <= k <= es.len(),
    ensures
        tr_exprs(es.take(k), reps).1 <= tr_exprs(es, reps).1,
    decreases es.len() - k,
{
    if k < es.len() {
        lemma_tr_exprs_prefix(es, reps, k + 1);
        assert(es.take(k + 1).drop_last() =~= es.take(k));
    } else {
        assert(es.take(k) =~= es);
    }
}

fn tr_block_exec(b: &mut Vec<HlrStatement>, ctx: &TrContext, counters: &mut TrCounters)
    requires
        state_fits(tr_block(stmts_view(old(b)@), ctx.dels(), ctx.reps(), old(counters).view()).1),
    ensures
        stmts_view(final(b)@) == tr_block(stmts_view(old(b)@), ctx.dels(), ctx.reps(), old(counters).view()).0,
        final(counters).view() == tr_block(stmts_view(old(b)@), ctx.dels(), ctx.reps(), old(counters).view()).1,
    decreases *old(b), 2nat,
{
    let ghost orig = b@;
    let ghost st0 = counters.view();
    let ghost final_st = tr_block(stmts_view(orig), ctx.dels(), ctx.reps(), st0).1;
    proof {
        lemma_block_mono(stmts_view(orig), ctx.dels(), ctx.reps(), st0);
        lemma_stmts_view_len(orig);
    }
    let bid = counters.next_block;
    counters.next_block = counters.next_block + 1;
    let ghost st1 = counters.view();
    let mut i: usize = 0;
    assert(stmts_view(orig).take(0) =~= seq![]);
    assert(stmts_view(b@.take(0)) =~= seq![]);
    while i < b.len()
        invariant
            i <= b.len(),
            orig == old(b)@,
            b.len() == orig.len(),
            stmts_view(orig).len() == orig.len(),
            forall|j: int| i <= j < orig.len() ==> b@[j] == orig[j],
            stmts_view(b@.take(i as int)) == tr_stmts(stmts_view(orig).take(i as int), bid as nat, ctx.dels(), ctx.reps(), st1).0,
            counters.view() == tr_stmts(stmts_view(orig).take(i as int), bid as nat, ctx.dels(), ctx.reps(), st1).1,
            st1 == (TrState { next_block: st0.next_block + 1, ..st0 }),
            bid == st0.next_block,
            final_st == tr_stmts(stmts_view(orig), bid as nat, ctx.dels(), ctx.reps(), st1).1,
            state_fits(final_st),
        decreases b.len() - i,
    {
        proof {
            vstd::std_specs::vec::axiom_vec_index_decreases(*old(b), i as int);
            lemma_stmts_view_index(orig, i as int);
            assert(stmts_view(orig).take(i + 1).drop_last() =~= stmts_view(orig).take(i as int));
            assert(stmts_view(orig).take(i + 1).last() == stmt_view(orig[i as int]));
            lemma_stmts_prefix_mono(stmts_view(orig), bid as nat, ctx.dels(), ctx.reps(), st1, i + 1);
            let st_i = tr_stmts(stmts_view(orig).take(i as int), bid as nat, ctx.dels(), ctx.reps(), st1).1;
            lemma_stmt_mono(stmt_view(orig[i as int]), bid as nat, ctx.dels(), ctx.reps(), st_i);
        }
        let ghost before = b@;
        tr_stmt_exec(&mut b[i], bid, ctx, counters);
        proof {
            assert(b@.take(i + 1).drop_last() =~= before.take(i as int));
            lemma_stmts_view_take_push(b@, i as int);
        }
        i = i + 1;
    }
    assert(b@.take(i as int) =~= b@);
    assert(stmts_view(orig).take(i as int) =~= stmts_view(orig));
    remove_nop_statements(b);
}

proof fn lemma_stmts_view_take_push(v: Seq<HlrStatement>, i: int)
    requires
        0 <= i < v.len(),
    ensures
        stmts_view(v.take(i + 1)) == stmts_view(v.take(i)).push(stmt_view(v[i])),
{
    assert(v.take(i + 1).drop_last() =~= v.take(i));
}

/// The counters after a prefix of the statements are no later than after
/// all of them.
proof fn lemma_stmts_prefix_mono(b: Seq<StmtView>, bid: nat, dels: Set<StatementLocation>, reps: Replacements, st: TrState, k: int)
    requires
        0 <= k <= b.len(),
    ensures
        le_state(tr_stmts(b.take(k), bid, dels, reps, st).1, tr_stmts(b, bid, dels, reps, st).1),
    decreases b.len() - k,
{
    if k < b.len() {
        lemma_stmts_prefix_mono(b, bid, dels, reps, st, k + 1);
        assert(b.take(k + 1).drop_last() =~= b.take(k));
        let st_k = tr_stmts(b.take(k), bid, dels, reps, st).1;
        lemma_stmt_mono(b.take(k + 1).last(), bid, dels, reps, st_k);
    } else {
        assert(b.take(k) =~= b);
    }
}

/// Removes the `Nop` statements, keeping the order of the others.
fn remove_nop_statements(b: &mut Vec<HlrStatement>)
    ensures
        stmts_view(final(b)@) == remove_nops(stmts_view(old(b)@)),
{
    let mut old_b: Vec<HlrStatement> = Vec::new();
    std::mem::swap(b, &mut old_b);
    let ghost orig = old_b@;
    proof {
        lemma_stmts_view_len(orig);
    }
    let mut rest: Vec<HlrStatement> = Vec::new();
    while old_b.len() > 0
        invariant
            old_b@ == orig.take(old_b@.len() as int),
            old_b@.len() <= orig.len(),
            stmts_view(orig).len() == orig.len(),
            remove_nops(stmts_view(orig)) == remove_nops(stmts_view(old_b@)) + stmts_view(rest@),
        decreases old_b.len(),
    {
        let ghost pre = old_b@;
        let s = old_b.pop().unwrap();
        proof {
            assert(pre.drop_last() == old_b@);
            assert(old_b@ =~= orig.take(old_b@.len() as int));
            assert(stmts_view(pre).drop_last() == stmts_view(old_b@));
        }
        let is_nop = match &s {
            HlrStatement::Nop => true,
            _ => false,
        };
        if !is_nop {
            let ghost r0 = rest@;
            rest.insert(0, s);
            proof {
                assert(rest@ =~= seq![s] + r0);
                lemma_stmts_view_prepend(s, r0);
                assert(remove_nops(stmts_view(pre)) == remove_nops(stmts_view(old_b@)).push(stmt_view(s)));
                assert(remove_nops(stmts_view(old_b@)).push(stmt_view(s)) + stmts_view(r0) =~= remove_nops(stmts_view(old_b@)) + (seq![stmt_view(s)] + stmts_view(r0)));
            }
        }
    }
    assert(stmts_view(old_b@) =~= seq![]);
    assert(remove_nops(stmts_view(old_b@)) + stmts_view(rest@) =~= stmts_view(rest@));
    *b = rest;
}

proof fn lemma_stmts_view_prepend(s: HlrStatement, r: Seq<HlrStatement>)
    ensures
        stmts_view(seq![s] + r) == seq![stmt_view(s)] + stmts_view(r),
    decreases r.len(),
{
    if r.len() == 0 {
        assert(seq![s] + r =~= seq![s]);
        assert(seq![s].drop_last() =~= seq![]);
        assert(seq![s].last() == s);
        assert(stmts_view(seq![s].drop_last()) =~= seq![]);
        assert(stmts_view(seq![s]) =~= seq![stmt_view(s)]);
        assert(seq![stmt_view(s)] + stmts_view(r) =~= seq![stmt_view(s)]);
    } else {
        lemma_stmts_view_prepend(s, r.drop_last());
        assert((seq![s] + r).drop_last() =~= seq![s] + r.drop_last());
        assert((seq![s] + r).last() == r.last());
        assert(seq![stmt_view(s)] + stmts_view(r) =~= (seq![stmt_view(s)] + stmts_view(r.drop_last())).push(stmt_view(r.last())));
    }
}

fn tr_stmt_exec(s: &mut HlrStatement, bid: usize, ctx: &TrContext, counters: &mut TrCounters)
    requires
        state_fits(tr_stmt(stmt_view(*old(s)), bid as nat, ctx.dels(), ctx.reps(), old(counters).view()).1),
    ensures
        stmt_view(*final(s)) == tr_stmt(stmt_view(*old(s)), bid as nat, ctx.dels(), ctx.reps(), old(counters).view()).0,
        final(counters).view() == tr_stmt(stmt_view(*old(s)), bid as nat, ctx.dels(), ctx.reps(), old(counters).view()).1,
    decreases *old(s), 0nat,
{
    let ghost st0 = counters.view();
    proof {
        lemma_stmt_mono(stmt_view(*old(s)), bid as nat, ctx.dels(), ctx.reps(), st0);
    }
    let loc = StatementLocation {
        block_location: BlockLocation { block_id: bid },
        statement_id: counters.next_stmt,
    };
    counters.next_stmt = counters.next_stmt + 1;
    if ctx.is_deleted(loc) {
        *s = HlrStatement::Nop;
        counters.deleted = counters.deleted + 1;
        return;
    }
    let ghost st1 = counters.view();
    match s {
        HlrStatement::VarDef(_, e) => {
            let c = tr_expr_exec(e, ctx);
            counters.replaced = counters.replaced + c;
        },
        HlrStatement::Assignment(_, e) => {
            let c = tr_expr_exec(e, ctx);
            counters.replaced = counters.replaced + c;
        },
        HlrStatement::Loop(body) => {
            tr_block_exec(body, ctx, counters);
        },
        HlrStatement::If(c, t, f) => {
            proof {
                let k = tr_expr(expr_view(*c), ctx.reps()).1;
                let sk = with_replaced(st1, k);
                lemma_block_mono(stmts_view(t@), ctx.dels(), ctx.reps(), sk);
                let st3 = tr_block(stmts_view(t@), ctx.dels(), ctx.reps(), sk).1;
                lemma_block_mono(stmts_view(f@), ctx.dels(), ctx.reps(), st3);
            }
            let k = tr_expr_exec(c, ctx);
            counters.replaced = counters.replaced + k;
            tr_block_exec(t, ctx, counters);
            tr_block_exec(f, ctx, counters);
        },
        HlrStatement::While(c, body) => {
            proof {
                let k = tr_expr(expr_view(*c), ctx.reps()).1;
                lemma_block_mono(stmts_view(body@), ctx.dels(), ctx.reps(), with_replaced(st1, k));
            }
            let k = tr_expr_exec(c, ctx);
            counters.replaced = counters.replaced + k;
            tr_block_exec(body, ctx, counters);
        },
        HlrStatement::DoWhile(body, c) => {
            tr_block_exec(body, ctx, counters);
            let k = tr_expr_exec(c, ctx);
            counters.replaced = counters.replaced + k;
        },
        HlrStatement::Return(es) => {
            let k = tr_exprs_exec(es, ctx);
            counters.replaced = counters.replaced + k;
        },
        HlrStatement::Output(e) => {
            let k = tr_expr_exec(e, ctx);
            counters.replaced = counters.replaced + k;
        },
        _ => {},
    }
}

/// `expr` with each use of a variable named as `var` replaced by
/// `replacement`. The replacement is not searched again: uses of the
/// variable inside it stay as they are.
pub fn replace_variable(expr: &HlrExpression, var: &HlrVariable, replacement: &HlrExpression) -> (r: HlrExpression)
    requires
        tr_expr(expr_view(*expr), seq![(var.name@, expr_view(*replacement))]).1 <= usize::MAX,
    ensures
        expr_view(r) == tr_expr(expr_view(*expr), seq![(var.name@, expr_view(*replacement))]).0,
{
    let mut e = expr.duplicate();
    proof {
        lemma_same_view(*expr, e);
    }
    let mut reps: Vec<(String, HlrExpression)> = Vec::new();
    let d = replacement.duplicate();
    proof {
        lemma_same_view(*replacement, d);
    }
    reps.push((var.name.clone(), d));
    let ctx = TrContext { deletions: &Vec::new(), replacements: &reps };
    assert(ctx.reps() =~= seq![(var.name@, expr_view(*replacement))]);
    tr_expr_exec(&mut e, &ctx);
    e
}

} // verus!
