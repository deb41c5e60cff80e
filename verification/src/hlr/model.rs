//! The mathematical model of the high-level representation: the same trees,
//! with character sequences in place of strings and sequences in place of
//! vectors, so that specifications can build them.
use vstd::prelude::*;
use crate::hlr::ast::{
    expr_same, exprs_same, BinaryOperator, HlrAssignmentTarget, HlrExpression, HlrStatement, HlrVariable, Scope,
    UnaryOperator,
};
use crate::symbol_renaming::CustomTypeId;
use crate::value_types::Type;

verus! {

broadcast use vstd::std_specs::vec::axiom_vec_decreases_to_view;

pub ghost struct VarView {
    pub name: Seq<char>,
    pub type_info: Type,
    pub scope: Scope,
}

#[allow(inconsistent_fields)]
pub ghost enum ExprView {
    Variable(VarView),
    Deref(Box<ExprView>),
    Constant(i128, Type),
    StaticFunctionReference(Seq<char>),
    StaticCustomType(CustomTypeId, Seq<char>, usize),
    BinaryOp { op: BinaryOperator, left: Box<ExprView>, right: Box<ExprView>, result_type: Type },
    UnaryOperator { op: UnaryOperator, expr: Box<ExprView> },
    String(Seq<char>),
    FunctionCall(Box<ExprView>, Seq<ExprView>),
    Input,
}

pub ghost enum TargetView {
    Variable(VarView),
    Deref(ExprView),
    Ignored,
}

pub ghost enum StmtView {
    VarDef(Seq<VarView>, ExprView),
    Assignment(TargetView, ExprView),
    Loop(Seq<StmtView>),
    If(ExprView, Seq<StmtView>, Seq<StmtView>),
    While(ExprView, Seq<StmtView>),
    DoWhile(Seq<StmtView>, ExprView),
    Break,
    Continue,
    Return(Seq<ExprView>),
    Halt,
    Output(ExprView),
    Nop,
}

pub open spec fn var_view(v: HlrVariable) -> VarView {
    VarView { name: v.name@, type_info: v.type_info, scope: v.scope }
}

pub open spec fn vars_view(v: Seq<HlrVariable>) -> Seq<VarView> {
    Seq::new(v.len(), |i: int| var_view(v[i]))
}

pub open spec fn exprs_view(v: Seq<HlrExpression>) -> Seq<ExprView>
    decreases v,
{
    if v.len() == 0 {
        seq![]
    } else {
        exprs_view(v.drop_last()).push(expr_view(v.last()))
    }
}

pub open spec fn expr_view(e: HlrExpression) -> ExprView
    decreases e,
{
    match e {
        HlrExpression::Variable(v) => ExprView::Variable(var_view(v)),
        HlrExpression::Deref(x) => ExprView::Deref(Box::new(expr_view(*x))),
        HlrExpression::Constant(v, t) => ExprView::Constant(v, t),
        HlrExpression::StaticFunctionReference(s) => ExprView::StaticFunctionReference(s@),
        HlrExpression::StaticCustomType(c, s, n) => ExprView::StaticCustomType(c, s@, n),
        HlrExpression::BinaryOp { op, left, right, result_type } => ExprView::BinaryOp {
            op,
            left: Box::new(expr_view(*left)),
            right: Box::new(expr_view(*right)),
            result_type,
        },
        HlrExpression::UnaryOperator { op, expr } => ExprView::UnaryOperator {
            op,
            expr: Box::new(expr_view(*expr)),
        },
        HlrExpression::String(s) => ExprView::String(s@),
        HlrExpression::FunctionCall(f, args) => ExprView::FunctionCall(
            Box::new(expr_view(*f)),
            exprs_view(args@),
        ),
        HlrExpression::Input() => ExprView::Input,
    }
}

pub open spec fn target_view(t: HlrAssignmentTarget) -> TargetView {
    match t {
        HlrAssignmentTarget::Variable(v) => TargetView::Variable(var_view(v)),
        HlrAssignmentTarget::Deref(e) => TargetView::Deref(expr_view(e)),
        HlrAssignmentTarget::Ignored => TargetView::Ignored,
    }
}

pub open spec fn stmts_view(v: Seq<HlrStatement>) -> Seq<StmtView>
    decreases v,
{
    if v.len() == 0 {
        seq![]
    } else {
        stmts_view(v.drop_last()).push(stmt_view(v.last()))
    }
}

pub open spec fn stmt_view(s: HlrStatement) -> StmtView
    decreases s,
{
    match s {
        HlrStatement::VarDef(vars, e) => StmtView::VarDef(vars_view(vars@), expr_view(e)),
        HlrStatement::Assignment(t, e) => StmtView::Assignment(target_view(t), expr_view(e)),
        HlrStatement::Loop(b) => StmtView::Loop(stmts_view(b@)),
        HlrStatement::If(c, t, f) => StmtView::If(expr_view(c), stmts_view(t@), stmts_view(f@)),
        HlrStatement::While(c, b) => StmtView::While(expr_view(c), stmts_view(b@)),
        HlrStatement::DoWhile(b, c) => StmtView::DoWhile(stmts_view(b@), expr_view(c)),
        HlrStatement::Break => StmtView::Break,
        HlrStatement::Continue => StmtView::Continue,
        HlrStatement::Return(es) => StmtView::Return(exprs_view(es@)),
        HlrStatement::Halt => StmtView::Halt,
        HlrStatement::Output(e) => StmtView::Output(expr_view(e)),
        HlrStatement::Nop => StmtView::Nop,
    }
}

pub proof fn lemma_exprs_view_len(v: Seq<HlrExpression>)
    ensures
        exprs_view(v).len() == v.len(),
    decreases v.len(),
{
    if v.len() > 0 {
        lemma_exprs_view_len(v.drop_last());
    }
}

pub proof fn lemma_stmts_view_len(v: Seq<HlrStatement>)
    ensures
        stmts_view(v).len() == v.len(),
    decreases v.len(),
{
    if v.len() > 0 {
        lemma_stmts_view_len(v.drop_last());
    }
}

pub proof fn lemma_stmts_view_index(v: Seq<HlrStatement>, i: int)
    requires
        0 <= i < v.len(),
    ensures
        stmts_view(v)[i] == stmt_view(v[i]),
        stmts_view(v).len() == v.len(),
    decreases v.len(),
{
    lemma_stmts_view_len(v);
    if i < v.len() - 1 {
        lemma_stmts_view_index(v.drop_last(), i);
    }
}

pub proof fn lemma_exprs_view_index(v: Seq<HlrExpression>, i: int)
    requires
        0 <= i < v.len(),
    ensures
        exprs_view(v)[i] == expr_view(v[i]),
        exprs_view(v).len() == v.len(),
    decreases v.len(),
{
    lemma_exprs_view_len(v);
    if i < v.len() - 1 {
        lemma_exprs_view_index(v.drop_last(), i);
    }
}

/// Expressions that are the same have the same model.
pub proof fn lemma_same_view(a: HlrExpression, b: HlrExpression)
    requires
        expr_same(a, b),
    ensures
        expr_view(a) == expr_view(b),
    decreases a,
{
    match a {
        HlrExpression::Deref(x) => {
            if let HlrExpression::Deref(y) = b {
                lemma_same_view(*x, *y);
            }
        },
        HlrExpression::BinaryOp { left, right, .. } => {
            if let HlrExpression::BinaryOp { left: l2, right: r2, .. } = b {
                lemma_same_view(*left, *l2);
                lemma_same_view(*right, *r2);
            }
        },
        HlrExpression::UnaryOperator { expr, .. } => {
            if let HlrExpression::UnaryOperator { expr: e2, .. } = b {
                lemma_same_view(*expr, *e2);
            }
        },
        HlrExpression::FunctionCall(f, args) => {
            if let HlrExpression::FunctionCall(f2, args2) = b {
                lemma_same_view(*f, *f2);
                lemma_same_views(args@, args2@);
            }
        },
        _ => {},
    }
}

pub proof fn lemma_same_views(a: Seq<HlrExpression>, b: Seq<HlrExpression>)
    requires
        exprs_same(a, b),
    ensures
        exprs_view(a) == exprs_view(b),
    decreases a,
{
    if a.len() > 0 {
        lemma_same_views(a.drop_last(), b.drop_last());
        lemma_same_view(a.last(), b.last());
    }
}

} // verus!
