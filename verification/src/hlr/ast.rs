//! Statements, expressions and variables of the high-level representation.
use vstd::prelude::*;
use crate::value_types::Type;
use crate::symbol_renaming::CustomTypeId;
use crate::control_flow_graph::FunctionId;

verus! {

broadcast use vstd::std_specs::vec::axiom_vec_decreases_to_view;

/// Identifies a variable of the high-level representation.
#[derive(Debug, Clone, Copy, PartialEq, Eq, Hash, Structural)]
pub struct VariableId(pub usize);

impl VariableId {
    /// A new identifier taken from the counter `next`, which is advanced.
    pub fn fresh(next: &mut usize) -> (r: Self)
        requires
            *old(next) < usize::MAX,
        ensures
            r.0 == *old(next),
            *final(next) == *old(next) + 1,
    {
        let id = *next;
        *next = *next + 1;
        VariableId(id)
    }
}

#[derive(Debug, Clone, Copy, PartialEq, Eq, Hash, Structural)]
pub enum Scope {
    Local,
    Global,
}

#[derive(Debug, PartialEq, Eq, Hash)]
pub struct HlrVariable {
    pub name: String,
    pub type_info: Type,
    pub scope: Scope,
}

impl HlrVariable {
    /// A local variable.
    pub fn new(name: String, type_info: Type) -> (r: Self)
        ensures
            r.name == name,
            r.type_info == type_info,
            r.scope == Scope::Local,
    {
        Self { name, type_info, scope: Scope::Local }
    }
}

impl HlrVariable {
    /// A copy of the variable.
    pub fn duplicate(&self) -> (r: Self)
        ensures
            r == *self,
    {
        HlrVariable { name: self.name.clone(), type_info: self.type_info.duplicate(), scope: self.scope }
    }
}

impl Clone for HlrVariable {
    fn clone(&self) -> (r: Self)
        ensures
            r == *self,
    {
        self.duplicate()
    }
}

pub struct HlrFunction {
    pub original_id: FunctionId,
    pub name: String,
    pub args: Vec<HlrVariable>,
    pub return_type: Vec<HlrVariable>,
    pub body: Vec<HlrStatement>,
}

#[derive(Debug, PartialEq, Eq, Hash)]
pub enum HlrAssignmentTarget {
    Variable(HlrVariable),
    Deref(HlrExpression),
    Ignored,
}

#[derive(Debug, PartialEq, Eq, Hash)]
pub enum HlrStatement {
    VarDef(Vec<HlrVariable>, HlrExpression),
    Assignment(HlrAssignmentTarget, HlrExpression),
    Loop(Vec<HlrStatement>),
    If(HlrExpression, Vec<HlrStatement>, Vec<HlrStatement>),
    While(HlrExpression, Vec<HlrStatement>),
    DoWhile(Vec<HlrStatement>, HlrExpression),
    Break,
    Continue,
    Return(Vec<HlrExpression>),
    Halt,
    Output(HlrExpression),
    Nop,
}

/// Global variables with their address and initial value.
pub type HlrGlobals = Vec<(usize, (HlrVariable, HlrExpression))>;

pub struct HlrProgram {
    pub functions: Vec<HlrFunction>,
    pub globals: HlrGlobals,
}

#[derive(Debug, PartialEq, Eq, Hash)]
#[allow(inconsistent_fields)]
pub enum HlrExpression {
    Variable(HlrVariable),
    Deref(Box<HlrExpression>),
    Constant(i128, Type),
    StaticFunctionReference(String),
    StaticCustomType(CustomTypeId, String, usize),
    BinaryOp {
        op: BinaryOperator,
        left: Box<HlrExpression>,
        right: Box<HlrExpression>,
        result_type: Type,
    },
    UnaryOperator { op: UnaryOperator, expr: Box<HlrExpression> },
    String(String),
    FunctionCall(Box<HlrExpression>, Vec<HlrExpression>),
    Input(),
}

/// Whether two expressions are the same, comparing vectors and strings by
/// their contents.
pub open spec fn expr_same(a: HlrExpression, b: HlrExpression) -> bool
    decreases a,
{
    match a {
        HlrExpression::Variable(x) => b matches HlrExpression::Variable(y) && var_same(x, y),
        HlrExpression::Deref(x) => b matches HlrExpression::Deref(y) && expr_same(*x, *y),
        HlrExpression::Constant(v, t) => b == HlrExpression::Constant(v, t),
        HlrExpression::StaticFunctionReference(s) => b matches HlrExpression::StaticFunctionReference(
            s2,
        ) && s@ == s2@,
        HlrExpression::StaticCustomType(c, s, n) => b matches HlrExpression::StaticCustomType(c2, s2, n2)
            && c == c2 && s@ == s2@ && n == n2,
        HlrExpression::BinaryOp { op, left, right, result_type } => b matches HlrExpression::BinaryOp {
            op: op2,
            left: l2,
            right: r2,
            result_type: t2,
        } && op == op2 && expr_same(*left, *l2) && expr_same(*right, *r2) && result_type == t2,
        HlrExpression::UnaryOperator { op, expr } => b matches HlrExpression::UnaryOperator {
            op: op2,
            expr: e2,
        } && op == op2 && expr_same(*expr, *e2),
        HlrExpression::String(s) => b matches HlrExpression::String(s2) && s@ == s2@,
        HlrExpression::FunctionCall(f, args) => b matches HlrExpression::FunctionCall(f2, args2)
            && expr_same(*f, *f2) && exprs_same(args@, args2@),
        HlrExpression::Input() => b matches HlrExpression::Input(),
    }
}

/// `expr_same` element by element.
pub open spec fn exprs_same(a: Seq<HlrExpression>, b: Seq<HlrExpression>) -> bool
    decreases a,
{
    if a.len() == 0 {
        b.len() == 0
    } else {
        b.len() == a.len() && exprs_same(a.drop_last(), b.drop_last()) && expr_same(a.last(), b.last())
    }
}

/// Whether two variables are the same, comparing names by their contents.
pub open spec fn var_same(a: HlrVariable, b: HlrVariable) -> bool {
    a.name@ == b.name@ && a.type_info == b.type_info && a.scope == b.scope
}

impl HlrExpression {
    /// A copy of the expression.
    pub fn duplicate(&self) -> (r: Self)
        ensures
            expr_same(*self, r),
        decreases self,
    {
        match self {
            HlrExpression::Variable(v) => HlrExpression::Variable(v.duplicate()),
            HlrExpression::Deref(e) => HlrExpression::Deref(Box::new(e.duplicate())),
            HlrExpression::Constant(v, t) => HlrExpression::Constant(*v, t.duplicate()),
            HlrExpression::StaticFunctionReference(s) => HlrExpression::StaticFunctionReference(s.clone()),
            HlrExpression::StaticCustomType(c, s, n) => HlrExpression::StaticCustomType(*c, s.clone(), *n),
            HlrExpression::BinaryOp { op, left, right, result_type } => HlrExpression::BinaryOp {
                op: *op,
                left: Box::new(left.duplicate()),
                right: Box::new(right.duplicate()),
                result_type: result_type.duplicate(),
            },
            HlrExpression::UnaryOperator { op, expr } => HlrExpression::UnaryOperator {
                op: *op,
                expr: Box::new(expr.duplicate()),
            },
            HlrExpression::String(s) => HlrExpression::String(s.clone()),
            HlrExpression::FunctionCall(f, args) => {
                let f2 = f.duplicate();
                let mut a2: Vec<HlrExpression> = Vec::new();
                let mut i: usize = 0;
                #[verifier::loop_isolation(false)]
                while i < args.len()
                    invariant
                        i <= args@.len(),
                        a2@.len() == i,
                        exprs_same(args@.subrange(0, i as int), a2@),
                    decreases args@.len() - i,
                {
                    proof {
                        vstd::std_specs::vec::axiom_vec_index_decreases(*args, i as int);
                    }
                    let d = args[i].duplicate();
                    let ghost prev = a2@;
                    a2.push(d);
                    i = i + 1;
                    proof {
                        assert(args@.subrange(0, i as int).drop_last() =~= args@.subrange(0, i - 1));
                        assert(a2@.drop_last() =~= prev);
                    }
                }
                assert(args@.subrange(0, i as int) =~= args@);
                assert(exprs_same(args@, a2@));
                assert(expr_same(**f, f2));
                assert(*self == HlrExpression::FunctionCall(*f, *args));
                assert(args@.len() == a2@.len());
                let r = HlrExpression::FunctionCall(Box::new(f2), a2);
                assert(r matches HlrExpression::FunctionCall(ff, aa) && aa@ == a2@ && *ff == f2);
                assert(expr_same(*self, r));
                r
            },
            HlrExpression::Input() => HlrExpression::Input(),
        }
    }
}


#[derive(Debug, Clone, Copy, PartialEq, Eq, Hash, Structural)]
pub enum BinaryOperator {
    Add,
    Mul,
    Sub,
    LessThan,
    LessThanOrEqual,
    Equals,
    NotEquals,
    GreaterThan,
    GreaterThanOrEqual,
}

/// The comparison operators, which have a negation.
pub open spec fn spec_is_logical(op: BinaryOperator) -> bool {
    match op {
        BinaryOperator::Equals | BinaryOperator::NotEquals | BinaryOperator::GreaterThan
        | BinaryOperator::LessThan | BinaryOperator::GreaterThanOrEqual
        | BinaryOperator::LessThanOrEqual => true,
        _ => false,
    }
}

/// The comparison that holds exactly when `op` does not.
pub open spec fn spec_negated(op: BinaryOperator) -> BinaryOperator {
    match op {
        BinaryOperator::Equals => BinaryOperator::NotEquals,
        BinaryOperator::NotEquals => BinaryOperator::Equals,
        BinaryOperator::GreaterThan => BinaryOperator::LessThanOrEqual,
        BinaryOperator::LessThan => BinaryOperator::GreaterThanOrEqual,
        BinaryOperator::GreaterThanOrEqual => BinaryOperator::LessThan,
        BinaryOperator::LessThanOrEqual => BinaryOperator::GreaterThan,
        _ => op,
    }
}

/// The truth of a comparison on two integers.
pub open spec fn spec_compare(op: BinaryOperator, a: int, b: int) -> bool {
    match op {
        BinaryOperator::Equals => a == b,
        BinaryOperator::NotEquals => a != b,
        BinaryOperator::GreaterThan => a > b,
        BinaryOperator::LessThan => a < b,
        BinaryOperator::GreaterThanOrEqual => a >= b,
        BinaryOperator::LessThanOrEqual => a <= b,
        _ => false,
    }
}

impl BinaryOperator {
    /// The negated comparison.  Only comparisons have one.
    pub fn logical_not(&self) -> (r: Self)
        requires
            spec_is_logical(*self),
        ensures
            r == spec_negated(*self),
    {
        match self {
            BinaryOperator::Equals => BinaryOperator::NotEquals,
            BinaryOperator::NotEquals => BinaryOperator::Equals,
            BinaryOperator::GreaterThan => BinaryOperator::LessThanOrEqual,
            BinaryOperator::LessThan => BinaryOperator::GreaterThanOrEqual,
            BinaryOperator::GreaterThanOrEqual => BinaryOperator::LessThan,
            BinaryOperator::LessThanOrEqual => BinaryOperator::GreaterThan,
            _ => *self,
        }
    }

    /// Whether the operator is a comparison.
    pub fn is_logical_operator(&self) -> (r: bool)
        ensures
            r == spec_is_logical(*self),
    {
        match self {
            BinaryOperator::Equals | BinaryOperator::NotEquals | BinaryOperator::GreaterThan
            | BinaryOperator::LessThan | BinaryOperator::GreaterThanOrEqual
            | BinaryOperator::LessThanOrEqual => true,
            _ => false,
        }
    }
}

/// Negating a comparison gives a comparison, negating twice gives the
/// comparison back, and the negation holds on exactly the integers on which
/// the comparison does not.
pub proof fn lemma_negation(op: BinaryOperator, a: int, b: int)
    requires
        spec_is_logical(op),
    ensures
        spec_is_logical(spec_negated(op)),
        spec_negated(spec_negated(op)) == op,
        spec_compare(spec_negated(op), a, b) == !spec_compare(op, a, b),
{
}

#[derive(Debug, Clone, Copy, PartialEq, Eq, Hash, Structural)]
pub enum UnaryOperator {
    LogicalNot,
    Minus,
}

/// Whether negating `e` is defined: a binary operation must be a comparison.
pub open spec fn spec_negatable(e: HlrExpression) -> bool {
    e matches HlrExpression::BinaryOp { op, .. } ==> spec_is_logical(op)
}

impl HlrExpression {
    /// The negation of a comparison; `None` for other expressions.
    pub fn logical_not(&self) -> (r: Option<Self>)
        requires
            spec_negatable(*self),
        ensures
            match *self {
                HlrExpression::BinaryOp { op, left, right, result_type } => r matches Some(
                    HlrExpression::BinaryOp { op: op2, left: l2, right: r2, result_type: t2 },
                ) && op2 == spec_negated(op) && expr_same(*left, *l2) && expr_same(*right, *r2)
                    && t2 == result_type,
                _ => r is None,
            },
    {
        match self {
            HlrExpression::BinaryOp { op, left, right, result_type } => Some(
                HlrExpression::BinaryOp {
                    op: op.logical_not(),
                    left: Box::new(left.duplicate()),
                    right: Box::new(right.duplicate()),
                    result_type: result_type.duplicate(),
                },
            ),
            _ => None,
        }
    }

    /// Negates the expression in place: a comparison is replaced by its
    /// negation, anything else is wrapped in a logical not.
    pub fn negate_inplace(&mut self)
        requires
            spec_negatable(*old(self)),
        ensures
            match *old(self) {
                HlrExpression::BinaryOp { op, left, right, result_type } => *final(self)
                    == HlrExpression::BinaryOp { op: spec_negated(op), left, right, result_type },
                _ => *final(self) == HlrExpression::UnaryOperator {
                    op: UnaryOperator::LogicalNot,
                    expr: Box::new(*old(self)),
                },
            },
    {
        let mut original = HlrExpression::Input();
        std::mem::swap(self, &mut original);
        let negated = match original {
            HlrExpression::BinaryOp { op, left, right, result_type } => HlrExpression::BinaryOp {
                op: op.logical_not(),
                left,
                right,
                result_type,
            },
            other => HlrExpression::UnaryOperator { op: UnaryOperator::LogicalNot, expr: Box::new(other) },
        };
        *self = negated;
    }

    /// The value of a constant.
    pub fn as_constant(&self) -> (r: Option<i128>)
        ensures
            match *self {
                HlrExpression::Constant(v, _) => r == Some(v),
                _ => r is None,
            },
    {
        match self {
            HlrExpression::Constant(val, _) => Some(*val),
            _ => None,
        }
    }

    /// The operator and operands of a binary operation.
    pub fn as_binary_op(&self) -> (r: Option<(BinaryOperator, &HlrExpression, &HlrExpression)>)
        ensures
            match *self {
                HlrExpression::BinaryOp { op, left, right, .. } => r == Some((op, &*left, &*right)),
                _ => r is None,
            },
    {
        match self {
            HlrExpression::BinaryOp { op, left, right, .. } => Some((*op, &**left, &**right)),
            _ => None,
        }
    }

    /// The operand of a unary minus.
    pub fn as_unary_minus(&self) -> (r: Option<&HlrExpression>)
        ensures
            match *self {
                HlrExpression::UnaryOperator { op: UnaryOperator::Minus, expr } => r == Some(&*expr),
                _ => r is None,
            },
    {
        match self {
            HlrExpression::UnaryOperator { op: UnaryOperator::Minus, expr } => Some(&**expr),
            _ => None,
        }
    }

    /// The value of a constant, to change in place.
    pub fn as_constant_mut(&mut self) -> (r: Option<&mut i128>)
        ensures
            match *old(self) {
                HlrExpression::Constant(v, t) => r matches Some(x) && *x == v && *final(self)
                    == HlrExpression::Constant(*final(x), t),
                _ => r is None && *final(self) == *old(self),
            },
    {
        match self {
            HlrExpression::Constant(val, _) => Some(val),
            _ => None,
        }
    }
}

/// The name of the kind of an expression.
pub open spec fn spec_expr_kind(e: HlrExpression) -> Seq<char> {
    match e {
        HlrExpression::Variable(_) => "Variable"@,
        HlrExpression::Deref(_) => "Deref"@,
        HlrExpression::Constant(_, _) => "Constant"@,
        HlrExpression::StaticFunctionReference(_) => "StaticFunctionReference"@,
        HlrExpression::StaticCustomType(_, _, _) => "StaticCustomType"@,
        HlrExpression::BinaryOp { .. } => "BinaryOp"@,
        HlrExpression::UnaryOperator { .. } => "UnaryOperator"@,
        HlrExpression::String(_) => "String"@,
        HlrExpression::FunctionCall(_, _) => "FunctionCall"@,
        HlrExpression::Input() => "Input"@,
    }
}

/// The name of the kind of a statement.
pub open spec fn spec_stmt_kind(s: HlrStatement) -> Seq<char> {
    match s {
        HlrStatement::VarDef(_, _) => "VarDef"@,
        HlrStatement::Assignment(_, _) => "Assignment"@,
        HlrStatement::Loop(_) => "Loop"@,
        HlrStatement::If(_, _, _) => "If"@,
        HlrStatement::While(_, _) => "While"@,
        HlrStatement::DoWhile(_, _) => "DoWhile"@,
        HlrStatement::Break => "Break"@,
        HlrStatement::Continue => "Continue"@,
        HlrStatement::Return(_) => "Return"@,
        HlrStatement::Halt => "Halt"@,
        HlrStatement::Output(_) => "Output"@,
        HlrStatement::Nop => "Nop"@,
    }
}

impl HlrExpression {
    /// The name of the kind of the expression, such as `Constant`.
    pub fn kind_name(&self) -> (r: &'static str)
        ensures
            r@ == spec_expr_kind(*self),
    {
        match self {
            HlrExpression::Variable(_) => "Variable",
            HlrExpression::Deref(_) => "Deref",
            HlrExpression::Constant(_, _) => "Constant",
            HlrExpression::StaticFunctionReference(_) => "StaticFunctionReference",
            HlrExpression::StaticCustomType(_, _, _) => "StaticCustomType",
            HlrExpression::BinaryOp { .. } => "BinaryOp",
            HlrExpression::UnaryOperator { .. } => "UnaryOperator",
            HlrExpression::String(_) => "String",
            HlrExpression::FunctionCall(_, _) => "FunctionCall",
            HlrExpression::Input() => "Input",
        }
    }
}

impl HlrStatement {
    /// The name of the kind of the statement, such as `VarDef`.
    pub fn kind_name(&self) -> (r: &'static str)
        ensures
            r@ == spec_stmt_kind(*self),
    {
        match self {
            HlrStatement::VarDef(_, _) => "VarDef",
            HlrStatement::Assignment(_, _) => "Assignment",
            HlrStatement::Loop(_) => "Loop",
            HlrStatement::If(_, _, _) => "If",
            HlrStatement::While(_, _) => "While",
            HlrStatement::DoWhile(_, _) => "DoWhile",
            HlrStatement::Break => "Break",
            HlrStatement::Continue => "Continue",
            HlrStatement::Return(_) => "Return",
            HlrStatement::Halt => "Halt",
            HlrStatement::Output(_) => "Output",
            HlrStatement::Nop => "Nop",
        }
    }
}

/// Negating a comparison twice in place gives it back.
pub proof fn lemma_negate_twice(op: BinaryOperator, left: Box<HlrExpression>, right: Box<HlrExpression>, t: Type)
    requires
        spec_is_logical(op),
    ensures
        ({
            let once = HlrExpression::BinaryOp { op: spec_negated(op), left, right, result_type: t };
            &&& spec_negatable(once)
            &&& (once matches HlrExpression::BinaryOp { op: o1, .. } && HlrExpression::BinaryOp {
                op: spec_negated(o1),
                left,
                right,
                result_type: t,
            } == HlrExpression::BinaryOp { op, left, right, result_type: t })
        }),
{
}

/// Whether `n` is a negation of the comparison `e`, as
/// [`HlrExpression::logical_not`] gives it: the negated operator on the same
/// operands and result type.
pub open spec fn negation_of(e: HlrExpression, n: HlrExpression) -> bool {
    match e {
        HlrExpression::BinaryOp { op, left, right, result_type } => n matches HlrExpression::BinaryOp {
            op: op2,
            left: l2,
            right: r2,
            result_type: t2,
        } && op2 == spec_negated(op) && expr_same(*left, *l2) && expr_same(*right, *r2) && t2 == result_type,
        _ => false,
    }
}

/// Sameness of expressions is transitive.
pub proof fn lemma_expr_same_trans(a: HlrExpression, b: HlrExpression, c: HlrExpression)
    requires
        expr_same(a, b),
        expr_same(b, c),
    ensures
        expr_same(a, c),
    decreases a,
{
    match a {
        HlrExpression::Deref(x) => {
            if let (HlrExpression::Deref(y), HlrExpression::Deref(z)) = (b, c) {
                lemma_expr_same_trans(*x, *y, *z);
            }
        },
        HlrExpression::BinaryOp { op, left, right, result_type } => {
            if let (HlrExpression::BinaryOp { left: l2, right: r2, .. }, HlrExpression::BinaryOp { left: l3, right: r3, .. }) = (b, c) {
                lemma_expr_same_trans(*left, *l2, *l3);
                lemma_expr_same_trans(*right, *r2, *r3);
            }
        },
        HlrExpression::UnaryOperator { op, expr } => {
            if let (HlrExpression::UnaryOperator { expr: e2, .. }, HlrExpression::UnaryOperator { expr: e3, .. }) = (b, c) {
                lemma_expr_same_trans(*expr, *e2, *e3);
            }
        },
        HlrExpression::FunctionCall(f, args) => {
            if let (HlrExpression::FunctionCall(f2, a2), HlrExpression::FunctionCall(f3, a3)) = (b, c) {
                lemma_expr_same_trans(*f, *f2, *f3);
                lemma_exprs_same_trans(args@, a2@, a3@);
            }
        },
        _ => {},
    }
}

/// Sameness of expressions, element by element, is transitive.
pub proof fn lemma_exprs_same_trans(a: Seq<HlrExpression>, b: Seq<HlrExpression>, c: Seq<HlrExpression>)
    requires
        exprs_same(a, b),
        exprs_same(b, c),
    ensures
        exprs_same(a, c),
    decreases a,
{
    if a.len() > 0 {
        lemma_exprs_same_trans(a.drop_last(), b.drop_last(), c.drop_last());
        lemma_expr_same_trans(a.last(), b.last(), c.last());
    }
}

/// Negating a comparison twice gives back the same comparison: the
/// operator is restored, the operands and the result type are kept.
pub proof fn lemma_negation_twice(e: HlrExpression, n1: HlrExpression, n2: HlrExpression)
    requires
        spec_negatable(e),
        negation_of(e, n1),
        negation_of(n1, n2),
    ensures
        expr_same(e, n2),
{
    if let (
        HlrExpression::BinaryOp { op, left, right, result_type },
        HlrExpression::BinaryOp { left: l1, right: r1, .. },
        HlrExpression::BinaryOp { left: l2, right: r2, .. },
    ) = (e, n1, n2) {
        lemma_expr_same_trans(*left, *l1, *l2);
        lemma_expr_same_trans(*right, *r1, *r2);
    }
}

} // verus!
