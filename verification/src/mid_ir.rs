//! The mid-level representation: expressions over the arguments of a
//! function and structured statements.
use vstd::prelude::*;
use crate::low_ir::{Instruction, InstrView};
use crate::mid_flow::LoopId;
use crate::text::{append_chars, append_int, append_str, append_uint, spec_int_text, spec_uint_text};
use crate::code_printer::{CodeWriter, SingleLineWriter, without_newlines};
use crate::low_ir::spec_instr_text;

verus! {

broadcast use vstd::std_specs::vec::axiom_vec_decreases_to_view;

/// An expression of the mid-level representation.
#[derive(Debug, PartialEq, Eq, Hash)]
pub enum Expr {
    Input(),
    Var(String),
    InArg(usize),
    OutArg(usize),
    MemRef(Box<Expr>),
    Literal(i128),
    Add(Box<Expr>, Box<Expr>),
    Mul(Box<Expr>, Box<Expr>),
    NotEqual(Box<Expr>, Box<Expr>),
    Equal(Box<Expr>, Box<Expr>),
    LessThan(Box<Expr>, Box<Expr>),
    GreaterOrEqual(Box<Expr>, Box<Expr>),
    Negate(Box<Expr>),
    If(Box<Expr>, Box<Expr>, Box<Expr>),
}

/// The mathematical value of an expression: names are character sequences.
pub ghost enum ExprView {
    Input,
    Var(Seq<char>),
    InArg(usize),
    OutArg(usize),
    MemRef(Box<ExprView>),
    Literal(i128),
    Add(Box<ExprView>, Box<ExprView>),
    Mul(Box<ExprView>, Box<ExprView>),
    NotEqual(Box<ExprView>, Box<ExprView>),
    Equal(Box<ExprView>, Box<ExprView>),
    LessThan(Box<ExprView>, Box<ExprView>),
    GreaterOrEqual(Box<ExprView>, Box<ExprView>),
    Negate(Box<ExprView>),
    If(Box<ExprView>, Box<ExprView>, Box<ExprView>),
}

impl Expr {
    pub open spec fn view(&self) -> ExprView
        decreases self,
    {
        match self {
            Expr::Input() => ExprView::Input,
            Expr::Var(s) => ExprView::Var(s@),
            Expr::InArg(i) => ExprView::InArg(*i),
            Expr::OutArg(i) => ExprView::OutArg(*i),
            Expr::MemRef(e) => ExprView::MemRef(Box::new(e.view())),
            Expr::Literal(v) => ExprView::Literal(*v),
            Expr::Add(a, b) => ExprView::Add(Box::new(a.view()), Box::new(b.view())),
            Expr::Mul(a, b) => ExprView::Mul(Box::new(a.view()), Box::new(b.view())),
            Expr::NotEqual(a, b) => ExprView::NotEqual(Box::new(a.view()), Box::new(b.view())),
            Expr::Equal(a, b) => ExprView::Equal(Box::new(a.view()), Box::new(b.view())),
            Expr::LessThan(a, b) => ExprView::LessThan(Box::new(a.view()), Box::new(b.view())),
            Expr::GreaterOrEqual(a, b) => ExprView::GreaterOrEqual(
                Box::new(a.view()),
                Box::new(b.view()),
            ),
            Expr::Negate(e) => ExprView::Negate(Box::new(e.view())),
            Expr::If(c, t, e) => ExprView::If(
                Box::new(c.view()),
                Box::new(t.view()),
                Box::new(e.view()),
            ),
        }
    }

    /// An equal copy of the expression.
    pub fn duplicate(&self) -> (r: Self)
        ensures
            r.view() == self.view(),
        decreases self,
    {
        match self {
            Expr::Input() => Expr::Input(),
            Expr::Var(s) => Expr::Var(s.clone()),
            Expr::InArg(i) => Expr::InArg(*i),
            Expr::OutArg(i) => Expr::OutArg(*i),
            Expr::MemRef(e) => Expr::MemRef(Box::new(e.duplicate())),
            Expr::Literal(v) => Expr::Literal(*v),
            Expr::Add(a, b) => Expr::Add(Box::new(a.duplicate()), Box::new(b.duplicate())),
            Expr::Mul(a, b) => Expr::Mul(Box::new(a.duplicate()), Box::new(b.duplicate())),
            Expr::NotEqual(a, b) => Expr::NotEqual(Box::new(a.duplicate()), Box::new(b.duplicate())),
            Expr::Equal(a, b) => Expr::Equal(Box::new(a.duplicate()), Box::new(b.duplicate())),
            Expr::LessThan(a, b) => Expr::LessThan(Box::new(a.duplicate()), Box::new(b.duplicate())),
            Expr::GreaterOrEqual(a, b) => Expr::GreaterOrEqual(
                Box::new(a.duplicate()),
                Box::new(b.duplicate()),
            ),
            Expr::Negate(e) => Expr::Negate(Box::new(e.duplicate())),
            Expr::If(c, t, e) => Expr::If(
                Box::new(c.duplicate()),
                Box::new(t.duplicate()),
                Box::new(e.duplicate()),
            ),
        }
    }
}

/// The logical negation of a condition: comparisons flip, a negation is
/// removed, and anything else is wrapped in a negation.
pub open spec fn spec_negate(e: ExprView) -> ExprView {
    match e {
        ExprView::NotEqual(a, b) => ExprView::Equal(a, b),
        ExprView::Equal(a, b) => ExprView::NotEqual(a, b),
        ExprView::LessThan(a, b) => ExprView::GreaterOrEqual(a, b),
        ExprView::GreaterOrEqual(a, b) => ExprView::LessThan(a, b),
        ExprView::Negate(x) => *x,
        _ => ExprView::Negate(Box::new(e)),
    }
}

impl Expr {
    /// The logical negation of the condition.
    pub fn negate(&self) -> (r: Expr)
        ensures
            r.view() == spec_negate(self.view()),
    {
        match self {
            Expr::NotEqual(a, b) => Expr::Equal(Box::new(a.duplicate()), Box::new(b.duplicate())),
            Expr::Equal(a, b) => Expr::NotEqual(Box::new(a.duplicate()), Box::new(b.duplicate())),
            Expr::LessThan(a, b) => Expr::GreaterOrEqual(
                Box::new(a.duplicate()),
                Box::new(b.duplicate()),
            ),
            Expr::GreaterOrEqual(a, b) => Expr::LessThan(
                Box::new(a.duplicate()),
                Box::new(b.duplicate()),
            ),
            Expr::Negate(e) => e.duplicate(),
            _ => Expr::Negate(Box::new(self.duplicate())),
        }
    }
}

/// Negating twice gives the condition back, unless the condition is the
/// negation of a comparison or of another negation: those lose their outer
/// negation on the first step.
pub proof fn lemma_negate_involution(e: ExprView)
    requires
        !(e matches ExprView::Negate(x) && (*x is NotEqual || *x is Equal || *x is LessThan
            || *x is GreaterOrEqual || *x is Negate)),
    ensures
        spec_negate(spec_negate(e)) == e,
{
}


/// The text of a binary expression `a op b`, in brackets when `bracket`.
pub open spec fn binary_text(a: Seq<char>, op: Seq<char>, b: Seq<char>, bracket: bool) -> Seq<char> {
    if bracket {
        seq!['('] + a + op + b + seq![')']
    } else {
        a + op + b
    }
}

/// The text of an expression: sums and products in brackets, comparisons
/// without, `iN` and `oN` for the argument slots, `*(e)` for a memory
/// reference, `!e` for a negation and `if (c) { a } else { b }`.
pub open spec fn spec_expr_text(e: ExprView) -> Seq<char>
    decreases e,
{
    match e {
        ExprView::Input => seq!['i', 'n', 'p', 'u', 't', '(', ')'],
        ExprView::Var(x) => x,
        ExprView::Literal(x) => spec_int_text(x as int),
        ExprView::Add(a, b) => binary_text(spec_expr_text(*a), seq![' ', '+', ' '], spec_expr_text(*b), true),
        ExprView::Mul(a, b) => binary_text(spec_expr_text(*a), seq![' ', '*', ' '], spec_expr_text(*b), true),
        ExprView::InArg(x) => seq!['i'] + spec_uint_text(x as nat),
        ExprView::OutArg(x) => seq!['o'] + spec_uint_text(x as nat),
        ExprView::MemRef(x) => seq!['*', '('] + spec_expr_text(*x) + seq![')'],
        ExprView::NotEqual(a, b) => binary_text(spec_expr_text(*a), seq![' ', '!', '=', ' '], spec_expr_text(*b), false),
        ExprView::Equal(a, b) => binary_text(spec_expr_text(*a), seq![' ', '=', '=', ' '], spec_expr_text(*b), false),
        ExprView::LessThan(a, b) => binary_text(spec_expr_text(*a), seq![' ', '<', ' '], spec_expr_text(*b), false),
        ExprView::GreaterOrEqual(a, b) => binary_text(spec_expr_text(*a), seq![' ', '>', '=', ' '], spec_expr_text(*b), false),
        ExprView::Negate(x) => seq!['!'] + spec_expr_text(*x),
        ExprView::If(c, t, f) => seq!['i', 'f', ' ', '('] + spec_expr_text(*c) + seq![')', ' ', '{', ' '] + spec_expr_text(*t)
            + seq![' ', '}', ' ', 'e', 'l', 's', 'e', ' ', '{', ' '] + spec_expr_text(*f) + seq![' ', '}'],
    }
}

impl Expr {
    /// Appends the text of the expression.
    pub fn append_text(&self, out: &mut String)
        ensures
            final(out)@ == old(out)@ + spec_expr_text(self.view()),
        decreases self,
    {
        let ghost o = out@;
        match self {
            Expr::Input() => append_chars(out, &['i', 'n', 'p', 'u', 't', '(', ')']),
            Expr::Var(x) => append_str(out, x.as_str()),
            Expr::Literal(x) => append_int(out, *x),
            Expr::Add(a, b) => {
                append_chars(out, &['(']);
                a.append_text(out);
                append_chars(out, &[' ', '+', ' ']);
                b.append_text(out);
                append_chars(out, &[')']);
            },
            Expr::Mul(a, b) => {
                append_chars(out, &['(']);
                a.append_text(out);
                append_chars(out, &[' ', '*', ' ']);
                b.append_text(out);
                append_chars(out, &[')']);
            },
            Expr::InArg(x) => {
                append_chars(out, &['i']);
                append_uint(out, *x as u128);
            },
            Expr::OutArg(x) => {
                append_chars(out, &['o']);
                append_uint(out, *x as u128);
            },
            Expr::MemRef(x) => {
                append_chars(out, &['*', '(']);
                x.append_text(out);
                append_chars(out, &[')']);
            },
            Expr::NotEqual(a, b) => {
                a.append_text(out);
                append_chars(out, &[' ', '!', '=', ' ']);
                b.append_text(out);
            },
            Expr::Equal(a, b) => {
                a.append_text(out);
                append_chars(out, &[' ', '=', '=', ' ']);
                b.append_text(out);
            },
            Expr::LessThan(a, b) => {
                a.append_text(out);
                append_chars(out, &[' ', '<', ' ']);
                b.append_text(out);
            },
            Expr::GreaterOrEqual(a, b) => {
                a.append_text(out);
                append_chars(out, &[' ', '>', '=', ' ']);
                b.append_text(out);
            },
            Expr::Negate(x) => {
                append_chars(out, &['!']);
                x.append_text(out);
            },
            Expr::If(c, t, f) => {
                append_chars(out, &['i', 'f', ' ', '(']);
                c.append_text(out);
                append_chars(out, &[')', ' ', '{', ' ']);
                t.append_text(out);
                append_chars(out, &[' ', '}', ' ', 'e', 'l', 's', 'e', ' ', '{', ' ']);
                f.append_text(out);
                append_chars(out, &[' ', '}']);
            },
        }
        assert(out@ =~= o + spec_expr_text(self.view()));
    }

    /// The text of the expression.
    pub fn to_text(&self) -> (r: String)
        ensures
            r@ == spec_expr_text(self.view()),
    {
        let mut s = String::new();
        self.append_text(&mut s);
        assert(s@ =~= spec_expr_text(self.view()));
        s
    }
}

/// A statement of the mid-level representation.
#[derive(Debug, PartialEq)]
pub enum MidIR {
    Block(Vec<MidIR>),
    Assign(Expr, Expr),
    FunctionCall(usize, Vec<Expr>),
    DynamicFunctionCall(Expr, Vec<Expr>),
    If(Expr, Box<MidIR>, Option<Box<MidIR>>),
    While(LoopId, Option<Box<MidIR>>, Expr, Box<MidIR>),
    DoWhile(LoopId, Box<MidIR>, Expr),
    Loop(LoopId, Box<MidIR>),
    Output(Expr),
    Break(LoopId),
    Continue(LoopId),
    Unknown(usize, Instruction),
    Return(),
}

/// The mathematical value of a statement.
pub ghost enum MidIRView {
    Block(Seq<MidIRView>),
    Assign(ExprView, ExprView),
    FunctionCall(usize, Seq<ExprView>),
    DynamicFunctionCall(ExprView, Seq<ExprView>),
    If(ExprView, Box<MidIRView>, Option<Box<MidIRView>>),
    While(LoopId, Option<Box<MidIRView>>, ExprView, Box<MidIRView>),
    DoWhile(LoopId, Box<MidIRView>, ExprView),
    Loop(LoopId, Box<MidIRView>),
    Output(ExprView),
    Break(LoopId),
    Continue(LoopId),
    Unknown(usize, InstrView<crate::low_ir::Arg>),
    Return,
}

pub open spec fn exprs_view(v: Seq<Expr>) -> Seq<ExprView> {
    Seq::new(v.len(), |i: int| v[i].view())
}

pub open spec fn midirs_view(v: Seq<MidIR>) -> Seq<MidIRView>
    decreases v,
{
    if v.len() == 0 {
        seq![]
    } else {
        midirs_view(v.drop_last()).push(midir_view(v.last()))
    }
}

pub open spec fn midir_view(m: MidIR) -> MidIRView
    decreases m,
{
    match m {
        MidIR::Block(v) => MidIRView::Block(midirs_view(v@)),
        MidIR::Assign(a, b) => MidIRView::Assign(a.view(), b.view()),
        MidIR::FunctionCall(a, args) => MidIRView::FunctionCall(a, exprs_view(args@)),
        MidIR::DynamicFunctionCall(f, args) => MidIRView::DynamicFunctionCall(
            f.view(),
            exprs_view(args@),
        ),
        MidIR::If(c, t, e) => MidIRView::If(
            c.view(),
            Box::new(midir_view(*t)),
            match e {
                Some(x) => Some(Box::new(midir_view(*x))),
                None => None,
            },
        ),
        MidIR::While(id, h, c, b) => MidIRView::While(
            id,
            match h {
                Some(x) => Some(Box::new(midir_view(*x))),
                None => None,
            },
            c.view(),
            Box::new(midir_view(*b)),
        ),
        MidIR::DoWhile(id, b, c) => MidIRView::DoWhile(id, Box::new(midir_view(*b)), c.view()),
        MidIR::Loop(id, b) => MidIRView::Loop(id, Box::new(midir_view(*b))),
        MidIR::Output(e) => MidIRView::Output(e.view()),
        MidIR::Break(id) => MidIRView::Break(id),
        MidIR::Continue(id) => MidIRView::Continue(id),
        MidIR::Unknown(a, i) => MidIRView::Unknown(a, i@),
        MidIR::Return() => MidIRView::Return,
    }
}

/// The view of a list of statements holds the view of each statement.
pub proof fn lemma_midirs_view_index(v: Seq<MidIR>)
    ensures
        midirs_view(v).len() == v.len(),
        forall|i: int| 0 <= i < v.len() ==> #[trigger] midirs_view(v)[i] == v[i].view(),
    decreases v.len(),
{
    if v.len() > 0 {
        lemma_midirs_view_index(v.drop_last());
        assert forall|i: int| 0 <= i < v.len() implies #[trigger] midirs_view(v)[i] == v[i].view() by {
            if i < v.len() - 1 {
                assert(v.drop_last()[i] == v[i]);
            }
        }
    }
}

/// An equal copy of the expressions.
pub fn duplicate_exprs(v: &Vec<Expr>) -> (r: Vec<Expr>)
    ensures
        exprs_view(r@) == exprs_view(v@),
{
    let mut out: Vec<Expr> = Vec::new();
    let mut i: usize = 0;
    while i < v.len()
        invariant
            i <= v.len(),
            out.len() == i,
            forall|j: int| 0 <= j < i ==> #[trigger] out@[j].view() == v@[j].view(),
        decreases v.len() - i,
    {
        out.push(v[i].duplicate());
        i = i + 1;
    }
    assert(exprs_view(out@) =~= exprs_view(v@));
    out
}

impl MidIR {
    pub open spec fn view(&self) -> MidIRView {
        midir_view(*self)
    }

    /// An equal copy of the statement.
    pub fn duplicate(&self) -> (r: Self)
        ensures
            r.view() == self.view(),
        decreases self,
    {
        match self {
            MidIR::Block(v) => {
                let mut out: Vec<MidIR> = Vec::new();
                let mut i: usize = 0;
                #[verifier::loop_isolation(false)]
                while i < v.len()
                    invariant
                        i <= v@.len(),
                        midirs_view(out@) == midirs_view(v@.subrange(0, i as int)),
                    decreases v@.len() - i,
                {
                    proof {
                        vstd::std_specs::vec::axiom_vec_index_decreases(*v, i as int);
                    }
                    let d = v[i].duplicate();
                    let ghost prev = out@;
                    out.push(d);
                    i = i + 1;
                    proof {
                        assert(v@.subrange(0, i as int).drop_last() =~= v@.subrange(0, i - 1));
                        assert(out@.drop_last() =~= prev);
                    }
                }
                assert(v@.subrange(0, i as int) =~= v@);
                MidIR::Block(out)
            },
            MidIR::Assign(a, b) => MidIR::Assign(a.duplicate(), b.duplicate()),
            MidIR::FunctionCall(a, args) => MidIR::FunctionCall(*a, duplicate_exprs(args)),
            MidIR::DynamicFunctionCall(f, args) => MidIR::DynamicFunctionCall(
                f.duplicate(),
                duplicate_exprs(args),
            ),
            MidIR::If(c, t, e) => {
                let e2 = match e {
                    Some(x) => Some(Box::new(x.duplicate())),
                    None => None,
                };
                MidIR::If(c.duplicate(), Box::new(t.duplicate()), e2)
            },
            MidIR::While(id, h, c, b) => {
                let h2 = match h {
                    Some(x) => Some(Box::new(x.duplicate())),
                    None => None,
                };
                MidIR::While(*id, h2, c.duplicate(), Box::new(b.duplicate()))
            },
            MidIR::DoWhile(id, b, c) => MidIR::DoWhile(*id, Box::new(b.duplicate()), c.duplicate()),
            MidIR::Loop(id, b) => MidIR::Loop(*id, Box::new(b.duplicate())),
            MidIR::Output(e) => MidIR::Output(e.duplicate()),
            MidIR::Break(id) => MidIR::Break(*id),
            MidIR::Continue(id) => MidIR::Continue(*id),
            MidIR::Unknown(a, i) => MidIR::Unknown(*a, i.duplicate()),
            MidIR::Return() => MidIR::Return(),
        }
    }
}

/// An equal copy of the statements.
pub fn duplicate_midirs(v: &Vec<MidIR>) -> (r: Vec<MidIR>)
    ensures
        midirs_view(r@) == midirs_view(v@),
{
    let mut out: Vec<MidIR> = Vec::new();
    let mut i: usize = 0;
    while i < v.len()
        invariant
            i <= v@.len(),
            midirs_view(out@) == midirs_view(v@.subrange(0, i as int)),
        decreases v@.len() - i,
    {
        let d = v[i].duplicate();
        let ghost prev = out@;
        out.push(d);
        i = i + 1;
        proof {
            assert(v@.subrange(0, i as int).drop_last() =~= v@.subrange(0, i - 1));
            assert(out@.drop_last() =~= prev);
        }
    }
    assert(v@.subrange(0, i as int) =~= v@);
    out
}


/// A line: the prefix, the content and a line break.
pub open spec fn line_text(p: Seq<char>, content: Seq<char>) -> Seq<char> {
    p + content + seq!['\n']
}

/// The prefix of a nested block: two more spaces.
pub open spec fn indent(p: Seq<char>) -> Seq<char> {
    p + seq![' ', ' ']
}

/// Expressions separated by `, `.
pub open spec fn exprs_text(s: Seq<ExprView>) -> Seq<char>
    decreases s.len(),
{
    if s.len() == 0 {
        seq![]
    } else if s.len() == 1 {
        spec_expr_text(s[0])
    } else {
        exprs_text(s.drop_last()) + seq![',', ' '] + spec_expr_text(s.last())
    }
}

/// The label of a loop: `'` and its number.
pub open spec fn label_text(id: LoopId) -> Seq<char> {
    seq!['\''] + spec_uint_text(id.0 as nat)
}

/// The lines of a statement, each starting with `p`: one line per simple
/// statement, blocks of nested statements indented by two more spaces, and
/// the head of a `while` loop, with its header statements, on one line.
pub open spec fn spec_print(m: MidIRView, p: Seq<char>) -> Seq<char>
    decreases m,
{
    match m {
        MidIRView::Assign(a, b) => line_text(p, spec_expr_text(a) + seq![' ', '=', ' '] + spec_expr_text(b) + seq![';']),
        MidIRView::FunctionCall(addr, args) => line_text(
            p,
            seq!['f'] + spec_uint_text(addr as nat) + seq!['('] + exprs_text(args) + seq![')', ';'],
        ),
        MidIRView::DynamicFunctionCall(fc, args) => line_text(
            p,
            spec_expr_text(fc) + seq!['('] + exprs_text(args) + seq![')', ';'],
        ),
        MidIRView::If(c, t, e) => line_text(p, seq!['i', 'f', ' ', '('] + spec_expr_text(c) + seq![')', ' ', '{'])
            + spec_print(*t, indent(p)) + match e {
            None => line_text(p, seq!['}']),
            Some(x) => line_text(p, seq!['}', ' ', 'e', 'l', 's', 'e', ' ', '{']) + spec_print(*x, indent(p))
                + line_text(p, seq!['}']),
        },
        MidIRView::Output(x) => line_text(p, seq!['o', 'u', 't', 'p', 'u', 't', '('] + spec_expr_text(x) + seq![')', ';']),
        MidIRView::Unknown(o, i) => line_text(p, seq!['/', '/', ' '] + spec_uint_text(o as nat) + seq![':', ' '] + spec_instr_text(i)),
        MidIRView::Return => line_text(p, seq!['r', 'e', 't', 'u', 'r', 'n']),
        MidIRView::Block(v) => spec_prints(v, p),
        MidIRView::Loop(id, b) => line_text(
            p,
            label_text(id) + seq![':', ' ', 'w', 'h', 'i', 'l', 'e', ' ', '(', 't', 'r', 'u', 'e', ')', ' ', '{'],
        ) + spec_print(*b, indent(p)) + line_text(p, seq!['}', ' ', ' ', '/', '/', ' '] + label_text(id)),
        MidIRView::While(id, h, c, b) => line_text(p, while_head_text(id, h, c)) + spec_print(*b, indent(p)) + line_text(p, seq!['}', ' ', ' ', '/', '/', ' '] + label_text(id)),
        MidIRView::DoWhile(id, b, c) => line_text(p, label_text(id) + seq![':', ' ', 'd', 'o', ' ', '{'])
            + spec_print(*b, indent(p)) + line_text(
            p,
            seq!['}', ' ', 'w', 'h', 'i', 'l', 'e', ' ', '('] + spec_expr_text(c) + seq![')'],
        ),
        MidIRView::Break(id) => line_text(p, seq!['b', 'r', 'e', 'a', 'k', ' '] + label_text(id) + seq![';']),
        MidIRView::Continue(id) => line_text(
            p,
            seq!['c', 'o', 'n', 't', 'i', 'n', 'u', 'e', ' '] + label_text(id) + seq![';'],
        ),
    }
}

pub open spec fn spec_prints(v: Seq<MidIRView>, p: Seq<char>) -> Seq<char>
    decreases v,
{
    if v.len() == 0 {
        seq![]
    } else {
        spec_prints(v.drop_last(), p) + spec_print(v[v.len() - 1], p)
    }
}

/// Writes one line made of the characters `cs`.
fn line_of<F: CodeWriter>(f: &mut F, cs: &[char])
    ensures
        final(f).text() == old(f).text() + line_text(old(f).line_prefix(), cs@),
        final(f).line_prefix() == old(f).line_prefix(),
{
    let mut s = String::new();
    append_chars(&mut s, cs);
    f.line(s.as_str());
    assert(final(f).text() =~= old(f).text() + line_text(old(f).line_prefix(), cs@));
}

fn append_exprs(out: &mut String, v: &Vec<Expr>)
    ensures
        final(out)@ == old(out)@ + exprs_text(exprs_view(v@)),
{
    let ghost o = out@;
    let mut i: usize = 0;
    while i < v.len()
        invariant
            i <= v@.len(),
            out@ == o + exprs_text(exprs_view(v@.take(i as int))),
        decreases v.len() - i,
    {
        let ghost t = exprs_view(v@.take(i + 1));
        assert(t.drop_last() =~= exprs_view(v@.take(i as int)));
        if i > 0 {
            append_chars(out, &[',', ' ']);
        }
        v[i].append_text(out);
        i = i + 1;
        assert(out@ =~= o + exprs_text(exprs_view(v@.take(i as int))));
    }
    assert(v@.take(i as int) =~= v@);
}

fn append_label(out: &mut String, id: LoopId)
    ensures
        final(out)@ == old(out)@ + label_text(id),
{
    let ghost o = out@;
    append_chars(out, &['\'']);
    append_uint(out, id.0 as u128);
    assert(out@ =~= o + label_text(id));
}


/// A string holding `pad` followed by the characters `cs`.
/// Whether the statement prints as a single line.
pub open spec fn is_single_line(m: MidIRView) -> bool {
    !(m is If || m is Block || m is Loop || m is While || m is DoWhile)
}

/// The text of a statement that prints as a single line, without the line's
/// indentation and end.
pub open spec fn single_line_text(m: MidIRView) -> Seq<char> {
    match m {
        MidIRView::Assign(a, b) => spec_expr_text(a) + seq![' ', '=', ' '] + spec_expr_text(b) + seq![';'],
        MidIRView::FunctionCall(addr, args) => seq!['f'] + spec_uint_text(addr as nat) + seq!['('] + exprs_text(args) + seq![')', ';'],
        MidIRView::DynamicFunctionCall(fc, args) => spec_expr_text(fc) + seq!['('] + exprs_text(args) + seq![')', ';'],
        MidIRView::Output(x) => seq!['o', 'u', 't', 'p', 'u', 't', '('] + spec_expr_text(x) + seq![')', ';'],
        MidIRView::Unknown(o, i) => seq!['/', '/', ' '] + spec_uint_text(o as nat) + seq![':', ' '] + spec_instr_text(i),
        MidIRView::Return => seq!['r', 'e', 't', 'u', 'r', 'n'],
        MidIRView::Break(id) => seq!['b', 'r', 'e', 'a', 'k', ' '] + label_text(id) + seq![';'],
        MidIRView::Continue(id) => seq!['c', 'o', 'n', 't', 'i', 'n', 'u', 'e', ' '] + label_text(id) + seq![';'],
        _ => seq![],
    }
}

fn padded(pad: &String, cs: &[char]) -> (r: String)
    ensures
        r@ == pad@ + cs@,
{
    let mut s = String::new();
    append_str(&mut s, pad.as_str());
    append_chars(&mut s, cs);
    assert(s@ =~= pad@ + cs@);
    s
}


/// The head of a `while` loop on one line: its label, its header statements
/// and its condition.
pub open spec fn while_head_text(id: LoopId, h: Option<Box<MidIRView>>, c: ExprView) -> Seq<char>
    decreases h,
{
    without_newlines(
        line_text(seq![], label_text(id) + seq![':', ' ', 'w', 'h', 'i', 'l', 'e', ' ', '(']) + match h {
            Some(x) => spec_print(*x, seq![]),
            None => seq![],
        } + line_text(seq![], spec_expr_text(c) + seq![')', ' ', '{']),
    )
}

fn while_head(id: LoopId, header: &Option<Box<MidIR>>, cond: &Expr) -> (r: String)
    ensures
        r@ == while_head_text(
            id,
            match header {
                Some(x) => Some(Box::new(x.view())),
                None => None,
            },
            cond.view(),
        ),
    decreases header,
{
    let mut sl = SingleLineWriter::new();
    let mut s = String::new();
    append_label(&mut s, id);
    append_chars(&mut s, &[':', ' ', 'w', 'h', 'i', 'l', 'e', ' ', '(']);
    sl.line(s.as_str());
    assert(sl.text() =~= line_text(seq![], label_text(id) + seq![':', ' ', 'w', 'h', 'i', 'l', 'e', ' ', '(']));
    let ghost t1 = sl.text();
    let none = String::new();
    match header {
        Some(h) => {
            h.print_at(&mut sl, &none);
            assert(Seq::<char>::empty() + none@ =~= Seq::<char>::empty());
        },
        None => {},
    }
    let ghost t2 = sl.text();
    let mut s2 = cond.to_text();
    append_chars(&mut s2, &[')', ' ', '{']);
    sl.line(s2.as_str());
    assert(sl.text() =~= t2 + line_text(seq![], spec_expr_text(cond.view()) + seq![')', ' ', '{']));
    sl.joined()
}

impl MidIR {
    /// Writes the statement as lines of code.
    pub fn print<F: CodeWriter>(&self, f: &mut F)
        ensures
            final(f).text() == old(f).text() + spec_print(self.view(), old(f).line_prefix()),
            final(f).line_prefix() == old(f).line_prefix(),
    {
        let pad = String::new();
        self.print_at(f, &pad);
        assert(f.line_prefix() + pad@ =~= f.line_prefix());
    }

    fn prints_one_line(&self) -> (r: bool)
        ensures
            r == is_single_line(self.view()),
    {
        match self {
            MidIR::If(..) | MidIR::Block(..) | MidIR::Loop(..) | MidIR::While(..) | MidIR::DoWhile(..) => false,
            _ => true,
        }
    }

    /// The line of a statement that prints as one, after `pad`.
    fn single_line(&self, pad: &String) -> (r: String)
        requires
            is_single_line(self.view()),
        ensures
            r@ == pad@ + single_line_text(self.view()),
    {
        let r = match self {
            MidIR::Assign(a, b) => {
                let mut s = padded(pad, &[]);
                a.append_text(&mut s);
                append_chars(&mut s, &[' ', '=', ' ']);
                b.append_text(&mut s);
                append_chars(&mut s, &[';']);
                s
            },
            MidIR::FunctionCall(addr, args) => {
                let mut s = padded(pad, &['f']);
                append_uint(&mut s, *addr as u128);
                append_chars(&mut s, &['(']);
                append_exprs(&mut s, args);
                append_chars(&mut s, &[')', ';']);
                s
            },
            MidIR::DynamicFunctionCall(fc, args) => {
                let mut s = padded(pad, &[]);
                fc.append_text(&mut s);
                append_chars(&mut s, &['(']);
                append_exprs(&mut s, args);
                append_chars(&mut s, &[')', ';']);
                s
            },
            MidIR::Output(x) => {
                let mut s = padded(pad, &['o', 'u', 't', 'p', 'u', 't', '(']);
                x.append_text(&mut s);
                append_chars(&mut s, &[')', ';']);
                s
            },
            MidIR::Unknown(o, i) => {
                let mut s = padded(pad, &['/', '/', ' ']);
                append_uint(&mut s, *o as u128);
                append_chars(&mut s, &[':', ' ']);
                i.append_text(&mut s);
                s
            },
            MidIR::Return() => {
                padded(pad, &['r', 'e', 't', 'u', 'r', 'n'])
            },
            MidIR::Break(id) => {
                let mut s = padded(pad, &['b', 'r', 'e', 'a', 'k', ' ']);
                append_label(&mut s, *id);
                append_chars(&mut s, &[';']);
                s
            },
            MidIR::Continue(id) => {
                let mut s = padded(pad, &['c', 'o', 'n', 't', 'i', 'n', 'u', 'e', ' ']);
                append_label(&mut s, *id);
                append_chars(&mut s, &[';']);
                s
            },
            _ => String::new(),
        };
        r
    }

    /// Writes the statement as lines of code, each line starting with `pad`
    /// after the writer's own indentation.
    #[verifier::rlimit(100)]
    #[verifier::spinoff_prover]
    pub fn print_at<F: CodeWriter>(&self, f: &mut F, pad: &String)
        ensures
            final(f).text() == old(f).text() + spec_print(self.view(), old(f).line_prefix() + pad@),
            final(f).line_prefix() == old(f).line_prefix(),
        decreases self,
    {
        let ghost pf = f.line_prefix();
        let ghost p = pf + pad@;
        let ghost t0 = f.text();
        let inner = padded(pad, &[' ', ' ']);
        assert(f.line_prefix() + inner@ =~= indent(p));
        if self.prints_one_line() {
            let s = self.single_line(pad);
            f.line(s.as_str());
            assert(f.text() =~= t0 + spec_print(self.view(), p));
            return;
        }
        match self {
            MidIR::If(c, t, e) => {
                let mut s = padded(pad, &['i', 'f', ' ', '(']);
                c.append_text(&mut s);
                append_chars(&mut s, &[')', ' ', '{']);
                f.line(s.as_str());
                t.print_at(f, &inner);
                match e {
                    None => {
                        let s2 = padded(pad, &['}']);
                        f.line(s2.as_str());
                    },
                    Some(x) => {
                        let s2 = padded(pad, &['}', ' ', 'e', 'l', 's', 'e', ' ', '{']);
                        f.line(s2.as_str());
                        x.print_at(f, &inner);
                        let s3 = padded(pad, &['}']);
                        f.line(s3.as_str());
                    },
                }
            },
            MidIR::Block(code) => {
                let mut i: usize = 0;
                proof {
                    lemma_midirs_view_index(code@);
                }
                assert(midirs_view(code@).take(0) =~= seq![]);
                #[verifier::loop_isolation(false)]
                while i < code.len()
                    invariant
                        i <= code@.len(),
                        f.line_prefix() == pf,
                        p == pf + pad@,
                        f.text() == t0 + spec_prints(midirs_view(code@).take(i as int), p),
                    decreases code.len() - i,
                {
                    proof {
                        vstd::std_specs::vec::axiom_vec_index_decreases(*code, i as int);
                        let t = midirs_view(code@).take(i + 1);
                        assert(t.drop_last() =~= midirs_view(code@).take(i as int));
                    }
                    code[i].print_at(f, pad);
                    i = i + 1;
                }
                assert(midirs_view(code@).take(i as int) =~= midirs_view(code@));
            },
            MidIR::Loop(id, body) => {
                let mut s = padded(pad, &[]);
                append_label(&mut s, *id);
                append_chars(&mut s, &[':', ' ', 'w', 'h', 'i', 'l', 'e', ' ', '(', 't', 'r', 'u', 'e', ')', ' ', '{']);
                f.line(s.as_str());
                body.print_at(f, &inner);
                let mut s2 = padded(pad, &['}', ' ', ' ', '/', '/', ' ']);
                append_label(&mut s2, *id);
                f.line(s2.as_str());
            },
            MidIR::While(id, header, cond, body) => {
                let head = while_head(*id, header, cond);
                let mut s4 = padded(pad, &[]);
                append_str(&mut s4, head.as_str());
                f.line(s4.as_str());
                body.print_at(f, &inner);
                let mut s5 = padded(pad, &['}', ' ', ' ', '/', '/', ' ']);
                append_label(&mut s5, *id);
                f.line(s5.as_str());
            },
            MidIR::DoWhile(id, body, cond) => {
                let mut s = padded(pad, &[]);
                append_label(&mut s, *id);
                append_chars(&mut s, &[':', ' ', 'd', 'o', ' ', '{']);
                f.line(s.as_str());
                body.print_at(f, &inner);
                let mut s2 = padded(pad, &['}', ' ', 'w', 'h', 'i', 'l', 'e', ' ', '(']);
                cond.append_text(&mut s2);
                append_chars(&mut s2, &[')']);
                f.line(s2.as_str());
            },
            _ => {},
        }
        assert(f.text() =~= t0 + spec_print(self.view(), p));
    }
}

/// The simple statements of a statement, in order: blocks, loops and
/// conditionals are opened (a `while` loop's body before its header), any
/// other statement is itself.
pub open spec fn spec_children(m: MidIRView) -> Seq<MidIRView>
    decreases m,
{
    match m {
        MidIRView::Block(v) => children_all(v),
        MidIRView::Loop(_, b) => spec_children(*b),
        MidIRView::If(_, t, e) => match e {
            Some(x) => spec_children(*t) + spec_children(*x),
            None => spec_children(*t),
        },
        MidIRView::While(_, h, _, b) => spec_children(*b) + match h {
            Some(x) => spec_children(*x),
            None => seq![],
        },
        MidIRView::DoWhile(_, b, _) => spec_children(*b),
        _ => seq![m],
    }
}

/// The simple statements of each statement, in order.
pub open spec fn children_all(v: Seq<MidIRView>) -> Seq<MidIRView>
    decreases v,
{
    if v.len() == 0 {
        seq![]
    } else {
        children_all(v.drop_last()) + spec_children(v.last())
    }
}

/// The views of the statements referred to.
pub open spec fn refs_view(v: Seq<&MidIR>) -> Seq<MidIRView> {
    Seq::new(v.len(), |i: int| v[i].view())
}

/// The simple statements of a statement; see [`spec_children`].
pub fn children_of<'a>(mid_ir: &'a MidIR) -> (r: Vec<&'a MidIR>)
    ensures
        refs_view(r@) == spec_children(mid_ir.view()),
    decreases mid_ir,
{
    match mid_ir {
        MidIR::Block(mid_irs) => {
            let mut r: Vec<&'a MidIR> = Vec::new();
            let mut i: usize = 0;
            proof {
                lemma_midirs_view_index(mid_irs@);
            }
            assert(midirs_view(mid_irs@).take(0) =~= seq![]);
            assert(refs_view(r@) =~= seq![]);
            #[verifier::loop_isolation(false)]
            while i < mid_irs.len()
                invariant
                    i <= mid_irs@.len(),
                    midirs_view(mid_irs@).len() == mid_irs@.len(),
                    forall|j: int| 0 <= j < mid_irs@.len() ==> #[trigger] midirs_view(mid_irs@)[j] == mid_irs@[j].view(),
                    refs_view(r@) == children_all(midirs_view(mid_irs@).take(i as int)),
                decreases mid_irs.len() - i,
            {
                proof {
                    vstd::std_specs::vec::axiom_vec_index_decreases(*mid_irs, i as int);
                }
                let mut sub = children_of(&mid_irs[i]);
                let ghost r0 = r@;
                let ghost s0 = sub@;
                r.append(&mut sub);
                proof {
                    let t = midirs_view(mid_irs@).take(i + 1);
                    assert(t.drop_last() =~= midirs_view(mid_irs@).take(i as int));
                    assert(refs_view(r@) =~= refs_view(r0) + refs_view(s0));
                }
                i = i + 1;
            }
            assert(midirs_view(mid_irs@).take(i as int) =~= midirs_view(mid_irs@));
            r
        },
        MidIR::Loop(_, body) => children_of(body),
        MidIR::If(_, t, e) => {
            let mut r = children_of(t);
            match e {
                Some(x) => {
                    let mut sub = children_of(x);
                    let ghost r0 = r@;
                    let ghost s0 = sub@;
                    r.append(&mut sub);
                    assert(refs_view(r@) =~= refs_view(r0) + refs_view(s0));
                },
                None => {},
            }
            r
        },
        MidIR::While(_, header, _, body) => {
            let mut r = children_of(body);
            match header {
                Some(h) => {
                    let mut sub = children_of(h);
                    let ghost r0 = r@;
                    let ghost s0 = sub@;
                    r.append(&mut sub);
                    assert(refs_view(r@) =~= refs_view(r0) + refs_view(s0));
                },
                None => {
                    assert(refs_view(r@) =~= refs_view(r@) + seq![]);
                },
            }
            r
        },
        MidIR::DoWhile(_, body, _) => children_of(body),
        _ => {
            let mut r: Vec<&'a MidIR> = Vec::new();
            r.push(mid_ir);
            assert(refs_view(r@) =~= seq![mid_ir.view()]);
            r
        },
    }
}

} // verus!
