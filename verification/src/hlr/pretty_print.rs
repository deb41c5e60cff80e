//! Printing the high-level representation as source text, without colors.
use vstd::prelude::*;
use crate::text::{spec_int_text, spec_uint_text, append_int, append_str, push_char};
use crate::value_types::{Type, spec_type_text};
use crate::order::{spec_sorted_indices, spec_keyed, sorted_indices};
use super::ast::{BinaryOperator, UnaryOperator, HlrExpression, HlrStatement, HlrVariable, HlrAssignmentTarget, HlrFunction, HlrProgram};

verus! {

broadcast use vstd::std_specs::vec::axiom_vec_decreases_to_view;

/// Binding strength of a binary operator (higher binds tighter).
pub open spec fn spec_binop_precedence(op: BinaryOperator) -> u8 {
    match op {
        BinaryOperator::Equals | BinaryOperator::NotEquals => 1,
        BinaryOperator::LessThan | BinaryOperator::LessThanOrEqual | BinaryOperator::GreaterThan
        | BinaryOperator::GreaterThanOrEqual => 2,
        BinaryOperator::Add | BinaryOperator::Sub => 3,
        BinaryOperator::Mul => 4,
    }
}

pub fn binary_op_precedence(op: &BinaryOperator) -> (r: u8)
    ensures
        r == spec_binop_precedence(*op),
{
    match op {
        BinaryOperator::Equals | BinaryOperator::NotEquals => 1,
        BinaryOperator::LessThan | BinaryOperator::LessThanOrEqual | BinaryOperator::GreaterThan
        | BinaryOperator::GreaterThanOrEqual => 2,
        BinaryOperator::Add | BinaryOperator::Sub => 3,
        BinaryOperator::Mul => 4,
    }
}

/// Binding strength of unary operators, the tightest of all.
pub open spec fn spec_unop_precedence() -> u8 {
    5
}

pub open spec fn spec_binop_text(op: BinaryOperator) -> Seq<char> {
    match op {
        BinaryOperator::Add => "+"@,
        BinaryOperator::Mul => "*"@,
        BinaryOperator::Sub => "-"@,
        BinaryOperator::LessThan => "<"@,
        BinaryOperator::LessThanOrEqual => "<="@,
        BinaryOperator::Equals => "=="@,
        BinaryOperator::NotEquals => "!="@,
        BinaryOperator::GreaterThan => ">"@,
        BinaryOperator::GreaterThanOrEqual => ">="@,
    }
}

pub open spec fn spec_unop_text(op: UnaryOperator) -> Seq<char> {
    match op {
        UnaryOperator::LogicalNot => "!"@,
        UnaryOperator::Minus => "-"@,
    }
}

/// Text in parentheses when the enclosing operator binds tighter.
pub open spec fn spec_wrap(parent: Option<u8>, prec: u8, s: Seq<char>) -> Seq<char> {
    match parent {
        Some(p) => if p > prec {
            "("@ + s + ")"@
        } else {
            s
        },
        None => s,
    }
}

/// The lowercase hexadecimal digits of `n`.
pub open spec fn spec_hex_text(n: nat) -> Seq<char>
    decreases n,
{
    if n < 16 {
        seq![spec_hex_digit(n)]
    } else {
        spec_hex_text(n / 16) + seq![spec_hex_digit(n % 16)]
    }
}

pub open spec fn spec_hex_digit(d: nat) -> char {
    if d < 10 {
        crate::text::spec_digit(d)
    } else if d == 10 {
        'a'
    } else if d == 11 {
        'b'
    } else if d == 12 {
        'c'
    } else if d == 13 {
        'd'
    } else if d == 14 {
        'e'
    } else {
        'f'
    }
}

/// The escaped form of a character in a string literal: tab, return,
/// newline, quotes and backslash get a backslash; printable ASCII stays;
/// anything else becomes `\u{..}` with its code point in hexadecimal.
pub open spec fn spec_escape_char(c: char) -> Seq<char> {
    if c == '\t' {
        seq!['\\', 't']
    } else if c == '\r' {
        seq!['\\', 'r']
    } else if c == '\n' {
        seq!['\\', 'n']
    } else if c == '\'' || c == '"' || c == '\\' {
        seq!['\\', c]
    } else if 0x20 <= (c as u32) && (c as u32) <= 0x7e {
        seq![c]
    } else {
        seq!['\\', 'u', '{'] + spec_hex_text(c as u32 as nat) + seq!['}']
    }
}

pub open spec fn spec_escape(s: Seq<char>) -> Seq<char>
    decreases s.len(),
{
    if s.len() == 0 {
        s
    } else {
        spec_escape(s.drop_last()) + spec_escape_char(s.last())
    }
}

/// Text of an expression whose enclosing operator has binding strength `parent`.
pub open spec fn spec_expr_text(e: HlrExpression, parent: Option<u8>) -> Seq<char>
    decreases e,
{
    match e {
        HlrExpression::Variable(v) => v.name@,
        HlrExpression::Constant(val, _) => spec_int_text(val as int),
        HlrExpression::BinaryOp { op, left, right, .. } => {
            let p = spec_binop_precedence(op);
            spec_wrap(
                parent,
                p,
                spec_expr_text(*left, Some(p)) + " "@ + spec_binop_text(op) + " "@ + spec_expr_text(
                    *right,
                    Some(p),
                ),
            )
        },
        HlrExpression::UnaryOperator { op, expr } => spec_wrap(
            parent,
            spec_unop_precedence(),
            spec_unop_text(op) + spec_expr_text(*expr, Some(spec_unop_precedence())),
        ),
        HlrExpression::FunctionCall(f, args) => (match *f {
            HlrExpression::Constant(id, _) => "fu"@ + spec_int_text(id as int),
            _ => spec_expr_text(*f, parent),
        }) + "("@ + spec_exprs_text(args@, parent) + ")"@,
        HlrExpression::Input() => "input()"@,
        HlrExpression::Deref(inner) => "*"@ + spec_expr_text(*inner, parent),
        HlrExpression::StaticFunctionReference(name) => name@,
        HlrExpression::StaticCustomType(_, name, _) => name@,
        HlrExpression::String(s) => "\""@ + spec_escape(s@) + "\""@,
    }
}

/// Whether an operand built with `child` must be parenthesized under
/// `parent` in the usual reading: a sum or difference under a product, a
/// comparison under arithmetic, an equality under an order comparison or
/// under arithmetic.
pub open spec fn binds_looser(child: BinaryOperator, parent: BinaryOperator) -> bool {
    let additive = |o: BinaryOperator| o is Add || o is Sub;
    let ordering = |o: BinaryOperator| o is LessThan || o is LessThanOrEqual || o is GreaterThan || o is GreaterThanOrEqual;
    let equality = |o: BinaryOperator| o is Equals || o is NotEquals;
    ||| additive(child) && parent is Mul
    ||| (ordering(child) || equality(child)) && (additive(parent) || parent is Mul)
    ||| equality(child) && ordering(parent)
}

/// The text of an operand of `parent`: an operation that binds looser is
/// in parentheses, any other operation and a unary operation are not.
pub open spec fn operand_text(x: HlrExpression, parent: BinaryOperator) -> Seq<char> {
    match x {
        HlrExpression::BinaryOp { op, .. } => if binds_looser(op, parent) {
            "("@ + spec_expr_text(x, None) + ")"@
        } else {
            spec_expr_text(x, None)
        },
        HlrExpression::UnaryOperator { .. } => spec_expr_text(x, None),
        _ => spec_expr_text(x, Some(spec_binop_precedence(parent))),
    }
}

/// A printed operation reads back as the same tree: each operand that
/// binds looser than the operator is parenthesized, and no other operation
/// is (so `(x - 1) * 2`, `x - 1 + 2`, `(a < b) == c`).
pub proof fn lemma_operation_text(op: BinaryOperator, l: HlrExpression, r: HlrExpression, rt: Type)
    ensures
        spec_expr_text(HlrExpression::BinaryOp { op, left: Box::new(l), right: Box::new(r), result_type: rt }, None)
            == operand_text(l, op) + " "@ + spec_binop_text(op) + " "@ + operand_text(r, op),
{
    let p = spec_binop_precedence(op);
    assert(spec_expr_text(l, Some(p)) == operand_text(l, op)) by {
        match l {
            HlrExpression::BinaryOp { op: lo, left, right, .. } => {
                assert(spec_expr_text(l, None) == spec_wrap(None, spec_binop_precedence(lo), spec_expr_text(*left, Some(spec_binop_precedence(lo))) + " "@ + spec_binop_text(lo) + " "@ + spec_expr_text(*right, Some(spec_binop_precedence(lo)))));
            },
            _ => {},
        }
    }
    assert(spec_expr_text(r, Some(p)) == operand_text(r, op)) by {
        match r {
            HlrExpression::BinaryOp { op: ro, left, right, .. } => {
                assert(spec_expr_text(r, None) == spec_wrap(None, spec_binop_precedence(ro), spec_expr_text(*left, Some(spec_binop_precedence(ro))) + " "@ + spec_binop_text(ro) + " "@ + spec_expr_text(*right, Some(spec_binop_precedence(ro)))));
            },
            _ => {},
        }
    }
}

/// Texts of expressions separated by `, `.
pub open spec fn spec_exprs_text(s: Seq<HlrExpression>, parent: Option<u8>) -> Seq<char>
    decreases s,
{
    if s.len() == 0 {
        Seq::empty()
    } else if s.len() == 1 {
        spec_expr_text(s[0], parent)
    } else {
        spec_exprs_text(s.drop_last(), parent) + ", "@ + spec_expr_text(s.last(), parent)
    }
}

/// Formatting state: the binding strength of the enclosing operator.
pub struct FormattingContext {
    pub parent_precedence: Option<u8>,
}

impl FormattingContext {
    pub fn new() -> (r: Self)
        ensures
            r.parent_precedence is None,
    {
        FormattingContext { parent_precedence: None }
    }

    pub fn with_precedence(&self, prec: u8) -> (r: Self)
        ensures
            r.parent_precedence == Some(prec),
    {
        FormattingContext { parent_precedence: Some(prec) }
    }

    /// The context for a nested block; text without colors is not indented.
    pub fn indented(&self) -> (r: Self)
        ensures
            r.parent_precedence == self.parent_precedence,
    {
        FormattingContext { parent_precedence: self.parent_precedence }
    }
}

/// The results of type inference that printing may consult.
pub struct TypeInferenceResult {}

impl TypeInferenceResult {
    pub fn new() -> (r: Self) {
        TypeInferenceResult {  }
    }
}

fn hex_digit(d: u32) -> (c: char)
    requires
        d < 16,
    ensures
        c == spec_hex_digit(d as nat),
{
    if d < 10 {
        match d {
            0 => '0',
            1 => '1',
            2 => '2',
            3 => '3',
            4 => '4',
            5 => '5',
            6 => '6',
            7 => '7',
            8 => '8',
            _ => '9',
        }
    } else if d == 10 {
        'a'
    } else if d == 11 {
        'b'
    } else if d == 12 {
        'c'
    } else if d == 13 {
        'd'
    } else if d == 14 {
        'e'
    } else {
        'f'
    }
}

fn append_hex(out: &mut String, n: u32)
    ensures
        final(out)@ == old(out)@ + spec_hex_text(n as nat),
    decreases n,
{
    if n < 16 {
        push_char(out, hex_digit(n));
    } else {
        append_hex(out, n / 16);
        push_char(out, hex_digit(n % 16));
    }
}

fn append_escaped_char(out: &mut String, c: char)
    ensures
        final(out)@ == old(out)@ + spec_escape_char(c),
{
    let ghost o = out@;
    if c == '\t' {
        push_char(out, '\\');
        push_char(out, 't');
    } else if c == '\r' {
        push_char(out, '\\');
        push_char(out, 'r');
    } else if c == '\n' {
        push_char(out, '\\');
        push_char(out, 'n');
    } else if c == '\'' || c == '"' || c == '\\' {
        push_char(out, '\\');
        push_char(out, c);
    } else if 0x20 <= (c as u32) && (c as u32) <= 0x7e {
        push_char(out, c);
    } else {
        push_char(out, '\\');
        push_char(out, 'u');
        push_char(out, '{');
        append_hex(out, c as u32);
        push_char(out, '}');
    }
    assert(out@ =~= o + spec_escape_char(c));
}

fn append_escaped(out: &mut String, s: &String)
    ensures
        final(out)@ == old(out)@ + spec_escape(s@),
{
    let n = crate::text::char_count(s);
    let ghost o = out@;
    let mut i: usize = 0;
    while i < n
        invariant
            n == s@.len(),
            i <= n,
            out@ == o + spec_escape(s@.subrange(0, i as int)),
        decreases n - i,
    {
        let c = crate::text::char_at(s, i);
        append_escaped_char(out, c);
        i = i + 1;
        proof {
            assert(s@.subrange(0, i as int).drop_last() =~= s@.subrange(0, i - 1));
            assert(out@ =~= o + spec_escape(s@.subrange(0, i as int)));
        }
    }
    assert(s@.subrange(0, n as int) =~= s@);
}

fn append_binop(out: &mut String, op: &BinaryOperator)
    ensures
        final(out)@ == old(out)@ + spec_binop_text(*op),
{
    match op {
        BinaryOperator::Add => append_str(out, "+"),
        BinaryOperator::Mul => append_str(out, "*"),
        BinaryOperator::Sub => append_str(out, "-"),
        BinaryOperator::LessThan => append_str(out, "<"),
        BinaryOperator::LessThanOrEqual => append_str(out, "<="),
        BinaryOperator::Equals => append_str(out, "=="),
        BinaryOperator::NotEquals => append_str(out, "!="),
        BinaryOperator::GreaterThan => append_str(out, ">"),
        BinaryOperator::GreaterThanOrEqual => append_str(out, ">="),
    }
}

impl HlrExpression {
    /// Appends the text of the expression, with parentheses where the
    /// enclosing operator of strength `parent` binds tighter.
    pub fn append_text(&self, out: &mut String, parent: Option<u8>)
        ensures
            final(out)@ == old(out)@ + spec_expr_text(*self, parent),
        decreases self,
    {
        let ghost o = out@;
        match self {
            HlrExpression::Variable(v) => append_str(out, v.name.as_str()),
            HlrExpression::Constant(val, _) => append_int(out, *val),
            HlrExpression::BinaryOp { op, left, right, .. } => {
                let p = binary_op_precedence(op);
                let wrap = match parent {
                    Some(pp) => pp > p,
                    None => false,
                };
                if wrap {
                    append_str(out, "(");
                }
                let ghost o2 = out@;
                left.append_text(out, Some(p));
                append_str(out, " ");
                append_binop(out, op);
                append_str(out, " ");
                right.append_text(out, Some(p));
                let ghost inner = spec_expr_text(**left, Some(p)) + " "@ + spec_binop_text(*op) + " "@
                    + spec_expr_text(**right, Some(p));
                assert(out@ =~= o2 + inner);
                if wrap {
                    append_str(out, ")");
                }
                assert(out@ =~= o + spec_expr_text(*self, parent));
            },
            HlrExpression::UnaryOperator { op, expr } => {
                let wrap = match parent {
                    Some(pp) => pp > 5,
                    None => false,
                };
                if wrap {
                    append_str(out, "(");
                }
                match op {
                    UnaryOperator::LogicalNot => append_str(out, "!"),
                    UnaryOperator::Minus => append_str(out, "-"),
                }
                expr.append_text(out, Some(5));
                if wrap {
                    append_str(out, ")");
                }
                assert(out@ =~= o + spec_expr_text(*self, parent));
            },
            HlrExpression::FunctionCall(f, args) => {
                match &**f {
                    HlrExpression::Constant(id, _) => {
                        append_str(out, "fu");
                        append_int(out, *id);
                    },
                    _ => f.append_text(out, parent),
                }
                append_str(out, "(");
                let ghost o3 = out@;
                let mut i: usize = 0;
                #[verifier::loop_isolation(false)]
                while i < args.len()
                    invariant
                        i <= args@.len(),
                        out@ == o3 + spec_exprs_text(args@.subrange(0, i as int), parent),
                    decreases args@.len() - i,
                {
                    proof {
                        vstd::std_specs::vec::axiom_vec_index_decreases(*args, i as int);
                    }
                    if i > 0 {
                        append_str(out, ", ");
                    }
                    args[i].append_text(out, parent);
                    i = i + 1;
                    proof {
                        assert(args@.subrange(0, i as int).drop_last() =~= args@.subrange(0, i - 1));
                        assert(out@ =~= o3 + spec_exprs_text(args@.subrange(0, i as int), parent));
                    }
                }
                assert(args@.subrange(0, i as int) =~= args@);
                append_str(out, ")");
                assert(out@ =~= o + spec_expr_text(*self, parent));
            },
            HlrExpression::Input() => append_str(out, "input()"),
            HlrExpression::Deref(inner) => {
                append_str(out, "*");
                inner.append_text(out, parent);
                assert(out@ =~= o + spec_expr_text(*self, parent));
            },
            HlrExpression::StaticFunctionReference(name) => append_str(out, name.as_str()),
            HlrExpression::StaticCustomType(_, name, _) => append_str(out, name.as_str()),
            HlrExpression::String(s) => {
                append_str(out, "\"");
                append_escaped(out, s);
                append_str(out, "\"");
                assert(out@ =~= o + spec_expr_text(*self, parent));
            },
        }
    }

    /// The text of the expression in the given context.
    pub fn pretty_print_with_context(&self, ctx: &FormattingContext) -> (r: String)
        ensures
            r@ == spec_expr_text(*self, ctx.parent_precedence),
    {
        let mut s = String::new();
        self.append_text(&mut s, ctx.parent_precedence);
        assert(s@ =~= spec_expr_text(*self, ctx.parent_precedence));
        s
    }

    /// The text of the expression, printed without colors.
    pub fn print_nocolor_with_data(&self, _data: &TypeInferenceResult) -> (r: String)
        ensures
            r@ == spec_expr_text(*self, None),
    {
        self.pretty_print_with_context(&FormattingContext::new())
    }
}


/// `name: Type`, the declaration of a variable.
pub open spec fn spec_decl_text(v: HlrVariable) -> Seq<char> {
    v.name@ + ": "@ + spec_type_text(v.type_info)
}

/// Declarations separated by `, `.
pub open spec fn spec_decls_text(s: Seq<HlrVariable>) -> Seq<char>
    decreases s.len(),
{
    if s.len() == 0 {
        Seq::empty()
    } else if s.len() == 1 {
        spec_decl_text(s[0])
    } else {
        spec_decls_text(s.drop_last()) + ", "@ + spec_decl_text(s.last())
    }
}

/// Types of variables separated by `, `.
pub open spec fn spec_types_text(s: Seq<HlrVariable>) -> Seq<char>
    decreases s.len(),
{
    if s.len() == 0 {
        Seq::empty()
    } else if s.len() == 1 {
        spec_type_text(s[0].type_info)
    } else {
        spec_types_text(s.drop_last()) + ", "@ + spec_type_text(s.last().type_info)
    }
}

pub open spec fn spec_target_text(t: HlrAssignmentTarget) -> Seq<char> {
    match t {
        HlrAssignmentTarget::Variable(v) => v.name@,
        HlrAssignmentTarget::Deref(e) => "*"@ + spec_expr_text(e, None) + " "@,
        HlrAssignmentTarget::Ignored => "_"@,
    }
}

/// Text of a statement.  Text without colors has no line breaks and no
/// indentation: statements follow each other directly.
pub open spec fn spec_stmt_text(st: HlrStatement) -> Seq<char>
    decreases st,
{
    match st {
        HlrStatement::VarDef(vars, e) => "let "@ + (if vars@.len() == 1 {
            spec_decl_text(vars@[0])
        } else {
            "("@ + spec_decls_text(vars@) + ")"@
        }) + " = "@ + spec_expr_text(e, None) + ";"@,
        HlrStatement::Assignment(t, e) => spec_target_text(t) + " = "@ + spec_expr_text(e, None) + ";"@,
        HlrStatement::Loop(body) => "loop {"@ + spec_block_text(body@) + "}"@,
        HlrStatement::If(c, t, f) => "if "@ + spec_expr_text(c, None) + " {"@ + spec_block_text(t@) + (
        if f@.len() == 0 {
            "}"@
        } else {
            "} else {"@ + spec_block_text(f@) + "}"@
        }),
        HlrStatement::While(c, body) => "while "@ + spec_expr_text(c, None) + " {"@ + spec_block_text(
            body@,
        ) + "}"@,
        HlrStatement::DoWhile(body, c) => "do {"@ + spec_block_text(body@) + "} while "@
            + spec_expr_text(c, None) + ";"@,
        HlrStatement::Break => "break;"@,
        HlrStatement::Continue => "continue;"@,
        HlrStatement::Return(es) => "return"@ + (if es@.len() == 0 {
            Seq::empty()
        } else if es@.len() == 1 {
            " "@ + spec_expr_text(es@[0], None)
        } else {
            " ("@ + spec_exprs_text(es@, None) + ")"@
        }) + ";"@,
        HlrStatement::Halt => "halt;"@,
        HlrStatement::Output(e) => "output("@ + spec_expr_text(e, None) + ");"@,
        HlrStatement::Nop => "nop"@,
    }
}

/// Texts of statements, one after the other.
pub open spec fn spec_block_text(s: Seq<HlrStatement>) -> Seq<char>
    decreases s,
{
    if s.len() == 0 {
        Seq::empty()
    } else {
        spec_block_text(s.drop_last()) + spec_stmt_text(s.last())
    }
}

fn append_decl(out: &mut String, v: &HlrVariable)
    ensures
        final(out)@ == old(out)@ + spec_decl_text(*v),
{
    let ghost o = out@;
    append_str(out, v.name.as_str());
    append_str(out, ": ");
    v.type_info.append_text(out);
    assert(out@ =~= o + spec_decl_text(*v));
}

fn append_decls(out: &mut String, vars: &Vec<HlrVariable>)
    ensures
        final(out)@ == old(out)@ + spec_decls_text(vars@),
{
    let ghost o = out@;
    let mut i: usize = 0;
    while i < vars.len()
        invariant
            i <= vars@.len(),
            out@ == o + spec_decls_text(vars@.subrange(0, i as int)),
        decreases vars@.len() - i,
    {
        if i > 0 {
            append_str(out, ", ");
        }
        append_decl(out, &vars[i]);
        i = i + 1;
        proof {
            assert(vars@.subrange(0, i as int).drop_last() =~= vars@.subrange(0, i - 1));
            assert(out@ =~= o + spec_decls_text(vars@.subrange(0, i as int)));
        }
    }
    assert(vars@.subrange(0, i as int) =~= vars@);
}

fn append_types(out: &mut String, vars: &Vec<HlrVariable>)
    ensures
        final(out)@ == old(out)@ + spec_types_text(vars@),
{
    let ghost o = out@;
    let mut i: usize = 0;
    while i < vars.len()
        invariant
            i <= vars@.len(),
            out@ == o + spec_types_text(vars@.subrange(0, i as int)),
        decreases vars@.len() - i,
    {
        if i > 0 {
            append_str(out, ", ");
        }
        vars[i].type_info.append_text(out);
        i = i + 1;
        proof {
            assert(vars@.subrange(0, i as int).drop_last() =~= vars@.subrange(0, i - 1));
            assert(out@ =~= o + spec_types_text(vars@.subrange(0, i as int)));
        }
    }
    assert(vars@.subrange(0, i as int) =~= vars@);
}

fn append_exprs(out: &mut String, es: &Vec<HlrExpression>)
    ensures
        final(out)@ == old(out)@ + spec_exprs_text(es@, None),
{
    let ghost o = out@;
    let mut i: usize = 0;
    while i < es.len()
        invariant
            i <= es@.len(),
            out@ == o + spec_exprs_text(es@.subrange(0, i as int), None),
        decreases es@.len() - i,
    {
        if i > 0 {
            append_str(out, ", ");
        }
        es[i].append_text(out, None);
        i = i + 1;
        proof {
            assert(es@.subrange(0, i as int).drop_last() =~= es@.subrange(0, i - 1));
            assert(out@ =~= o + spec_exprs_text(es@.subrange(0, i as int), None));
        }
    }
    assert(es@.subrange(0, i as int) =~= es@);
}

impl HlrAssignmentTarget {
    pub fn append_text(&self, out: &mut String)
        ensures
            final(out)@ == old(out)@ + spec_target_text(*self),
    {
        let ghost o = out@;
        match self {
            HlrAssignmentTarget::Variable(v) => append_str(out, v.name.as_str()),
            HlrAssignmentTarget::Deref(e) => {
                append_str(out, "*");
                e.append_text(out, None);
                append_str(out, " ");
            },
            HlrAssignmentTarget::Ignored => append_str(out, "_"),
        }
        assert(out@ =~= o + spec_target_text(*self));
    }
}

/// Appends the texts of the statements of a block.
pub fn append_block(out: &mut String, block: &Vec<HlrStatement>)
    ensures
        final(out)@ == old(out)@ + spec_block_text(block@),
    decreases block,
{
    let ghost o = out@;
    let mut i: usize = 0;
    while i < block.len()
        invariant
            i <= block@.len(),
            out@ == o + spec_block_text(block@.subrange(0, i as int)),
        decreases block@.len() - i,
    {
        proof {
            vstd::std_specs::vec::axiom_vec_index_decreases(*block, i as int);
        }
        block[i].append_text(out);
        i = i + 1;
        proof {
            assert(block@.subrange(0, i as int).drop_last() =~= block@.subrange(0, i - 1));
            assert(out@ =~= o + spec_block_text(block@.subrange(0, i as int)));
        }
    }
    assert(block@.subrange(0, i as int) =~= block@);
}

impl HlrStatement {
    /// Appends the text of the statement.
    pub fn append_text(&self, out: &mut String)
        ensures
            final(out)@ == old(out)@ + spec_stmt_text(*self),
        decreases self,
    {
        let ghost o = out@;
        match self {
            HlrStatement::VarDef(vars, e) => {
                append_str(out, "let ");
                if vars.len() == 1 {
                    append_decl(out, &vars[0]);
                } else {
                    append_str(out, "(");
                    append_decls(out, vars);
                    append_str(out, ")");
                }
                append_str(out, " = ");
                e.append_text(out, None);
                append_str(out, ";");
            },
            HlrStatement::Assignment(t, e) => {
                t.append_text(out);
                append_str(out, " = ");
                e.append_text(out, None);
                append_str(out, ";");
            },
            HlrStatement::Loop(body) => {
                append_str(out, "loop {");
                append_block(out, body);
                append_str(out, "}");
            },
            HlrStatement::If(c, t, f) => {
                append_str(out, "if ");
                c.append_text(out, None);
                append_str(out, " {");
                append_block(out, t);
                if f.len() == 0 {
                    append_str(out, "}");
                } else {
                    append_str(out, "} else {");
                    append_block(out, f);
                    append_str(out, "}");
                }
            },
            HlrStatement::While(c, body) => {
                append_str(out, "while ");
                c.append_text(out, None);
                append_str(out, " {");
                append_block(out, body);
                append_str(out, "}");
            },
            HlrStatement::DoWhile(body, c) => {
                append_str(out, "do {");
                append_block(out, body);
                append_str(out, "} while ");
                c.append_text(out, None);
                append_str(out, ";");
            },
            HlrStatement::Break => append_str(out, "break;"),
            HlrStatement::Continue => append_str(out, "continue;"),
            HlrStatement::Return(es) => {
                append_str(out, "return");
                if es.len() == 0 {
                } else if es.len() == 1 {
                    append_str(out, " ");
                    es[0].append_text(out, None);
                } else {
                    append_str(out, " (");
                    append_exprs(out, es);
                    append_str(out, ")");
                }
                append_str(out, ";");
            },
            HlrStatement::Halt => append_str(out, "halt;"),
            HlrStatement::Output(e) => {
                append_str(out, "output(");
                e.append_text(out, None);
                append_str(out, ");");
            },
            HlrStatement::Nop => append_str(out, "nop"),
        }
        assert(out@ =~= o + spec_stmt_text(*self));
    }

    /// The text of the statement.
    pub fn pretty_print_with_context(&self, _ctx: &FormattingContext) -> (r: String)
        ensures
            r@ == spec_stmt_text(*self),
    {
        let mut s = String::new();
        self.append_text(&mut s);
        assert(s@ =~= spec_stmt_text(*self));
        s
    }

    /// The text of the statement, printed without colors.
    pub fn print_nocolor_with_data(&self, _data: &TypeInferenceResult) -> (r: String)
        ensures
            r@ == spec_stmt_text(*self),
    {
        self.pretty_print_with_context(&FormattingContext::new())
    }
}

/// The signature line of a function:
/// `function name(a: T, b: U) -> R {`, with `void` for no result and a
/// parenthesized list for several.
pub open spec fn spec_signature_text(f: HlrFunction) -> Seq<char> {
    "function "@ + f.name@ + "("@ + spec_decls_text(f.args@) + ")"@ + " -> "@ + (if f.return_type@.len()
        == 0 {
        "void"@
    } else if f.return_type@.len() == 1 {
        spec_type_text(f.return_type@[0].type_info)
    } else {
        "("@ + spec_types_text(f.return_type@) + ")"@
    }) + " {"@
}

pub open spec fn spec_function_text(f: HlrFunction) -> Seq<char> {
    spec_signature_text(f) + spec_block_text(f.body@) + "}"@
}

fn format_function_signature(func: &HlrFunction) -> (r: String)
    ensures
        r@ == spec_signature_text(*func),
{
    let mut out = String::new();
    append_str(&mut out, "function ");
    append_str(&mut out, func.name.as_str());
    append_str(&mut out, "(");
    append_decls(&mut out, &func.args);
    append_str(&mut out, ")");
    append_str(&mut out, " -> ");
    if func.return_type.len() == 0 {
        append_str(&mut out, "void");
    } else if func.return_type.len() == 1 {
        func.return_type[0].type_info.append_text(&mut out);
    } else {
        append_str(&mut out, "(");
        append_types(&mut out, &func.return_type);
        append_str(&mut out, ")");
    }
    append_str(&mut out, " {");
    assert(out@ =~= spec_signature_text(*func));
    out
}

impl HlrFunction {
    pub fn append_text(&self, out: &mut String)
        ensures
            final(out)@ == old(out)@ + spec_function_text(*self),
    {
        let ghost o = out@;
        let sig = format_function_signature(self);
        append_str(out, sig.as_str());
        append_block(out, &self.body);
        append_str(out, "}");
        assert(out@ =~= o + spec_function_text(*self));
    }

    /// The text of the function.
    pub fn pretty_print_with_context(&self, _ctx: &FormattingContext) -> (r: String)
        ensures
            r@ == spec_function_text(*self),
    {
        let mut s = String::new();
        self.append_text(&mut s);
        assert(s@ =~= spec_function_text(*self));
        s
    }
}

/// `static name: Type = value`, the declaration of a global.
pub open spec fn spec_global_text(g: (usize, (HlrVariable, HlrExpression))) -> Seq<char> {
    "static "@ + g.1.0.name@ + ":"@ + " "@ + spec_type_text(g.1.0.type_info) + " = "@ + spec_expr_text(
        g.1.1,
        None,
    )
}

/// Texts of the globals at the given positions, in that order.
pub open spec fn spec_globals_text(gs: Seq<(usize, (HlrVariable, HlrExpression))>, order: Seq<usize>) -> Seq<char>
    decreases order.len(),
{
    if order.len() == 0 {
        Seq::empty()
    } else {
        spec_globals_text(gs, order.drop_last()) + spec_global_text(gs[order.last() as int])
    }
}

/// Texts of the functions at the given positions, in that order.
pub open spec fn spec_functions_text(fs: Seq<HlrFunction>, order: Seq<usize>) -> Seq<char>
    decreases order.len(),
{
    if order.len() == 0 {
        Seq::empty()
    } else {
        spec_functions_text(fs, order.drop_last()) + spec_function_text(fs[order.last() as int])
    }
}

/// Text of a program: the globals by increasing address, then the
/// functions by increasing entry address.
pub open spec fn spec_program_text(p: HlrProgram) -> Seq<char> {
    spec_globals_text(
        p.globals@,
        spec_sorted_indices(spec_keyed(p.globals@.map_values(|g: (usize, (HlrVariable, HlrExpression))| g.0))),
    ) + spec_functions_text(
        p.functions@,
        spec_sorted_indices(spec_keyed(p.functions@.map_values(|f: HlrFunction| f.original_id.0))),
    )
}

impl HlrProgram {
    /// The text of the program.
    pub fn pretty_print_with_context(&self, _ctx: &FormattingContext) -> (r: String)
        ensures
            r@ == spec_program_text(*self),
    {
        let mut out = String::new();
        let mut gkeys: Vec<usize> = Vec::new();
        let mut i: usize = 0;
        while i < self.globals.len()
            invariant
                i <= self.globals@.len(),
                gkeys@ == self.globals@.map_values(|g: (usize, (HlrVariable, HlrExpression))| g.0).subrange(0, i as int),
            decreases self.globals@.len() - i,
        {
            gkeys.push(self.globals[i].0);
            i = i + 1;
            assert(gkeys@ =~= self.globals@.map_values(|g: (usize, (HlrVariable, HlrExpression))| g.0).subrange(0, i as int));
        }
        assert(gkeys@ =~= self.globals@.map_values(|g: (usize, (HlrVariable, HlrExpression))| g.0));
        let gorder = sorted_indices(&gkeys);
        proof {
            crate::order::lemma_sorted_indices_members(spec_keyed(gkeys@));
        }
        let mut k: usize = 0;
        while k < gorder.len()
            invariant
                k <= gorder@.len(),
                gkeys@.len() == self.globals@.len(),
                forall|j: int| 0 <= j < gorder@.len() ==> #[trigger] gorder@[j] < gkeys@.len(),
                out@ == spec_globals_text(self.globals@, gorder@.subrange(0, k as int)),
            decreases gorder@.len() - k,
        {
            let g = &self.globals[gorder[k]];
            let ghost o = out@;
            append_str(&mut out, "static ");
            append_str(&mut out, g.1.0.name.as_str());
            append_str(&mut out, ":");
            append_str(&mut out, " ");
            g.1.0.type_info.append_text(&mut out);
            append_str(&mut out, " = ");
            g.1.1.append_text(&mut out, None);
            k = k + 1;
            proof {
                assert(gorder@.subrange(0, k as int).drop_last() =~= gorder@.subrange(0, k - 1));
                assert(out@ =~= o + spec_global_text(self.globals@[gorder@[k - 1] as int]));
            }
        }
        assert(gorder@.subrange(0, k as int) =~= gorder@);
        let ghost after_globals = out@;
        let mut fkeys: Vec<usize> = Vec::new();
        let mut i: usize = 0;
        while i < self.functions.len()
            invariant
                i <= self.functions@.len(),
                fkeys@ == self.functions@.map_values(|f: HlrFunction| f.original_id.0).subrange(0, i as int),
            decreases self.functions@.len() - i,
        {
            fkeys.push(self.functions[i].original_id.0);
            i = i + 1;
            assert(fkeys@ =~= self.functions@.map_values(|f: HlrFunction| f.original_id.0).subrange(0, i as int));
        }
        assert(fkeys@ =~= self.functions@.map_values(|f: HlrFunction| f.original_id.0));
        let forder = sorted_indices(&fkeys);
        proof {
            crate::order::lemma_sorted_indices_members(spec_keyed(fkeys@));
        }
        let mut k: usize = 0;
        while k < forder.len()
            invariant
                k <= forder@.len(),
                fkeys@.len() == self.functions@.len(),
                forall|j: int| 0 <= j < forder@.len() ==> #[trigger] forder@[j] < fkeys@.len(),
                out@ == after_globals + spec_functions_text(self.functions@, forder@.subrange(0, k as int)),
            decreases forder@.len() - k,
        {
            let ghost o = out@;
            self.functions[forder[k]].append_text(&mut out);
            k = k + 1;
            proof {
                assert(forder@.subrange(0, k as int).drop_last() =~= forder@.subrange(0, k - 1));
                assert(out@ =~= o + spec_function_text(self.functions@[forder@[k - 1] as int]));
            }
        }
        assert(forder@.subrange(0, k as int) =~= forder@);
        assert(out@ =~= spec_program_text(*self));
        out
    }

    /// The text of the program, printed without colors.
    pub fn print_nocolor_with_data(&self, _data: &TypeInferenceResult) -> (r: String)
        ensures
            r@ == spec_program_text(*self),
    {
        self.pretty_print_with_context(&FormattingContext::new())
    }
}

} // verus!
