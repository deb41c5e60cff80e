//! The grammar of symbol files.
//!
//! A symbol file holds one declaration per line:
//!
//! ```text
//! F 2255 new_name(arg1: Int, arg2)
//! V 2255 [R-4]_2 new_var_name Pointer<Int>
//! T MyCustomType
//! G 576 my_global Array<10; Int>
//! S MyStruct { x: Int, y: Bool }
//! XPHI 2329 [R-1]_3
//! ```
//!
//! Lines that are empty or start with `#` are skipped. Text after a
//! complete declaration is ignored.
use vstd::prelude::*;
use vstd::string::StrSliceExecFns;
use crate::scan::{
    alpha_pred, at_int, blank_pred, chars_of, digit_pred, has_at, ident_pred, lemma_run_end,
    parse_usize_at, parse_i128_at, has_at_exec, skip_alpha, not_newline_pred, trim_bounds,
    trim_range, skip_to_newline, run_end, skip_blanks, skip_ident, skip_type_chars,
    spec_parse_i128, spec_parse_usize, string_of, type_char_pred,
};
use crate::control_flow_graph::FunctionId;
use crate::symbol_renaming::{
    CustomTypeId, DefsView, NamedView, PointerId, StructDef, StructField, StructId, SymbolRenaming,
    UserDefs, VersionableMemoryKind, VersionedMemoryReference, empty_defs, field_views,
    named_views, named_view, spec_type_from_name,
};
use crate::assoc::assoc_insert;
use crate::text::append_str;
use crate::value_types::Type;

verus! {

/// A name with the text of its type, where one was given.
pub type LineArg = (Seq<char>, Option<Seq<char>>);

/// One declaration, as the model sees it.
pub ghost enum LineView {
    Function(FunctionId, Seq<char>, Seq<LineArg>),
    Variable(VersionedMemoryReference, Seq<char>, Option<Seq<char>>),
    CustomType(Seq<char>),
    Global(usize, Seq<char>, Option<Seq<char>>),
    Struct(Seq<char>, Seq<LineArg>),
    SuppressPhi(VersionedMemoryReference),
}

/// One declaration of a symbol file, with the types still as text.
#[derive(Debug, PartialEq, Eq)]
pub enum SymbolRenamingLine {
    Function(FunctionId, String, Vec<(String, Option<String>)>),
    Variable(VersionedMemoryReference, String, Option<String>),
    CustomType(String),
    Global(usize, String, Option<String>),
    /// A struct's name and its fields.
    Struct(String, Vec<(String, Option<String>)>),
    /// A phi function to leave out, by the version it defines.
    SuppressPhi(VersionedMemoryReference),
}

/// Text that is no declaration.
#[derive(Debug, PartialEq, Eq)]
pub struct SyntaxError;

pub open spec fn opt_text(o: Option<String>) -> Option<Seq<char>> {
    match o {
        Some(s) => Some(s@),
        None => None,
    }
}

pub open spec fn arg_views(v: Seq<(String, Option<String>)>) -> Seq<LineArg> {
    Seq::new(v.len(), |i: int| (v[i].0@, opt_text(v[i].1)))
}

impl SymbolRenamingLine {
    pub open spec fn view(&self) -> LineView {
        match self {
            SymbolRenamingLine::Function(f, n, a) => LineView::Function(*f, n@, arg_views(a@)),
            SymbolRenamingLine::Variable(v, n, t) => LineView::Variable(*v, n@, opt_text(*t)),
            SymbolRenamingLine::CustomType(n) => LineView::CustomType(n@),
            SymbolRenamingLine::Global(a, n, t) => LineView::Global(*a, n@, opt_text(*t)),
            SymbolRenamingLine::Struct(n, f) => LineView::Struct(n@, arg_views(f@)),
            SymbolRenamingLine::SuppressPhi(v) => LineView::SuppressPhi(*v),
        }
    }
}

/// After the spaces and tabs at `i`.
pub open spec fn sp0(s: Seq<char>, i: int) -> int {
    run_end(s, i, blank_pred())
}

pub open spec fn char_at_is(s: Seq<char>, i: int, c: char) -> bool {
    0 <= i < s.len() && s[i] == c
}

/// An identifier: letters, digits and underscores.
pub open spec fn spec_ident(s: Seq<char>, i: int) -> Option<(Seq<char>, int)> {
    let j = run_end(s, i, ident_pred());
    if j == i {
        None
    } else {
        Some((s.subrange(i, j), j))
    }
}

/// After the spaces of `s[a..j]` that start at `a`.
pub open spec fn lead_spaces_end(s: Seq<char>, a: int, j: int) -> int
    decreases j - a,
{
    if a < j && s[a] == ' ' {
        lead_spaces_end(s, a + 1, j)
    } else {
        a
    }
}

/// The end of `s[a..b]` without its trailing spaces.
pub open spec fn trail_spaces_end(s: Seq<char>, a: int, b: int) -> int
    decreases b - a,
{
    if a < b && s[b - 1] == ' ' {
        trail_spaces_end(s, a, b - 1)
    } else {
        b
    }
}

/// The text of a type: a run of letters, digits, spaces and `<>_;[]*&`,
/// without its leading and trailing spaces.
pub open spec fn spec_type_str(s: Seq<char>, i: int) -> Option<(Seq<char>, int)> {
    let j = run_end(s, i, type_char_pred());
    if j == i {
        None
    } else {
        let a = lead_spaces_end(s, i, j);
        Some((s.subrange(a, trail_spaces_end(s, a, j)), j))
    }
}

/// A name, with `: type` after it where there is one; `lead` allows spaces
/// before the name.
pub open spec fn spec_typed_name(s: Seq<char>, i: int, lead: bool) -> Option<(LineArg, int)> {
    let p = if lead {
        sp0(s, i)
    } else {
        i
    };
    match spec_ident(s, p) {
        None => None,
        Some((name, j)) => {
            let k = sp0(s, j);
            if char_at_is(s, k, ':') {
                match spec_type_str(s, sp0(s, k + 1)) {
                    Some((t, e)) => Some(((name, Some(t)), e)),
                    None => Some(((name, None), j)),
                }
            } else {
                Some(((name, None), j))
            }
        },
    }
}

/// Further comma-separated names after `acc`, from `i`.
pub open spec fn spec_more_names(s: Seq<char>, i: int, lead: bool, acc: Seq<LineArg>) -> (
    Seq<LineArg>,
    int,
)
    decreases s.len() - i,
{
    let k = sp0(s, i);
    if char_at_is(s, k, ',') {
        match spec_typed_name(s, sp0(s, k + 1), lead) {
            Some((e, j)) => if i < j <= s.len() {
                spec_more_names(s, j, lead, acc.push(e))
            } else {
                (acc, i)
            },
            None => (acc, i),
        }
    } else {
        (acc, i)
    }
}

/// A possibly empty list of comma-separated names.
pub open spec fn spec_names(s: Seq<char>, i: int, lead: bool) -> (Seq<LineArg>, int) {
    match spec_typed_name(s, i, lead) {
        None => (seq![], i),
        Some((e, j)) => spec_more_names(s, j, lead, seq![e]),
    }
}

/// The argument list of a function, in brackets, where there is one.
pub open spec fn spec_paren_args(s: Seq<char>, d: int) -> (Seq<LineArg>, int) {
    let p = sp0(s, d);
    if char_at_is(s, p, '(') {
        let (args, q) = spec_names(s, p + 1, false);
        let r = sp0(s, q);
        if char_at_is(s, r, ')') {
            (args, r + 1)
        } else {
            (seq![], d)
        }
    } else {
        (seq![], d)
    }
}

/// The text of a type after at least one space, where there is one.
pub open spec fn spec_spaced_type(s: Seq<char>, n: int) -> (Option<Seq<char>>, int) {
    let t = sp0(s, n);
    if t > n {
        match spec_type_str(s, t) {
            Some((ty, e)) => (Some(ty), e),
            None => (None, n),
        }
    } else {
        (None, n)
    }
}

/// The inside of a memory reference: an address, `R` with an optional
/// offset, or `P` with a pointer id.
pub open spec fn spec_memory_inner(s: Seq<char>, p: int) -> Option<(VersionableMemoryKind, int)> {
    match spec_parse_usize(s, p) {
        Some((a, q)) => Some((VersionableMemoryKind::Memory(a), q)),
        None => if char_at_is(s, p, 'R') {
            let plus = if char_at_is(s, p + 1, '+') {
                spec_parse_i128(s, p + 2)
            } else {
                None
            };
            match plus {
                Some((v, q)) => Some((VersionableMemoryKind::RelativeMemory(v), q)),
                None => match spec_parse_i128(s, p + 1) {
                    Some((v, q)) => Some((VersionableMemoryKind::RelativeMemory(v), q)),
                    None => Some((VersionableMemoryKind::RelativeMemory(0), p + 1)),
                },
            }
        } else if char_at_is(s, p, 'P') {
            match spec_parse_usize(s, p + 1) {
                Some((a, q)) => Some((VersionableMemoryKind::Pointer(PointerId(a)), q)),
                None => None,
            }
        } else {
            None
        },
    }
}

/// A memory reference in brackets: `[100]`, `[R-4]`, `[R]`, `[P3]`.
pub open spec fn spec_memory_kind(s: Seq<char>, i: int) -> Option<(VersionableMemoryKind, int)> {
    if char_at_is(s, i, '[') {
        match spec_memory_inner(s, i + 1) {
            Some((k, q)) => if char_at_is(s, q, ']') {
                Some((k, q + 1))
            } else {
                None
            },
            None => None,
        }
    } else {
        None
    }
}

/// A memory reference with its version: `[R-4]_2`.
pub open spec fn spec_vmr_parts(s: Seq<char>, i: int) -> Option<((VersionableMemoryKind, usize), int)> {
    match spec_memory_kind(s, i) {
        Some((k, q)) => if char_at_is(s, q, '_') {
            match spec_parse_usize(s, q + 1) {
                Some((v, e)) => Some(((k, v), e)),
                None => None,
            }
        } else {
            None
        },
        None => None,
    }
}

/// `F <function> <name>` with an optional argument list.
pub open spec fn spec_function_line(s: Seq<char>) -> Option<(LineView, int)> {
    let a = sp0(s, 1);
    if !char_at_is(s, 0, 'F') || a == 1 {
        None
    } else {
        match spec_parse_usize(s, a) {
            None => None,
            Some((fid, b)) => {
                let c = sp0(s, b);
                if c == b {
                    None
                } else {
                    match spec_ident(s, c) {
                        None => None,
                        Some((name, d)) => {
                            let (args, e) = spec_paren_args(s, d);
                            Some((LineView::Function(FunctionId(fid), name, args), sp0(s, e)))
                        },
                    }
                }
            },
        }
    }
}

/// `V <function> <reference> <name>` with an optional type.
pub open spec fn spec_variable_line(s: Seq<char>) -> Option<(LineView, int)> {
    let a = sp0(s, 1);
    if !char_at_is(s, 0, 'V') || a == 1 {
        None
    } else {
        match spec_parse_usize(s, a) {
            None => None,
            Some((fid, b)) => {
                let c = sp0(s, b);
                if c == b {
                    None
                } else {
                    match spec_vmr_parts(s, c) {
                        None => None,
                        Some(((kind, version), d)) => {
                            let e = sp0(s, d);
                            if e == d {
                                None
                            } else {
                                match spec_ident(s, e) {
                                    None => None,
                                    Some((name, f)) => {
                                        let (typ, g) = spec_spaced_type(s, f);
                                        let vmr = VersionedMemoryReference {
                                            kind,
                                            function_id: FunctionId(fid),
                                            version,
                                        };
                                        Some((LineView::Variable(vmr, name, typ), sp0(s, g)))
                                    },
                                }
                            }
                        },
                    }
                }
            },
        }
    }
}

/// `T <name>`.
pub open spec fn spec_custom_type_line(s: Seq<char>) -> Option<(LineView, int)> {
    let a = sp0(s, 1);
    if !char_at_is(s, 0, 'T') || a == 1 {
        None
    } else {
        match spec_ident(s, a) {
            None => None,
            Some((name, b)) => Some((LineView::CustomType(name), sp0(s, b))),
        }
    }
}

/// `G <address> <name>` with an optional type.
pub open spec fn spec_global_line(s: Seq<char>) -> Option<(LineView, int)> {
    let a = sp0(s, 1);
    if !char_at_is(s, 0, 'G') || a == 1 {
        None
    } else {
        match spec_parse_usize(s, a) {
            None => None,
            Some((addr, b)) => {
                let c = sp0(s, b);
                if c == b {
                    None
                } else {
                    match spec_ident(s, c) {
                        None => None,
                        Some((name, d)) => {
                            let (typ, e) = spec_spaced_type(s, d);
                            Some((LineView::Global(addr, name, typ), sp0(s, e)))
                        },
                    }
                }
            },
        }
    }
}

/// `S <name> { <field>: <type>, ... }`.
pub open spec fn spec_struct_line(s: Seq<char>) -> Option<(LineView, int)> {
    let a = sp0(s, 1);
    if !char_at_is(s, 0, 'S') || a == 1 {
        None
    } else {
        match spec_ident(s, a) {
            None => None,
            Some((name, b)) => {
                let c = sp0(s, b);
                if char_at_is(s, c, '{') {
                    let (fields, d) = spec_names(s, c + 1, true);
                    let e = sp0(s, d);
                    if char_at_is(s, e, '}') {
                        Some((LineView::Struct(name, fields), sp0(s, e + 1)))
                    } else {
                        None
                    }
                } else {
                    None
                }
            },
        }
    }
}

/// `XPHI <function> <reference>`.
pub open spec fn spec_xphi_line(s: Seq<char>) -> Option<(LineView, int)> {
    let a = sp0(s, 4);
    if !(char_at_is(s, 0, 'X') && char_at_is(s, 1, 'P') && char_at_is(s, 2, 'H') && char_at_is(s, 3, 'I')) || a == 4 {
        None
    } else {
        match spec_parse_usize(s, a) {
            None => None,
            Some((fid, b)) => {
                let c = sp0(s, b);
                if c == b {
                    None
                } else {
                    match spec_vmr_parts(s, c) {
                        None => None,
                        Some(((kind, version), d)) => Some((
                            LineView::SuppressPhi(VersionedMemoryReference { kind, function_id: FunctionId(fid), version }),
                            sp0(s, d),
                        )),
                    }
                }
            },
        }
    }
}

/// A declaration at the start of `s`, and the position after it.
pub open spec fn spec_parse_line(s: Seq<char>) -> Option<(LineView, int)> {
    if char_at_is(s, 0, 'X') {
        spec_xphi_line(s)
    } else if char_at_is(s, 0, 'F') {
        spec_function_line(s)
    } else if char_at_is(s, 0, 'V') {
        spec_variable_line(s)
    } else if char_at_is(s, 0, 'T') {
        spec_custom_type_line(s)
    } else if char_at_is(s, 0, 'G') {
        spec_global_line(s)
    } else {
        spec_struct_line(s)
    }
}

/// A type at `i`: `Int`, `Bool`, `Char`, `Any`, `Truthy`, `NumericLiteral`,
/// `Nothing`, `Pointer<T>`, `Array<n; T>`, or the name of a custom type or
/// struct of `d`. Spaces may precede each part.
pub open spec fn spec_parse_type(s: Seq<char>, i: int, d: DefsView) -> Option<(Type, int)>
    decreases s.len() - i,
{
    let p = sp0(s, i);
    if has_at(s, p, "Int"@) {
        Some((Type::Int, p + 3))
    } else if has_at(s, p, "Bool"@) {
        Some((Type::Bool, p + 4))
    } else if has_at(s, p, "Char"@) {
        Some((Type::Char, p + 4))
    } else if has_at(s, p, "Any"@) {
        Some((Type::Any, p + 3))
    } else if has_at(s, p, "Truthy"@) {
        Some((Type::Truthy, p + 6))
    } else if has_at(s, p, "NumericLiteral"@) {
        Some((Type::NumericLiteral, p + 14))
    } else if has_at(s, p, "Nothing"@) {
        Some((Type::Nothing, p + 7))
    } else {
        let ptr = if has_at(s, p, "Pointer<"@) && i <= p && p + 8 <= s.len() {
            match spec_parse_type(s, p + 8, d) {
                Some((t, q)) => {
                    let r = sp0(s, q);
                    if char_at_is(s, r, '>') {
                        Some((Type::Pointer(Box::new(t)), r + 1))
                    } else {
                        None
                    }
                },
                None => None,
            }
        } else {
            None
        };
        let arr = if has_at(s, p, "Array<"@) && i <= p {
            match spec_parse_usize(s, sp0(s, p + 6)) {
                Some((n, b)) => {
                    let c = sp0(s, b);
                    if char_at_is(s, c, ';') && p < c {
                        match spec_parse_type(s, c + 1, d) {
                            Some((t, q)) => {
                                let r = sp0(s, q);
                                if char_at_is(s, r, '>') {
                                    Some((Type::Array { len: n, elem_type: Box::new(t) }, r + 1))
                                } else {
                                    None
                                }
                            },
                            None => None,
                        }
                    } else {
                        None
                    }
                },
                None => None,
            }
        } else {
            None
        };
        let a = run_end(s, p, alpha_pred());
        let custom = if a == p {
            None
        } else {
            match spec_type_from_name(d, s.subrange(p, a)) {
                Some(t) => Some((t, a)),
                None => None,
            }
        };
        if ptr is Some {
            ptr
        } else if arr is Some {
            arr
        } else {
            custom
        }
    }
}

/// A parse result with its text and position as the model sees them.
pub open spec fn text_at(r: Option<(String, usize)>) -> Option<(Seq<char>, int)> {
    match r {
        Some((t, j)) => Some((t@, j as int)),
        None => None,
    }
}

pub fn ident_at(s: &Vec<char>, i: usize) -> (r: Option<(String, usize)>)
    requires
        i <= s.len(),
    ensures
        text_at(r) == spec_ident(s@, i as int),
        r matches Some((_, j)) ==> i < j <= s.len(),
{
    let j = skip_ident(s, i);
    if j == i {
        None
    } else {
        Some((string_of(s, i, j), j))
    }
}

pub fn type_str_at(s: &Vec<char>, i: usize) -> (r: Option<(String, usize)>)
    requires
        i <= s.len(),
    ensures
        text_at(r) == spec_type_str(s@, i as int),
        r matches Some((_, j)) ==> i < j <= s.len(),
{
    let j = skip_type_chars(s, i);
    if j == i {
        return None;
    }
    let mut a = i;
    while a < j && s[a] == ' '
        invariant
            i <= a <= j <= s.len(),
            lead_spaces_end(s@, i as int, j as int) == lead_spaces_end(s@, a as int, j as int),
        decreases j - a,
    {
        a = a + 1;
    }
    let mut b = j;
    while a < b && s[b - 1] == ' '
        invariant
            i <= a <= b <= j <= s.len(),
            trail_spaces_end(s@, a as int, j as int) == trail_spaces_end(s@, a as int, b as int),
        decreases b - a,
    {
        b = b - 1;
    }
    Some((string_of(s, a, b), j))
}

pub open spec fn arg_view(e: (String, Option<String>)) -> LineArg {
    (e.0@, opt_text(e.1))
}

pub fn typed_name_at(s: &Vec<char>, i: usize, lead: bool) -> (r: Option<
    ((String, Option<String>), usize),
>)
    requires
        i <= s.len(),
    ensures
        match r {
            Some((e, j)) => spec_typed_name(s@, i as int, lead) == Some((arg_view(e), j as int))
                && i < j <= s.len(),
            None => spec_typed_name(s@, i as int, lead) is None,
        },
{
    let p = if lead {
        skip_blanks(s, i)
    } else {
        i
    };
    match ident_at(s, p) {
        None => None,
        Some((name, j)) => {
            let k = skip_blanks(s, j);
            if k < s.len() && s[k] == ':' {
                let m = skip_blanks(s, k + 1);
                match type_str_at(s, m) {
                    Some((t, e)) => Some(((name, Some(t)), e)),
                    None => Some(((name, None), j)),
                }
            } else {
                Some(((name, None), j))
            }
        },
    }
}

fn more_names_at(s: &Vec<char>, i: usize, lead: bool, acc: Vec<(String, Option<String>)>) -> (r: (
    Vec<(String, Option<String>)>,
    usize,
))
    requires
        i <= s.len(),
    ensures
        (arg_views(r.0@), r.1 as int) == spec_more_names(s@, i as int, lead, arg_views(acc@)),
        i <= r.1 <= s.len(),
    decreases s.len() - i,
{
    let k = skip_blanks(s, i);
    if k < s.len() && s[k] == ',' {
        let m = skip_blanks(s, k + 1);
        match typed_name_at(s, m, lead) {
            Some((e, j)) => {
                let mut acc = acc;
                let ghost before = acc@;
                acc.push(e);
                assert(arg_views(acc@) =~= arg_views(before).push(arg_view(e)));
                more_names_at(s, j, lead, acc)
            },
            None => (acc, i),
        }
    } else {
        (acc, i)
    }
}

pub fn names_at(s: &Vec<char>, i: usize, lead: bool) -> (r: (Vec<(String, Option<String>)>, usize))
    requires
        i <= s.len(),
    ensures
        (arg_views(r.0@), r.1 as int) == spec_names(s@, i as int, lead),
        i <= r.1 <= s.len(),
{
    match typed_name_at(s, i, lead) {
        None => {
            let v: Vec<(String, Option<String>)> = Vec::new();
            assert(arg_views(v@) =~= seq![]);
            (v, i)
        },
        Some((e, j)) => {
            let mut v: Vec<(String, Option<String>)> = Vec::new();
            v.push(e);
            assert(arg_views(v@) =~= seq![arg_view(e)]);
            more_names_at(s, j, lead, v)
        },
    }
}

fn paren_args_at(s: &Vec<char>, d: usize) -> (r: (Vec<(String, Option<String>)>, usize))
    requires
        d <= s.len(),
    ensures
        (arg_views(r.0@), r.1 as int) == spec_paren_args(s@, d as int),
        d <= r.1 <= s.len(),
{
    let p = skip_blanks(s, d);
    if p < s.len() && s[p] == '(' {
        let (args, q) = names_at(s, p + 1, false);
        let r = skip_blanks(s, q);
        if r < s.len() && s[r] == ')' {
            return (args, r + 1);
        }
    }
    let v: Vec<(String, Option<String>)> = Vec::new();
    assert(arg_views(v@) =~= seq![]);
    (v, d)
}

fn spaced_type_at(s: &Vec<char>, n: usize) -> (r: (Option<String>, usize))
    requires
        n <= s.len(),
    ensures
        (opt_text(r.0), r.1 as int) == spec_spaced_type(s@, n as int),
        n <= r.1 <= s.len(),
{
    let t = skip_blanks(s, n);
    if t > n {
        match type_str_at(s, t) {
            Some((ty, e)) => (Some(ty), e),
            None => (None, n),
        }
    } else {
        (None, n)
    }
}

fn memory_inner_at(s: &Vec<char>, p: usize) -> (r: Option<(VersionableMemoryKind, usize)>)
    requires
        p <= s.len(),
    ensures
        at_int(r) == spec_memory_inner(s@, p as int),
        r matches Some((_, q)) ==> q <= s.len(),
{
    proof {
        lemma_run_end(s@, p as int, digit_pred());
        if p + 1 <= s.len() {
            lemma_run_end(s@, p + 1, digit_pred());
        }
    }
    match parse_usize_at(s, p) {
        Some((a, q)) => Some((VersionableMemoryKind::Memory(a), q)),
        None => {
            if p < s.len() && s[p] == 'R' {
                let plus = if p + 1 < s.len() && s[p + 1] == '+' {
                    parse_i128_at(s, p + 2)
                } else {
                    None
                };
                match plus {
                    Some((v, q)) => Some((VersionableMemoryKind::RelativeMemory(v), q)),
                    None => match parse_i128_at(s, p + 1) {
                        Some((v, q)) => Some((VersionableMemoryKind::RelativeMemory(v), q)),
                        None => Some((VersionableMemoryKind::RelativeMemory(0), p + 1)),
                    },
                }
            } else if p < s.len() && s[p] == 'P' {
                match parse_usize_at(s, p + 1) {
                    Some((a, q)) => Some((VersionableMemoryKind::Pointer(PointerId(a)), q)),
                    None => None,
                }
            } else {
                None
            }
        },
    }
}

fn memory_kind_at(s: &Vec<char>, i: usize) -> (r: Option<(VersionableMemoryKind, usize)>)
    requires
        i <= s.len(),
    ensures
        at_int(r) == spec_memory_kind(s@, i as int),
        r matches Some((_, q)) ==> q <= s.len(),
{
    if i < s.len() && s[i] == '[' {
        match memory_inner_at(s, i + 1) {
            Some((k, q)) => if q < s.len() && s[q] == ']' {
                Some((k, q + 1))
            } else {
                None
            },
            None => None,
        }
    } else {
        None
    }
}

/// A memory reference in brackets at the start of `input`: `[100]`,
/// `[R+3]`, `[R-4]`, `[R]`, `[P3]`; the rest of the input comes back with it.
pub fn parse_versionable_memory_kind(input: &str) -> (r: Result<(&str, VersionableMemoryKind), SyntaxError>)
    ensures
        match r {
            Ok((rest, k)) => exists|q: int|
                spec_memory_kind(input@, 0) == Some((k, q)) && rest@ == input@.subrange(
                    q,
                    input@.len() as int,
                ),
            Err(_) => spec_memory_kind(input@, 0) is None,
        },
{
    let s = chars_of(input);
    match memory_kind_at(&s, 0) {
        Some((k, q)) => Ok((substring_from(input, q), k)),
        None => Err(SyntaxError),
    }
}

fn vmr_parts_at(s: &Vec<char>, i: usize) -> (r: Option<((VersionableMemoryKind, usize), usize)>)
    requires
        i <= s.len(),
    ensures
        at_int(r) == spec_vmr_parts(s@, i as int),
        r matches Some((_, q)) ==> q <= s.len(),
{
    match memory_kind_at(s, i) {
        Some((k, q)) => if q < s.len() && s[q] == '_' {
            proof {
                lemma_run_end(s@, q + 1, digit_pred());
            }
            match parse_usize_at(s, q + 1) {
                Some((v, e)) => Some(((k, v), e)),
                None => None,
            }
        } else {
            None
        },
        None => None,
    }
}

/// A declaration as the model sees it, with its end.
pub open spec fn line_at(r: Option<(SymbolRenamingLine, usize)>) -> Option<(LineView, int)> {
    match r {
        Some((l, e)) => Some((l.view(), e as int)),
        None => None,
    }
}

fn function_line_at(s: &Vec<char>) -> (r: Option<(SymbolRenamingLine, usize)>)
    ensures
        line_at(r) == spec_function_line(s@),
        r matches Some((_, e)) ==> e <= s.len(),
{
    if s.len() == 0 || s[0] != 'F' {
        return None;
    }
    let a = skip_blanks(s, 1);
    if a == 1 {
        return None;
    }
    proof {
        lemma_run_end(s@, a as int, digit_pred());
    }
    match parse_usize_at(s, a) {
        None => None,
        Some((fid, b)) => {
            let c = skip_blanks(s, b);
            if c == b {
                return None;
            }
            match ident_at(s, c) {
                None => None,
                Some((name, d)) => {
                    let (args, e) = paren_args_at(s, d);
                    let end = skip_blanks(s, e);
                    Some((SymbolRenamingLine::Function(FunctionId(fid), name, args), end))
                },
            }
        },
    }
}

fn variable_line_at(s: &Vec<char>) -> (r: Option<(SymbolRenamingLine, usize)>)
    ensures
        line_at(r) == spec_variable_line(s@),
        r matches Some((_, e)) ==> e <= s.len(),
{
    if s.len() == 0 || s[0] != 'V' {
        return None;
    }
    let a = skip_blanks(s, 1);
    if a == 1 {
        return None;
    }
    proof {
        lemma_run_end(s@, a as int, digit_pred());
    }
    match parse_usize_at(s, a) {
        None => None,
        Some((fid, b)) => {
            let c = skip_blanks(s, b);
            if c == b {
                return None;
            }
            match vmr_parts_at(s, c) {
                None => None,
                Some(((kind, version), d)) => {
                    let e = skip_blanks(s, d);
                    if e == d {
                        return None;
                    }
                    match ident_at(s, e) {
                        None => None,
                        Some((name, f)) => {
                            let (typ, g) = spaced_type_at(s, f);
                            let vmr = VersionedMemoryReference {
                                kind,
                                function_id: FunctionId(fid),
                                version,
                            };
                            let end = skip_blanks(s, g);
                            Some((SymbolRenamingLine::Variable(vmr, name, typ), end))
                        },
                    }
                },
            }
        },
    }
}

fn custom_type_line_at(s: &Vec<char>) -> (r: Option<(SymbolRenamingLine, usize)>)
    ensures
        line_at(r) == spec_custom_type_line(s@),
        r matches Some((_, e)) ==> e <= s.len(),
{
    if s.len() == 0 || s[0] != 'T' {
        return None;
    }
    let a = skip_blanks(s, 1);
    if a == 1 {
        return None;
    }
    match ident_at(s, a) {
        None => None,
        Some((name, b)) => {
            let end = skip_blanks(s, b);
            Some((SymbolRenamingLine::CustomType(name), end))
        },
    }
}

fn global_line_at(s: &Vec<char>) -> (r: Option<(SymbolRenamingLine, usize)>)
    ensures
        line_at(r) == spec_global_line(s@),
        r matches Some((_, e)) ==> e <= s.len(),
{
    if s.len() == 0 || s[0] != 'G' {
        return None;
    }
    let a = skip_blanks(s, 1);
    if a == 1 {
        return None;
    }
    proof {
        lemma_run_end(s@, a as int, digit_pred());
    }
    match parse_usize_at(s, a) {
        None => None,
        Some((addr, b)) => {
            let c = skip_blanks(s, b);
            if c == b {
                return None;
            }
            match ident_at(s, c) {
                None => None,
                Some((name, d)) => {
                    let (typ, e) = spaced_type_at(s, d);
                    let end = skip_blanks(s, e);
                    Some((SymbolRenamingLine::Global(addr, name, typ), end))
                },
            }
        },
    }
}

fn struct_line_at(s: &Vec<char>) -> (r: Option<(SymbolRenamingLine, usize)>)
    ensures
        line_at(r) == spec_struct_line(s@),
        r matches Some((_, e)) ==> e <= s.len(),
{
    if s.len() == 0 || s[0] != 'S' {
        return None;
    }
    let a = skip_blanks(s, 1);
    if a == 1 {
        return None;
    }
    match ident_at(s, a) {
        None => None,
        Some((name, b)) => {
            let c = skip_blanks(s, b);
            if c < s.len() && s[c] == '{' {
                let (fields, d) = names_at(s, c + 1, true);
                let e = skip_blanks(s, d);
                if e < s.len() && s[e] == '}' {
                    let end = skip_blanks(s, e + 1);
                    Some((SymbolRenamingLine::Struct(name, fields), end))
                } else {
                    None
                }
            } else {
                None
            }
        },
    }
}

fn xphi_line_at(s: &Vec<char>) -> (r: Option<(SymbolRenamingLine, usize)>)
    ensures
        line_at(r) == spec_xphi_line(s@),
        r matches Some((_, e)) ==> e <= s.len(),
{
    if s.len() < 4 || s[0] != 'X' || s[1] != 'P' || s[2] != 'H' || s[3] != 'I' {
        return None;
    }
    let a = skip_blanks(s, 4);
    if a == 4 {
        return None;
    }
    proof {
        lemma_run_end(s@, a as int, digit_pred());
    }
    match parse_usize_at(s, a) {
        None => None,
        Some((fid, b)) => {
            let c = skip_blanks(s, b);
            if c == b {
                return None;
            }
            match vmr_parts_at(s, c) {
                None => None,
                Some(((kind, version), d)) => {
                    let vmr = VersionedMemoryReference { kind, function_id: FunctionId(fid), version };
                    let end = skip_blanks(s, d);
                    Some((SymbolRenamingLine::SuppressPhi(vmr), end))
                },
            }
        },
    }
}

/// A declaration at the start of `s`.
pub fn parse_line_chars(s: &Vec<char>) -> (r: Option<(SymbolRenamingLine, usize)>)
    ensures
        line_at(r) == spec_parse_line(s@),
        r matches Some((_, e)) ==> e <= s.len(),
{
    if s.len() > 0 && s[0] == 'X' {
        xphi_line_at(s)
    } else if s.len() > 0 && s[0] == 'F' {
        function_line_at(s)
    } else if s.len() > 0 && s[0] == 'V' {
        variable_line_at(s)
    } else if s.len() > 0 && s[0] == 'T' {
        custom_type_line_at(s)
    } else if s.len() > 0 && s[0] == 'G' {
        global_line_at(s)
    } else {
        struct_line_at(s)
    }
}

impl SymbolRenamingLine {
    /// The declaration at the start of `input`, with the rest of the input.
    pub fn parse(input: &str) -> (r: Result<(&str, SymbolRenamingLine), SyntaxError>)
        ensures
            match r {
                Ok((rest, line)) => exists|e: int|
                    spec_parse_line(input@) == Some((line.view(), e)) && rest@ == input@.subrange(
                        e,
                        input@.len() as int,
                    ),
                Err(_) => spec_parse_line(input@) is None,
            },
    {
        let s = chars_of(input);
        match parse_line_chars(&s) {
            Some((line, e)) => Ok((substring_from(input, e), line)),
            None => Err(SyntaxError),
        }
    }
}

/// The part of `s` from character `from` on.
fn substring_from(s: &str, from: usize) -> (r: &str)
    requires
        from <= s@.len(),
    ensures
        r@ == s@.subrange(from as int, s@.len() as int),
{
    let n = s.unicode_len();
    s.substring_char(from, n)
}

/// A type at `i` of `s`.
pub fn parse_type_at(s: &Vec<char>, i: usize, user_defs: &UserDefs) -> (r: Option<(Type, usize)>)
    requires
        i <= s.len(),
    ensures
        at_int(r) == spec_parse_type(s@, i as int, user_defs.view()),
        r matches Some((_, q)) ==> q <= s.len(),
    decreases s.len() - i,
{
    proof {
        reveal_strlit("Int");
        reveal_strlit("Bool");
        reveal_strlit("Char");
        reveal_strlit("Any");
        reveal_strlit("Truthy");
        reveal_strlit("NumericLiteral");
        reveal_strlit("Nothing");
        reveal_strlit("Pointer<");
        reveal_strlit("Array<");
    }
    let p = skip_blanks(s, i);
    if has_at_exec(s, p, "Int") {
        return Some((Type::Int, p + 3));
    } else if has_at_exec(s, p, "Bool") {
        return Some((Type::Bool, p + 4));
    } else if has_at_exec(s, p, "Char") {
        return Some((Type::Char, p + 4));
    } else if has_at_exec(s, p, "Any") {
        return Some((Type::Any, p + 3));
    } else if has_at_exec(s, p, "Truthy") {
        return Some((Type::Truthy, p + 6));
    } else if has_at_exec(s, p, "NumericLiteral") {
        return Some((Type::NumericLiteral, p + 14));
    } else if has_at_exec(s, p, "Nothing") {
        return Some((Type::Nothing, p + 7));
    }
    if has_at_exec(s, p, "Pointer<") {
        match parse_type_at(s, p + 8, user_defs) {
            Some((t, q)) => {
                let r = skip_blanks(s, q);
                if r < s.len() && s[r] == '>' {
                    return Some((Type::Pointer(Box::new(t)), r + 1));
                }
            },
            None => {},
        }
    }
    if has_at_exec(s, p, "Array<") {
        let a = skip_blanks(s, p + 6);
        proof {
            lemma_run_end(s@, a as int, digit_pred());
        }
        match parse_usize_at(s, a) {
            Some((n, b)) => {
                let c = skip_blanks(s, b);
                if c < s.len() && s[c] == ';' {
                    match parse_type_at(s, c + 1, user_defs) {
                        Some((t, q)) => {
                            let r = skip_blanks(s, q);
                            if r < s.len() && s[r] == '>' {
                                return Some((Type::Array { len: n, elem_type: Box::new(t) }, r + 1));
                            }
                        },
                        None => {},
                    }
                }
            },
            None => {},
        }
    }
    let a = skip_alpha(s, p);
    if a == p {
        return None;
    }
    let name = string_of(s, p, a);
    match user_defs.type_from_name(name.as_str()) {
        Some(t) => Some((t, a)),
        None => None,
    }
}

/// The type at the start of `input`, with the rest of the input.
pub fn parse_type<'a>(input: &'a str, user_defs: &UserDefs) -> (r: Result<(&'a str, Type), SyntaxError>)
    ensures
        match r {
            Ok((rest, t)) => exists|e: int|
                spec_parse_type(input@, 0, user_defs.view()) == Some((t, e)) && rest@
                    == input@.subrange(e, input@.len() as int),
            Err(_) => spec_parse_type(input@, 0, user_defs.view()) is None,
        },
{
    let s = chars_of(input);
    match parse_type_at(&s, 0, user_defs) {
        Some((t, e)) => Ok((substring_from(input, e), t)),
        None => Err(SyntaxError),
    }
}

/// The type that the text `t` starts with.
pub open spec fn type_of_text(t: Seq<char>, d: DefsView) -> Option<Type> {
    match spec_parse_type(t, 0, d) {
        Some((ty, _)) => Some(ty),
        None => None,
    }
}

/// The arguments of a function, each with the type its text starts with;
/// text that is no type leaves the argument untyped.
pub open spec fn spec_resolve_args(d: DefsView, args: Seq<LineArg>) -> Seq<NamedView> {
    Seq::new(
        args.len(),
        |i: int|
            (args[i].0, match args[i].1 {
                Some(t) => type_of_text(t, d),
                None => None,
            }),
    )
}

pub open spec fn type_error_text(t: Seq<char>) -> Seq<char> {
    "Failed to parse type '"@ + t + "'"@
}

pub open spec fn field_error_text(t: Seq<char>, field: Seq<char>, name: Seq<char>) -> Seq<char> {
    "Failed to parse type '"@ + t + "' for field '"@ + field + "' in struct '"@ + name + "'"@
}

pub open spec fn line_error_text(line: Seq<char>) -> Seq<char> {
    "Failed to parse line: "@ + line
}

/// The type of a variable or a global: none, or the type its text starts
/// with; text that is no type is an error.
pub open spec fn spec_optional_type(d: DefsView, t: Option<Seq<char>>) -> Result<Option<Type>, Seq<char>> {
    match t {
        None => Ok(None),
        Some(text) => match type_of_text(text, d) {
            Some(ty) => Ok(Some(ty)),
            None => Err(type_error_text(text)),
        },
    }
}

/// The fields of a struct with their types; the first field whose type text
/// is no type is an error.
pub open spec fn spec_fields(d: DefsView, name: Seq<char>, fields: Seq<LineArg>) -> Result<Seq<NamedView>, Seq<char>>
    decreases fields.len(),
{
    if fields.len() == 0 {
        Ok(seq![])
    } else {
        match spec_fields(d, name, fields.drop_last()) {
            Err(e) => Err(e),
            Ok(prev) => {
                let f = fields.last();
                match f.1 {
                    None => Ok(prev.push((f.0, None))),
                    Some(t) => match type_of_text(t, d) {
                        Some(ty) => Ok(prev.push((f.0, Some(ty)))),
                        None => Err(field_error_text(t, f.0, name)),
                    },
                }
            },
        }
    }
}

/// The declarations after adding one declaration to `d`.
pub open spec fn spec_apply_line(d: DefsView, line: LineView) -> Result<DefsView, Seq<char>> {
    match line {
        LineView::Function(fid, name, args) => Ok(
            DefsView {
                functions: assoc_insert(d.functions, fid, (name, spec_resolve_args(d, args))),
                ..d
            },
        ),
        LineView::Variable(v, name, t) => match spec_optional_type(d, t) {
            Ok(ty) => Ok(DefsView { variables: assoc_insert(d.variables, v, (name, ty)), ..d }),
            Err(e) => Err(e),
        },
        LineView::CustomType(name) => Ok(
            DefsView {
                custom_types: assoc_insert(
                    d.custom_types,
                    CustomTypeId(d.next_custom_type as usize),
                    name,
                ),
                next_custom_type: d.next_custom_type + 1,
                ..d
            },
        ),
        LineView::Global(addr, name, t) => match spec_optional_type(d, t) {
            Ok(ty) => Ok(DefsView { globals: assoc_insert(d.globals, addr, (name, ty)), ..d }),
            Err(e) => Err(e),
        },
        LineView::Struct(name, fields) => match spec_fields(d, name, fields) {
            Ok(fs) => Ok(
                DefsView {
                    structs: assoc_insert(d.structs, StructId(d.next_struct as usize), (name, fs)),
                    next_struct: d.next_struct + 1,
                    ..d
                },
            ),
            Err(e) => Err(e),
        },
        LineView::SuppressPhi(v) => Ok(DefsView { suppressed_phis: d.suppressed_phis.push(v), ..d }),
    }
}

/// The declarations after the line `s[lo..hi]`: blank lines and lines that
/// start with `#` change nothing.
pub open spec fn spec_line_step(d: DefsView, s: Seq<char>, lo: int, hi: int) -> Result<DefsView, Seq<char>> {
    let (a, b) = trim_bounds(s, lo, hi);
    let t = s.subrange(a, b);
    if t.len() == 0 || t[0] == '#' {
        Ok(d)
    } else {
        match spec_parse_line(t) {
            None => Err(line_error_text(s.subrange(lo, hi))),
            Some((line, _)) => spec_apply_line(d, line),
        }
    }
}

/// The declarations after the lines of `s` from position `i` on. Lines end
/// at a newline, which a carriage return may precede (`str::lines`).
pub open spec fn spec_lines_fold(d: DefsView, s: Seq<char>, i: int) -> Result<DefsView, Seq<char>>
    decreases s.len() - i,
{
    if !(0 <= i < s.len()) {
        Ok(d)
    } else {
        let j = run_end(s, i, not_newline_pred());
        let hi = if j < s.len() && i < j && s[j - 1] == '\r' {
            j - 1
        } else {
            j
        };
        match spec_line_step(d, s, i, hi) {
            Err(e) => Err(e),
            Ok(d2) => if j < s.len() && i <= j {
                spec_lines_fold(d2, s, j + 1)
            } else {
                Ok(d2)
            },
        }
    }
}

/// The declarations of a symbol file, or the first error in it.
pub open spec fn spec_from_lines(s: Seq<char>) -> Result<DefsView, Seq<char>> {
    spec_lines_fold(empty_defs(), s, 0)
}

fn type_of_string(t: &String, user_defs: &UserDefs) -> (r: Option<Type>)
    ensures
        r == type_of_text(t@, user_defs.view()),
{
    let c = chars_of(t.as_str());
    match parse_type_at(&c, 0, user_defs) {
        Some((ty, _)) => Some(ty),
        None => None,
    }
}

fn type_error(t: &String) -> (r: String)
    ensures
        r@ == type_error_text(t@),
{
    let mut out = String::new();
    append_str(&mut out, "Failed to parse type '");
    append_str(&mut out, t.as_str());
    append_str(&mut out, "'");
    out
}

fn field_error(t: &String, field: &String, name: &String) -> (r: String)
    ensures
        r@ == field_error_text(t@, field@, name@),
{
    let mut out = String::new();
    append_str(&mut out, "Failed to parse type '");
    append_str(&mut out, t.as_str());
    append_str(&mut out, "' for field '");
    append_str(&mut out, field.as_str());
    append_str(&mut out, "' in struct '");
    append_str(&mut out, name.as_str());
    append_str(&mut out, "'");
    out
}

fn resolve_args(args: &Vec<(String, Option<String>)>, user_defs: &UserDefs) -> (r: Vec<(String, Option<Type>)>)
    ensures
        named_views(r@) == spec_resolve_args(user_defs.view(), arg_views(args@)),
{
    let mut out: Vec<(String, Option<Type>)> = Vec::new();
    let mut i: usize = 0;
    while i < args.len()
        invariant
            i <= args.len(),
            out.len() == i,
            forall|j: int|
                0 <= j < i ==> #[trigger] named_views(out@)[j] == spec_resolve_args(
                    user_defs.view(),
                    arg_views(args@),
                )[j],
        decreases args.len() - i,
    {
        let name = args[i].0.clone();
        let typ = match &args[i].1 {
            Some(t) => type_of_string(t, user_defs),
            None => None,
        };
        assert(typ == match opt_text(args@[i as int].1) {
            Some(t) => type_of_text(t, user_defs.view()),
            None => None,
        });
        let ghost before = out@;
        out.push((name, typ));
        assert forall|j: int| 0 <= j < i + 1 implies #[trigger] named_views(out@)[j]
            == spec_resolve_args(user_defs.view(), arg_views(args@))[j] by {
            if j < i {
                assert(out@[j] == before[j]);
                assert(named_views(out@)[j] == named_views(before)[j]);
            } else {
                assert(arg_views(args@)[j] == (args@[j].0@, opt_text(args@[j].1)));
                assert(named_views(out@)[j] == named_view(out@[j]));
                assert(out@[j].0@ == args@[j].0@);
            }
        }
        i = i + 1;
    }
    assert(named_views(out@) =~= spec_resolve_args(user_defs.view(), arg_views(args@)));
    out
}

fn optional_type(t: &Option<String>, user_defs: &UserDefs) -> (r: Result<Option<Type>, String>)
    ensures
        match r {
            Ok(ty) => spec_optional_type(user_defs.view(), opt_text(*t)) == Ok::<Option<Type>, Seq<char>>(ty),
            Err(e) => spec_optional_type(user_defs.view(), opt_text(*t)) == Err::<Option<Type>, Seq<char>>(e@),
        },
{
    match t {
        None => Ok(None),
        Some(text) => match type_of_string(text, user_defs) {
            Some(ty) => Ok(Some(ty)),
            None => Err(type_error(text)),
        },
    }
}

proof fn lemma_fields_error(d: DefsView, name: Seq<char>, fields: Seq<LineArg>, k: int, n: int)
    requires
        0 <= k <= n <= fields.len(),
        spec_fields(d, name, fields.take(k)) is Err,
    ensures
        spec_fields(d, name, fields.take(n)) == spec_fields(d, name, fields.take(k)),
    decreases n - k,
{
    if k < n {
        lemma_fields_error(d, name, fields, k, n - 1);
        assert(fields.take(n).drop_last() =~= fields.take(n - 1));
    }
}

fn struct_fields(name: &String, fields: &Vec<(String, Option<String>)>, user_defs: &UserDefs) -> (r: Result<Vec<StructField>, String>)
    ensures
        match r {
            Ok(fs) => spec_fields(user_defs.view(), name@, arg_views(fields@)) == Ok::<Seq<NamedView>, Seq<char>>(field_views(fs@)),
            Err(e) => spec_fields(user_defs.view(), name@, arg_views(fields@)) == Err::<Seq<NamedView>, Seq<char>>(e@),
        },
{
    let mut out: Vec<StructField> = Vec::new();
    let mut i: usize = 0;
    assert(arg_views(fields@).take(0) =~= seq![]);
    assert(field_views(out@) =~= seq![]);
    while i < fields.len()
        invariant
            i <= fields.len(),
            spec_fields(user_defs.view(), name@, arg_views(fields@).take(i as int)) == Ok::<
                Seq<NamedView>,
                Seq<char>,
            >(field_views(out@)),
        decreases fields.len() - i,
    {
        let ghost pre = arg_views(fields@).take(i as int);
        let ghost next = arg_views(fields@).take(i + 1);
        assert(next.drop_last() =~= pre);
        assert(next.last() == arg_views(fields@)[i as int]);
        let fname = fields[i].0.clone();
        let ghost before = out@;
        match &fields[i].1 {
            None => {
                out.push(StructField { name: fname, typ: None });
            },
            Some(t) => match type_of_string(t, user_defs) {
                Some(ty) => {
                    out.push(StructField { name: fname, typ: Some(ty) });
                },
                None => {
                    proof {
                        lemma_fields_error(user_defs.view(), name@, arg_views(fields@), i + 1, fields@.len() as int);
                        assert(arg_views(fields@).take(fields@.len() as int) =~= arg_views(fields@));
                    }
                    return Err(field_error(t, &fields[i].0, name));
                },
            },
        }
        assert(field_views(out@) =~= field_views(before).push(field_views(out@).last()));
        i = i + 1;
    }
    assert(arg_views(fields@).take(fields.len() as int) =~= arg_views(fields@));
    Ok(out)
}

fn apply_line(renaming: &mut SymbolRenaming, line: SymbolRenamingLine) -> (r: Result<(), String>)
    requires
        old(renaming).user_defs.view().next_custom_type < usize::MAX,
        old(renaming).user_defs.view().next_struct < usize::MAX,
    ensures
        match r {
            Ok(()) => spec_apply_line(old(renaming).user_defs.view(), line.view()) == Ok::<DefsView, Seq<char>>(final(renaming).user_defs.view()),
            Err(e) => spec_apply_line(old(renaming).user_defs.view(), line.view()) == Err::<DefsView, Seq<char>>(e@),
        },
        final(renaming).user_defs.view().next_custom_type <= old(renaming).user_defs.view().next_custom_type + 1,
        final(renaming).user_defs.view().next_struct <= old(renaming).user_defs.view().next_struct + 1,
{
    match line {
        SymbolRenamingLine::Function(fid, name, args) => {
            let resolved = resolve_args(&args, &renaming.user_defs);
            renaming.add_function(fid, name, resolved);
            Ok(())
        },
        SymbolRenamingLine::Variable(v, name, t) => match optional_type(&t, &renaming.user_defs) {
            Ok(ty) => {
                renaming.add_variable_name(&v, name, ty);
                Ok(())
            },
            Err(e) => Err(e),
        },
        SymbolRenamingLine::CustomType(name) => {
            let id = renaming.fresh_custom_type_id();
            renaming.add_custom_type(id, name);
            Ok(())
        },
        SymbolRenamingLine::Global(addr, name, t) => match optional_type(&t, &renaming.user_defs) {
            Ok(ty) => {
                renaming.add_global(addr, name, ty);
                Ok(())
            },
            Err(e) => Err(e),
        },
        SymbolRenamingLine::Struct(name, fields) => match struct_fields(&name, &fields, &renaming.user_defs) {
            Ok(fs) => {
                let id = renaming.fresh_struct_id();
                let def = StructDef { name, fields: fs };
                renaming.add_struct(id, def);
                Ok(())
            },
            Err(e) => Err(e),
        },
        SymbolRenamingLine::SuppressPhi(v) => {
            renaming.suppress_phi(&v);
            Ok(())
        },
    }
}

/// The characters `s[a..b]`.
fn sub_chars(s: &Vec<char>, a: usize, b: usize) -> (r: Vec<char>)
    requires
        a <= b <= s.len(),
    ensures
        r@ == s@.subrange(a as int, b as int),
{
    let mut v: Vec<char> = Vec::new();
    let mut k = a;
    while k < b
        invariant
            a <= k <= b <= s.len(),
            v@ == s@.subrange(a as int, k as int),
        decreases b - k,
    {
        v.push(s[k]);
        k = k + 1;
        assert(v@ =~= s@.subrange(a as int, k as int));
    }
    v
}

fn process_line(renaming: &mut SymbolRenaming, s: &Vec<char>, lo: usize, hi: usize) -> (r: Result<(), String>)
    requires
        lo <= hi <= s.len(),
        old(renaming).user_defs.view().next_custom_type < usize::MAX,
        old(renaming).user_defs.view().next_struct < usize::MAX,
    ensures
        match r {
            Ok(()) => spec_line_step(old(renaming).user_defs.view(), s@, lo as int, hi as int) == Ok::<DefsView, Seq<char>>(final(renaming).user_defs.view()),
            Err(e) => spec_line_step(old(renaming).user_defs.view(), s@, lo as int, hi as int) == Err::<DefsView, Seq<char>>(e@),
        },
        final(renaming).user_defs.view().next_custom_type <= old(renaming).user_defs.view().next_custom_type + 1,
        final(renaming).user_defs.view().next_struct <= old(renaming).user_defs.view().next_struct + 1,
{
    let (a, b) = trim_range(s, lo, hi);
    if a == b || s[a] == '#' {
        return Ok(());
    }
    let t = sub_chars(s, a, b);
    match parse_line_chars(&t) {
        None => {
            let mut msg = String::new();
            append_str(&mut msg, "Failed to parse line: ");
            let raw = string_of(s, lo, hi);
            append_str(&mut msg, raw.as_str());
            Err(msg)
        },
        Some((line, _)) => apply_line(renaming, line),
    }
}

impl UserDefs {
    /// The declarations of a symbol file, or an error that names the first
    /// line that is no declaration or the first type that cannot be read.
    pub fn from_lines(lines: &str) -> (r: Result<UserDefs, String>)
        ensures
            match r {
                Ok(u) => spec_from_lines(lines@) == Ok::<DefsView, Seq<char>>(u.view()),
                Err(e) => spec_from_lines(lines@) == Err::<DefsView, Seq<char>>(e@),
            },
    {
        let s = chars_of(lines);
        let mut renaming = SymbolRenaming::new();
        let mut i: usize = 0;
        while i < s.len()
            invariant
                i <= s.len(),
                s@ == lines@,
                spec_from_lines(s@) == spec_lines_fold(renaming.user_defs.view(), s@, i as int),
                renaming.user_defs.view().next_custom_type <= i,
                renaming.user_defs.view().next_struct <= i,
            decreases s.len() - i,
        {
            let j = skip_to_newline(&s, i);
            let hi = if j < s.len() && i < j && s[j - 1] == '\r' {
                j - 1
            } else {
                j
            };
            match process_line(&mut renaming, &s, i, hi) {
                Err(e) => {
                    return Err(e);
                },
                Ok(()) => {},
            }
            if j < s.len() {
                i = j + 1;
            } else {
                i = s.len();
            }
        }
        Ok(renaming.user_defs)
    }
}

} // verus!
