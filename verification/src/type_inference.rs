//! Type inference over programs in SSA form: each operation constrains the
//! types of its operands, and unification solves the constraints.
use vstd::prelude::*;
use crate::assoc::{Key, key_index, assoc_get, assoc_insert, get_value, keys_distinct, lemma_get_insert, lemma_insert_distinct, map_entries};
use crate::ssa_form::{SSAArg, SSAArgKind};
use crate::low_ir::{GenericInstruction, InstrView};
use crate::control_flow_graph::{Block, BlockId, BlockView, FunctionCall, FunctionId, NextKind};
use crate::program_analysis::{FunctionInfo, InfoView, ProgramAnalysis, infos_view};
use crate::ssa_form::{SSAGraph, convert_to_ssa, ssa_defined, ssa_result};
use crate::order::{sorted_indices, spec_keyed, spec_sorted_indices, lemma_sorted_indices_members};
use crate::text::{append_chars, append_uint, spec_uint_text};

verus! {

/// A type variable of the solver.
#[derive(Debug, Clone, Copy, PartialEq, Eq, Hash, PartialOrd, Ord, Structural)]
pub struct TypeVarId(pub usize);

impl Key for TypeVarId {
    fn same(&self, other: &Self) -> (r: bool) {
        self.0 == other.0
    }
}

/// The types that inference assigns to operands.
#[derive(Debug, PartialEq, Eq)]
pub enum Type {
    Int,
    Bool,
    Char,
    Pointer(Box<Type>),
    FunctionPointer { args: Vec<Type>, returns: Vec<Type> },
    String,
    TypeVar(TypeVarId),
}

/// The mathematical value of a [`Type`], with sequences in place of vectors.
pub ghost enum TypeView {
    Int,
    Bool,
    Char,
    Pointer(Box<TypeView>),
    FunctionPointer(Seq<TypeView>, Seq<TypeView>),
    String,
    TypeVar(TypeVarId),
}

pub open spec fn type_view(t: Type) -> TypeView
    decreases t,
{
    match t {
        Type::Int => TypeView::Int,
        Type::Bool => TypeView::Bool,
        Type::Char => TypeView::Char,
        Type::Pointer(p) => TypeView::Pointer(Box::new(type_view(*p))),
        Type::FunctionPointer { args, returns: rets } => TypeView::FunctionPointer(types_view(args@), types_view(rets@)),
        Type::String => TypeView::String,
        Type::TypeVar(v) => TypeView::TypeVar(v),
    }
}

pub open spec fn types_view(v: Seq<Type>) -> Seq<TypeView>
    decreases v,
{
    if v.len() == 0 {
        seq![]
    } else {
        types_view(v.drop_last()).push(type_view(v.last()))
    }
}

impl View for Type {
    type V = TypeView;

    open spec fn view(&self) -> TypeView {
        type_view(*self)
    }
}

pub proof fn lemma_types_view_index(v: Seq<Type>)
    ensures
        types_view(v).len() == v.len(),
        forall|i: int| 0 <= i < v.len() ==> #[trigger] types_view(v)[i] == v[i].view(),
    decreases v.len(),
{
    if v.len() > 0 {
        lemma_types_view_index(v.drop_last());
        assert forall|i: int| 0 <= i < v.len() implies #[trigger] types_view(v)[i] == v[i].view() by {
            if i < v.len() - 1 {
                assert(v.drop_last()[i] == v[i]);
            }
        }
    }
}

/// The text of a type: `int`, `bool`, `char`, `string`, `*T` for a pointer,
/// `t3` for a type variable, `fn(A, B) -> R` for a function pointer (`void`
/// when it returns nothing).
pub open spec fn spec_type_text(t: TypeView) -> Seq<char>
    decreases t,
{
    match t {
        TypeView::Int => seq!['i', 'n', 't'],
        TypeView::Bool => seq!['b', 'o', 'o', 'l'],
        TypeView::Char => seq!['c', 'h', 'a', 'r'],
        TypeView::Pointer(p) => seq!['*'] + spec_type_text(*p),
        TypeView::FunctionPointer(args, rets) => seq!['f', 'n', '('] + types_text(args) + seq![')', ' ', '-', '>', ' ']
            + if rets.len() == 0 {
            seq!['v', 'o', 'i', 'd']
        } else {
            types_text(rets)
        },
        TypeView::String => seq!['s', 't', 'r', 'i', 'n', 'g'],
        TypeView::TypeVar(v) => seq!['t'] + spec_uint_text(v.0 as nat),
    }
}

/// The texts of types, separated by `, `.
pub open spec fn types_text(v: Seq<TypeView>) -> Seq<char>
    decreases v,
{
    if v.len() == 0 {
        seq![]
    } else if v.len() == 1 {
        spec_type_text(v[0])
    } else {
        types_text(v.drop_last()) + seq![',', ' '] + spec_type_text(v.last())
    }
}

/// Applies a substitution to a type: each type variable bound in `s` is
/// replaced by its binding, once, without substituting inside the binding.
pub open spec fn spec_substitute(t: TypeView, s: Seq<(TypeVarId, TypeView)>) -> TypeView
    decreases t,
{
    match t {
        TypeView::Pointer(p) => TypeView::Pointer(Box::new(spec_substitute(*p, s))),
        TypeView::FunctionPointer(args, rets) => TypeView::FunctionPointer(
            substitute_all(args, s),
            substitute_all(rets, s),
        ),
        TypeView::TypeVar(id) => match assoc_get(s, id) {
            Some(x) => x,
            None => TypeView::TypeVar(id),
        },
        _ => t,
    }
}

pub open spec fn substitute_all(v: Seq<TypeView>, s: Seq<(TypeVarId, TypeView)>) -> Seq<TypeView>
    decreases v,
{
    if v.len() == 0 {
        seq![]
    } else {
        substitute_all(v.drop_last(), s).push(spec_substitute(v.last(), s))
    }
}

/// Substituting nothing leaves a type as it is.
pub proof fn lemma_substitute_nothing(t: TypeView)
    ensures
        spec_substitute(t, seq![]) == t,
    decreases t,
{
    match t {
        TypeView::Pointer(p) => {
            lemma_substitute_nothing(*p);
        },
        TypeView::FunctionPointer(args, rets) => {
            lemma_substitute_all_nothing(args);
            lemma_substitute_all_nothing(rets);
        },
        _ => {},
    }
}

/// Substituting nothing leaves each of the types as it is.
pub proof fn lemma_substitute_all_nothing(v: Seq<TypeView>)
    ensures
        substitute_all(v, seq![]) == v,
    decreases v,
{
    lemma_substitute_all_index(v, seq![]);
    assert forall|i: int| 0 <= i < v.len() implies #[trigger] substitute_all(v, seq![])[i] == v[i] by {
        lemma_substitute_nothing(v[i]);
    }
    assert(substitute_all(v, seq![]) =~= v);
}

/// A substitution replaces a variable once: the type bound to it is not
/// substituted again, and a type without variables is left as it is.
pub proof fn lemma_substitute_one_step(id: TypeVarId, s: Seq<(TypeVarId, TypeView)>)
    ensures
        spec_substitute(TypeView::TypeVar(id), s) == match assoc_get(s, id) {
            Some(x) => x,
            None => TypeView::TypeVar(id),
        },
        spec_substitute(TypeView::Int, s) == TypeView::Int,
        spec_substitute(TypeView::Bool, s) == TypeView::Bool,
        spec_substitute(TypeView::Char, s) == TypeView::Char,
        spec_substitute(TypeView::String, s) == TypeView::String,
{
}

pub proof fn lemma_substitute_all_index(v: Seq<TypeView>, s: Seq<(TypeVarId, TypeView)>)
    ensures
        substitute_all(v, s).len() == v.len(),
        forall|i: int| 0 <= i < v.len() ==> #[trigger] substitute_all(v, s)[i] == spec_substitute(v[i], s),
    decreases v.len(),
{
    if v.len() > 0 {
        lemma_substitute_all_index(v.drop_last(), s);
        assert forall|i: int| 0 <= i < v.len() implies #[trigger] substitute_all(v, s)[i] == spec_substitute(v[i], s) by {
            if i < v.len() - 1 {
                assert(v.drop_last()[i] == v[i]);
            }
        }
    }
}

/// A substitution with the view of each bound type.
pub open spec fn subst_view(s: Seq<(TypeVarId, Type)>) -> Seq<(TypeVarId, TypeView)> {
    map_entries(s, |t: Type| t.view())
}

impl Type {
    /// Appends the text of the type.
    pub fn append_text(&self, out: &mut String)
        ensures
            final(out)@ == old(out)@ + spec_type_text(self.view()),
        decreases self,
    {
        let ghost o = out@;
        match self {
            Type::Int => append_chars(out, &['i', 'n', 't']),
            Type::Bool => append_chars(out, &['b', 'o', 'o', 'l']),
            Type::Char => append_chars(out, &['c', 'h', 'a', 'r']),
            Type::Pointer(p) => {
                append_chars(out, &['*']);
                p.append_text(out);
                assert(out@ =~= o + spec_type_text(self.view()));
            },
            Type::FunctionPointer { args, returns: rets } => {
                append_chars(out, &['f', 'n', '(']);
                append_types(args, out);
                append_chars(out, &[')', ' ', '-', '>', ' ']);
                let ghost o2 = out@;
                proof {
                    lemma_types_view_index(rets@);
                }
                if rets.len() == 0 {
                    append_chars(out, &['v', 'o', 'i', 'd']);
                } else {
                    append_types(rets, out);
                }
                assert(out@ =~= o + spec_type_text(self.view()));
            },
            Type::String => append_chars(out, &['s', 't', 'r', 'i', 'n', 'g']),
            Type::TypeVar(v) => {
                append_chars(out, &['t']);
                append_uint(out, v.0 as u128);
                assert(out@ =~= o + spec_type_text(self.view()));
            },
        }
    }

    /// The text of the type.
    pub fn to_text(&self) -> (r: String)
        ensures
            r@ == spec_type_text(self.view()),
    {
        let mut s = String::new();
        self.append_text(&mut s);
        assert(s@ =~= spec_type_text(self.view()));
        s
    }

    /// An equal copy of the type.
    pub fn duplicate(&self) -> (r: Type)
        ensures
            r.view() == self.view(),
        decreases self,
    {
        match self {
            Type::Int => Type::Int,
            Type::Bool => Type::Bool,
            Type::Char => Type::Char,
            Type::Pointer(p) => Type::Pointer(Box::new(p.duplicate())),
            Type::FunctionPointer { args, returns: rets } => Type::FunctionPointer {
                args: duplicate_types(args),
                returns: duplicate_types(rets),
            },
            Type::String => Type::String,
            Type::TypeVar(v) => Type::TypeVar(*v),
        }
    }
}

impl Clone for Type {
    fn clone(&self) -> (r: Self)
        ensures
            r.view() == self.view(),
    {
        self.duplicate()
    }
}

/// Appends the texts of types, separated by `, `.
fn append_types(v: &Vec<Type>, out: &mut String)
    ensures
        final(out)@ == old(out)@ + types_text(types_view(v@)),
    decreases v,
{
    let ghost o = out@;
    proof {
        lemma_types_view_index(v@);
    }
    let mut i: usize = 0;
    while i < v.len()
        invariant
            i <= v.len(),
            types_view(v@).len() == v.len(),
            forall|j: int| 0 <= j < v.len() ==> #[trigger] types_view(v@)[j] == v@[j].view(),
            out@ == o + types_text(types_view(v@).take(i as int)),
        decreases v.len() - i,
    {
        proof {
            vstd::std_specs::vec::axiom_vec_index_decreases(*v, i as int);
        }
        let ghost t = types_view(v@).take(i + 1);
        if i > 0 {
            append_chars(out, &[',', ' ']);
        }
        v[i].append_text(out);
        proof {
            assert(t.drop_last() =~= types_view(v@).take(i as int));
            assert(t.last() == v@[i as int].view());
            if i == 0 {
                assert(t.len() == 1);
                assert(types_view(v@).take(0) =~= seq![]);
            }
        }
        assert(out@ =~= o + types_text(t));
        i = i + 1;
    }
    assert(types_view(v@).take(i as int) =~= types_view(v@));
}

/// An equal copy of each type.
fn duplicate_types(v: &Vec<Type>) -> (r: Vec<Type>)
    ensures
        types_view(r@) == types_view(v@),
    decreases v,
{
    proof {
        lemma_types_view_index(v@);
    }
    let mut r: Vec<Type> = Vec::new();
    let mut i: usize = 0;
    while i < v.len()
        invariant
            i <= v.len(),
            types_view(v@).len() == v.len(),
            forall|j: int| 0 <= j < v.len() ==> #[trigger] types_view(v@)[j] == v@[j].view(),
            types_view(r@) == types_view(v@).take(i as int),
        decreases v.len() - i,
    {
        proof {
            vstd::std_specs::vec::axiom_vec_index_decreases(*v, i as int);
        }
        let t = v[i].duplicate();
        let ghost r0 = r@;
        r.push(t);
        assert(r@.drop_last() =~= r0);
        assert(types_view(r@) =~= types_view(v@).take(i + 1));
        i = i + 1;
    }
    assert(types_view(v@).take(i as int) =~= types_view(v@));
    r
}

/// Why a constraint was added.
#[derive(Debug, Clone, Copy, PartialEq, Eq, Structural)]
pub enum ConstraintReason {
    AddImpliesInt,
    MulImpliesInt,
    CompareDstImpliesBool,
    CompareSrcImpliesInt,
    OutputImpliesChar,
    InputImpliesChar,
    JumpConditionImpliesBool,
    CompareSrcSameType,
    Assignment,
    Deref,
    FunctionParameterBinding,
}

/// Two types that must be equal, with the address that demands it.
#[derive(Debug)]
pub struct Constraint {
    pub left: Type,
    pub right: Type,
    pub addr: usize,
    pub reason: ConstraintReason,
}

pub ghost struct ConstraintView {
    pub left: TypeView,
    pub right: TypeView,
    pub addr: usize,
    pub reason: ConstraintReason,
}

impl View for Constraint {
    type V = ConstraintView;

    open spec fn view(&self) -> ConstraintView {
        ConstraintView { left: self.left.view(), right: self.right.view(), addr: self.addr, reason: self.reason }
    }
}

pub open spec fn constraints_view(v: Seq<Constraint>) -> Seq<ConstraintView> {
    Seq::new(v.len(), |i: int| v[i].view())
}

/// One step of unification on the last constraint of the work list: both
/// sides are substituted; a side that is then a variable is bound to the
/// other side (the left one first), and anything else binds nothing.
pub open spec fn unify_step(s: Seq<(TypeVarId, TypeView)>, c: ConstraintView) -> Seq<(TypeVarId, TypeView)> {
    let l = spec_substitute(c.left, s);
    let r = spec_substitute(c.right, s);
    match l {
        TypeView::TypeVar(id) => assoc_insert(s, id, r),
        _ => match r {
            TypeView::TypeVar(id) => assoc_insert(s, id, l),
            _ => s,
        },
    }
}

/// The substitution after working through the constraints from the last
/// one to the first.
pub open spec fn unify_all(work: Seq<ConstraintView>, s: Seq<(TypeVarId, TypeView)>) -> Seq<(TypeVarId, TypeView)>
    decreases work.len(),
{
    if work.len() == 0 {
        s
    } else {
        unify_all(work.drop_last(), unify_step(s, work.last()))
    }
}

/// What unification answers for the constraints: each variable that the
/// work bound, with its binding substituted once more.
pub open spec fn spec_unify(cs: Seq<ConstraintView>) -> Seq<(TypeVarId, TypeView)> {
    let s = unify_all(cs, seq![]);
    Seq::new(s.len(), |i: int| (s[i].0, spec_substitute(TypeView::TypeVar(s[i].0), s)))
}

/// The state of inference: the constraints so far and the type of each
/// operand met so far.
pub ghost struct InferState {
    pub constraints: Seq<ConstraintView>,
    pub type_vars: Seq<(SSAArg, TypeView)>,
}

/// The inferred constraints and the type variables given to operands.
pub struct TypeInference {
    pub constraints: Vec<Constraint>,
    pub type_vars: Vec<(SSAArg, Type)>,
    pub debug_markers: Vec<(char, SSAArg)>,
}

impl TypeInference {
    pub open spec fn state(&self) -> InferState {
        InferState {
            constraints: constraints_view(self.constraints@),
            type_vars: map_entries(self.type_vars@, |t: Type| t.view()),
        }
    }

    /// An inference with no constraints and no operands.
    pub fn new() -> (r: Self)
        ensures
            r.constraints@.len() == 0,
            r.type_vars@.len() == 0,
            r.debug_markers@.len() == 0,
    {
        TypeInference { constraints: Vec::new(), type_vars: Vec::new(), debug_markers: Vec::new() }
    }

    /// Applies a substitution to a type; see [`spec_substitute`].
    pub fn substitute(t: Type, subst: &Vec<(TypeVarId, Type)>) -> (r: Type)
        ensures
            r.view() == spec_substitute(t.view(), subst_view(subst@)),
    {
        substitute_ref(&t, subst)
    }

    /// Solves the constraints: works through them from the last to the
    /// first, binding a side that is a variable after substitution to the
    /// other side.
    pub fn unify(&self) -> (r: Result<Vec<(TypeVarId, Type)>, String>)
        ensures
            r is Ok,
            subst_view(r->Ok_0@) == spec_unify(constraints_view(self.constraints@)),
            keys_distinct(r->Ok_0@),
    {
        let ghost cs = constraints_view(self.constraints@);
        let mut subst: Vec<(TypeVarId, Type)> = Vec::new();
        let mut k: usize = self.constraints.len();
        assert(cs.take(k as int) =~= cs);
        assert(subst_view(subst@) =~= seq![]);
        while k > 0
            invariant
                k <= self.constraints@.len(),
                cs == constraints_view(self.constraints@),
                unify_all(cs.take(k as int), subst_view(subst@)) == unify_all(cs, seq![]),
                keys_distinct(subst@),
            decreases k,
        {
            let c = &self.constraints[k - 1];
            let left = substitute_ref(&c.left, &subst);
            let right = substitute_ref(&c.right, &subst);
            let ghost sv = subst_view(subst@);
            proof {
                assert(cs.take(k as int).last() == c.view());
                assert(cs.take(k as int).drop_last() =~= cs.take(k - 1));
            }
            match left {
                Type::TypeVar(id) => {
                    proof {
                        lemma_insert_distinct(subst@, id, right);
                        crate::assoc::lemma_insert_map(subst@, id, right, |t: Type| t.view());
                    }
                    crate::assoc::insert_value(&mut subst, id, right);
                },
                _ => {
                    match right {
                        Type::TypeVar(id) => {
                            proof {
                                lemma_insert_distinct(subst@, id, left);
                                crate::assoc::lemma_insert_map(subst@, id, left, |t: Type| t.view());
                            }
                            crate::assoc::insert_value(&mut subst, id, left);
                        },
                        _ => {},
                    }
                },
            }
            assert(subst_view(subst@) == unify_step(sv, c.view()));
            k = k - 1;
        }
        assert(cs.take(0) =~= seq![]);
        let ghost s = subst_view(subst@);
        let mut result: Vec<(TypeVarId, Type)> = Vec::new();
        let mut i: usize = 0;
        while i < subst.len()
            invariant
                i <= subst@.len(),
                s == subst_view(subst@),
                keys_distinct(subst@),
                result@.len() == i,
                forall|j: int| 0 <= j < i ==> (#[trigger] result@[j]).0 == subst@[j].0 && result@[j].1.view()
                    == spec_substitute(TypeView::TypeVar(subst@[j].0), s),
            decreases subst.len() - i,
        {
            let id = subst[i].0;
            let t = substitute_ref(&Type::TypeVar(id), &subst);
            result.push((id, t));
            i = i + 1;
        }
        proof {
            assert(subst_view(result@) =~= spec_unify(cs));
            assert forall|a: int, b: int| 0 <= a < b < result@.len() implies result@[a].0 != result@[b].0 by {
                assert(subst@[a].0 != subst@[b].0);
            }
        }
        Ok(result)
    }
}

/// Applies a substitution to a type.
fn substitute_ref(t: &Type, subst: &Vec<(TypeVarId, Type)>) -> (r: Type)
    ensures
        r.view() == spec_substitute(t.view(), subst_view(subst@)),
    decreases t,
{
    match t {
        Type::Pointer(p) => Type::Pointer(Box::new(substitute_ref(p, subst))),
        Type::FunctionPointer { args, returns: rets } => {
            let a = substitute_types(args, subst);
            let b = substitute_types(rets, subst);
            Type::FunctionPointer { args: a, returns: b }
        },
        Type::TypeVar(id) => {
            proof {
                crate::assoc::lemma_get_keys(subst@, subst_view(subst@), *id);
            }
            match get_value(subst, id) {
                Some(x) => x.duplicate(),
                None => Type::TypeVar(*id),
            }
        },
        Type::Int => Type::Int,
        Type::Bool => Type::Bool,
        Type::Char => Type::Char,
        Type::String => Type::String,
    }
}

/// Applies a substitution to each type.
fn substitute_types(v: &Vec<Type>, subst: &Vec<(TypeVarId, Type)>) -> (r: Vec<Type>)
    ensures
        types_view(r@) == substitute_all(types_view(v@), subst_view(subst@)),
    decreases v,
{
    let ghost sv = subst_view(subst@);
    proof {
        lemma_types_view_index(v@);
        lemma_substitute_all_index(types_view(v@), sv);
    }
    let mut r: Vec<Type> = Vec::new();
    let mut i: usize = 0;
    while i < v.len()
        invariant
            i <= v.len(),
            sv == subst_view(subst@),
            types_view(v@).len() == v.len(),
            forall|j: int| 0 <= j < v.len() ==> #[trigger] types_view(v@)[j] == v@[j].view(),
            substitute_all(types_view(v@), sv).len() == v.len(),
            forall|j: int| 0 <= j < v.len() ==> #[trigger] substitute_all(types_view(v@), sv)[j] == spec_substitute(types_view(v@)[j], sv),
            r@.len() == i,
            forall|j: int| 0 <= j < i ==> #[trigger] r@[j].view() == spec_substitute(v@[j].view(), sv),
        decreases v.len() - i,
    {
        proof {
            vstd::std_specs::vec::axiom_vec_index_decreases(*v, i as int);
        }
        let t = substitute_ref(&v[i], subst);
        r.push(t);
        i = i + 1;
    }
    proof {
        lemma_types_view_index(r@);
        assert(types_view(r@) =~= substitute_all(types_view(v@), sv));
    }
    r
}

/// The state with one more constraint.
pub open spec fn with_constraint(st: InferState, left: TypeView, right: TypeView, addr: usize, reason: ConstraintReason) -> InferState {
    InferState {
        constraints: st.constraints.push(ConstraintView { left, right, addr, reason }),
        ..st
    }
}

/// The operand whose value a pointer target is read through: the cell at
/// `addr` in the given version.
pub open spec fn pointer_cell(arg: SSAArg, addr: usize, deref_version: usize) -> SSAArg {
    SSAArg { scope: arg.scope, arg: SSAArgKind::Mem(addr as i128), version: deref_version }
}

/// The type of an operand, and the state after it: an operand met before
/// keeps its type; a new one gets a fresh variable, numbered one past the
/// count of operands met so far. A new pointer target also makes the type of
/// its pointer cell a pointer to it.
pub open spec fn spec_type_for_arg(st: InferState, arg: SSAArg) -> (InferState, TypeView)
    decreases (if arg.arg is Deref { 1nat } else { 0nat }),
{
    match assoc_get(st.type_vars, arg) {
        Some(t) => (st, t),
        None => {
            let typ = TypeView::TypeVar(TypeVarId((st.type_vars.len() + 1) as usize));
            let st1 = InferState { type_vars: st.type_vars.push((arg, typ)), ..st };
            match arg.arg {
                SSAArgKind::Deref { addr, deref_version } => {
                    let (st2, p) = spec_type_for_arg(st1, pointer_cell(arg, addr, deref_version));
                    (with_constraint(st2, p, TypeView::Pointer(Box::new(typ)), addr, ConstraintReason::Deref), typ)
                },
                _ => (st1, typ),
            }
        },
    }
}

/// Whether `s2` begins with `s1`.
pub open spec fn seq_extends<T>(s1: Seq<T>, s2: Seq<T>) -> bool {
    s1.len() <= s2.len() && forall|i: int| 0 <= i < s1.len() ==> s2[i] == s1[i]
}

/// Whether every constraint of `cs` from position `n` on relates a pointer
/// cell to a pointer.
pub open spec fn only_deref_from(cs: Seq<ConstraintView>, n: int) -> bool {
    forall|i: int| n <= i < cs.len() ==> (#[trigger] cs[i]).reason == ConstraintReason::Deref
}

proof fn lemma_get_extends<K, V>(s1: Seq<(K, V)>, s2: Seq<(K, V)>, k: K)
    requires
        seq_extends(s1, s2),
        assoc_get(s1, k) is Some,
    ensures
        assoc_get(s2, k) == assoc_get(s1, k),
{
    crate::assoc::lemma_key_index(s1, k);
    crate::assoc::lemma_key_index(s2, k);
    let j = key_index(s1, k);
    let j2 = key_index(s2, k);
    if j2 < 0 {
        assert(s2[j].0 == k);
    } else if j2 < j {
        assert(s2[j2] == s1[j2]);
    } else if j2 > j {
        assert(s2[j].0 == k);
    }
}

/// Taking the type of an operand only adds type variables and pointer
/// constraints, and leaves the operand with the type it returns.
proof fn lemma_type_for_arg_facts(st: InferState, arg: SSAArg)
    ensures
        seq_extends(st.type_vars, spec_type_for_arg(st, arg).0.type_vars),
        seq_extends(st.constraints, spec_type_for_arg(st, arg).0.constraints),
        only_deref_from(spec_type_for_arg(st, arg).0.constraints, st.constraints.len() as int),
        assoc_get(spec_type_for_arg(st, arg).0.type_vars, arg) == Some(spec_type_for_arg(st, arg).1),
    decreases (if arg.arg is Deref { 1nat } else { 0nat }),
{
    if assoc_get(st.type_vars, arg) is None {
        let typ = TypeView::TypeVar(TypeVarId((st.type_vars.len() + 1) as usize));
        let st1 = InferState { type_vars: st.type_vars.push((arg, typ)), ..st };
        assert(st1.type_vars.drop_last() =~= st.type_vars);
        crate::assoc::lemma_key_index(st.type_vars, arg);
        assert(assoc_get(st1.type_vars, arg) == Some(typ));
        match arg.arg {
            SSAArgKind::Deref { addr, deref_version } => {
                let cell = pointer_cell(arg, addr, deref_version);
                lemma_type_for_arg_facts(st1, cell);
                let st2 = spec_type_for_arg(st1, cell).0;
                lemma_get_extends(st1.type_vars, st2.type_vars, arg);
            },
            _ => {},
        }
    }
}

/// The constraints of an arithmetic operation or an order comparison:
/// after any that give pointer targets their pointers, the type of the
/// written operand is constrained to `Int` for a sum or product and to
/// `Bool` for a comparison, then the types of the first and the second
/// operand read are each constrained to `Int`. Nothing else is added.
pub proof fn lemma_binary_op_constraints(st: InferState, addr: usize, op: InstrView<SSAArg>)
    requires
        op is Add || op is Mul || op is LessThan,
    ensures
        ({
            let st2 = spec_op_constraints(st, addr, op);
            let cs = st2.constraints;
            let n = cs.len() as int;
            let w = crate::low_ir::spec_written(op)->0;
            let a = crate::low_ir::spec_read_operands(op)[0];
            let b = crate::low_ir::spec_read_operands(op)[1];
            &&& n >= st.constraints.len() + 3
            &&& seq_extends(st.constraints, cs)
            &&& forall|i: int| st.constraints.len() <= i < n - 3 ==> (#[trigger] cs[i]).reason == ConstraintReason::Deref
            &&& assoc_get(st2.type_vars, w) is Some && assoc_get(st2.type_vars, a) is Some && assoc_get(st2.type_vars, b) is Some
            &&& cs[n - 3].left == assoc_get(st2.type_vars, w)->0 && cs[n - 3].addr == addr
            &&& cs[n - 3].right == (if op is LessThan { TypeView::Bool } else { TypeView::Int })
            &&& cs[n - 2].left == assoc_get(st2.type_vars, a)->0 && cs[n - 2].right == TypeView::Int && cs[n - 2].addr == addr
            &&& cs[n - 1].left == assoc_get(st2.type_vars, b)->0 && cs[n - 1].right == TypeView::Int && cs[n - 1].addr == addr
        }),
{
    let w = crate::low_ir::spec_written(op)->0;
    let a = crate::low_ir::spec_read_operands(op)[0];
    let b = crate::low_ir::spec_read_operands(op)[1];
    let (s1, d) = spec_type_for_arg(st, w);
    let (s2, t1) = spec_type_for_arg(s1, a);
    let (s3, t2) = spec_type_for_arg(s2, b);
    lemma_type_for_arg_facts(st, w);
    lemma_type_for_arg_facts(s1, a);
    lemma_type_for_arg_facts(s2, b);
    lemma_get_extends(s1.type_vars, s2.type_vars, w);
    lemma_get_extends(s2.type_vars, s3.type_vars, w);
    lemma_get_extends(s2.type_vars, s3.type_vars, a);
    let st2 = spec_op_constraints(st, addr, op);
    assert(st2.type_vars == s3.type_vars);
    let n0 = st.constraints.len() as int;
    assert(seq_extends(st.constraints, s3.constraints));
    assert forall|i: int| n0 <= i < s3.constraints.len() implies (#[trigger] s3.constraints[i]).reason == ConstraintReason::Deref by {
        if i < s1.constraints.len() {
            assert(s3.constraints[i] == s1.constraints[i]);
        } else if i < s2.constraints.len() {
            assert(s3.constraints[i] == s2.constraints[i]);
        }
    }
    assert(st2.constraints.len() == s3.constraints.len() + 3);
    assert forall|i: int| 0 <= i < s3.constraints.len() implies st2.constraints[i] == s3.constraints[i] by {}
}

/// The constraints of the other operations, each added after any that give
/// pointer targets their pointers: an output's or an input's operand is a
/// character, a jump condition a boolean, an equality's result a boolean
/// with its two operands of one type, and a move's destination (its first
/// operand) of its source's type.
pub proof fn lemma_other_op_constraints(st: InferState, addr: usize, op: InstrView<SSAArg>)
    requires
        op is Output || op is Input || op is JumpIf || op is Equals || op is Assign,
    ensures
        ({
            let st2 = spec_op_constraints(st, addr, op);
            let cs = st2.constraints;
            let n = cs.len() as int;
            let ty = |x: SSAArg| assoc_get(st2.type_vars, x)->0;
            &&& seq_extends(st.constraints, cs)
            &&& cs.len() > st.constraints.len()
            &&& cs[n - 1].addr == addr
            &&& match op {
                InstrView::Output(x) => cs[n - 1].left == ty(x) && cs[n - 1].right == TypeView::Char
                    && only_deref_from(cs.take(n - 1), st.constraints.len() as int),
                InstrView::Input(x) => cs[n - 1].left == ty(x) && cs[n - 1].right == TypeView::Char
                    && only_deref_from(cs.take(n - 1), st.constraints.len() as int),
                InstrView::JumpIf(x, _, _) => cs[n - 1].left == ty(x) && cs[n - 1].right == TypeView::Bool
                    && only_deref_from(cs.take(n - 1), st.constraints.len() as int),
                InstrView::Assign(d, x) => cs[n - 1].left == ty(d) && cs[n - 1].right == ty(x)
                    && only_deref_from(cs.take(n - 1), st.constraints.len() as int),
                InstrView::Equals(a, b, d) => n >= st.constraints.len() + 2 && cs[n - 2].left == ty(d) && cs[n - 2].right
                    == TypeView::Bool && cs[n - 2].addr == addr && cs[n - 1].left == ty(a) && cs[n - 1].right == ty(b)
                    && only_deref_from(cs.take(n - 2), st.constraints.len() as int),
                _ => false,
            }
        }),
{
    let st2 = spec_op_constraints(st, addr, op);
    match op {
        InstrView::Output(x) => {
            lemma_type_for_arg_facts(st, x);
            let s1 = spec_type_for_arg(st, x).0;
            assert(st2.constraints.take(st2.constraints.len() - 1) =~= s1.constraints);
            assert(st2.type_vars == s1.type_vars);
        },
        InstrView::Input(x) => {
            lemma_type_for_arg_facts(st, x);
            let s1 = spec_type_for_arg(st, x).0;
            assert(st2.constraints.take(st2.constraints.len() - 1) =~= s1.constraints);
            assert(st2.type_vars == s1.type_vars);
        },
        InstrView::JumpIf(x, _, _) => {
            lemma_type_for_arg_facts(st, x);
            let s1 = spec_type_for_arg(st, x).0;
            assert(st2.constraints.take(st2.constraints.len() - 1) =~= s1.constraints);
            assert(st2.type_vars == s1.type_vars);
        },
        InstrView::Assign(d, x) => {
            lemma_type_for_arg_facts(st, x);
            let s1 = spec_type_for_arg(st, x).0;
            lemma_type_for_arg_facts(s1, d);
            let s2 = spec_type_for_arg(s1, d).0;
            lemma_get_extends(s1.type_vars, s2.type_vars, x);
            assert forall|i: int| st.constraints.len() <= i < s2.constraints.len() implies (#[trigger] s2.constraints[i]).reason
                == ConstraintReason::Deref by {
                if i < s1.constraints.len() {
                    assert(s2.constraints[i] == s1.constraints[i]);
                }
            }
            assert(st2.constraints.take(st2.constraints.len() - 1) =~= s2.constraints);
        },
        InstrView::Equals(a, b, d) => {
            lemma_type_for_arg_facts(st, d);
            let s1 = spec_type_for_arg(st, d).0;
            lemma_type_for_arg_facts(s1, a);
            let s2 = spec_type_for_arg(s1, a).0;
            lemma_type_for_arg_facts(s2, b);
            let s3 = spec_type_for_arg(s2, b).0;
            lemma_get_extends(s1.type_vars, s2.type_vars, d);
            lemma_get_extends(s2.type_vars, s3.type_vars, d);
            lemma_get_extends(s2.type_vars, s3.type_vars, a);
            assert forall|i: int| st.constraints.len() <= i < s3.constraints.len() implies (#[trigger] s3.constraints[i]).reason
                == ConstraintReason::Deref by {
                if i < s1.constraints.len() {
                    assert(s3.constraints[i] == s1.constraints[i]);
                } else if i < s2.constraints.len() {
                    assert(s3.constraints[i] == s2.constraints[i]);
                }
            }
            assert(st2.constraints.take(st2.constraints.len() - 2) =~= s3.constraints);
        },
        _ => {},
    }
}

pub proof fn lemma_type_for_arg_grows(st: InferState, arg: SSAArg)
    ensures
        st.type_vars.len() <= spec_type_for_arg(st, arg).0.type_vars.len() <= st.type_vars.len() + 2,
    decreases (if arg.arg is Deref { 1nat } else { 0nat }),
{
    if assoc_get(st.type_vars, arg) is None {
        let typ = TypeView::TypeVar(TypeVarId((st.type_vars.len() + 1) as usize));
        let st1 = InferState { type_vars: st.type_vars.push((arg, typ)), ..st };
        if let SSAArgKind::Deref { addr, deref_version } = arg.arg {
            lemma_type_for_arg_grows(st1, pointer_cell(arg, addr, deref_version));
        }
    }
}

impl TypeInference {
    fn fresh_type_var(&self) -> (r: Type)
        requires
            self.type_vars@.len() < usize::MAX,
        ensures
            r.view() == TypeView::TypeVar(TypeVarId((self.type_vars@.len() + 1) as usize)),
    {
        Type::TypeVar(TypeVarId(self.type_vars.len() + 1))
    }

    fn add_constraint(&mut self, left: Type, right: Type, addr: usize, reason: ConstraintReason)
        ensures
            final(self).state() == with_constraint(old(self).state(), left.view(), right.view(), addr, reason),
            final(self).type_vars@ == old(self).type_vars@,
            final(self).debug_markers@ == old(self).debug_markers@,
    {
        let ghost cs = self.constraints@;
        self.constraints.push(Constraint { left, right, addr, reason });
        assert(constraints_view(self.constraints@) =~= constraints_view(cs).push(
            ConstraintView { left: left.view(), right: right.view(), addr, reason },
        ));
    }

    /// The type of an operand; see [`spec_type_for_arg`].
    pub fn type_for_arg(&mut self, arg: SSAArg) -> (r: Type)
        requires
            keys_distinct(old(self).type_vars@),
            old(self).type_vars@.len() + (if arg.arg is Deref { 2int } else { 1int }) <= usize::MAX,
        ensures
            keys_distinct(final(self).type_vars@),
            (final(self).state(), r.view()) == spec_type_for_arg(old(self).state(), arg),
            final(self).debug_markers@ == old(self).debug_markers@,
        decreases (if arg.arg is Deref { 1nat } else { 0nat }),
    {
        let ghost st = self.state();
        proof {
            crate::assoc::lemma_get_keys(self.type_vars@, st.type_vars, arg);
        }
        match crate::assoc::find_key(&self.type_vars, &arg) {
            Some(i) => {
                return self.type_vars[i].1.duplicate();
            },
            None => {},
        }
        proof {
            crate::assoc::lemma_key_index(self.type_vars@, arg);
        }
        let typ = self.fresh_type_var();
        let ghost tv = self.type_vars@;
        self.type_vars.push((arg, typ.duplicate()));
        proof {
            assert(map_entries(self.type_vars@, |t: Type| t.view()) =~= st.type_vars.push((arg, typ.view())));
        }
        match arg.arg {
            SSAArgKind::Deref { addr, deref_version } => {
                let inner_var = SSAArg { scope: arg.scope, arg: SSAArgKind::Mem(addr as i128), version: deref_version };
                let pointer = self.type_for_arg(inner_var);
                self.add_constraint(pointer, Type::Pointer(Box::new(typ.duplicate())), addr, ConstraintReason::Deref);
            },
            _ => {},
        }
        typ
    }
}

/// Constraints of an operation with two sources and a destination: the
/// types of the destination and of both sources are taken in that order,
/// then the destination is constrained to `dst_ty` and each source to
/// `src_ty`.
pub open spec fn binary_constraints(
    st: InferState,
    addr: usize,
    a: SSAArg,
    b: SSAArg,
    dst: SSAArg,
    dst_ty: TypeView,
    src_ty: TypeView,
    dst_reason: ConstraintReason,
    src_reason: ConstraintReason,
) -> InferState {
    let (s1, d) = spec_type_for_arg(st, dst);
    let (s2, t1) = spec_type_for_arg(s1, a);
    let (s3, t2) = spec_type_for_arg(s2, b);
    with_constraint(
        with_constraint(with_constraint(s3, d, dst_ty, addr, dst_reason), t1, src_ty, addr, src_reason),
        t2,
        src_ty,
        addr,
        src_reason,
    )
}

/// Constraints of a phi function: each source other than the destination
/// itself gets the destination's type, in order.
pub open spec fn phi_constraints(st: InferState, addr: usize, dst: SSAArg, dt: TypeView, srcs: Seq<SSAArg>) -> InferState
    decreases srcs.len(),
{
    if srcs.len() == 0 {
        st
    } else {
        let s1 = phi_constraints(st, addr, dst, dt, srcs.drop_last());
        let i = srcs.last();
        if i == dst {
            s1
        } else {
            let (s2, t) = spec_type_for_arg(s1, i);
            with_constraint(s2, dt, t, addr, ConstraintReason::Assignment)
        }
    }
}

/// The state after the constraints of one operation at `addr`.
pub open spec fn spec_op_constraints(st: InferState, addr: usize, op: InstrView<SSAArg>) -> InferState {
    match op {
        InstrView::Assign(src, dst) => {
            let (s1, d) = spec_type_for_arg(st, dst);
            let (s2, t) = spec_type_for_arg(s1, src);
            with_constraint(s2, t, d, addr, ConstraintReason::Assignment)
        },
        InstrView::Add(a, b, dst) => binary_constraints(
            st, addr, a, b, dst, TypeView::Int, TypeView::Int, ConstraintReason::AddImpliesInt, ConstraintReason::AddImpliesInt),
        InstrView::Mul(a, b, dst) => binary_constraints(
            st, addr, a, b, dst, TypeView::Int, TypeView::Int, ConstraintReason::MulImpliesInt, ConstraintReason::MulImpliesInt),
        InstrView::LessThan(a, b, dst) => binary_constraints(
            st, addr, a, b, dst, TypeView::Bool, TypeView::Int, ConstraintReason::CompareDstImpliesBool,
            ConstraintReason::CompareSrcImpliesInt),
        InstrView::Equals(a, b, dst) => {
            let (s1, d) = spec_type_for_arg(st, dst);
            let (s2, t1) = spec_type_for_arg(s1, a);
            let (s3, t2) = spec_type_for_arg(s2, b);
            with_constraint(
                with_constraint(s3, d, TypeView::Bool, addr, ConstraintReason::CompareDstImpliesBool),
                t1,
                t2,
                addr,
                ConstraintReason::CompareSrcSameType,
            )
        },
        InstrView::Output(src) => {
            let (s1, t) = spec_type_for_arg(st, src);
            with_constraint(s1, t, TypeView::Char, addr, ConstraintReason::OutputImpliesChar)
        },
        InstrView::Input(dst) => {
            let (s1, t) = spec_type_for_arg(st, dst);
            with_constraint(s1, t, TypeView::Char, addr, ConstraintReason::InputImpliesChar)
        },
        InstrView::JumpIf(src, _, _) => {
            let (s1, t) = spec_type_for_arg(st, src);
            with_constraint(s1, t, TypeView::Bool, addr, ConstraintReason::JumpConditionImpliesBool)
        },
        InstrView::Phi(dst, srcs) => {
            let (s1, d) = spec_type_for_arg(st, dst);
            phi_constraints(s1, addr, dst, d, srcs)
        },
        _ => st,
    }
}

/// The number of operands that an operation constrains.
pub open spec fn operand_count(op: InstrView<SSAArg>) -> nat {
    match op {
        InstrView::Assign(..) => 2,
        InstrView::Add(..) | InstrView::Mul(..) | InstrView::LessThan(..) | InstrView::Equals(..) => 3,
        InstrView::Output(..) | InstrView::Input(..) | InstrView::JumpIf(..) => 1,
        InstrView::Phi(_, srcs) => 1 + srcs.len(),
        _ => 0,
    }
}

pub proof fn lemma_phi_grows(st: InferState, addr: usize, dst: SSAArg, dt: TypeView, srcs: Seq<SSAArg>)
    ensures
        st.type_vars.len() <= phi_constraints(st, addr, dst, dt, srcs).type_vars.len() <= st.type_vars.len() + 2 * srcs.len(),
    decreases srcs.len(),
{
    if srcs.len() > 0 {
        lemma_phi_grows(st, addr, dst, dt, srcs.drop_last());
        lemma_type_for_arg_grows(phi_constraints(st, addr, dst, dt, srcs.drop_last()), srcs.last());
    }
}

impl TypeInference {
    /// Constraints of an operation with two sources and a destination.
    fn binary_op(
        &mut self,
        addr: usize,
        a: SSAArg,
        b: SSAArg,
        dst: SSAArg,
        dst_ty: Type,
        src_ty1: Type,
        src_ty2: Type,
        dst_reason: ConstraintReason,
        src_reason: ConstraintReason,
    )
        requires
            keys_distinct(old(self).type_vars@),
            old(self).type_vars@.len() + 6 <= usize::MAX,
            src_ty1.view() == src_ty2.view(),
        ensures
            keys_distinct(final(self).type_vars@),
            final(self).state() == binary_constraints(
                old(self).state(), addr, a, b, dst, dst_ty.view(), src_ty1.view(), dst_reason, src_reason),
            final(self).debug_markers@ == old(self).debug_markers@,
    {
        let ghost st = self.state();
        let dst_type = self.type_for_arg(dst);
        proof {
            lemma_type_for_arg_grows(st, dst);
        }
        let ghost s1 = self.state();
        let src1_type = self.type_for_arg(a);
        proof {
            lemma_type_for_arg_grows(s1, a);
        }
        let src2_type = self.type_for_arg(b);
        self.add_constraint(dst_type, dst_ty, addr, dst_reason);
        self.add_constraint(src1_type, src_ty1, addr, src_reason);
        self.add_constraint(src2_type, src_ty2, addr, src_reason);
    }

    /// Adds the constraints of one operation at `addr`; see
    /// [`spec_op_constraints`].
    pub fn generate_constraint_for_op(&mut self, addr: usize, op: &GenericInstruction<SSAArg>)
        requires
            keys_distinct(old(self).type_vars@),
            old(self).type_vars@.len() + 2 * operand_count(op.view()) <= usize::MAX,
        ensures
            keys_distinct(final(self).type_vars@),
            final(self).state() == spec_op_constraints(old(self).state(), addr, op.view()),
            final(self).debug_markers@ == old(self).debug_markers@,
    {
        let ghost st = self.state();
        match op {
            GenericInstruction::Assign(src, dst) => {
                let dst_type = self.type_for_arg(*dst);
                proof {
                    lemma_type_for_arg_grows(st, *dst);
                }
                let src_type = self.type_for_arg(*src);
                self.add_constraint(src_type, dst_type, addr, ConstraintReason::Assignment);
            },
            GenericInstruction::Add(src1, src2, dst) => {
                self.binary_op(addr, *src1, *src2, *dst, Type::Int, Type::Int, Type::Int,
                    ConstraintReason::AddImpliesInt, ConstraintReason::AddImpliesInt);
            },
            GenericInstruction::Mul(src1, src2, dst) => {
                self.binary_op(addr, *src1, *src2, *dst, Type::Int, Type::Int, Type::Int,
                    ConstraintReason::MulImpliesInt, ConstraintReason::MulImpliesInt);
            },
            GenericInstruction::LessThan(src1, src2, dst) => {
                self.binary_op(addr, *src1, *src2, *dst, Type::Bool, Type::Int, Type::Int,
                    ConstraintReason::CompareDstImpliesBool, ConstraintReason::CompareSrcImpliesInt);
            },
            GenericInstruction::Equals(src1, src2, dst) => {
                let dst_type = self.type_for_arg(*dst);
                proof {
                    lemma_type_for_arg_grows(st, *dst);
                }
                let ghost s1 = self.state();
                let src1_type = self.type_for_arg(*src1);
                proof {
                    lemma_type_for_arg_grows(s1, *src1);
                }
                let src2_type = self.type_for_arg(*src2);
                self.add_constraint(dst_type, Type::Bool, addr, ConstraintReason::CompareDstImpliesBool);
                self.add_constraint(src1_type, src2_type, addr, ConstraintReason::CompareSrcSameType);
            },
            GenericInstruction::Output(src) => {
                let src_type = self.type_for_arg(*src);
                self.add_constraint(src_type, Type::Char, addr, ConstraintReason::OutputImpliesChar);
            },
            GenericInstruction::Input(dst) => {
                let dst_type = self.type_for_arg(*dst);
                self.add_constraint(dst_type, Type::Char, addr, ConstraintReason::InputImpliesChar);
            },
            GenericInstruction::JumpIf(src, _, _) => {
                let src_type = self.type_for_arg(*src);
                self.add_constraint(src_type, Type::Bool, addr, ConstraintReason::JumpConditionImpliesBool);
            },
            GenericInstruction::Phi(dst, srcs) => {
                let dst_type = self.type_for_arg(*dst);
                proof {
                    lemma_type_for_arg_grows(st, *dst);
                }
                let ghost s1 = self.state();
                let ghost d = dst_type.view();
                let mut k: usize = 0;
                assert(srcs@.take(0) =~= seq![]);
                while k < srcs.len()
                    invariant
                        k <= srcs@.len(),
                        d == dst_type.view(),
                        keys_distinct(self.type_vars@),
                        self.state() == phi_constraints(s1, addr, *dst, d, srcs@.take(k as int)),
                        s1.type_vars.len() + 2 * srcs@.len() <= usize::MAX,
                        self.debug_markers@ == old(self).debug_markers@,
                    decreases srcs.len() - k,
                {
                    let i = srcs[k];
                    proof {
                        lemma_phi_grows(s1, addr, *dst, d, srcs@.take(k as int));
                        assert(srcs@.take(k + 1).drop_last() =~= srcs@.take(k as int));
                    }
                    if *dst == i {
                        k = k + 1;
                        continue;
                    }
                    let s = self.type_for_arg(i);
                    self.add_constraint(dst_type.duplicate(), s, addr, ConstraintReason::Assignment);
                    k = k + 1;
                }
                assert(srcs@.take(k as int) =~= srcs@);
            },
            _ => {},
        }
    }
}

/// The state after the constraints of each operation, in order.
pub open spec fn ops_constraints(st: InferState, ops: Seq<(usize, InstrView<SSAArg>)>) -> InferState
    decreases ops.len(),
{
    if ops.len() == 0 {
        st
    } else {
        spec_op_constraints(ops_constraints(st, ops.drop_last()), ops.last().0, ops.last().1)
    }
}

/// The number of operands that the operations constrain.
pub open spec fn ops_operand_count(ops: Seq<(usize, InstrView<SSAArg>)>) -> nat
    decreases ops.len(),
{
    if ops.len() == 0 {
        0
    } else {
        ops_operand_count(ops.drop_last()) + operand_count(ops.last().1)
    }
}

/// The frame slot of the callee that an argument written at `arg` lands in.
pub open spec fn parameter_of(fun: InfoView, arg: SSAArg) -> SSAArg {
    SSAArg {
        scope: fun.function_id,
        arg: SSAArgKind::RelativeMem((arg.arg->RelativeMem_0 - fun.stack_size) as i128),
        version: 0,
    }
}

/// Constraints that give each argument of a call the type of the callee's
/// parameter slot that it lands in, in order.
pub open spec fn binding_constraints(st: InferState, end: usize, fun: InfoView, args: Seq<SSAArg>) -> InferState
    decreases args.len(),
{
    if args.len() == 0 {
        st
    } else {
        let s1 = binding_constraints(st, end, fun, args.drop_last());
        let (s2, left) = spec_type_for_arg(s1, args.last());
        let (s3, right) = spec_type_for_arg(s2, parameter_of(fun, args.last()));
        with_constraint(s3, left, right, end, ConstraintReason::FunctionParameterBinding)
    }
}

/// The callee that a call names by a literal address and that the call
/// analysis knows.
pub open spec fn known_callee(infos: Seq<(FunctionId, InfoView)>, call: FunctionCall<SSAArg>) -> Option<InfoView> {
    match call.function_addr.arg {
        SSAArgKind::Value(a) => assoc_get(infos, FunctionId(a as usize)),
        _ => None,
    }
}

/// Constraints of a call that ends a block at `end`: the called address is
/// a function pointer, and the arguments of a known callee are bound to its
/// parameter slots.
pub open spec fn call_constraints(
    st: InferState,
    infos: Seq<(FunctionId, InfoView)>,
    call: FunctionCall<SSAArg>,
    end: usize,
    arguments: Option<Seq<SSAArg>>,
) -> InferState {
    let (s1, f) = spec_type_for_arg(st, call.function_addr);
    let s2 = with_constraint(s1, f, TypeView::FunctionPointer(seq![], seq![]), end, ConstraintReason::Assignment);
    match known_callee(infos, call) {
        Some(fun) => binding_constraints(s2, end, fun, arguments->Some_0),
        None => s2,
    }
}

/// Whether the arguments of a call can be bound: a known callee comes with
/// its arguments, each a frame slot whose offset in the callee's frame is an
/// `i128`.
pub open spec fn call_arguments_fit(
    infos: Seq<(FunctionId, InfoView)>,
    call: FunctionCall<SSAArg>,
    arguments: Option<Seq<SSAArg>>,
) -> bool {
    match known_callee(infos, call) {
        Some(fun) => arguments is Some && forall|i: int|
            0 <= i < arguments->Some_0.len() ==> {
                let a = #[trigger] arguments->Some_0[i];
                a.arg is RelativeMem && a.arg->RelativeMem_0 - fun.stack_size >= i128::MIN
            },
        None => true,
    }
}

/// The state after the constraints of a block: its operations, then the
/// call that ends it, if any.
pub open spec fn spec_block_constraints(
    st: InferState,
    infos: Seq<(FunctionId, InfoView)>,
    block: BlockView<SSAArg>,
    arguments: Option<Seq<SSAArg>>,
) -> InferState {
    let s = ops_constraints(st, block.ops);
    match block.next {
        NextKind::FunctionCall(call) => call_constraints(s, infos, call, block.span.end, arguments),
        _ => s,
    }
}

/// An upper bound on the operands that a block's constraints meet.
pub open spec fn block_operand_count(block: BlockView<SSAArg>, arguments: Option<Seq<SSAArg>>) -> nat {
    ops_operand_count(block.ops) + 1 + match arguments {
        Some(a) => 2 * a.len(),
        None => 0,
    }
}

pub proof fn lemma_ops_grow(st: InferState, ops: Seq<(usize, InstrView<SSAArg>)>, op: (usize, InstrView<SSAArg>))
    ensures
        spec_op_constraints(st, op.0, op.1).type_vars.len() <= st.type_vars.len() + 2 * operand_count(op.1),
{
    let a = op.0;
    match op.1 {
        InstrView::Assign(src, dst) => {
            lemma_type_for_arg_grows(st, dst);
            lemma_type_for_arg_grows(spec_type_for_arg(st, dst).0, src);
        },
        InstrView::Add(x, y, dst) | InstrView::Mul(x, y, dst) | InstrView::LessThan(x, y, dst) | InstrView::Equals(x, y, dst) => {
            lemma_type_for_arg_grows(st, dst);
            let s1 = spec_type_for_arg(st, dst).0;
            lemma_type_for_arg_grows(s1, x);
            lemma_type_for_arg_grows(spec_type_for_arg(s1, x).0, y);
        },
        InstrView::Output(x) | InstrView::Input(x) => {
            lemma_type_for_arg_grows(st, x);
        },
        InstrView::JumpIf(x, _, _) => {
            lemma_type_for_arg_grows(st, x);
        },
        InstrView::Phi(dst, srcs) => {
            lemma_type_for_arg_grows(st, dst);
            let (s1, d) = spec_type_for_arg(st, dst);
            lemma_phi_grows(s1, a, dst, d, srcs);
        },
        _ => {},
    }
}

pub proof fn lemma_ops_constraints_grow(st: InferState, ops: Seq<(usize, InstrView<SSAArg>)>)
    ensures
        ops_constraints(st, ops).type_vars.len() <= st.type_vars.len() + 2 * ops_operand_count(ops),
    decreases ops.len(),
{
    if ops.len() > 0 {
        lemma_ops_constraints_grow(st, ops.drop_last());
        lemma_ops_grow(ops_constraints(st, ops.drop_last()), ops, ops.last());
    }
}

pub proof fn lemma_binding_grows(st: InferState, end: usize, fun: InfoView, args: Seq<SSAArg>)
    ensures
        binding_constraints(st, end, fun, args).type_vars.len() <= st.type_vars.len() + 4 * args.len(),
    decreases args.len(),
{
    if args.len() > 0 {
        lemma_binding_grows(st, end, fun, args.drop_last());
        let s1 = binding_constraints(st, end, fun, args.drop_last());
        lemma_type_for_arg_grows(s1, args.last());
        lemma_type_for_arg_grows(spec_type_for_arg(s1, args.last()).0, parameter_of(fun, args.last()));
    }
}

impl TypeInference {
    /// Adds the constraints of a block; see [`spec_block_constraints`]. The
    /// arguments are those that the conversion to SSA form found for the
    /// call that ends the block, if it ends with one.
    pub fn generate_constraint_for_block(
        &mut self,
        program: &ProgramAnalysis,
        block: &Block<SSAArg>,
        arguments: &Option<Vec<SSAArg>>,
    )
        requires
            keys_distinct(old(self).type_vars@),
            old(self).type_vars@.len() + 2 * ops_operand_count(block.view().ops) + 2 + match arguments {
                Some(a) => 4 * a@.len(),
                None => 0,
            } <= usize::MAX,
            match block.next {
                NextKind::FunctionCall(call) => call_arguments_fit(
                    infos_view(program.function_infos@),
                    call,
                    match arguments {
                        Some(a) => Some(a@),
                        None => None,
                    },
                ),
                _ => true,
            },
        ensures
            keys_distinct(final(self).type_vars@),
            final(self).state() == spec_block_constraints(
                old(self).state(),
                infos_view(program.function_infos@),
                block.view(),
                match arguments {
                    Some(a) => Some(a@),
                    None => None,
                },
            ),
            final(self).debug_markers@ == old(self).debug_markers@,
    {
        let ghost st = self.state();
        let ghost ops = block.view().ops;
        let mut i: usize = 0;
        assert(ops.take(0) =~= seq![]);
        while i < block.ops.len()
            invariant
                i <= block.ops@.len(),
                ops == block.view().ops,
                ops.len() == block.ops@.len(),
                keys_distinct(self.type_vars@),
                self.state() == ops_constraints(st, ops.take(i as int)),
                st.type_vars.len() + 2 * ops_operand_count(ops) + 2 <= usize::MAX,
                self.debug_markers@ == old(self).debug_markers@,
            decreases block.ops.len() - i,
        {
            proof {
                assert(ops.take(i + 1).drop_last() =~= ops.take(i as int));
                lemma_ops_constraints_grow(st, ops.take(i + 1));
                lemma_ops_operand_count_prefix(ops, i + 1);
                lemma_ops_constraints_grow(st, ops.take(i as int));
                lemma_ops_operand_count_prefix(ops, i as int);
                assert(ops.take(i + 1).last() == ops[i as int]);
            }
            let (addr, op) = (&block.ops[i].0, &block.ops[i].1);
            self.generate_constraint_for_op(*addr, op);
            i = i + 1;
        }
        assert(ops.take(i as int) =~= ops);
        proof {
            lemma_ops_constraints_grow(st, ops);
        }
        match &block.next {
            NextKind::FunctionCall(call) => {
                let ghost s0 = self.state();
                let fcall = self.type_for_arg(call.function_addr);
                let no_args: Vec<Type> = Vec::new();
                let no_returns: Vec<Type> = Vec::new();
                assert(types_view(no_args@) =~= seq![]);
                assert(types_view(no_returns@) =~= seq![]);
                self.add_constraint(
                    fcall,
                    Type::FunctionPointer { args: no_args, returns: no_returns },
                    block.span.end,
                    ConstraintReason::Assignment,
                );
                proof {
                    lemma_type_for_arg_grows(s0, call.function_addr);
                }
                match call.function_addr.value() {
                    Some(addr) => {
                        let id = FunctionId(#[verifier::truncate] (addr as usize));
                        proof {
                            crate::assoc::lemma_get_keys(program.function_infos@, infos_view(program.function_infos@), id);
                        }
                        match get_value(&program.function_infos, &id) {
                            Some(fun) => {
                                let args = match arguments {
                                    Some(a) => a,
                                    None => {
                                        assert(false);
                                        return;
                                    },
                                };
                                self.bind_arguments(block.span.end, fun, args);
                            },
                            None => {},
                        }
                    },
                    None => {},
                }
            },
            _ => {},
        }
    }

    /// Binds each argument of a call to the callee's parameter slot.
    fn bind_arguments(&mut self, end: usize, fun: &FunctionInfo, args: &Vec<SSAArg>)
        requires
            keys_distinct(old(self).type_vars@),
            old(self).type_vars@.len() + 4 * args@.len() <= usize::MAX,
            forall|i: int|
                0 <= i < args@.len() ==> {
                    let a = #[trigger] args@[i];
                    a.arg is RelativeMem && a.arg->RelativeMem_0 - fun.stack_size >= i128::MIN
                },
        ensures
            keys_distinct(final(self).type_vars@),
            final(self).state() == binding_constraints(old(self).state(), end, fun.view(), args@),
            final(self).debug_markers@ == old(self).debug_markers@,
    {
        let ghost st = self.state();
        let mut k: usize = 0;
        assert(args@.take(0) =~= seq![]);
        while k < args.len()
            invariant
                k <= args@.len(),
                keys_distinct(self.type_vars@),
                self.state() == binding_constraints(st, end, fun.view(), args@.take(k as int)),
                st.type_vars.len() + 4 * args@.len() <= usize::MAX,
                forall|i: int|
                    0 <= i < args@.len() ==> {
                        let a = #[trigger] args@[i];
                        a.arg is RelativeMem && a.arg->RelativeMem_0 - fun.stack_size >= i128::MIN
                    },
                self.debug_markers@ == old(self).debug_markers@,
            decreases args.len() - k,
        {
            let arg = args[k];
            proof {
                assert(args@.take(k + 1).drop_last() =~= args@.take(k as int));
                lemma_binding_grows(st, end, fun.view(), args@.take(k as int));
            }
            let ghost s1 = self.state();
            let rvalue = match arg.relative_mem() {
                Some(r) => r,
                None => {
                    assert(false);
                    0
                },
            };
            let left = self.type_for_arg(arg);
            proof {
                lemma_type_for_arg_grows(s1, arg);
            }
            let rarg = SSAArgKind::RelativeMem(rvalue - (fun.stack_size as i128));
            let right = self.type_for_arg(SSAArg { scope: fun.function_id, arg: rarg, version: 0 });
            self.add_constraint(left, right, end, ConstraintReason::FunctionParameterBinding);
            k = k + 1;
        }
        assert(args@.take(k as int) =~= args@);
    }
}

pub proof fn lemma_ops_operand_count_prefix(ops: Seq<(usize, InstrView<SSAArg>)>, n: int)
    requires
        0 <= n <= ops.len(),
    ensures
        ops_operand_count(ops.take(n)) <= ops_operand_count(ops),
    decreases ops.len(),
{
    if n < ops.len() {
        assert(ops.drop_last().take(n) =~= ops.take(n));
        lemma_ops_operand_count_prefix(ops.drop_last(), n);
    } else {
        assert(ops.take(n) =~= ops);
    }
}

/// Asking again for the type of an operand gives the type it was given the
/// first time, and changes nothing.
pub proof fn lemma_type_for_arg_stable(st: InferState, arg: SSAArg)
    ensures
        ({
            let (st1, t) = spec_type_for_arg(st, arg);
            spec_type_for_arg(st1, arg) == (st1, t)
        }),
{
    let (st1, t) = spec_type_for_arg(st, arg);
    if assoc_get(st.type_vars, arg) is None {
        let typ = TypeView::TypeVar(TypeVarId((st.type_vars.len() + 1) as usize));
        let tv1 = st.type_vars.push((arg, typ));
        lemma_get_insert(st.type_vars, arg, typ, arg);
        assert(assoc_insert(st.type_vars, arg, typ) == tv1) by {
            crate::assoc::lemma_key_index(st.type_vars, arg);
        }
        let st1a = InferState { type_vars: tv1, ..st };
        if let SSAArgKind::Deref { addr, deref_version } = arg.arg {
            let inner = pointer_cell(arg, addr, deref_version);
            lemma_type_for_arg_keeps(st1a, inner, arg);
        }
    }
}

/// Taking the type of one operand leaves the type of any operand that
/// already had one unchanged.
pub proof fn lemma_type_for_arg_keeps(st: InferState, arg: SSAArg, other: SSAArg)
    ensures
        assoc_get(st.type_vars, other) is Some ==> assoc_get(spec_type_for_arg(st, arg).0.type_vars, other)
            == assoc_get(st.type_vars, other),
    decreases (if arg.arg is Deref { 1nat } else { 0nat }),
{
    if assoc_get(st.type_vars, arg) is None {
        let typ = TypeView::TypeVar(TypeVarId((st.type_vars.len() + 1) as usize));
        let tv1 = st.type_vars.push((arg, typ));
        crate::assoc::lemma_key_index(st.type_vars, arg);
        assert(assoc_insert(st.type_vars, arg, typ) == tv1);
        lemma_get_insert(st.type_vars, arg, typ, other);
        let st1a = InferState { type_vars: tv1, ..st };
        if let SSAArgKind::Deref { addr, deref_version } = arg.arg {
            lemma_type_for_arg_keeps(st1a, pointer_cell(arg, addr, deref_version), other);
        }
    }
}

/// Substituting nothing leaves a type as it is.
pub proof fn lemma_substitute_empty(t: TypeView)
    ensures
        spec_substitute(t, seq![]) == t,
    decreases t,
{
    match t {
        TypeView::Pointer(p) => {
            lemma_substitute_empty(*p);
        },
        TypeView::FunctionPointer(a, r) => {
            lemma_substitute_all_empty(a);
            lemma_substitute_all_empty(r);
        },
        TypeView::TypeVar(id) => {
            assert(key_index(Seq::<(TypeVarId, TypeView)>::empty(), id) == -1);
        },
        _ => {},
    }
}

pub proof fn lemma_substitute_all_empty(v: Seq<TypeView>)
    ensures
        substitute_all(v, seq![]) == v,
    decreases v,
{
    if v.len() > 0 {
        lemma_substitute_all_empty(v.drop_last());
        lemma_substitute_empty(v.last());
        assert(v.drop_last().push(v.last()) =~= v);
    }
}

/// Whether the constraints and operand types of `a` start with those of `b`.
pub open spec fn extends(a: InferState, b: InferState) -> bool {
    &&& b.constraints.is_prefix_of(a.constraints)
    &&& b.type_vars.is_prefix_of(a.type_vars)
}

proof fn lemma_extends_trans(a: InferState, b: InferState, c: InferState)
    requires
        extends(a, b),
        extends(b, c),
    ensures
        extends(a, c),
{
    assert(c.constraints.is_prefix_of(a.constraints)) by {
        assert forall|i: int| 0 <= i < c.constraints.len() implies c.constraints[i] == a.constraints[i] by {
            assert(c.constraints[i] == b.constraints[i]);
        }
    }
    assert(c.type_vars.is_prefix_of(a.type_vars)) by {
        assert forall|i: int| 0 <= i < c.type_vars.len() implies c.type_vars[i] == a.type_vars[i] by {
            assert(c.type_vars[i] == b.type_vars[i]);
        }
    }
}

proof fn lemma_extends_refl(a: InferState)
    ensures
        extends(a, a),
{
    assert(a.constraints.is_prefix_of(a.constraints));
    assert(a.type_vars.is_prefix_of(a.type_vars));
}

proof fn lemma_with_constraint_extends(st: InferState, l: TypeView, r: TypeView, addr: usize, reason: ConstraintReason)
    ensures
        extends(with_constraint(st, l, r, addr, reason), st),
{
    let s1 = with_constraint(st, l, r, addr, reason);
    assert(st.constraints.is_prefix_of(s1.constraints)) by {
        assert forall|i: int| 0 <= i < st.constraints.len() implies st.constraints[i] == s1.constraints[i] by {}
    }
    assert(st.type_vars.is_prefix_of(s1.type_vars));
}

proof fn lemma_type_for_arg_extends(st: InferState, arg: SSAArg)
    ensures
        extends(spec_type_for_arg(st, arg).0, st),
    decreases (if arg.arg is Deref { 1nat } else { 0nat }),
{
    lemma_extends_refl(st);
    if assoc_get(st.type_vars, arg) is None {
        let typ = TypeView::TypeVar(TypeVarId((st.type_vars.len() + 1) as usize));
        let st1 = InferState { type_vars: st.type_vars.push((arg, typ)), ..st };
        assert(extends(st1, st)) by {
            assert forall|i: int| 0 <= i < st.type_vars.len() implies st.type_vars[i] == st1.type_vars[i] by {}
            assert(st.constraints.is_prefix_of(st1.constraints));
        }
        if let SSAArgKind::Deref { addr, deref_version } = arg.arg {
            let (st2, p) = spec_type_for_arg(st1, pointer_cell(arg, addr, deref_version));
            lemma_type_for_arg_extends(st1, pointer_cell(arg, addr, deref_version));
            lemma_extends_trans(st2, st1, st);
            lemma_with_constraint_extends(st2, p, TypeView::Pointer(Box::new(typ)), addr, ConstraintReason::Deref);
            lemma_extends_trans(spec_type_for_arg(st, arg).0, st2, st);
        }
    }
}

proof fn lemma_phi_extends(st: InferState, addr: usize, dst: SSAArg, dt: TypeView, srcs: Seq<SSAArg>)
    ensures
        extends(phi_constraints(st, addr, dst, dt, srcs), st),
    decreases srcs.len(),
{
    if srcs.len() == 0 {
        lemma_extends_refl(st);
    } else {
        lemma_phi_extends(st, addr, dst, dt, srcs.drop_last());
        let s1 = phi_constraints(st, addr, dst, dt, srcs.drop_last());
        if srcs.last() != dst {
            let (s2, t) = spec_type_for_arg(s1, srcs.last());
            lemma_type_for_arg_extends(s1, srcs.last());
            lemma_with_constraint_extends(s2, dt, t, addr, ConstraintReason::Assignment);
            lemma_extends_trans(s2, s1, st);
            lemma_extends_trans(phi_constraints(st, addr, dst, dt, srcs), s2, st);
        }
    }
}

proof fn lemma_op_extends(st: InferState, addr: usize, op: InstrView<SSAArg>)
    ensures
        extends(spec_op_constraints(st, addr, op), st),
{
    lemma_extends_refl(st);
    match op {
        InstrView::Assign(src, dst) => {
            let (s1, d) = spec_type_for_arg(st, dst);
            let (s2, t) = spec_type_for_arg(s1, src);
            lemma_type_for_arg_extends(st, dst);
            lemma_type_for_arg_extends(s1, src);
            lemma_extends_trans(s2, s1, st);
            lemma_with_constraint_extends(s2, t, d, addr, ConstraintReason::Assignment);
            lemma_extends_trans(spec_op_constraints(st, addr, op), s2, st);
        },
        InstrView::Add(a, b, dst) | InstrView::Mul(a, b, dst) | InstrView::LessThan(a, b, dst) | InstrView::Equals(a, b, dst) => {
            let (s1, d) = spec_type_for_arg(st, dst);
            let (s2, t1) = spec_type_for_arg(s1, a);
            let (s3, t2) = spec_type_for_arg(s2, b);
            lemma_type_for_arg_extends(st, dst);
            lemma_type_for_arg_extends(s1, a);
            lemma_type_for_arg_extends(s2, b);
            lemma_extends_trans(s2, s1, st);
            lemma_extends_trans(s3, s2, st);
            let r = spec_op_constraints(st, addr, op);
            assert(extends(r, s3)) by {
                assert(s3.type_vars.is_prefix_of(r.type_vars));
                assert forall|i: int| 0 <= i < s3.constraints.len() implies s3.constraints[i] == r.constraints[i] by {}
            }
            lemma_extends_trans(r, s3, st);
        },
        InstrView::Output(x) | InstrView::Input(x) | InstrView::JumpIf(x, _, _) => {
            let (s1, t) = spec_type_for_arg(st, x);
            lemma_type_for_arg_extends(st, x);
            let r = spec_op_constraints(st, addr, op);
            assert(extends(r, s1)) by {
                assert(s1.type_vars.is_prefix_of(r.type_vars));
                assert forall|i: int| 0 <= i < s1.constraints.len() implies s1.constraints[i] == r.constraints[i] by {}
            }
            lemma_extends_trans(r, s1, st);
        },
        InstrView::Phi(dst, srcs) => {
            let (s1, d) = spec_type_for_arg(st, dst);
            lemma_type_for_arg_extends(st, dst);
            lemma_phi_extends(s1, addr, dst, d, srcs);
            lemma_extends_trans(phi_constraints(s1, addr, dst, d, srcs), s1, st);
        },
        _ => {},
    }
}

proof fn lemma_ops_extends(st: InferState, ops: Seq<(usize, InstrView<SSAArg>)>)
    ensures
        extends(ops_constraints(st, ops), st),
    decreases ops.len(),
{
    if ops.len() == 0 {
        lemma_extends_refl(st);
    } else {
        lemma_ops_extends(st, ops.drop_last());
        let s1 = ops_constraints(st, ops.drop_last());
        lemma_op_extends(s1, ops.last().0, ops.last().1);
        lemma_extends_trans(ops_constraints(st, ops), s1, st);
    }
}

proof fn lemma_binding_extends(st: InferState, end: usize, fun: InfoView, args: Seq<SSAArg>)
    ensures
        extends(binding_constraints(st, end, fun, args), st),
    decreases args.len(),
{
    if args.len() == 0 {
        lemma_extends_refl(st);
    } else {
        lemma_binding_extends(st, end, fun, args.drop_last());
        let s1 = binding_constraints(st, end, fun, args.drop_last());
        let (s2, left) = spec_type_for_arg(s1, args.last());
        let (s3, right) = spec_type_for_arg(s2, parameter_of(fun, args.last()));
        lemma_type_for_arg_extends(s1, args.last());
        lemma_type_for_arg_extends(s2, parameter_of(fun, args.last()));
        lemma_with_constraint_extends(s3, left, right, end, ConstraintReason::FunctionParameterBinding);
        lemma_extends_trans(s2, s1, st);
        lemma_extends_trans(s3, s2, st);
        lemma_extends_trans(binding_constraints(st, end, fun, args), s3, st);
    }
}

/// Constraints are only ever added, and operands only ever given types.
pub proof fn lemma_block_constraints_extend(
    st: InferState,
    infos: Seq<(FunctionId, InfoView)>,
    block: BlockView<SSAArg>,
    arguments: Option<Seq<SSAArg>>,
)
    ensures
        extends(spec_block_constraints(st, infos, block, arguments), st),
{
    let s = ops_constraints(st, block.ops);
    lemma_ops_extends(st, block.ops);
    if let NextKind::FunctionCall(call) = block.next {
        let (s1, f) = spec_type_for_arg(s, call.function_addr);
        lemma_type_for_arg_extends(s, call.function_addr);
        let s2 = with_constraint(s1, f, TypeView::FunctionPointer(seq![], seq![]), block.span.end, ConstraintReason::Assignment);
        lemma_with_constraint_extends(s1, f, TypeView::FunctionPointer(seq![], seq![]), block.span.end, ConstraintReason::Assignment);
        lemma_extends_trans(s1, s, st);
        lemma_extends_trans(s2, s1, st);
        if let Some(fun) = known_callee(infos, call) {
            lemma_binding_extends(s2, block.span.end, fun, arguments->Some_0);
            lemma_extends_trans(binding_constraints(s2, block.span.end, fun, arguments->Some_0), s2, st);
        }
    }
}

/// The operands an operation constrains, counted, if the count is a `usize`.
fn operands_of(op: &GenericInstruction<SSAArg>) -> (r: Option<usize>)
    ensures
        r matches Some(n) ==> n == operand_count(op.view()),
        r is None <==> operand_count(op.view()) > usize::MAX,
{
    match op {
        GenericInstruction::Assign(..) => Some(2),
        GenericInstruction::Add(..) | GenericInstruction::Mul(..) | GenericInstruction::LessThan(..) | GenericInstruction::Equals(..) => Some(3),
        GenericInstruction::Output(..) | GenericInstruction::Input(..) | GenericInstruction::JumpIf(..) => Some(1),
        GenericInstruction::Phi(_, srcs) => srcs.len().checked_add(1),
        _ => Some(0),
    }
}

/// The room in type variables that the constraints of a block may need.
pub open spec fn spec_block_need(block: Block<SSAArg>, arguments: Option<Vec<SSAArg>>) -> nat {
    2 * ops_operand_count(block.view().ops) + 2 + match arguments {
        Some(a) => 4 * a@.len(),
        None => 0,
    }
}

/// The room in type variables that the constraints of a block may need, if
/// it is a `usize`.
fn block_need(block: &Block<SSAArg>, arguments: &Option<Vec<SSAArg>>) -> (r: Option<usize>)
    ensures
        r matches Some(n) ==> n == 2 * ops_operand_count(block.view().ops) + 2 + match arguments {
            Some(a) => 4 * a@.len(),
            None => 0,
        },
        r is None <==> spec_block_need(*block, *arguments) > usize::MAX,
{
    let ghost ops = block.view().ops;
    let mut total: usize = 0;
    let mut i: usize = 0;
    assert(ops.take(0) =~= seq![]);
    while i < block.ops.len()
        invariant
            i <= block.ops@.len(),
            ops == block.view().ops,
            total == ops_operand_count(ops.take(i as int)),
        decreases block.ops.len() - i,
    {
        proof {
            assert(ops.take(i + 1).drop_last() =~= ops.take(i as int));
            assert(ops.take(i + 1).last() == ops[i as int]);
        }
        let n = match operands_of(&block.ops[i].1) {
            Some(n) => n,
            None => {
                proof {
                    lemma_ops_operand_count_prefix(ops, i + 1);
                }
                return None;
            },
        };
        total = match total.checked_add(n) {
            Some(t) => t,
            None => {
                proof {
                    lemma_ops_operand_count_prefix(ops, i + 1);
                }
                return None;
            },
        };
        i = i + 1;
    }
    assert(ops.take(i as int) =~= ops);
    let doubled = match total.checked_mul(2) {
        Some(d) => d,
        None => {
            return None;
        },
    };
    let with_call = match doubled.checked_add(2) {
        Some(d) => d,
        None => {
            return None;
        },
    };
    match arguments {
        Some(a) => match a.len().checked_mul(4) {
            Some(x) => with_call.checked_add(x),
            None => None,
        },
        None => Some(with_call),
    }
}

/// Whether the arguments of the call that ends a block can be bound; see
/// [`call_arguments_fit`].
fn arguments_fit(program: &ProgramAnalysis, block: &Block<SSAArg>, arguments: &Option<Vec<SSAArg>>) -> (r: bool)
    ensures
        r == match block.next {
            NextKind::FunctionCall(call) => call_arguments_fit(
                infos_view(program.function_infos@),
                call,
                match arguments {
                    Some(a) => Some(a@),
                    None => None,
                },
            ),
            _ => true,
        },
{
    match &block.next {
        NextKind::FunctionCall(call) => {
            let ghost infos = infos_view(program.function_infos@);
            match call.function_addr.value() {
                Some(a) => {
                    let id = FunctionId(#[verifier::truncate] (a as usize));
                    proof {
                        crate::assoc::lemma_get_keys(program.function_infos@, infos, id);
                    }
                    match get_value(&program.function_infos, &id) {
                        Some(fun) => match arguments {
                            Some(args) => {
                                proof {
                                    assert(call.function_addr.arg == SSAArgKind::Value(a));
                                    assert(assoc_get(program.function_infos@, id) == Some(*fun));
                                    assert(key_index(program.function_infos@, id) >= 0);
                                    assert(assoc_get(infos, id) == Some(fun.view()));
                                }
                                let mut k: usize = 0;
                                while k < args.len()
                                    invariant
                                        k <= args@.len(),
                                        call.function_addr.arg == SSAArgKind::Value(a),
                                        block.next == NextKind::FunctionCall(*call),
                                        match *arguments {
                                            Some(x) => x@ == args@,
                                            None => false,
                                        },
                                        id == FunctionId(a as usize),
                                        infos == infos_view(program.function_infos@),
                                        assoc_get(infos, id) == Some(fun.view()),
                                        forall|i: int|
                                            0 <= i < k ==> {
                                                let x = #[trigger] args@[i];
                                                x.arg is RelativeMem && x.arg->RelativeMem_0 - fun.stack_size >= i128::MIN
                                            },
                                    decreases args.len() - k,
                                {
                                    match args[k].relative_mem() {
                                        Some(r) => {
                                            if r < i128::MIN + (fun.stack_size as i128) {
                                                proof {
                                                    let x = args@[k as int];
                                                    assert(!(x.arg is RelativeMem && x.arg->RelativeMem_0 - fun.stack_size >= i128::MIN));
                                                    assert(known_callee(infos, *call) == Some(fun.view()));
                                                    assert(!call_arguments_fit(infos, *call, Some(args@)));
                                                }
                                                return false;
                                            }
                                        },
                                        None => {
                                            proof {
                                                let x = args@[k as int];
                                                assert(!(x.arg is RelativeMem && x.arg->RelativeMem_0 - fun.stack_size >= i128::MIN));
                                                assert(known_callee(infos, *call) == Some(fun.view()));
                                                assert(!call_arguments_fit(infos, *call, Some(args@)));
                                            }
                                            return false;
                                        },
                                    }
                                    k = k + 1;
                                }
                                true
                            },
                            None => false,
                        },
                        None => true,
                    }
                },
                None => true,
            }
        },
        _ => true,
    }
}

/// The versions of the arguments recorded for the call that ends block
/// `id`, if any.
fn call_arguments_of(ssa: &SSAGraph, id: BlockId) -> (r: Option<Vec<SSAArg>>)
    ensures
        match r {
            Some(v) => assoc_get(ssa.call_arguments@, id) is Some && v@ == assoc_get(ssa.call_arguments@, id)->Some_0@,
            None => assoc_get(ssa.call_arguments@, id) is None,
        },
{
    proof {
        crate::assoc::lemma_key_index(ssa.call_arguments@, id);
    }
    let mut i: usize = 0;
    while i < ssa.call_arguments.len()
        invariant
            i <= ssa.call_arguments@.len(),
            forall|j: int| 0 <= j < i ==> (#[trigger] ssa.call_arguments@[j]).0 != id,
        decreases ssa.call_arguments.len() - i,
    {
        if ssa.call_arguments[i].0 == id {
            let src = &ssa.call_arguments[i].1;
            let mut v: Vec<SSAArg> = Vec::new();
            let mut k: usize = 0;
            while k < src.len()
                invariant
                    k <= src@.len(),
                    v@ == src@.take(k as int),
                decreases src.len() - k,
            {
                v.push(src[k]);
                k = k + 1;
                assert(v@ =~= src@.take(k as int));
            }
            assert(v@ =~= src@);
            proof {
                crate::assoc::lemma_key_index(ssa.call_arguments@, id);
                let ki = crate::assoc::key_index(ssa.call_arguments@, id);
                if ki < 0 || ki > i {
                    assert(ssa.call_arguments@[i as int].0 == id);
                }
                if ki >= 0 && ki < i {
                    assert(ssa.call_arguments@[ki].0 == id);
                }
            }
            return Some(v);
        }
        i = i + 1;
    }
    proof {
        crate::assoc::lemma_key_index(ssa.call_arguments@, id);
        let ki = crate::assoc::key_index(ssa.call_arguments@, id);
        if ki >= 0 {
            assert(ssa.call_arguments@[ki].0 == id);
        }
    }
    None
}

/// Whether each graph of the program has its data flow and can be
/// converted to SSA form.
pub open spec fn program_ready(p: ProgramAnalysis) -> bool {
    forall|i: int|
        0 <= i < p.control_flows@.len() ==> match assoc_get(p.data_flows@, FunctionId((#[trigger] p.control_flows@[i]).1.start.0)) {
            Some(df) => ssa_defined(p, p.control_flows@[i].1, df),
            None => false,
        }
}

/// The arguments of a call, by their view.
pub open spec fn opt_view(a: Option<Vec<SSAArg>>) -> Option<Seq<SSAArg>> {
    match a {
        Some(v) => Some(v@),
        None => None,
    }
}

/// Whether the constraints of `block` can be added to `st`: the room they
/// need is a `usize` and left in the type variables, and the arguments of
/// a call that ends the block can be bound.
pub open spec fn block_fits(st: InferState, program: ProgramAnalysis, block: Block<SSAArg>, args: Option<Vec<SSAArg>>) -> bool {
    &&& spec_block_need(block, args) <= usize::MAX
    &&& st.type_vars.len() + spec_block_need(block, args) <= usize::MAX
    &&& match block.next {
        NextKind::FunctionCall(call) => call_arguments_fit(infos_view(program.function_infos@), call, opt_view(args)),
        _ => true,
    }
}

/// Adding the constraints of the `bi`-th block of `g`, when they fit; the
/// flag tells whether they did.
pub open spec fn block_step(st: InferState, program: ProgramAnalysis, g: SSAGraph, bi: int) -> (InferState, bool) {
    let block = g.cfg.blocks@[bi].1;
    let args = assoc_get(g.call_arguments@, g.cfg.blocks@[bi].0);
    if block_fits(st, program, block, args) {
        (spec_block_constraints(st, infos_view(program.function_infos@), block.view(), opt_view(args)), true)
    } else {
        (st, false)
    }
}

/// The blocks of `g` in the order of their start addresses.
pub open spec fn block_order(g: SSAGraph) -> Seq<usize> {
    spec_sorted_indices(spec_keyed(Seq::new(g.cfg.blocks@.len(), |b: int| g.cfg.blocks@[b].1.span.start)))
}

/// The functions of the program in the order of their start addresses.
pub open spec fn function_order(p: ProgramAnalysis) -> Seq<usize> {
    spec_sorted_indices(spec_keyed(Seq::new(p.control_flows@.len(), |i: int| p.control_flows@[i].1.start.0)))
}

/// Adding the constraints of the blocks `order` of `g`, in turn; the flag
/// tells whether all fitted.
pub open spec fn blocks_fold(st: InferState, program: ProgramAnalysis, g: SSAGraph, order: Seq<usize>) -> (InferState, bool)
    decreases order.len(),
{
    if order.len() == 0 {
        (st, true)
    } else {
        let (s1, c1) = blocks_fold(st, program, g, order.drop_last());
        let (s2, c2) = block_step(s1, program, g, order.last() as int);
        (s2, c1 && c2)
    }
}

/// Adding the constraints of each graph in turn, its blocks by address.
pub open spec fn graphs_fold(st: InferState, program: ProgramAnalysis, graphs: Seq<SSAGraph>) -> (InferState, bool)
    decreases graphs.len(),
{
    if graphs.len() == 0 {
        (st, true)
    } else {
        let (s1, c1) = graphs_fold(st, program, graphs.drop_last());
        let (s2, c2) = blocks_fold(s1, program, graphs.last(), block_order(graphs.last()));
        (s2, c1 && c2)
    }
}

/// The table from debug markers to versions after the first `n` markers of
/// a graph are entered: each marker maps to the last version it marks.
pub open spec fn markers_entered(m: Seq<(char, SSAArg)>, g: SSAGraph, n: int) -> Seq<(char, SSAArg)>
    decreases n,
{
    if n <= 0 || n > g.debug_markers@.len() {
        m
    } else {
        let (v, c) = g.debug_markers@[n - 1];
        assoc_insert(markers_entered(m, g, n - 1), c, v)
    }
}

/// The table from debug markers to versions after the markers of `graphs`
/// are entered, graph by graph.
pub open spec fn markers_after(m: Seq<(char, SSAArg)>, graphs: Seq<SSAGraph>) -> Seq<(char, SSAArg)>
    decreases graphs.len(),
{
    if graphs.len() == 0 {
        m
    } else {
        let g = graphs.last();
        markers_entered(markers_after(m, graphs.drop_last()), g, g.debug_markers@.len() as int)
    }
}

/// Whether `graphs` are conversions to SSA form of the functions of the
/// program, in the order of their start addresses.
pub open spec fn graphs_of(program: ProgramAnalysis, graphs: Seq<SSAGraph>) -> bool {
    &&& graphs.len() == function_order(program).len()
    &&& forall|k: int|
        0 <= k < graphs.len() ==> ssa_result(program, program.control_flows@[function_order(program)[k] as int].1, #[trigger] graphs[k])
}

impl TypeInference {
    /// Adds the constraints of every function of the program, by start
    /// address, each converted to SSA form, block by block in the order of
    /// their addresses. A block whose constraints would need more type
    /// variables than a `usize` numbers, or whose call passes arguments that
    /// cannot be bound, is left out, and the result is then `false`.
    pub fn generate_constaints_for_program(&mut self, program: &ProgramAnalysis) -> (complete: bool)
        requires
            keys_distinct(old(self).type_vars@),
            program_ready(*program),
        ensures
            keys_distinct(final(self).type_vars@),
            extends(final(self).state(), old(self).state()),
            exists|graphs: Seq<SSAGraph>|
                graphs_of(*program, graphs) && #[trigger] graphs_fold(old(self).state(), *program, graphs) == (final(self).state(), complete)
                    && final(self).debug_markers@ == markers_after(old(self).debug_markers@, graphs),
    {
        let mut complete = true;
        let mut keys: Vec<usize> = Vec::new();
        let mut i: usize = 0;
        while i < program.control_flows.len()
            invariant
                i <= program.control_flows@.len(),
                keys@.len() == i,
                keys@ == Seq::new(i as nat, |q: int| program.control_flows@[q].1.start.0),
            decreases program.control_flows.len() - i,
        {
            keys.push(program.control_flows[i].1.start.0);
            i = i + 1;
            assert(keys@ =~= Seq::new(i as nat, |q: int| program.control_flows@[q].1.start.0));
        }
        let order = sorted_indices(&keys);
        assert(order@ == function_order(*program));
        let ghost mut graphs: Seq<SSAGraph> = Seq::empty();
        proof {
            lemma_sorted_indices_members(spec_keyed(keys@));
            lemma_extends_refl(self.state());
        }
        let ghost st0 = self.state();
        let mut k: usize = 0;
        while k < order.len()
            invariant
                program_ready(*program),
                keys@.len() == program.control_flows@.len(),
                forall|j: int| 0 <= j < order@.len() ==> exists|q: int| 0 <= q < spec_keyed(keys@).len() && spec_keyed(keys@)[q].1 == #[trigger] order@[j],
                keys_distinct(self.type_vars@),
                extends(self.state(), st0),
                self.debug_markers@ == markers_after(old(self).debug_markers@, graphs),
                st0 == old(self).state(),
                order@ == function_order(*program),
                k <= order@.len(),
                graphs.len() == k,
                forall|q: int|
                    0 <= q < k ==> ssa_result(*program, program.control_flows@[order@[q] as int].1, #[trigger] graphs[q]),
                graphs_fold(st0, *program, graphs) == (self.state(), complete),
            decreases order.len() - k,
        {
            let gi = order[k];
            proof {
                let q = choose|q: int| 0 <= q < spec_keyed(keys@).len() && spec_keyed(keys@)[q].1 == order@[k as int];
                assert(gi < program.control_flows@.len());
            }
            let cf = &program.control_flows[gi].1;
            let fid = FunctionId(cf.start.0);
            proof {
                assert(program.control_flows@[gi as int].1 == *cf);
                crate::assoc::lemma_key_index(program.data_flows@, fid);
            }
            let df = match get_value(&program.data_flows, &fid) {
                Some(df) => df,
                None => {
                    assert(false);
                    return false;
                },
            };
            let ssa = convert_to_ssa(program, cf, df);
            let ghost dm0 = self.debug_markers@;
            let ghost cs0 = self.constraints;
            let ghost tv0 = self.type_vars;
            let mut e: usize = 0;
            while e < ssa.debug_markers.len()
                invariant
                    self.constraints == cs0,
                    self.type_vars == tv0,
                    e <= ssa.debug_markers@.len(),
                    self.debug_markers@ == markers_entered(dm0, ssa, e as int),
                decreases ssa.debug_markers.len() - e,
            {
                let (v, c) = ssa.debug_markers[e];
                crate::assoc::insert_value(&mut self.debug_markers, c, v);
                e = e + 1;
            }
            let ghost dm1 = self.debug_markers@;
            let mut bkeys: Vec<usize> = Vec::new();
            let mut b: usize = 0;
            while b < ssa.cfg.blocks.len()
                invariant
                    b <= ssa.cfg.blocks@.len(),
                    bkeys@.len() == b,
                    bkeys@ == Seq::new(b as nat, |q: int| ssa.cfg.blocks@[q].1.span.start),
                decreases ssa.cfg.blocks.len() - b,
            {
                bkeys.push(ssa.cfg.blocks[b].1.span.start);
                b = b + 1;
                assert(bkeys@ =~= Seq::new(b as nat, |q: int| ssa.cfg.blocks@[q].1.span.start));
            }
            let border = sorted_indices(&bkeys);
            assert(border@ == block_order(ssa));
            let ghost sk = self.state();
            let ghost ck = complete;
            assert(border@.take(0) =~= Seq::<usize>::empty());
            proof {
                lemma_sorted_indices_members(spec_keyed(bkeys@));
            }
            let mut m: usize = 0;
            while m < border.len()
                invariant
                    bkeys@.len() == ssa.cfg.blocks@.len(),
                    forall|j: int| 0 <= j < border@.len() ==> exists|q: int| 0 <= q < spec_keyed(bkeys@).len() && spec_keyed(bkeys@)[q].1 == #[trigger] border@[j],
                    keys_distinct(self.type_vars@),
                    extends(self.state(), st0),
                    self.debug_markers@ == dm1,
                    border@ == block_order(ssa),
                    m <= border@.len(),
                    self.state() == blocks_fold(sk, *program, ssa, border@.take(m as int)).0,
                    complete == (ck && blocks_fold(sk, *program, ssa, border@.take(m as int)).1),
                decreases border.len() - m,
            {
                let bi = border[m];
                proof {
                    let q = choose|q: int| 0 <= q < spec_keyed(bkeys@).len() && spec_keyed(bkeys@)[q].1 == border@[m as int];
                    assert(bi < ssa.cfg.blocks@.len());
                }
                let block = &ssa.cfg.blocks[bi].1;
                let arguments = call_arguments_of(&ssa, ssa.cfg.blocks[bi].0);
                let fit = arguments_fit(program, block, &arguments);
                let ghost sm = self.state();
                proof {
                    assert(border@.take(m + 1).drop_last() =~= border@.take(m as int));
                    assert(border@.take(m + 1).last() == bi);
                    let a2 = assoc_get(ssa.call_arguments@, ssa.cfg.blocks@[bi as int].0);
                    assert(opt_view(a2) == opt_view(arguments));
                    assert(spec_block_need(*block, a2) == spec_block_need(*block, arguments));
                    assert(sm.type_vars.len() == self.type_vars@.len());
                }
                match block_need(block, &arguments) {
                    Some(need) => {
                        if fit && self.type_vars.len() <= usize::MAX - need {
                            let ghost s1 = self.state();
                            self.generate_constraint_for_block(program, block, &arguments);
                            proof {
                                lemma_block_constraints_extend(
                                    s1,
                                    infos_view(program.function_infos@),
                                    block.view(),
                                    match arguments {
                                        Some(a) => Some(a@),
                                        None => None,
                                    },
                                );
                                lemma_extends_trans(self.state(), s1, st0);
                            }
                        } else {
                            complete = false;
                        }
                    },
                    None => {
                        complete = false;
                    },
                }
                m = m + 1;
            }
            proof {
                assert(border@.take(m as int) =~= border@);
                let g0 = graphs;
                graphs = g0.push(ssa);
                assert(graphs.drop_last() =~= g0);
                assert(self.debug_markers@ == markers_after(old(self).debug_markers@, graphs));
                assert forall|q: int| 0 <= q < k + 1 implies ssa_result(*program, program.control_flows@[order@[q] as int].1, #[trigger] graphs[q]) by {
                    if q < k {
                        assert(graphs[q] == g0[q]);
                    }
                }
            }
            k = k + 1;
        }
        proof {
            assert(graphs_of(*program, graphs));
        }
        complete
    }
}

} // verus!
