//! Symbol files: user-supplied names and types for functions, variables,
//! globals, custom types and structs.
use vstd::prelude::*;
use vstd::string::StrSliceExecFns;
use crate::assoc::{
    Key, assoc_get, assoc_insert, get_value, insert_value, lemma_get_keys, lemma_insert_map,
    map_entries,
};
use crate::control_flow_graph::FunctionId;
use crate::value_types::Type;

verus! {

/// Identifies a custom type declared in a symbol file.
#[derive(Debug, Clone, Copy, PartialEq, Eq, Hash, PartialOrd, Ord, Structural)]
pub struct CustomTypeId(pub usize);

/// Identifies a struct declared in a symbol file.
#[derive(Debug, Clone, Copy, PartialEq, Eq, Hash, PartialOrd, Ord, Structural)]
pub struct StructId(pub usize);

/// Identifies a pointer variable of the SSA form.
#[derive(Debug, Clone, Copy, PartialEq, Eq, Hash, PartialOrd, Ord, Structural)]
pub struct PointerId(pub usize);

impl CustomTypeId {
    pub fn new(id: usize) -> (r: Self)
        ensures
            r.0 == id,
    {
        CustomTypeId(id)
    }

    /// A new id, taken from the counter `next`.
    pub fn fresh(next: &mut usize) -> (r: Self)
        requires
            *old(next) < usize::MAX,
        ensures
            r.0 == *old(next),
            *final(next) == *old(next) + 1,
    {
        let id = *next;
        *next = *next + 1;
        CustomTypeId(id)
    }
}

impl StructId {
    pub fn new(id: usize) -> (r: Self)
        ensures
            r.0 == id,
    {
        StructId(id)
    }

    /// A new id, taken from the counter `next`.
    pub fn fresh(next: &mut usize) -> (r: Self)
        requires
            *old(next) < usize::MAX,
        ensures
            r.0 == *old(next),
            *final(next) == *old(next) + 1,
    {
        let id = *next;
        *next = *next + 1;
        StructId(id)
    }
}

impl PointerId {
    pub fn new(id: usize) -> (r: Self)
        ensures
            r.0 == id,
    {
        PointerId(id)
    }
}

/// The memory that a versioned variable lives in.
#[derive(Debug, Clone, Copy, PartialEq, Eq, Hash, PartialOrd, Ord, Structural)]
pub enum VersionableMemoryKind {
    /// An absolute address.
    Memory(usize),
    /// An offset from the relative base.
    RelativeMemory(i128),
    /// The target of a pointer.
    Pointer(PointerId),
}

/// One version of a variable in one function.
#[derive(Debug, Clone, Copy, PartialEq, Eq, Hash, PartialOrd, Ord, Structural)]
pub struct VersionedMemoryReference {
    pub kind: VersionableMemoryKind,
    pub function_id: FunctionId,
    pub version: usize,
}

impl Key for FunctionId {
    fn same(&self, other: &Self) -> (r: bool) {
        *self == *other
    }
}

impl Key for CustomTypeId {
    fn same(&self, other: &Self) -> (r: bool) {
        *self == *other
    }
}

impl Key for StructId {
    fn same(&self, other: &Self) -> (r: bool) {
        *self == *other
    }
}

impl Key for VersionedMemoryReference {
    fn same(&self, other: &Self) -> (r: bool) {
        *self == *other
    }
}

/// A field of a struct, with its type where one was given.
#[derive(Debug, PartialEq, Eq)]
pub struct StructField {
    pub name: String,
    pub typ: Option<Type>,
}

/// A struct declared in a symbol file.
#[derive(Debug, PartialEq, Eq)]
pub struct StructDef {
    pub name: String,
    pub fields: Vec<StructField>,
}

/// A name with an optional type, as the model sees it.
pub type NamedView = (Seq<char>, Option<Type>);

/// A name with a list of typed names (a function's arguments, a struct's
/// fields), as the model sees it.
pub type SymbolView = (Seq<char>, Seq<NamedView>);

pub open spec fn named_view(p: (String, Option<Type>)) -> NamedView {
    (p.0@, p.1)
}

pub open spec fn named_views(v: Seq<(String, Option<Type>)>) -> Seq<NamedView> {
    Seq::new(v.len(), |i: int| named_view(v[i]))
}

pub open spec fn field_views(v: Seq<StructField>) -> Seq<NamedView> {
    Seq::new(v.len(), |i: int| (v[i].name@, v[i].typ))
}

/// The name and the arguments of a function.
#[derive(Debug, PartialEq, Eq)]
pub struct FunctionSymbol {
    name: String,
    args: Vec<(String, Option<Type>)>,
}

impl FunctionSymbol {
    pub closed spec fn view(&self) -> SymbolView {
        (self.name@, named_views(self.args@))
    }

    pub fn new(name: String, args: Vec<(String, Option<Type>)>) -> (r: Self)
        ensures
            r.view() == (name@, named_views(args@)),
    {
        FunctionSymbol { name, args }
    }

    pub fn name(&self) -> (r: &String)
        ensures
            r@ == self.view().0,
    {
        &self.name
    }

    pub fn args(&self) -> (r: &Vec<(String, Option<Type>)>)
        ensures
            named_views(r@) == self.view().1,
    {
        &self.args
    }
}

impl StructDef {
    pub open spec fn view(&self) -> SymbolView {
        (self.name@, field_views(self.fields@))
    }
}

/// Everything a symbol file declares, as the model sees it.
pub ghost struct DefsView {
    pub functions: Seq<(FunctionId, SymbolView)>,
    pub variables: Seq<(VersionedMemoryReference, NamedView)>,
    pub custom_types: Seq<(CustomTypeId, Seq<char>)>,
    pub globals: Seq<(usize, NamedView)>,
    pub structs: Seq<(StructId, SymbolView)>,
    pub next_custom_type: nat,
    pub next_struct: nat,
    /// The phi functions to leave out, by the version they define, in the
    /// order of their declaration.
    pub suppressed_phis: Seq<VersionedMemoryReference>,
}

/// Everything a symbol file declares. Each table maps a key to at most one
/// entry; a later declaration of a key replaces the earlier one.
#[derive(Debug, PartialEq, Eq)]
pub struct UserDefs {
    functions: Vec<(FunctionId, FunctionSymbol)>,
    variable_names: Vec<(VersionedMemoryReference, (String, Option<Type>))>,
    custom_types: Vec<(CustomTypeId, String)>,
    globals: Vec<(usize, (String, Option<Type>))>,
    struct_definitions: Vec<(StructId, StructDef)>,
    next_custom_type: usize,
    next_struct: usize,
    suppressed_phis: Vec<VersionedMemoryReference>,
}

pub open spec fn function_entries(v: Seq<(FunctionId, FunctionSymbol)>) -> Seq<(FunctionId, SymbolView)> {
    map_entries(v, |f: FunctionSymbol| f.view())
}

pub open spec fn variable_entries(v: Seq<(VersionedMemoryReference, (String, Option<Type>))>) -> Seq<(VersionedMemoryReference, NamedView)> {
    map_entries(v, |p: (String, Option<Type>)| named_view(p))
}

pub open spec fn custom_entries(v: Seq<(CustomTypeId, String)>) -> Seq<(CustomTypeId, Seq<char>)> {
    map_entries(v, |n: String| n@)
}

pub open spec fn global_entries(v: Seq<(usize, (String, Option<Type>))>) -> Seq<(usize, NamedView)> {
    map_entries(v, |p: (String, Option<Type>)| named_view(p))
}

pub open spec fn struct_entries(v: Seq<(StructId, StructDef)>) -> Seq<(StructId, SymbolView)> {
    map_entries(v, |d: StructDef| d.view())
}

/// The declarations of an empty symbol file.
pub open spec fn empty_defs() -> DefsView {
    DefsView {
        functions: seq![],
        variables: seq![],
        custom_types: seq![],
        globals: seq![],
        structs: seq![],
        next_custom_type: 0,
        next_struct: 0,
        suppressed_phis: seq![],
    }
}

/// Index of the first entry whose value satisfies `p`, or -1.
pub open spec fn first_value_index<K, V>(s: Seq<(K, V)>, p: spec_fn(V) -> bool) -> int
    decreases s.len(),
{
    if s.len() == 0 {
        -1
    } else {
        let j = first_value_index(s.drop_last(), p);
        if j >= 0 {
            j
        } else if p(s.last().1) {
            s.len() - 1
        } else {
            -1
        }
    }
}

proof fn lemma_first_value_index<K, V>(s: Seq<(K, V)>, p: spec_fn(V) -> bool)
    ensures
        -1 <= first_value_index(s, p) < s.len(),
        first_value_index(s, p) >= 0 ==> p(s[first_value_index(s, p)].1),
        forall|j: int|
            0 <= j < s.len() && (first_value_index(s, p) < 0 || j < first_value_index(s, p))
                ==> !p(#[trigger] s[j].1),
    decreases s.len(),
{
    if s.len() > 0 {
        lemma_first_value_index(s.drop_last(), p);
        assert forall|j: int| 0 <= j < s.len() - 1 implies s.drop_last()[j] == s[j] by {}
    }
}

pub open spec fn named(name: Seq<char>) -> spec_fn(Seq<char>) -> bool {
    |v: Seq<char>| v == name
}

pub open spec fn symbol_named(name: Seq<char>) -> spec_fn(SymbolView) -> bool {
    |v: SymbolView| v.0 == name
}

/// The type that a name stands for: a custom type of that name, or else a
/// struct of that name, the first declared where several share it.
pub open spec fn spec_type_from_name(d: DefsView, name: Seq<char>) -> Option<Type> {
    let c = first_value_index(d.custom_types, named(name));
    let s = first_value_index(d.structs, symbol_named(name));
    if c >= 0 {
        Some(Type::CustomType(d.custom_types[c].0))
    } else if s >= 0 {
        Some(Type::Struct(d.structs[s].0))
    } else {
        None
    }
}

impl UserDefs {
    pub closed spec fn view(&self) -> DefsView {
        DefsView {
            functions: function_entries(self.functions@),
            variables: variable_entries(self.variable_names@),
            custom_types: custom_entries(self.custom_types@),
            globals: global_entries(self.globals@),
            structs: struct_entries(self.struct_definitions@),
            next_custom_type: self.next_custom_type as nat,
            next_struct: self.next_struct as nat,
            suppressed_phis: self.suppressed_phis@,
        }
    }

    pub fn new() -> (r: Self)
        ensures
            r.view() == empty_defs(),
    {
        let r = UserDefs {
            functions: Vec::new(),
            variable_names: Vec::new(),
            custom_types: Vec::new(),
            globals: Vec::new(),
            struct_definitions: Vec::new(),
            next_custom_type: 0,
            next_struct: 0,
            suppressed_phis: Vec::new(),
        };
        assert(r.view().functions =~= seq![]);
        assert(r.view().suppressed_phis =~= seq![]);
        assert(r.view().variables =~= seq![]);
        assert(r.view().custom_types =~= seq![]);
        assert(r.view().globals =~= seq![]);
        assert(r.view().structs =~= seq![]);
        r
    }

    pub fn get_function_name(&self, function_id: FunctionId) -> (r: Option<&String>)
        ensures
            match assoc_get(self.view().functions, function_id) {
                Some(sym) => r is Some && r->0@ == sym.0,
                None => r is None,
            },
    {
        proof {
            lemma_get_keys(self.functions@, self.view().functions, function_id);
        }
        match get_value(&self.functions, &function_id) {
            Some(sym) => Some(sym.name()),
            None => None,
        }
    }

    pub fn get_function_args(&self, function_id: FunctionId) -> (r: Option<
        &Vec<(String, Option<Type>)>,
    >)
        ensures
            match assoc_get(self.view().functions, function_id) {
                Some(sym) => r is Some && named_views(r->0@) == sym.1,
                None => r is None,
            },
    {
        proof {
            lemma_get_keys(self.functions@, self.view().functions, function_id);
        }
        match get_value(&self.functions, &function_id) {
            Some(sym) => Some(sym.args()),
            None => None,
        }
    }

    pub fn get_custom_type(&self, id: CustomTypeId) -> (r: Option<&String>)
        ensures
            match assoc_get(self.view().custom_types, id) {
                Some(name) => r is Some && r->0@ == name,
                None => r is None,
            },
    {
        proof {
            lemma_get_keys(self.custom_types@, self.view().custom_types, id);
        }
        get_value(&self.custom_types, &id)
    }

    pub fn get_struct(&self, id: StructId) -> (r: Option<&StructDef>)
        ensures
            match assoc_get(self.view().structs, id) {
                Some(def) => r is Some && r->0.view() == def,
                None => r is None,
            },
    {
        proof {
            lemma_get_keys(self.struct_definitions@, self.view().structs, id);
        }
        get_value(&self.struct_definitions, &id)
    }

    /// All custom types, in the order of their declaration.
    pub fn get_custom_types(&self) -> (r: &Vec<(CustomTypeId, String)>)
        ensures
            custom_entries(r@) == self.view().custom_types,
    {
        &self.custom_types
    }

    pub fn get_global(&self, addr: usize) -> (r: Option<&String>)
        ensures
            match assoc_get(self.view().globals, addr) {
                Some(g) => r is Some && r->0@ == g.0,
                None => r is None,
            },
    {
        proof {
            lemma_get_keys(self.globals@, self.view().globals, addr);
        }
        match get_value(&self.globals, &addr) {
            Some(g) => Some(&g.0),
            None => None,
        }
    }

    /// The type of a global, where one was declared.
    pub fn get_global_type(&self, addr: usize) -> (r: Option<&Type>)
        ensures
            match assoc_get(self.view().globals, addr) {
                Some(g) => match g.1 {
                    Some(t) => r == Some(&t),
                    None => r is None,
                },
                None => r is None,
            },
    {
        proof {
            lemma_get_keys(self.globals@, self.view().globals, addr);
        }
        match get_value(&self.globals, &addr) {
            Some(g) => match &g.1 {
                Some(t) => Some(t),
                None => None,
            },
            None => None,
        }
    }

    /// The first struct declared under `name`.
    pub fn struct_by_name(&self, name: &str) -> (r: Option<(&StructId, &StructDef)>)
        ensures
            ({
                let i = first_value_index(self.view().structs, symbol_named(name@));
                match r {
                    Some((id, def)) => i >= 0 && *id == self.view().structs[i].0 && def.view()
                        == self.view().structs[i].1,
                    None => i < 0,
                }
            }),
    {
        let ghost p = symbol_named(name@);
        proof {
            lemma_first_value_index(self.view().structs, p);
        }
        let mut i: usize = 0;
        while i < self.struct_definitions.len()
            invariant
                i <= self.struct_definitions@.len(),
                p == symbol_named(name@),
                self.view().structs.len() == self.struct_definitions@.len(),
                forall|j: int| 0 <= j < i ==> !p(#[trigger] self.view().structs[j].1),
                -1 <= first_value_index(self.view().structs, p) < self.view().structs.len(),
                first_value_index(self.view().structs, p) >= 0 ==> p(
                    self.view().structs[first_value_index(self.view().structs, p)].1,
                ),
                forall|j: int|
                    0 <= j < self.view().structs.len() && (first_value_index(
                        self.view().structs,
                        p,
                    ) < 0 || j < first_value_index(self.view().structs, p)) ==> !p(
                        #[trigger] self.view().structs[j].1,
                    ),
            decreases self.struct_definitions.len() - i,
        {
            let entry = &self.struct_definitions[i];
            assert(self.view().structs[i as int] == (entry.0, entry.1.view()));
            if str_equals(entry.1.name.as_str(), name) {
                assert(p(self.view().structs[i as int].1));
                return Some((&entry.0, &entry.1));
            }
            i = i + 1;
        }
        None
    }

    /// The type that `name` stands for: a custom type of that name, or else a
    /// struct of that name.
    pub fn type_from_name(&self, name: &str) -> (r: Option<Type>)
        ensures
            r == spec_type_from_name(self.view(), name@),
    {
        let ghost pc = named(name@);
        proof {
            lemma_first_value_index(self.view().custom_types, pc);
        }
        let mut i: usize = 0;
        while i < self.custom_types.len()
            invariant
                i <= self.custom_types@.len(),
                pc == named(name@),
                self.view().custom_types.len() == self.custom_types@.len(),
                forall|j: int| 0 <= j < i ==> !pc(#[trigger] self.view().custom_types[j].1),
                -1 <= first_value_index(self.view().custom_types, pc)
                    < self.view().custom_types.len(),
                first_value_index(self.view().custom_types, pc) >= 0 ==> pc(
                    self.view().custom_types[first_value_index(self.view().custom_types, pc)].1,
                ),
                forall|j: int|
                    0 <= j < self.view().custom_types.len() && (first_value_index(
                        self.view().custom_types,
                        pc,
                    ) < 0 || j < first_value_index(self.view().custom_types, pc)) ==> !pc(
                        #[trigger] self.view().custom_types[j].1,
                    ),
            decreases self.custom_types.len() - i,
        {
            assert(self.view().custom_types[i as int] == (self.custom_types@[i as int].0,
                self.custom_types@[i as int].1@));
            if str_equals(self.custom_types[i].1.as_str(), name) {
                assert(pc(self.view().custom_types[i as int].1));
                return Some(Type::CustomType(self.custom_types[i].0));
            }
            i = i + 1;
        }
        match self.struct_by_name(name) {
            Some((id, _)) => Some(Type::Struct(*id)),
            None => None,
        }
    }

    pub fn get_variable_name(&self, variable: &VersionedMemoryReference) -> (r: Option<&String>)
        ensures
            match assoc_get(self.view().variables, *variable) {
                Some(v) => r is Some && r->0@ == v.0,
                None => r is None,
            },
    {
        proof {
            lemma_get_keys(self.variable_names@, self.view().variables, *variable);
        }
        match get_value(&self.variable_names, variable) {
            Some(v) => Some(&v.0),
            None => None,
        }
    }

    pub fn get_variable_type(&self, variable: &VersionedMemoryReference) -> (r: Option<&Type>)
        ensures
            match assoc_get(self.view().variables, *variable) {
                Some(v) => match v.1 {
                    Some(t) => r == Some(&t),
                    None => r is None,
                },
                None => r is None,
            },
    {
        proof {
            lemma_get_keys(self.variable_names@, self.view().variables, *variable);
        }
        match get_value(&self.variable_names, variable) {
            Some(v) => match &v.1 {
                Some(t) => Some(t),
                None => None,
            },
            None => None,
        }
    }

    /// All functions, in the order of their first declaration.
    pub fn get_functions(&self) -> (r: &Vec<(FunctionId, FunctionSymbol)>)
        ensures
            function_entries(r@) == self.view().functions,
    {
        &self.functions
    }

    /// All named variables, in the order of their first declaration.
    pub fn get_variables(&self) -> (r: &Vec<(VersionedMemoryReference, (String, Option<Type>))>)
        ensures
            variable_entries(r@) == self.view().variables,
    {
        &self.variable_names
    }

    /// All globals, in the order of their first declaration.
    pub fn get_globals(&self) -> (r: &Vec<(usize, (String, Option<Type>))>)
        ensures
            global_entries(r@) == self.view().globals,
    {
        &self.globals
    }

    /// All structs, in the order of their declaration.
    pub fn get_structs(&self) -> (r: &Vec<(StructId, StructDef)>)
        ensures
            struct_entries(r@) == self.view().structs,
    {
        &self.struct_definitions
    }

    /// Whether the phi function that defines `v` is to be left out.
    pub fn is_phi_suppressed(&self, v: &VersionedMemoryReference) -> (r: bool)
        ensures
            r == self.view().suppressed_phis.contains(*v),
    {
        let mut i: usize = 0;
        while i < self.suppressed_phis.len()
            invariant
                i <= self.suppressed_phis@.len(),
                forall|j: int| 0 <= j < i ==> self.suppressed_phis@[j] != *v,
            decreases self.suppressed_phis.len() - i,
        {
            if self.suppressed_phis[i] == *v {
                assert(self.suppressed_phis@[i as int] == *v);
                return true;
            }
            i = i + 1;
        }
        false
    }
}

/// Builds the declarations of a symbol file one by one.
#[derive(Debug, PartialEq, Eq)]
pub struct SymbolRenaming {
    pub user_defs: UserDefs,
}

impl SymbolRenaming {
    pub fn new() -> (r: Self)
        ensures
            r.user_defs.view() == empty_defs(),
    {
        SymbolRenaming { user_defs: UserDefs::new() }
    }

    /// Names a function and its arguments; a second declaration of the same
    /// function replaces the first.
    pub fn add_function(
        &mut self,
        function_id: FunctionId,
        name: String,
        args: Vec<(String, Option<Type>)>,
    )
        ensures
            final(self).user_defs.view() == (DefsView {
                functions: assoc_insert(
                    old(self).user_defs.view().functions,
                    function_id,
                    (name@, named_views(args@)),
                ),
                ..old(self).user_defs.view()
            }),
    {
        let sym = FunctionSymbol::new(name, args);
        proof {
            lemma_insert_map(self.user_defs.functions@, function_id, sym, |f: FunctionSymbol| f.view());
        }
        insert_value(&mut self.user_defs.functions, function_id, sym);
    }

    /// Names one version of a variable, with its type where one is given.
    pub fn add_variable_name(
        &mut self,
        variable: &VersionedMemoryReference,
        name: String,
        typ: Option<Type>,
    )
        ensures
            final(self).user_defs.view() == (DefsView {
                variables: assoc_insert(old(self).user_defs.view().variables, *variable, (name@, typ)),
                ..old(self).user_defs.view()
            }),
    {
        let entry = (name, typ);
        proof {
            lemma_insert_map(
                self.user_defs.variable_names@,
                *variable,
                entry,
                |p: (String, Option<Type>)| named_view(p),
            );
        }
        insert_value(&mut self.user_defs.variable_names, *variable, entry);
    }

    /// Leaves out the phi function that defines `variable`.
    pub fn suppress_phi(&mut self, variable: &VersionedMemoryReference)
        ensures
            final(self).user_defs.view() == (DefsView {
                suppressed_phis: old(self).user_defs.view().suppressed_phis.push(*variable),
                ..old(self).user_defs.view()
            }),
    {
        self.user_defs.suppressed_phis.push(*variable);
    }

    /// Declares a custom type under `custom_id`.
    pub fn add_custom_type(&mut self, custom_id: CustomTypeId, to_string: String)
        ensures
            final(self).user_defs.view() == (DefsView {
                custom_types: assoc_insert(old(self).user_defs.view().custom_types, custom_id, to_string@),
                ..old(self).user_defs.view()
            }),
    {
        proof {
            lemma_insert_map(self.user_defs.custom_types@, custom_id, to_string, |n: String| n@);
        }
        insert_value(&mut self.user_defs.custom_types, custom_id, to_string);
    }

    /// Names the global at `addr`, with its type where one is given.
    pub fn add_global(&mut self, addr: usize, name: String, typ: Option<Type>)
        ensures
            final(self).user_defs.view() == (DefsView {
                globals: assoc_insert(old(self).user_defs.view().globals, addr, (name@, typ)),
                ..old(self).user_defs.view()
            }),
    {
        let entry = (name, typ);
        proof {
            lemma_insert_map(
                self.user_defs.globals@,
                addr,
                entry,
                |p: (String, Option<Type>)| named_view(p),
            );
        }
        insert_value(&mut self.user_defs.globals, addr, entry);
    }

    /// Declares a struct under `struct_id`.
    pub fn add_struct(&mut self, struct_id: StructId, def: StructDef)
        ensures
            final(self).user_defs.view() == (DefsView {
                structs: assoc_insert(old(self).user_defs.view().structs, struct_id, def.view()),
                ..old(self).user_defs.view()
            }),
    {
        proof {
            lemma_insert_map(self.user_defs.struct_definitions@, struct_id, def, |d: StructDef| d.view());
        }
        insert_value(&mut self.user_defs.struct_definitions, struct_id, def);
    }

    /// A custom type id that this symbol file has not handed out before.
    pub fn fresh_custom_type_id(&mut self) -> (r: CustomTypeId)
        requires
            old(self).user_defs.view().next_custom_type < usize::MAX,
        ensures
            r.0 == old(self).user_defs.view().next_custom_type,
            final(self).user_defs.view() == (DefsView {
                next_custom_type: old(self).user_defs.view().next_custom_type + 1,
                ..old(self).user_defs.view()
            }),
    {
        CustomTypeId::fresh(&mut self.user_defs.next_custom_type)
    }

    /// A struct id that this symbol file has not handed out before.
    pub fn fresh_struct_id(&mut self) -> (r: StructId)
        requires
            old(self).user_defs.view().next_struct < usize::MAX,
        ensures
            r.0 == old(self).user_defs.view().next_struct,
            final(self).user_defs.view() == (DefsView {
                next_struct: old(self).user_defs.view().next_struct + 1,
                ..old(self).user_defs.view()
            }),
    {
        StructId::fresh(&mut self.user_defs.next_struct)
    }
}

/// Whether two strings hold the same characters.
pub fn str_equals(a: &str, b: &str) -> (r: bool)
    ensures
        r == (a@ == b@),
{
    let n = a.unicode_len();
    if n != b.unicode_len() {
        return false;
    }
    let mut i: usize = 0;
    while i < n
        invariant
            n == a@.len(),
            n == b@.len(),
            i <= n,
            forall|j: int| 0 <= j < i ==> a@[j] == b@[j],
        decreases n - i,
    {
        if a.get_char(i) != b.get_char(i) {
            return false;
        }
        i = i + 1;
    }
    assert(a@ =~= b@);
    true
}

/// Ids taken one after another from one counter differ: the counter moves
/// on by one with each id it hands out.
pub proof fn lemma_fresh_ids_differ(c: usize, a: CustomTypeId, b: CustomTypeId, s1: StructId, s2: StructId)
    requires
        a.0 == c,
        b.0 == c + 1,
        s1.0 == c,
        s2.0 == c + 1,
    ensures
        a != b,
        s1 != s2,
{
}

} // verus!
