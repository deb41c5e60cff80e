//! Types that symbol files and high-level code give to program values.
use vstd::prelude::*;
use crate::text::{spec_uint_text, uint_text, append_str};
use crate::symbol_renaming::{CustomTypeId, StructId};
use crate::type_inference::TypeVarId;

verus! {

/// Types of program values.
#[derive(Debug, PartialEq, Eq, Hash, PartialOrd, Ord)]
pub enum Type {
    Int,
    Bool,
    Char,
    Any,
    Truthy,
    NumericLiteral,
    Nothing,
    String,
    Pointer(Box<Type>),
    Array { len: usize, elem_type: Box<Type> },
    /// The address of code that is called.
    FunctionPointer,
    TypeVar(TypeVarId),
    CustomType(CustomTypeId),
    Struct(StructId),
}

/// Text of a type, in the notation of symbol files (`Pointer<Int>`,
/// `Array<3; Char>`).
pub open spec fn spec_type_text(t: Type) -> Seq<char>
    decreases t,
{
    match t {
        Type::Int => "Int"@,
        Type::Bool => "Bool"@,
        Type::Char => "Char"@,
        Type::Any => "Any"@,
        Type::Truthy => "Truthy"@,
        Type::NumericLiteral => "NumericLiteral"@,
        Type::Nothing => "Nothing"@,
        Type::String => "String"@,
        Type::Pointer(p) => "Pointer<"@ + spec_type_text(*p) + ">"@,
        Type::Array { len, elem_type } => "Array<"@ + spec_uint_text(len as nat) + "; "@
            + spec_type_text(*elem_type) + ">"@,
        Type::FunctionPointer => "FunctionPointer"@,
        Type::TypeVar(v) => "t"@ + spec_uint_text(v.0 as nat),
        Type::CustomType(c) => "CustomType"@ + spec_uint_text(c.0 as nat),
        Type::Struct(s) => "Struct"@ + spec_uint_text(s.0 as nat),
    }
}

impl Type {
    /// Appends the text of the type.
    pub fn append_text(&self, out: &mut String)
        ensures
            final(out)@ == old(out)@ + spec_type_text(*self),
        decreases self,
    {
        let ghost o = out@;
        match self {
            Type::Int => append_str(out, "Int"),
            Type::Bool => append_str(out, "Bool"),
            Type::Char => append_str(out, "Char"),
            Type::Any => append_str(out, "Any"),
            Type::Truthy => append_str(out, "Truthy"),
            Type::NumericLiteral => append_str(out, "NumericLiteral"),
            Type::Nothing => append_str(out, "Nothing"),
            Type::String => append_str(out, "String"),
            Type::Pointer(p) => {
                append_str(out, "Pointer<");
                p.append_text(out);
                append_str(out, ">");
                assert(out@ =~= o + spec_type_text(*self));
            },
            Type::Array { len, elem_type } => {
                append_str(out, "Array<");
                append_str(out, uint_text(*len).as_str());
                append_str(out, "; ");
                elem_type.append_text(out);
                append_str(out, ">");
                assert(out@ =~= o + spec_type_text(*self));
            },
            Type::FunctionPointer => append_str(out, "FunctionPointer"),
            Type::TypeVar(v) => {
                append_str(out, "t");
                append_str(out, uint_text(v.0).as_str());
                assert(out@ =~= o + spec_type_text(*self));
            },
            Type::CustomType(c) => {
                append_str(out, "CustomType");
                append_str(out, uint_text(c.0).as_str());
                assert(out@ =~= o + spec_type_text(*self));
            },
            Type::Struct(s) => {
                append_str(out, "Struct");
                append_str(out, uint_text(s.0).as_str());
                assert(out@ =~= o + spec_type_text(*self));
            },
        }
    }

    /// The text of the type.
    pub fn to_text(&self) -> (r: String)
        ensures
            r@ == spec_type_text(*self),
    {
        let mut s = String::new();
        self.append_text(&mut s);
        assert(s@ =~= spec_type_text(*self));
        s
    }

    /// Whether two types are equal.
    pub fn equals(&self, other: &Type) -> (r: bool)
        ensures
            r == (*self == *other),
        decreases self,
    {
        match (self, other) {
            (Type::Int, Type::Int) => true,
            (Type::Bool, Type::Bool) => true,
            (Type::Char, Type::Char) => true,
            (Type::Any, Type::Any) => true,
            (Type::Truthy, Type::Truthy) => true,
            (Type::NumericLiteral, Type::NumericLiteral) => true,
            (Type::Nothing, Type::Nothing) => true,
            (Type::String, Type::String) => true,
            (Type::Pointer(a), Type::Pointer(b)) => a.equals(b),
            (Type::Array { len: l1, elem_type: e1 }, Type::Array { len: l2, elem_type: e2 }) => {
                *l1 == *l2 && e1.equals(e2)
            },
            (Type::FunctionPointer, Type::FunctionPointer) => true,
            (Type::TypeVar(a), Type::TypeVar(b)) => a.0 == b.0,
            (Type::CustomType(a), Type::CustomType(b)) => a.0 == b.0,
            (Type::Struct(a), Type::Struct(b)) => a.0 == b.0,
            _ => false,
        }
    }

    /// A copy of the type.
    pub fn duplicate(&self) -> (r: Type)
        ensures
            r == *self,
        decreases self,
    {
        match self {
            Type::Int => Type::Int,
            Type::Bool => Type::Bool,
            Type::Char => Type::Char,
            Type::Any => Type::Any,
            Type::Truthy => Type::Truthy,
            Type::NumericLiteral => Type::NumericLiteral,
            Type::Nothing => Type::Nothing,
            Type::String => Type::String,
            Type::Pointer(p) => Type::Pointer(Box::new(p.duplicate())),
            Type::Array { len, elem_type } => Type::Array {
                len: *len,
                elem_type: Box::new(elem_type.duplicate()),
            },
            Type::FunctionPointer => Type::FunctionPointer,
            Type::TypeVar(v) => Type::TypeVar(*v),
            Type::CustomType(c) => Type::CustomType(*c),
            Type::Struct(s) => Type::Struct(*s),
        }
    }
}

impl Clone for Type {
    fn clone(&self) -> (r: Self)
        ensures
            r == *self,
    {
        self.duplicate()
    }
}

} // verus!
