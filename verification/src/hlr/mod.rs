//! The high-level representation: statements and expressions of decompiled
//! functions, their traversal, transformation and printing.
pub mod ast;
pub mod pretty_print;
pub mod model;
pub mod optimization;
pub mod visitor;
pub mod transformer;
