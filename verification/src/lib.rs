//! Static analysis of Intcode programs: decoding, control flow recovery,
//! structured high-level forms, symbol files and pretty printing.
use vstd::prelude::*;

pub mod text;
pub mod assoc;
pub mod scan;
pub mod order;
pub mod low_ir;
pub mod control_flow_graph;
pub mod hlr;
pub mod type_inference;
pub mod value_types;
pub mod symbol_renaming;
pub mod symbol_file;
pub mod code_printer;
pub mod mid_ir;
pub mod mid_flow;
pub mod ssa_form;
pub mod function_parser;
pub mod data_flow_analysis;
pub mod program_analysis;
pub mod discovery;
pub mod assembler;

verus! {

/// Errors of the analysis.
#[derive(Debug)]
pub enum Error {
    AnalysisFailure(String),
}

/// The message of an error: `Analysis failed: ` and the reason.
pub open spec fn error_text(e: Error) -> Seq<char> {
    match e {
        Error::AnalysisFailure(m) => seq!['A', 'n', 'a', 'l', 'y', 's', 'i', 's', ' ', 'f', 'a', 'i', 'l', 'e', 'd', ':', ' '] + m@,
    }
}

impl Error {
    /// The message of the error; see [`error_text`].
    pub fn to_text(&self) -> (r: String)
        ensures
            r@ == error_text(*self),
    {
        match self {
            Error::AnalysisFailure(m) => {
                let mut s = String::new();
                text::append_chars(&mut s, &['A', 'n', 'a', 'l', 'y', 's', 'i', 's', ' ', 'f', 'a', 'i', 'l', 'e', 'd', ':', ' ']);
                text::append_str(&mut s, m.as_str());
                s
            },
        }
    }
}

} // verus!
