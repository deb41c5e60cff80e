//! Operands in static single assignment form: each write of a variable makes
//! a new version of it.
use vstd::prelude::*;
use crate::assoc::{Key, assoc_get, assoc_insert, find_key, keys_distinct, key_index, lemma_key_index};
use crate::control_flow_graph::{Block, BlockId, BlockView, Condition, ControlFlowGraph, FunctionCall, FunctionId, NextKind, blocks_view, next_map};
use crate::low_ir::{Arg, ArgText, GenericInstruction, InstrView, OpArg, Span, instr_map, spec_arg_text};
use crate::data_flow_analysis::{Definition, GraphDataFlow};
use crate::control_flow_graph::{ops_view, pred_block, next_targets, next_defined, block_of, reachable, closed_under_successors, lemma_closed_holds_reachable};
use crate::low_ir::instr_operand_count;
use crate::program_analysis::{FunctionInfo, InfoView, ProgramAnalysis, infos_view};
use crate::text::{append_int, append_uint, push_char, spec_int_text, spec_uint_text};

verus! {

/// What an SSA operand refers to.
#[derive(Clone, Copy, Debug, PartialEq, Hash, Eq, PartialOrd, Ord, Structural)]
pub enum SSAArgKind {
    Value(i128),
    RelativeMem(i128),
    Mem(i128),
    /// The target of a pointer stored at `addr`, in a version of its own.
    Deref { addr: usize, deref_version: usize },
}

impl SSAArgKind {
    pub open spec fn spec_from_arg(arg: Arg) -> SSAArgKind {
        match arg {
            Arg::Value(x) => SSAArgKind::Value(x),
            Arg::RelativeMem(x) => SSAArgKind::RelativeMem(x),
            Arg::Mem(x) => SSAArgKind::Mem(x),
            Arg::Deref(addr) => SSAArgKind::Deref { addr, deref_version: 0 },
        }
    }

    /// The SSA kind of an operand; a patched cell starts at version 0.
    pub fn from_arg(arg: Arg) -> (r: Self)
        ensures
            r == Self::spec_from_arg(arg),
    {
        match arg {
            Arg::Value(x) => SSAArgKind::Value(x),
            Arg::RelativeMem(x) => SSAArgKind::RelativeMem(x),
            Arg::Mem(x) => SSAArgKind::Mem(x),
            Arg::Deref(addr) => SSAArgKind::Deref { addr, deref_version: 0 },
        }
    }
}

/// An operand of a function with its version.
#[derive(Clone, Copy, Debug, PartialEq, Hash, Eq, Structural)]
pub struct SSAArg {
    pub scope: FunctionId,
    pub arg: SSAArgKind,
    pub version: usize,
}

/// The plain operand of an SSA operand.
pub open spec fn spec_as_arg(k: SSAArgKind) -> Arg {
    match k {
        SSAArgKind::Value(x) => Arg::Value(x),
        SSAArgKind::RelativeMem(x) => Arg::RelativeMem(x),
        SSAArgKind::Deref { addr, .. } => Arg::Deref(addr),
        SSAArgKind::Mem(addr) => Arg::Mem(addr),
    }
}

/// The text of an SSA operand: a value without a version, a pointer target
/// as `[[addr]_version]`, anything else as the operand and `_version`.
pub open spec fn spec_ssa_text(a: SSAArg) -> Seq<char> {
    match a.arg {
        SSAArgKind::Value(x) => spec_int_text(x as int),
        SSAArgKind::Deref { addr, deref_version } => seq!['[', '['] + spec_uint_text(addr as nat)
            + seq![']', '_'] + spec_uint_text(deref_version as nat) + seq![']'],
        _ => spec_arg_text(spec_as_arg(a.arg)) + seq!['_'] + spec_uint_text(a.version as nat),
    }
}

impl SSAArg {
    pub fn new(scope: FunctionId, arg: SSAArgKind, version: usize) -> (r: Self)
        ensures
            r == (SSAArg { scope, arg, version }),
    {
        SSAArg { scope, arg, version }
    }

    /// The immediate value, if the operand is one.
    pub fn value(&self) -> (r: Option<i128>)
        ensures
            r == match self.arg {
                SSAArgKind::Value(x) => Some(x),
                _ => None,
            },
    {
        match self.arg {
            SSAArgKind::Value(x) => Some(x),
            _ => None,
        }
    }

    /// The offset from the relative base, if the operand is one.
    pub fn relative_mem(&self) -> (r: Option<i128>)
        ensures
            r == match self.arg {
                SSAArgKind::RelativeMem(x) => Some(x),
                _ => None,
            },
    {
        match self.arg {
            SSAArgKind::RelativeMem(x) => Some(x),
            _ => None,
        }
    }

    /// The plain operand, without versions.
    pub fn as_arg(&self) -> (r: Arg)
        ensures
            r == spec_as_arg(self.arg),
    {
        match self.arg {
            SSAArgKind::Value(x) => Arg::Value(x),
            SSAArgKind::RelativeMem(x) => Arg::RelativeMem(x),
            SSAArgKind::Deref { addr, .. } => Arg::Deref(addr),
            SSAArgKind::Mem(addr) => Arg::Mem(addr),
        }
    }

    /// The text of the operand, such as `42`, `[R+2]_3` or `[[256]_2]`.
    pub fn to_text(&self) -> (r: String)
        ensures
            r@ == spec_ssa_text(*self),
    {
        let mut out = String::new();
        match self.arg {
            SSAArgKind::Value(x) => {
                append_int(&mut out, x);
            },
            SSAArgKind::Deref { addr, deref_version } => {
                push_char(&mut out, '[');
                push_char(&mut out, '[');
                append_uint(&mut out, addr as u128);
                push_char(&mut out, ']');
                push_char(&mut out, '_');
                append_uint(&mut out, deref_version as u128);
                push_char(&mut out, ']');
            },
            _ => {
                self.as_arg().append_text(&mut out);
                push_char(&mut out, '_');
                append_uint(&mut out, self.version as u128);
            },
        }
        assert(out@ =~= spec_ssa_text(*self));
        out
    }
}

impl ArgText for SSAArg {
    open spec fn spec_text(&self) -> Seq<char> {
        spec_ssa_text(*self)
    }

    fn write_text(&self, out: &mut String) {
        let t = self.to_text();
        crate::text::append_str(out, t.as_str());
    }
}

impl Key for SSAArg {
    fn same(&self, other: &Self) -> (r: bool) {
        *self == *other
    }
}

/// The plain operand of a versioned one.
pub open spec fn ssa_erase() -> spec_fn(SSAArg) -> Arg {
    |a: SSAArg| spec_as_arg(a.arg)
}

/// The plain operand of a positioned one.
pub open spec fn op_erase() -> spec_fn(OpArg) -> Arg {
    |a: OpArg| a.kind
}

/// Whether the versioned operations are the operations with each operand
/// replaced by a version of itself, at the same addresses.
pub open spec fn renamed_ops(out: Seq<(usize, InstrView<SSAArg>)>, inp: Seq<(usize, InstrView<OpArg>)>) -> bool {
    &&& out.len() == inp.len()
    &&& forall|i: int| 0 <= i < out.len() ==> (#[trigger] out[i]).0 == inp[i].0 && instr_map(out[i].1, ssa_erase())
        == instr_map(inp[i].1, op_erase())
}

/// A phi function under construction: the version it defines and the
/// versions that reach it from the predecessors handled so far.
pub struct PhiNode {
    pub output: SSAArg,
    pub inputs: Vec<SSAArg>,
}

/// Whether a phi function is one of versions of the operand `k` only.
pub open spec fn phi_of(k: Arg, p: PhiNode) -> bool {
    &&& spec_as_arg(p.output.arg) == k
    &&& forall|i: int| 0 <= i < p.inputs@.len() ==> spec_as_arg((#[trigger] p.inputs@[i]).arg) == k
}

/// Whether each entry of a table from operands to versions holds a version
/// of its own operand, each operand once.
pub open spec fn versions_ok(t: Seq<(Arg, SSAArg)>) -> bool {
    &&& keys_distinct(t)
    &&& forall|j: int| 0 <= j < t.len() ==> spec_as_arg((#[trigger] t[j]).1.arg) == t[j].0 && !(t[j].0 is Deref)
}

pub open spec fn all_versions_ok(vv: Seq<(BlockId, Vec<(Arg, SSAArg)>)>) -> bool {
    &&& keys_distinct(vv)
    &&& forall|i: int| 0 <= i < vv.len() ==> versions_ok((#[trigger] vv[i]).1@)
}

pub open spec fn phis_ok(t: Seq<(Arg, PhiNode)>) -> bool {
    &&& keys_distinct(t)
    &&& forall|j: int| 0 <= j < t.len() ==> phi_of((#[trigger] t[j]).0, t[j].1)
}

pub open spec fn all_phis_ok(pn: Seq<(BlockId, Vec<(Arg, PhiNode)>)>) -> bool {
    &&& keys_distinct(pn)
    &&& forall|i: int| 0 <= i < pn.len() ==> phis_ok((#[trigger] pn[i]).1@)
}

/// The state of a conversion to SSA form.
struct SSAConverter {
    /// The highest version made of each operand.
    current_version: Vec<(Arg, usize)>,
    /// The latest version of each operand at the end of each block.
    var_versions: Vec<(BlockId, Vec<(Arg, SSAArg)>)>,
    /// The address at which each version is written.
    var_locations: Vec<(SSAArg, usize)>,
    /// The phi functions of each block, by operand.
    phi_nodes: Vec<(BlockId, Vec<(Arg, PhiNode)>)>,
    visited: Vec<BlockId>,
    out: ControlFlowGraph<SSAArg>,
    call_arguments: Vec<(BlockId, Vec<SSAArg>)>,
    /// How many versions have been made.
    created: Ghost<nat>,
}

impl SSAConverter {
    spec fn counters_ok(&self) -> bool {
        &&& keys_distinct(self.current_version@)
        &&& forall|i: int| 0 <= i < self.current_version@.len() ==> (#[trigger] self.current_version@[i]).1 <= self.created@
    }

    spec fn tables_ok(&self) -> bool {
        &&& self.counters_ok()
        &&& all_versions_ok(self.var_versions@)
        &&& all_phis_ok(self.phi_nodes@)
    }

    /// Makes a new version of `arg`, written at `offset` in `block`; a
    /// pointer target gets a new version of its pointer cell.
    fn create_new_version_for_arg(&mut self, arg: Arg, block: BlockId, offset: usize, scope: FunctionId) -> (r: SSAArg)
        requires
            old(self).tables_ok(),
            old(self).created@ + 1 <= usize::MAX,
        ensures
            final(self).tables_ok(),
            spec_as_arg(r.arg) == arg,
            final(self).created@ == old(self).created@ + 1,
            final(self).phi_nodes == old(self).phi_nodes,
            final(self).visited == old(self).visited,
            final(self).out == old(self).out,
            final(self).call_arguments == old(self).call_arguments,
            forall|b: BlockId| #[trigger] assoc_get(old(self).var_versions@, b) is Some ==> assoc_get(final(self).var_versions@, b) is Some,
            assoc_get(final(self).var_versions@, block) is Some,
        decreases (if arg is Deref { 1nat } else { 0nat }),
    {
        match arg {
            Arg::Deref(addr) => {
                let mem_arg = Arg::Mem(addr as i128);
                let v = self.create_new_version_for_arg(mem_arg, block, offset, scope);
                SSAArg::new(scope, SSAArgKind::Deref { addr, deref_version: v.version }, 0)
            },
            _ => {
                proof {
                    crate::assoc::lemma_key_index(self.current_version@, arg);
                }
                let cur = match crate::assoc::get_value(&self.current_version, &arg) {
                    Some(c) => *c,
                    None => 0,
                };
                proof {
                    if key_index(self.current_version@, arg) >= 0 {
                        assert(self.current_version@[key_index(self.current_version@, arg)].1 <= self.created@);
                    }
                }
                let new_version = cur + 1;
                let ghost cv0 = self.current_version@;
                crate::assoc::insert_value(&mut self.current_version, arg, new_version);
                proof {
                    crate::assoc::lemma_insert_distinct(cv0, arg, new_version);
                    self.created = Ghost(self.created@ + 1);
                    crate::assoc::lemma_key_index(cv0, arg);
                    assert forall|i: int| 0 <= i < self.current_version@.len() implies (#[trigger] self.current_version@[i]).1 <= self.created@ by {
                        if i < cv0.len() && i != key_index(cv0, arg) {
                            assert(self.current_version@[i] == cv0[i]);
                        }
                    }
                }
                let new_arg = SSAArg::new(scope, SSAArgKind::from_arg(arg), new_version);
                self.set_version(block, arg, new_arg);
                let ghost vl = self.var_locations@;
                crate::assoc::insert_value(&mut self.var_locations, new_arg, offset);
                new_arg
            },
        }
    }

    /// Records `v` as the latest version of `arg` in `block`.
    fn set_version(&mut self, block: BlockId, arg: Arg, v: SSAArg)
        requires
            all_versions_ok(old(self).var_versions@),
            spec_as_arg(v.arg) == arg,
            !(arg is Deref),
        ensures
            all_versions_ok(final(self).var_versions@),
            final(self).current_version == old(self).current_version,
            final(self).var_locations == old(self).var_locations,
            final(self).phi_nodes == old(self).phi_nodes,
            final(self).visited == old(self).visited,
            final(self).out == old(self).out,
            final(self).call_arguments == old(self).call_arguments,
            final(self).created == old(self).created,
            forall|b: BlockId| #[trigger] assoc_get(old(self).var_versions@, b) is Some ==> assoc_get(final(self).var_versions@, b) is Some,
            assoc_get(final(self).var_versions@, block) is Some,
            version_in(final(self).var_versions@, block, arg) == Some(v),
            forall|b2: BlockId, a2: Arg|
                !(b2 == block && a2 == arg) && (b2 == block || assoc_get(old(self).var_versions@, b2) is Some) ==> #[trigger] version_in(
                    final(self).var_versions@,
                    b2,
                    a2,
                ) == if assoc_get(old(self).var_versions@, b2) is Some {
                    version_in(old(self).var_versions@, b2, a2)
                } else {
                    None
                },
    {
        let ghost vv = self.var_versions@;
        proof {
            lemma_key_index(vv, block);
        }
        let ghost mut inner_old: Seq<(Arg, SSAArg)> = Seq::empty();
        let ghost mut newv: Vec<(Arg, SSAArg)>;
        match find_key(&self.var_versions, &block) {
            Some(i) => {
                let ghost t0 = self.var_versions@[i as int].1@;
                proof {
                    inner_old = t0;
                }
                assert(versions_ok(t0));
                let entry = &mut self.var_versions[i];
                crate::assoc::insert_value(&mut entry.1, arg, v);
                proof {
                    newv = self.var_versions@[i as int].1;
                    assert(self.var_versions@ =~= assoc_insert(vv, block, newv));
                    crate::assoc::lemma_insert_distinct(t0, arg, v);
                    lemma_key_index(t0, arg);
                    let t1 = self.var_versions@[i as int].1@;
                    assert forall|j: int| 0 <= j < t1.len() implies spec_as_arg((#[trigger] t1[j]).1.arg) == t1[j].0 && !(t1[j].0 is Deref) by {
                        if j < t0.len() && j != key_index(t0, arg) {
                            assert(t1[j] == t0[j]);
                        }
                    }
                    assert forall|k: int| 0 <= k < self.var_versions@.len() implies versions_ok((#[trigger] self.var_versions@[k]).1@) by {
                        if k != i {
                            assert(self.var_versions@[k] == vv[k]);
                        }
                    }
                    assert forall|b: BlockId| #[trigger] assoc_get(vv, b) is Some implies assoc_get(self.var_versions@, b) is Some by {
                        crate::assoc::lemma_key_index_keys(vv, self.var_versions@, b);
                        lemma_key_index(vv, b);
                    }
                    crate::assoc::lemma_key_index_keys(vv, self.var_versions@, block);
                }
            },
            None => {
                let mut t: Vec<(Arg, SSAArg)> = Vec::new();
                t.push((arg, v));
                proof {
                    newv = t;
                    assert(t@ =~= assoc_insert(inner_old, arg, v));
                }
                self.var_versions.push((block, t));
                proof {
                    assert(self.var_versions@ =~= assoc_insert(vv, block, newv));
                    assert forall|k: int| 0 <= k < self.var_versions@.len() implies versions_ok((#[trigger] self.var_versions@[k]).1@) by {
                        if k < vv.len() {
                            assert(self.var_versions@[k] == vv[k]);
                        }
                    }
                    assert forall|b: BlockId| #[trigger] assoc_get(vv, b) is Some implies assoc_get(self.var_versions@, b) is Some by {
                        lemma_key_index(vv, b);
                        lemma_key_index(self.var_versions@, b);
                        assert(self.var_versions@[key_index(vv, b)].0 == b);
                    }
                    lemma_key_index(self.var_versions@, block);
                    assert(self.var_versions@[vv.len() as int].0 == block);
                }
            },
        }
        proof {
            assert(self.var_versions@ == assoc_insert(vv, block, newv));
            assert(newv@ == assoc_insert(inner_old, arg, v));
            assert(assoc_get(vv, block) is Some ==> assoc_get(vv, block)->Some_0@ == inner_old);
            crate::assoc::lemma_get_insert(vv, block, newv, block);
            crate::assoc::lemma_get_insert(inner_old, arg, v, arg);
            assert forall|b2: BlockId, a2: Arg|
                !(b2 == block && a2 == arg) && (b2 == block || assoc_get(vv, b2) is Some) implies #[trigger] version_in(
                    self.var_versions@,
                    b2,
                    a2,
                ) == if assoc_get(vv, b2) is Some {
                    version_in(vv, b2, a2)
                } else {
                    None
                } by {
                crate::assoc::lemma_get_insert(vv, block, newv, b2);
                crate::assoc::lemma_get_insert(inner_old, arg, v, a2);
                if b2 == block && assoc_get(vv, b2) is None {
                    crate::assoc::lemma_key_index(inner_old, a2);
                }
            }
        }
    }
}

/// The latest version of `arg` recorded at the end of `block`.
pub open spec fn version_in(vv: Seq<(BlockId, Vec<(Arg, SSAArg)>)>, block: BlockId, arg: Arg) -> Option<SSAArg> {
    assoc_get(assoc_get(vv, block)->Some_0@, arg)
}

/// The version of `arg` current at the end of `block`: its recorded one; for
/// a pointer target, one that names the current version of its pointer cell.
pub open spec fn current_version_in(vv: Seq<(BlockId, Vec<(Arg, SSAArg)>)>, block: BlockId, arg: Arg, scope: FunctionId) -> Option<SSAArg> {
    match arg {
        Arg::Deref(addr) => match version_in(vv, block, Arg::Mem(addr as i128)) {
            Some(v) => Some(SSAArg { scope, arg: SSAArgKind::Deref { addr, deref_version: v.version }, version: 0 }),
            None => None,
        },
        _ => version_in(vv, block, arg),
    }
}

impl SSAConverter {
    /// The version of `arg` current at the end of `block`, if it has one; a
    /// pointer target has one when its pointer cell has.
    fn get_current_version_of_arg_in_block(&self, arg: Arg, block_id: BlockId, scope: FunctionId) -> (r: Option<SSAArg>)
        requires
            all_versions_ok(self.var_versions@),
            assoc_get(self.var_versions@, block_id) is Some,
        ensures
            r matches Some(v) ==> spec_as_arg(v.arg) == arg,
            r == current_version_in(self.var_versions@, block_id, arg, scope),
        decreases (if arg is Deref { 1nat } else { 0nat }),
    {
        match arg {
            Arg::Deref(addr) => {
                match self.get_current_version_of_arg_in_block(Arg::Mem(addr as i128), block_id, scope) {
                    Some(v) => Some(SSAArg { scope, arg: SSAArgKind::Deref { addr, deref_version: v.version }, version: 0 }),
                    None => None,
                }
            },
            _ => {
                proof {
                    lemma_key_index(self.var_versions@, block_id);
                }
                let i = match find_key(&self.var_versions, &block_id) {
                    Some(i) => i,
                    None => {
                        assert(false);
                        return None;
                    },
                };
                let t = &self.var_versions[i].1;
                assert(versions_ok(t@));
                proof {
                    lemma_key_index(t@, arg);
                }
                match find_key(t, &arg) {
                    Some(j) => Some(t[j].1),
                    None => None,
                }
            },
        }
    }

    /// The current version of `arg` in `block`, or a new one read at
    /// `offset`.
    fn get_or_create_new_version_for_arg(&mut self, arg: Arg, block_id: BlockId, offset: usize, scope: FunctionId) -> (r: SSAArg)
        requires
            old(self).tables_ok(),
            old(self).created@ + 1 <= usize::MAX,
            assoc_get(old(self).var_versions@, block_id) is Some,
        ensures
            final(self).tables_ok(),
            spec_as_arg(r.arg) == arg,
            final(self).created@ <= old(self).created@ + 1,
            final(self).created@ >= old(self).created@,
            final(self).phi_nodes == old(self).phi_nodes,
            final(self).visited == old(self).visited,
            final(self).out == old(self).out,
            final(self).call_arguments == old(self).call_arguments,
            forall|b: BlockId| #[trigger] assoc_get(old(self).var_versions@, b) is Some ==> assoc_get(final(self).var_versions@, b) is Some,
    {
        match self.get_current_version_of_arg_in_block(arg, block_id, scope) {
            Some(v) => v,
            None => self.create_new_version_for_arg(arg, block_id, offset, scope),
        }
    }

    /// The instruction at `addr` of `block_id` with each operand replaced by
    /// a version: reads first, by their current versions, then writes, by new
    /// ones.
    fn rename_op(&mut self, block_id: BlockId, addr: usize, op: &GenericInstruction<OpArg>, scope: FunctionId) -> (r: GenericInstruction<SSAArg>)
        requires
            old(self).tables_ok(),
            old(self).created@ + crate::low_ir::instr_operand_count(op@) <= usize::MAX,
            assoc_get(old(self).var_versions@, block_id) is Some,
        ensures
            final(self).tables_ok(),
            instr_map(r@, ssa_erase()) == instr_map(op@, op_erase()),
            old(self).created@ <= final(self).created@ <= old(self).created@ + crate::low_ir::instr_operand_count(op@),
            final(self).phi_nodes == old(self).phi_nodes,
            final(self).visited == old(self).visited,
            final(self).out == old(self).out,
            final(self).call_arguments == old(self).call_arguments,
            forall|b: BlockId| #[trigger] assoc_get(old(self).var_versions@, b) is Some ==> assoc_get(final(self).var_versions@, b) is Some,
    {
        let r = match op {
            GenericInstruction::Add(a, b, c) => {
                let x = self.get_or_create_new_version_for_arg(a.kind, block_id, addr, scope);
                let y = self.get_or_create_new_version_for_arg(b.kind, block_id, addr, scope);
                let z = self.create_new_version_for_arg(c.kind, block_id, addr, scope);
                GenericInstruction::Add(x, y, z)
            },
            GenericInstruction::Mul(a, b, c) => {
                let x = self.get_or_create_new_version_for_arg(a.kind, block_id, addr, scope);
                let y = self.get_or_create_new_version_for_arg(b.kind, block_id, addr, scope);
                let z = self.create_new_version_for_arg(c.kind, block_id, addr, scope);
                GenericInstruction::Mul(x, y, z)
            },
            GenericInstruction::Input(a) => {
                let x = self.create_new_version_for_arg(a.kind, block_id, addr, scope);
                GenericInstruction::Input(x)
            },
            GenericInstruction::Output(a) => {
                let x = self.get_or_create_new_version_for_arg(a.kind, block_id, addr, scope);
                GenericInstruction::Output(x)
            },
            GenericInstruction::JumpIf(a, cond, c) => {
                let x = self.get_or_create_new_version_for_arg(a.kind, block_id, addr, scope);
                let z = self.get_or_create_new_version_for_arg(c.kind, block_id, addr, scope);
                GenericInstruction::JumpIf(x, *cond, z)
            },
            GenericInstruction::LessThan(a, b, c) => {
                let x = self.get_or_create_new_version_for_arg(a.kind, block_id, addr, scope);
                let y = self.get_or_create_new_version_for_arg(b.kind, block_id, addr, scope);
                let z = self.create_new_version_for_arg(c.kind, block_id, addr, scope);
                GenericInstruction::LessThan(x, y, z)
            },
            GenericInstruction::Equals(a, b, c) => {
                let x = self.get_or_create_new_version_for_arg(a.kind, block_id, addr, scope);
                let y = self.get_or_create_new_version_for_arg(b.kind, block_id, addr, scope);
                let z = self.create_new_version_for_arg(c.kind, block_id, addr, scope);
                GenericInstruction::Equals(x, y, z)
            },
            GenericInstruction::AdjustRelativeBase(a) => {
                let x = self.get_or_create_new_version_for_arg(a.kind, block_id, addr, scope);
                GenericInstruction::AdjustRelativeBase(x)
            },
            GenericInstruction::Data(v) => {
                let mut w: Vec<i128> = Vec::new();
                let mut k: usize = 0;
                while k < v.len()
                    invariant
                        k <= v@.len(),
                        w@ == v@.take(k as int),
                    decreases v.len() - k,
                {
                    w.push(v[k]);
                    k = k + 1;
                    assert(w@ =~= v@.take(k as int));
                }
                assert(w@ =~= v@);
                GenericInstruction::Data(w)
            },
            GenericInstruction::Halt => GenericInstruction::Halt,
            GenericInstruction::Goto(a) => {
                let x = self.get_or_create_new_version_for_arg(a.kind, block_id, addr, scope);
                GenericInstruction::Goto(x)
            },
            GenericInstruction::Assign(a, b) => {
                let y = self.get_or_create_new_version_for_arg(b.kind, block_id, addr, scope);
                let x = self.create_new_version_for_arg(a.kind, block_id, addr, scope);
                GenericInstruction::Assign(x, y)
            },
            GenericInstruction::Phi(a, v) => {
                let ghost c0 = self.created@;
                let mut w: Vec<SSAArg> = Vec::new();
                let mut k: usize = 0;
                while k < v.len()
                    invariant
                        k <= v@.len(),
                        self.tables_ok(),
                        c0 <= self.created@ <= c0 + k,
                        c0 + 1 + v@.len() <= usize::MAX,
                        assoc_get(self.var_versions@, block_id) is Some,
                        w@.len() == k,
                        forall|j: int| 0 <= j < k ==> spec_as_arg((#[trigger] w@[j]).arg) == v@[j].kind,
                        self.phi_nodes == old(self).phi_nodes,
                        self.visited == old(self).visited,
                        self.out == old(self).out,
                        self.call_arguments == old(self).call_arguments,
                        forall|b: BlockId| #[trigger] assoc_get(old(self).var_versions@, b) is Some ==> assoc_get(self.var_versions@, b) is Some,
                    decreases v.len() - k,
                {
                    let x = self.get_or_create_new_version_for_arg(v[k].kind, block_id, addr, scope);
                    w.push(x);
                    k = k + 1;
                }
                let x = self.create_new_version_for_arg(a.kind, block_id, addr, scope);
                assert(w@.map_values(ssa_erase()) =~= v@.map_values(op_erase()));
                GenericInstruction::Phi(x, w)
            },
        };
        r
    }
}

/// Whether the data flow has an entry for each block and for each
/// predecessor named in the graph.
pub open spec fn flow_covers(cf: ControlFlowGraph<OpArg>, df: GraphDataFlow<OpArg>) -> bool {
    &&& forall|i: int| 0 <= i < cf.blocks@.len() ==> #[trigger] assoc_get(df.block_defs@, cf.blocks@[i].0) is Some
    &&& forall|i: int, j: int|
        0 <= i < cf.blocks@.len() && 0 <= j < cf.blocks@[i].1.predecessors@.len() ==> #[trigger] assoc_get(
            df.block_defs@,
            pred_block(cf.blocks@[i].1.predecessors@[j]),
        ) is Some
}

/// Whether no definition reaching a block is of an immediate value.
pub open spec fn no_value_definitions(df: GraphDataFlow<OpArg>) -> bool {
    forall|i: int, k: int|
        0 <= i < df.block_defs@.len() && 0 <= k < df.block_defs@[i].1.defs_in@.len() ==> !((
        #[trigger] df.block_defs@[i].1.defs_in@[k]).arg.kind is Value)
}

/// The number of definitions reaching the block `id`.
pub open spec fn defs_in_count(df: GraphDataFlow<OpArg>, id: BlockId) -> nat {
    match assoc_get(df.block_defs@, id) {
        Some(d) => d.defs_in@.len(),
        None => 0,
    }
}

/// Whether `v` holds `d`.
fn has_definition(v: &Vec<Definition<OpArg>>, d: &Definition<OpArg>) -> (r: bool)
    ensures
        r == v@.contains(*d),
{
    let mut i: usize = 0;
    while i < v.len()
        invariant
            i <= v@.len(),
            forall|j: int| 0 <= j < i ==> v@[j] != *d,
        decreases v.len() - i,
    {
        if v[i].same(d) {
            return true;
        }
        i = i + 1;
    }
    false
}

/// Whether `v` holds `a`.
fn has_op_arg(v: &Vec<OpArg>, a: &OpArg) -> (r: bool)
    ensures
        r == v@.contains(*a),
{
    let mut i: usize = 0;
    while i < v.len()
        invariant
            i <= v@.len(),
            forall|j: int| 0 <= j < i ==> v@[j] != *a,
        decreases v.len() - i,
    {
        if v[i].same(a) {
            return true;
        }
        i = i + 1;
    }
    false
}

/// The definitions that leave the block `b`.
pub open spec fn defs_out_at(df: GraphDataFlow<OpArg>, b: BlockId) -> Seq<Definition<OpArg>> {
    assoc_get(df.block_defs@, b)->Some_0.defs_out@
}

/// The definitions that leave the `p`-th predecessor of the block at `bi`.
pub open spec fn pred_defs(cf: ControlFlowGraph<OpArg>, df: GraphDataFlow<OpArg>, bi: int, p: int) -> Seq<Definition<OpArg>> {
    defs_out_at(df, pred_block(cf.blocks@[bi].1.predecessors@[p]))
}

/// Whether `d`, a definition of `kind`, leaves one of the first `n`
/// predecessors of the block at `bi`.
pub open spec fn reaches_upto(cf: ControlFlowGraph<OpArg>, df: GraphDataFlow<OpArg>, bi: int, kind: Arg, d: Definition<OpArg>, n: int) -> bool {
    &&& d.arg.kind == kind
    &&& exists|p: int| 0 <= p < n && #[trigger] pred_defs(cf, df, bi, p).contains(d)
}

/// Whether no definition of `kind` leaves the `p`-th predecessor.
pub open spec fn pred_lacks(cf: ControlFlowGraph<OpArg>, df: GraphDataFlow<OpArg>, bi: int, kind: Arg, p: int) -> bool {
    forall|q: int| 0 <= q < pred_defs(cf, df, bi, p).len() ==> (#[trigger] pred_defs(cf, df, bi, p)[q]).arg.kind != kind
}

/// Whether one of the first `n` predecessors has no definition of `kind`.
pub open spec fn some_pred_lacks(cf: ControlFlowGraph<OpArg>, df: GraphDataFlow<OpArg>, bi: int, kind: Arg, n: int) -> bool {
    exists|p: int| 0 <= p < n && #[trigger] pred_lacks(cf, df, bi, kind, p)
}

/// Whether the block at `bi` needs a phi function for `kind`: it is not a
/// pointer target, the block has several predecessors, and the definitions
/// of it that leave them are several, or some leave one and another none.
pub open spec fn needs_phi(cf: ControlFlowGraph<OpArg>, df: GraphDataFlow<OpArg>, bi: int, kind: Arg) -> bool {
    let n = cf.blocks@[bi].1.predecessors@.len() as int;
    &&& !(kind is Deref)
    &&& n > 1
    &&& ((exists|d1: Definition<OpArg>, d2: Definition<OpArg>|
        d1 != d2 && #[trigger] reaches_upto(cf, df, bi, kind, d1, n) && #[trigger] reaches_upto(cf, df, bi, kind, d2, n))
        || ((exists|d: Definition<OpArg>| #[trigger] reaches_upto(cf, df, bi, kind, d, n)) && some_pred_lacks(cf, df, bi, kind, n)))
}

/// Whether the block at `block_idx` needs a phi function for `arg`.
fn block_needs_phi_function(cf: &ControlFlowGraph<OpArg>, df: &GraphDataFlow<OpArg>, block_idx: usize, arg: &OpArg) -> (r: bool)
    requires
        block_idx < cf.blocks@.len(),
        flow_covers(*cf, *df),
    ensures
        r == needs_phi(*cf, *df, block_idx as int, arg.kind),
{
    if let Arg::Deref(_) = arg.kind {
        return false;
    }
    let preds = &cf.blocks[block_idx].1.predecessors;
    if preds.len() <= 1 {
        return false;
    }
    let ghost bi = block_idx as int;
    let ghost kind = arg.kind;
    let mut has_empty = false;
    let mut def_set: Vec<Definition<OpArg>> = Vec::new();
    let mut p: usize = 0;
    while p < preds.len()
        invariant
            block_idx < cf.blocks@.len(),
            bi == block_idx,
            kind == arg.kind,
            flow_covers(*cf, *df),
            *preds == cf.blocks@[block_idx as int].1.predecessors,
            p <= preds@.len(),
            forall|a: int, b: int| 0 <= a < b < def_set@.len() ==> def_set@[a] != def_set@[b],
            forall|x: Definition<OpArg>| #[trigger] def_set@.contains(x) <==> reaches_upto(*cf, *df, bi, kind, x, p as int),
            has_empty <==> some_pred_lacks(*cf, *df, bi, kind, p as int),
        decreases preds.len() - p,
    {
        let pid = preds[p].block_id();
        assert(assoc_get(df.block_defs@, pred_block(cf.blocks@[block_idx as int].1.predecessors@[p as int])) is Some);
        let bd = match crate::assoc::get_value(&df.block_defs, &pid) {
            Some(bd) => bd,
            None => {
                assert(false);
                return false;
            },
        };
        assert(bd.defs_out@ == pred_defs(*cf, *df, bi, p as int));
        let ghost ds0 = def_set@;
        let mut count: usize = 0;
        let mut k: usize = 0;
        while k < bd.defs_out.len()
            invariant
                k <= bd.defs_out@.len(),
                count <= k,
                kind == arg.kind,
                bd.defs_out@ == pred_defs(*cf, *df, bi, p as int),
                count == 0 <==> forall|q: int| 0 <= q < k ==> (#[trigger] bd.defs_out@[q]).arg.kind != kind,
                forall|a: int, b: int| 0 <= a < b < def_set@.len() ==> def_set@[a] != def_set@[b],
                forall|x: Definition<OpArg>| #[trigger] def_set@.contains(x) <==> (ds0.contains(x) || (x.arg.kind == kind
                    && bd.defs_out@.take(k as int).contains(x))),
            decreases bd.defs_out.len() - k,
        {
            let d = &bd.defs_out[k];
            let ghost ds1 = def_set@;
            if d.arg.kind == arg.kind {
                count = count + 1;
                if !has_definition(&def_set, d) {
                    def_set.push(*d);
                    proof {
                        assert forall|a: int, b: int| 0 <= a < b < def_set@.len() implies def_set@[a] != def_set@[b] by {
                            if b == ds1.len() {
                                assert(ds1.contains(def_set@[a]));
                            }
                        }
                    }
                }
            }
            proof {
                assert(bd.defs_out@.take(k + 1) =~= bd.defs_out@.take(k as int).push(*d));
                assert forall|x: Definition<OpArg>| #[trigger] def_set@.contains(x) <==> (ds0.contains(x) || (x.arg.kind == kind
                    && bd.defs_out@.take(k + 1).contains(x))) by {
                    let t0 = bd.defs_out@.take(k as int);
                    let t1 = bd.defs_out@.take(k + 1);
                    assert(def_set@ == ds1 || def_set@ == ds1.push(*d));
                    assert(def_set@ == ds1.push(*d) ==> d.arg.kind == kind);
                    assert(def_set@ == ds1 && d.arg.kind == kind ==> ds1.contains(*d));
                    assert(t1[k as int] == *d);
                    if def_set@ == ds1.push(*d) {
                        assert(def_set@[ds1.len() as int] == *d);
                    }
                    if t0.contains(x) {
                        let w = choose|w: int| 0 <= w < t0.len() && t0[w] == x;
                        assert(t1[w] == x);
                    }
                    if ds1.contains(x) {
                        let w = choose|w: int| 0 <= w < ds1.len() && ds1[w] == x;
                        assert(def_set@[w] == x);
                    }
                    if def_set@.contains(x) && !ds1.contains(x) {
                        let w = choose|w: int| 0 <= w < def_set@.len() && def_set@[w] == x;
                        assert(x == *d);
                    }
                    if t1.contains(x) && !t0.contains(x) {
                        let w = choose|w: int| 0 <= w < t1.len() && t1[w] == x;
                        if w < k {
                            assert(t0[w] == x);
                        }
                        assert(x == *d);
                    }
                    assert(ds1.contains(x) <==> (ds0.contains(x) || (x.arg.kind == kind && t0.contains(x))));
                    if def_set@.contains(x) {
                        assert(ds0.contains(x) || (x.arg.kind == kind && t1.contains(x)));
                    }
                    if ds0.contains(x) || (x.arg.kind == kind && t1.contains(x)) {
                        assert(def_set@.contains(x));
                    }
                }
            }
            k = k + 1;
        }
        proof {
            assert(bd.defs_out@.take(k as int) =~= bd.defs_out@);
            assert((count == 0) == pred_lacks(*cf, *df, bi, kind, p as int));
            assert forall|x: Definition<OpArg>| #[trigger] def_set@.contains(x) <==> reaches_upto(*cf, *df, bi, kind, x, p + 1) by {
                if reaches_upto(*cf, *df, bi, kind, x, p + 1) {
                    let w = choose|w: int| 0 <= w < p + 1 && #[trigger] pred_defs(*cf, *df, bi, w).contains(x);
                    if w < p {
                        assert(reaches_upto(*cf, *df, bi, kind, x, p as int));
                    }
                }
                if reaches_upto(*cf, *df, bi, kind, x, p as int) {
                    let w = choose|w: int| 0 <= w < p && #[trigger] pred_defs(*cf, *df, bi, w).contains(x);
                    assert(0 <= w < p + 1 && pred_defs(*cf, *df, bi, w).contains(x));
                }
                if bd.defs_out@.contains(x) {
                    assert(pred_defs(*cf, *df, bi, p as int).contains(x));
                }
            }
        }
        if count == 0 {
            has_empty = true;
        }
        proof {
            if some_pred_lacks(*cf, *df, bi, kind, p + 1) {
                let w = choose|w: int| 0 <= w < p + 1 && #[trigger] pred_lacks(*cf, *df, bi, kind, w);
                if w < p {
                    assert(some_pred_lacks(*cf, *df, bi, kind, p as int));
                }
            }
            if some_pred_lacks(*cf, *df, bi, kind, p as int) {
                let w = choose|w: int| 0 <= w < p && #[trigger] pred_lacks(*cf, *df, bi, kind, w);
                assert(0 <= w < p + 1 && pred_lacks(*cf, *df, bi, kind, w));
            }
            if count == 0 {
                assert(pred_lacks(*cf, *df, bi, kind, p as int));
            }
        }
        p = p + 1;
    }
    let r = def_set.len() > 1 || (def_set.len() > 0 && has_empty);
    proof {
        let n = preds@.len() as int;
        if def_set@.len() > 1 {
            assert(def_set@.contains(def_set@[0]));
            assert(def_set@.contains(def_set@[1]));
            assert(reaches_upto(*cf, *df, bi, kind, def_set@[0], n));
            assert(reaches_upto(*cf, *df, bi, kind, def_set@[1], n));
        }
        if def_set@.len() > 0 {
            assert(def_set@.contains(def_set@[0]));
            assert(reaches_upto(*cf, *df, bi, kind, def_set@[0], n));
        }
        if exists|d1: Definition<OpArg>, d2: Definition<OpArg>|
            d1 != d2 && #[trigger] reaches_upto(*cf, *df, bi, kind, d1, n) && #[trigger] reaches_upto(*cf, *df, bi, kind, d2, n) {
            let (d1, d2) = choose|d1: Definition<OpArg>, d2: Definition<OpArg>|
                d1 != d2 && #[trigger] reaches_upto(*cf, *df, bi, kind, d1, n) && #[trigger] reaches_upto(*cf, *df, bi, kind, d2, n);
            assert(def_set@.contains(d1));
            assert(def_set@.contains(d2));
            if def_set@.len() <= 1 {
                let w1 = choose|w: int| 0 <= w < def_set@.len() && def_set@[w] == d1;
                let w2 = choose|w: int| 0 <= w < def_set@.len() && def_set@[w] == d2;
            }
        }
        if exists|d: Definition<OpArg>| #[trigger] reaches_upto(*cf, *df, bi, kind, d, n) {
            let d = choose|d: Definition<OpArg>| #[trigger] reaches_upto(*cf, *df, bi, kind, d, n);
            assert(def_set@.contains(d));
        }
    }
    r
}

/// The phi function for `k` in block `b`, if there is one.
pub open spec fn phi_at(pn: Seq<(BlockId, Vec<(Arg, PhiNode)>)>, b: BlockId, k: Arg) -> Option<PhiNode> {
    match assoc_get(pn, b) {
        Some(t) => assoc_get(t@, k),
        None => None,
    }
}

/// The definitions that reach the block `b`.
pub open spec fn defs_in_at(df: GraphDataFlow<OpArg>, b: BlockId) -> Seq<Definition<OpArg>> {
    assoc_get(df.block_defs@, b)->Some_0.defs_in@
}

/// Whether one of the first `n` definitions reaching `b` is of `kind`.
pub open spec fn defined_upto(df: GraphDataFlow<OpArg>, b: BlockId, kind: Arg, n: int) -> bool {
    exists|q: int| 0 <= q < n && (#[trigger] defs_in_at(df, b)[q]).arg.kind == kind
}

/// Whether the block at `bi` gets a phi function for `kind`: a definition
/// of it reaches the block, and the block needs one.
pub open spec fn gets_phi(cf: ControlFlowGraph<OpArg>, df: GraphDataFlow<OpArg>, bi: int, kind: Arg) -> bool {
    &&& defined_upto(df, cf.blocks@[bi].0, kind, defs_in_at(df, cf.blocks@[bi].0).len() as int)
    &&& needs_phi(cf, df, bi, kind)
}

impl SSAConverter {
    /// Records a phi function with no inputs yet for `k` in `block`.
    fn set_phi(&mut self, block: BlockId, k: Arg, output: SSAArg)
        requires
            all_phis_ok(old(self).phi_nodes@),
            spec_as_arg(output.arg) == k,
        ensures
            all_phis_ok(final(self).phi_nodes@),
            final(self).current_version == old(self).current_version,
            final(self).var_versions == old(self).var_versions,
            final(self).var_locations == old(self).var_locations,
            final(self).visited == old(self).visited,
            final(self).out == old(self).out,
            final(self).call_arguments == old(self).call_arguments,
            final(self).created == old(self).created,
            forall|keys: Seq<BlockId>| phi_blocks_in(old(self).phi_nodes@, keys) && keys.contains(block) ==> #[trigger] phi_blocks_in(final(self).phi_nodes@, keys),
            forall|vv: Seq<(BlockId, Vec<(Arg, SSAArg)>)>|
                phi_blocks_versioned(old(self).phi_nodes@, vv) && assoc_get(vv, block) is Some ==> #[trigger] phi_blocks_versioned(final(self).phi_nodes@, vv),
            phi_at(final(self).phi_nodes@, block, k) is Some,
            phi_at(final(self).phi_nodes@, block, k)->Some_0.output == output,
            phi_at(final(self).phi_nodes@, block, k)->Some_0.inputs@.len() == 0,
            forall|b2: BlockId, k2: Arg|
                !(b2 == block && k2 == k) ==> #[trigger] phi_at(final(self).phi_nodes@, b2, k2) == phi_at(old(self).phi_nodes@, b2, k2),
            forall|b2: BlockId|
                #[trigger] assoc_get(final(self).phi_nodes@, b2) is Some <==> (b2 == block || assoc_get(old(self).phi_nodes@, b2) is Some),
    {
        let ghost pn = self.phi_nodes@;
        let node = PhiNode { output, inputs: Vec::new() };
        assert(phi_of(k, node));
        proof {
            lemma_key_index(pn, block);
        }
        let ghost mut inner_old: Seq<(Arg, PhiNode)> = Seq::empty();
        let ghost mut newv: Vec<(Arg, PhiNode)>;
        match find_key(&self.phi_nodes, &block) {
            Some(i) => {
                let ghost t0 = self.phi_nodes@[i as int].1@;
                proof {
                    inner_old = t0;
                }
                assert(phis_ok(t0));
                let entry = &mut self.phi_nodes[i];
                crate::assoc::insert_value(&mut entry.1, k, node);
                proof {
                    newv = self.phi_nodes@[i as int].1;
                    assert(self.phi_nodes@ =~= assoc_insert(pn, block, newv));
                    crate::assoc::lemma_insert_distinct(t0, k, node);
                    lemma_key_index(t0, k);
                    let t1 = self.phi_nodes@[i as int].1@;
                    assert forall|j: int| 0 <= j < t1.len() implies phi_of((#[trigger] t1[j]).0, t1[j].1) by {
                        if j < t0.len() && j != key_index(t0, k) {
                            assert(t1[j] == t0[j]);
                        }
                    }
                    assert forall|q: int| 0 <= q < self.phi_nodes@.len() implies phis_ok((#[trigger] self.phi_nodes@[q]).1@) by {
                        if q != i {
                            assert(self.phi_nodes@[q] == pn[q]);
                        }
                    }
                    crate::assoc::lemma_key_index_keys(pn, self.phi_nodes@, block);
                    assert forall|q: int| 0 <= q < pn.len() implies self.phi_nodes@[q].0 == pn[q].0 by {
                        if q != i {
                            assert(self.phi_nodes@[q] == pn[q]);
                        }
                    }
                }
            },
            None => {
                let mut t: Vec<(Arg, PhiNode)> = Vec::new();
                t.push((k, node));
                proof {
                    newv = t;
                    assert(t@ =~= assoc_insert(inner_old, k, node));
                }
                self.phi_nodes.push((block, t));
                proof {
                    assert(self.phi_nodes@ =~= assoc_insert(pn, block, newv));
                    assert forall|q: int| 0 <= q < self.phi_nodes@.len() implies phis_ok((#[trigger] self.phi_nodes@[q]).1@) by {
                        if q < pn.len() {
                            assert(self.phi_nodes@[q] == pn[q]);
                        }
                    }
                }
            },
        }
        proof {
            assert forall|q: int| 0 <= q < self.phi_nodes@.len() implies self.phi_nodes@[q].0 == block || (q < pn.len() && self.phi_nodes@[q].0 == pn[q].0) by {
                if q < pn.len() {
                    if self.phi_nodes@[q].0 != pn[q].0 {
                        assert(self.phi_nodes@[q].0 == block);
                    }
                }
            }
            assert(self.phi_nodes@ == assoc_insert(pn, block, newv));
            assert(newv@ == assoc_insert(inner_old, k, node));
            assert(assoc_get(pn, block) is Some ==> assoc_get(pn, block)->Some_0@ == inner_old);
            assert(assoc_get(pn, block) is None ==> inner_old == Seq::<(Arg, PhiNode)>::empty());
            crate::assoc::lemma_get_insert(pn, block, newv, block);
            crate::assoc::lemma_get_insert(inner_old, k, node, k);
            assert forall|b2: BlockId, k2: Arg|
                !(b2 == block && k2 == k) implies #[trigger] phi_at(self.phi_nodes@, b2, k2) == phi_at(pn, b2, k2) by {
                crate::assoc::lemma_get_insert(pn, block, newv, b2);
                crate::assoc::lemma_get_insert(inner_old, k, node, k2);
            }
            assert forall|b2: BlockId|
                #[trigger] assoc_get(self.phi_nodes@, b2) is Some <==> (b2 == block || assoc_get(pn, b2) is Some) by {
                crate::assoc::lemma_get_insert(pn, block, newv, b2);
            }
        }
    }

    /// Makes a phi function in the block at `block_idx` for each operand
    /// defined on its way in that needs one.
    fn insert_phi_functions(&mut self, cf: &ControlFlowGraph<OpArg>, df: &GraphDataFlow<OpArg>, block_idx: usize, scope: FunctionId)
        requires
            old(self).tables_ok(),
            block_idx < cf.blocks@.len(),
            flow_covers(*cf, *df),
            no_value_definitions(*df),
            old(self).created@ + defs_in_count(*df, cf.blocks@[block_idx as int].0) <= usize::MAX,
            phi_blocks_in(old(self).phi_nodes@, block_keys(cf.blocks@)),
            phi_blocks_versioned(old(self).phi_nodes@, old(self).var_versions@),
        ensures
            final(self).tables_ok(),
            old(self).created@ <= final(self).created@ <= old(self).created@ + defs_in_count(*df, cf.blocks@[block_idx as int].0),
            final(self).visited == old(self).visited,
            final(self).out == old(self).out,
            final(self).call_arguments == old(self).call_arguments,
            phi_blocks_in(final(self).phi_nodes@, block_keys(cf.blocks@)),
            phi_blocks_versioned(final(self).phi_nodes@, final(self).var_versions@),
            forall|b: BlockId| #[trigger] assoc_get(old(self).var_versions@, b) is Some ==> assoc_get(final(self).var_versions@, b) is Some,
            forall|k2: Arg|
                #[trigger] phi_at(final(self).phi_nodes@, cf.blocks@[block_idx as int].0, k2) is Some <==> (phi_at(
                    old(self).phi_nodes@,
                    cf.blocks@[block_idx as int].0,
                    k2,
                ) is Some || gets_phi(*cf, *df, block_idx as int, k2)),
            forall|b2: BlockId, k2: Arg|
                b2 != cf.blocks@[block_idx as int].0 ==> #[trigger] phi_at(final(self).phi_nodes@, b2, k2) == phi_at(
                    old(self).phi_nodes@,
                    b2,
                    k2,
                ),
    {
        if cf.blocks[block_idx].1.predecessors.len() <= 1 {
            return;
        }
        let block_id = cf.blocks[block_idx].0;
        assert(assoc_get(df.block_defs@, cf.blocks@[block_idx as int].0) is Some);
        assert(block_keys(cf.blocks@)[block_idx as int] == block_id);
        proof {
            crate::assoc::lemma_key_index(df.block_defs@, block_id);
        }
        let di = match find_key(&df.block_defs, &block_id) {
            Some(di) => di,
            None => {
                assert(false);
                return;
            },
        };
        let defs_in = &df.block_defs[di].1.defs_in;
        assert(defs_in_count(*df, block_id) == defs_in@.len());
        assert(defs_in@ == defs_in_at(*df, block_id));
        let mut seen: Vec<OpArg> = Vec::new();
        let ghost c0 = self.created@;
        let mut k: usize = 0;
        while k < defs_in.len()
            invariant
                k <= defs_in@.len(),
                self.tables_ok(),
                c0 <= self.created@ <= c0 + k,
                c0 + defs_in@.len() <= usize::MAX,
                block_idx < cf.blocks@.len(),
                flow_covers(*cf, *df),
                no_value_definitions(*df),
                di < df.block_defs@.len(),
                *defs_in == df.block_defs@[di as int].1.defs_in,
                self.visited == old(self).visited,
                self.out == old(self).out,
                self.call_arguments == old(self).call_arguments,
                phi_blocks_in(self.phi_nodes@, block_keys(cf.blocks@)),
                phi_blocks_versioned(self.phi_nodes@, self.var_versions@),
                block_keys(cf.blocks@).contains(block_id),
                forall|b: BlockId| #[trigger] assoc_get(old(self).var_versions@, b) is Some ==> assoc_get(self.var_versions@, b) is Some,
                block_id == cf.blocks@[block_idx as int].0,
                defs_in@ == defs_in_at(*df, block_id),
                forall|x: OpArg| #[trigger] seen@.contains(x) ==> defined_upto(*df, block_id, x.kind, k as int),
                forall|k2: Arg|
                    #[trigger] phi_at(self.phi_nodes@, block_id, k2) is Some <==> (phi_at(old(self).phi_nodes@, block_id, k2) is Some || (
                    defined_upto(*df, block_id, k2, k as int) && needs_phi(*cf, *df, block_idx as int, k2))),
                forall|b2: BlockId, k2: Arg|
                    b2 != block_id ==> #[trigger] phi_at(self.phi_nodes@, b2, k2) == phi_at(old(self).phi_nodes@, b2, k2),
            decreases defs_in.len() - k,
        {
            let arg = defs_in[k].arg;
            let ghost pn0 = self.phi_nodes@;
            let ghost seen0 = seen@;
            proof {
                assert forall|k2: Arg| defined_upto(*df, block_id, k2, k + 1) <==> (defined_upto(*df, block_id, k2, k as int) || k2 == arg.kind) by {
                    if defined_upto(*df, block_id, k2, k + 1) {
                        let q = choose|q: int| 0 <= q < k + 1 && (#[trigger] defs_in_at(*df, block_id)[q]).arg.kind == k2;
                        if q < k {
                            assert(defined_upto(*df, block_id, k2, k as int));
                        }
                    }
                    if defined_upto(*df, block_id, k2, k as int) {
                        let q = choose|q: int| 0 <= q < k && (#[trigger] defs_in_at(*df, block_id)[q]).arg.kind == k2;
                        assert(0 <= q < k + 1);
                    }
                    if k2 == arg.kind {
                        assert(defs_in_at(*df, block_id)[k as int].arg.kind == k2);
                    }
                }
            }
            assert(!(df.block_defs@[di as int].1.defs_in@[k as int].arg.kind is Value));
            if !has_op_arg(&seen, &arg) {
                seen.push(arg);
                if block_needs_phi_function(cf, df, block_idx, &arg) {
                    let ghost vv1 = self.var_versions@;
                    let output = self.create_new_version_for_arg(arg.kind, block_id, block_id.0, scope);
                    proof {
                        assert forall|q: int| 0 <= q < self.phi_nodes@.len() implies #[trigger] assoc_get(self.var_versions@, self.phi_nodes@[q].0) is Some by {
                            assert(assoc_get(vv1, self.phi_nodes@[q].0) is Some);
                        }
                    }
                    self.set_phi(block_id, arg.kind, output);
                    proof {
                        assert(phi_blocks_versioned(self.phi_nodes@, self.var_versions@));
                        assert(phi_blocks_in(self.phi_nodes@, block_keys(cf.blocks@)));
                    }
                }
                proof {
                    assert forall|x: OpArg| #[trigger] seen@.contains(x) implies defined_upto(*df, block_id, x.kind, k + 1) by {
                        if seen0.contains(x) {
                            assert(defined_upto(*df, block_id, x.kind, k as int));
                        } else {
                            let w = choose|w: int| 0 <= w < seen@.len() && seen@[w] == x;
                            assert(w == seen0.len());
                        }
                    }
                }
            } else {
                proof {
                    assert(seen@.contains(arg));
                    assert(defined_upto(*df, block_id, arg.kind, k as int));
                    assert forall|x: OpArg| #[trigger] seen@.contains(x) implies defined_upto(*df, block_id, x.kind, k + 1) by {
                        assert(defined_upto(*df, block_id, x.kind, k as int));
                    }
                }
            }
            k = k + 1;
        }
        proof {
            assert forall|k2: Arg| defined_upto(*df, block_id, k2, k as int) <==> gets_phi(*cf, *df, block_idx as int, k2) || !needs_phi(*cf, *df, block_idx as int, k2) && defined_upto(*df, block_id, k2, k as int) by {}
        }
    }
}

/// The start addresses of the blocks of a graph, in its order.
pub open spec fn block_keys<A>(blocks: Seq<(BlockId, Block<A>)>) -> Seq<BlockId> {
    blocks.map_values(|e: (BlockId, Block<A>)| e.0)
}

/// The number of operands of the operations.
pub open spec fn ops_operands<A>(ops: Seq<(usize, InstrView<A>)>) -> nat
    decreases ops.len(),
{
    if ops.len() == 0 {
        0
    } else {
        ops_operands(ops.drop_last()) + instr_operand_count(ops.last().1)
    }
}

proof fn lemma_ops_operands_prefix<A>(ops: Seq<(usize, InstrView<A>)>, n: int)
    requires
        0 <= n <= ops.len(),
    ensures
        ops_operands(ops.take(n)) <= ops_operands(ops),
    decreases ops.len(),
{
    if n < ops.len() {
        assert(ops.drop_last().take(n) =~= ops.take(n));
        lemma_ops_operands_prefix(ops.drop_last(), n);
    } else {
        assert(ops.take(n) =~= ops);
    }
}

/// The operands of the blocks not in `v`.
pub open spec fn cost_unvisited(blocks: Seq<(BlockId, Block<OpArg>)>, v: Seq<BlockId>) -> nat
    decreases blocks.len(),
{
    if blocks.len() == 0 {
        0
    } else {
        cost_unvisited(blocks.drop_last(), v) + if v.contains(blocks.last().0) {
            0
        } else {
            ops_operands(ops_view(blocks.last().1.ops@))
        }
    }
}

/// The number of keys not in `v`.
pub open spec fn count_unvisited(keys: Seq<BlockId>, v: Seq<BlockId>) -> nat
    decreases keys.len(),
{
    if keys.len() == 0 {
        0
    } else {
        count_unvisited(keys.drop_last(), v) + if v.contains(keys.last()) {
            0nat
        } else {
            1nat
        }
    }
}

proof fn lemma_count_mono(keys: Seq<BlockId>, v1: Seq<BlockId>, v2: Seq<BlockId>)
    requires
        forall|x: BlockId| v1.contains(x) ==> v2.contains(x),
    ensures
        count_unvisited(keys, v2) <= count_unvisited(keys, v1),
        forall|k: BlockId| keys.contains(k) && v2.contains(k) && !v1.contains(k) ==> count_unvisited(keys, v2) < count_unvisited(keys, v1),
    decreases keys.len(),
{
    if keys.len() > 0 {
        lemma_count_mono(keys.drop_last(), v1, v2);
        assert forall|k: BlockId| keys.contains(k) && v2.contains(k) && !v1.contains(k) implies count_unvisited(keys, v2) < count_unvisited(keys, v1) by {
            if k != keys.last() {
                let j = choose|j: int| 0 <= j < keys.len() && keys[j] == k;
                assert(keys.drop_last()[j] == k);
            }
        }
    }
}

proof fn lemma_cost_mono(blocks: Seq<(BlockId, Block<OpArg>)>, v1: Seq<BlockId>, v2: Seq<BlockId>)
    requires
        forall|x: BlockId| v1.contains(x) ==> v2.contains(x),
    ensures
        cost_unvisited(blocks, v2) <= cost_unvisited(blocks, v1),
    decreases blocks.len(),
{
    if blocks.len() > 0 {
        lemma_cost_mono(blocks.drop_last(), v1, v2);
    }
}

proof fn lemma_cost_visit(blocks: Seq<(BlockId, Block<OpArg>)>, v: Seq<BlockId>, i: int)
    requires
        keys_distinct(blocks),
        0 <= i < blocks.len(),
        !v.contains(blocks[i].0),
    ensures
        cost_unvisited(blocks, v.push(blocks[i].0)) + ops_operands(ops_view(blocks[i].1.ops@)) == cost_unvisited(blocks, v),
    decreases blocks.len(),
{
    let k = blocks[i].0;
    assert(v.push(k)[v.len() as int] == k);
    assert(v.push(k).contains(k));
    assert forall|x: BlockId| v.contains(x) implies v.push(k).contains(x) by {
        let j = choose|j: int| 0 <= j < v.len() && v[j] == x;
        assert(v.push(k)[j] == x);
    }
    if i < blocks.len() - 1 {
        lemma_cost_visit(blocks.drop_last(), v, i);
        let last = blocks.last().0;
        assert(last != k);
        if v.push(k).contains(last) {
            let j = choose|j: int| 0 <= j < v.push(k).len() && v.push(k)[j] == last;
            assert(v.contains(last)) by {
                assert(v[j] == last);
            }
        }
    } else {
        lemma_cost_mono(blocks.drop_last(), v, v.push(k));
        lemma_cost_unaffected(blocks.drop_last(), v, k);
    }
}

/// Marking a key that no block has leaves the cost as it is.
proof fn lemma_cost_unaffected(blocks: Seq<(BlockId, Block<OpArg>)>, v: Seq<BlockId>, k: BlockId)
    requires
        forall|j: int| 0 <= j < blocks.len() ==> blocks[j].0 != k,
    ensures
        cost_unvisited(blocks, v.push(k)) == cost_unvisited(blocks, v),
    decreases blocks.len(),
{
    if blocks.len() > 0 {
        lemma_cost_unaffected(blocks.drop_last(), v, k);
        let last = blocks.last().0;
        assert(v.push(k).contains(last) == v.contains(last)) by {
            if v.push(k).contains(last) {
                let j = choose|j: int| 0 <= j < v.push(k).len() && v.push(k)[j] == last;
                assert(v[j] == last);
            }
            if v.contains(last) {
                let j = choose|j: int| 0 <= j < v.len() && v[j] == last;
                assert(v.push(k)[j] == last);
            }
        }
    }
}

/// Whether the converted graph has the blocks of the original, with the
/// same start, frame size, spans, and no predecessors recorded.
pub open spec fn shape_ok(out: ControlFlowGraph<SSAArg>, cf: ControlFlowGraph<OpArg>) -> bool {
    &&& out.start == cf.start
    &&& out.stack_size == cf.stack_size
    &&& out.blocks@.len() == cf.blocks@.len()
    &&& forall|i: int|
        0 <= i < cf.blocks@.len() ==> (#[trigger] out.blocks@[i]).0 == cf.blocks@[i].0 && out.blocks@[i].1.span
            == cf.blocks@[i].1.span && out.blocks@[i].1.predecessors@.len() == 0
}

/// Whether the operations of block `i` are those of the original, renamed.
pub open spec fn body_renamed(out: ControlFlowGraph<SSAArg>, cf: ControlFlowGraph<OpArg>, i: int) -> bool {
    renamed_ops(ops_view(out.blocks@[i].1.ops@), ops_view(cf.blocks@[i].1.ops@))
}

/// Whether every block that a block can go to is a block of the graph, and
/// every jump names its target.
pub open spec fn graph_closed(cf: ControlFlowGraph<OpArg>) -> bool {
    &&& keys_distinct(cf.blocks@)
    &&& forall|i: int| 0 <= i < cf.blocks@.len() ==> next_defined(#[trigger] cf.blocks@[i].1.next)
    &&& forall|i: int, y: BlockId|
        0 <= i < cf.blocks@.len() && #[trigger] next_targets(cf.blocks@[i].1.next).contains(y) ==> block_keys(
            cf.blocks@,
        ).contains(y)
}

impl SSAConverter {
    /// Whether the state agrees with the walk so far: every visited block is
    /// a block of the graph with a table of versions, and blocks not visited
    /// have no operations yet.
    spec fn walk_ok(&self, cf: ControlFlowGraph<OpArg>) -> bool {
        &&& shape_ok(self.out, cf)
        &&& forall|x: BlockId| self.visited@.contains(x) ==> block_keys(cf.blocks@).contains(x)
        &&& forall|x: BlockId| #[trigger] self.visited@.contains(x) ==> assoc_get(self.var_versions@, x) is Some
        &&& forall|i: int|
            0 <= i < cf.blocks@.len() && !self.visited@.contains(cf.blocks@[i].0) ==> (
            #[trigger] self.out.blocks@[i]).1.ops@.len() == 0
    }

    /// Appends the renamed operations of the block at `bi` to its converted
    /// block, which has none yet.
    fn insert_ops_with_renames(&mut self, cf: &ControlFlowGraph<OpArg>, bi: usize, scope: FunctionId)
        requires
            old(self).tables_ok(),
            bi < cf.blocks@.len(),
            shape_ok(old(self).out, *cf),
            old(self).out.blocks@[bi as int].1.ops@.len() == 0,
            assoc_get(old(self).var_versions@, cf.blocks@[bi as int].0) is Some,
            old(self).created@ + ops_operands(ops_view(cf.blocks@[bi as int].1.ops@)) <= usize::MAX,
        ensures
            final(self).tables_ok(),
            shape_ok(final(self).out, *cf),
            body_renamed(final(self).out, *cf, bi as int),
            forall|j: int| 0 <= j < cf.blocks@.len() && j != bi ==> #[trigger] final(self).out.blocks@[j] == old(self).out.blocks@[j],
            final(self).out.blocks@[bi as int].1.next == old(self).out.blocks@[bi as int].1.next,
            old(self).created@ <= final(self).created@ <= old(self).created@ + ops_operands(ops_view(cf.blocks@[bi as int].1.ops@)),
            final(self).phi_nodes == old(self).phi_nodes,
            final(self).visited == old(self).visited,
            final(self).call_arguments == old(self).call_arguments,
            forall|b: BlockId| #[trigger] assoc_get(old(self).var_versions@, b) is Some ==> assoc_get(final(self).var_versions@, b) is Some,
    {
        let block_id = cf.blocks[bi].0;
        let ops = &cf.blocks[bi].1.ops;
        let ghost ov = ops_view(ops@);
        let ghost c0 = self.created@;
        let mut k: usize = 0;
        while k < ops.len()
            invariant
                k <= ops@.len(),
                bi < cf.blocks@.len(),
                block_id == cf.blocks@[bi as int].0,
                *ops == cf.blocks@[bi as int].1.ops,
                ov == ops_view(ops@),
                self.tables_ok(),
                shape_ok(self.out, *cf),
                renamed_ops(ops_view(self.out.blocks@[bi as int].1.ops@), ov.take(k as int)),
                forall|j: int| 0 <= j < cf.blocks@.len() && j != bi ==> #[trigger] self.out.blocks@[j] == old(self).out.blocks@[j],
                self.out.blocks@[bi as int].1.next == old(self).out.blocks@[bi as int].1.next,
                c0 <= self.created@ <= c0 + ops_operands(ov.take(k as int)),
                c0 + ops_operands(ov) <= usize::MAX,
                assoc_get(self.var_versions@, block_id) is Some,
                self.phi_nodes == old(self).phi_nodes,
                self.visited == old(self).visited,
                self.call_arguments == old(self).call_arguments,
                forall|b: BlockId| #[trigger] assoc_get(old(self).var_versions@, b) is Some ==> assoc_get(self.var_versions@, b) is Some,
            decreases ops.len() - k,
        {
            proof {
                assert(ov.take(k + 1).drop_last() =~= ov.take(k as int));
                lemma_ops_operands_prefix(ov, k + 1);
                assert(ov.take(k + 1).last() == ov[k as int]);
            }
            let addr = ops[k].0;
            let new_op = self.rename_op(block_id, addr, &ops[k].1, scope);
            let ghost before = self.out.blocks@[bi as int].1.ops@;
            let entry = &mut self.out.blocks[bi];
            entry.1.ops.push((addr, new_op));
            proof {
                let after = self.out.blocks@[bi as int].1.ops@;
                assert(after == before.push((addr, new_op)));
                assert(ops_view(after) =~= ops_view(before).push((addr, new_op@)));
                assert(ov.take(k + 1) =~= ov.take(k as int).push(ov[k as int]));
            }
            k = k + 1;
        }
        assert(ov.take(k as int) =~= ov);
    }
}

/// Whether `v` holds `b`.
fn holds_block(v: &Vec<BlockId>, b: BlockId) -> (r: bool)
    ensures
        r == v@.contains(b),
{
    let mut i: usize = 0;
    while i < v.len()
        invariant
            i <= v@.len(),
            forall|j: int| 0 <= j < i ==> v@[j] != b,
        decreases v.len() - i,
    {
        if v[i] == b {
            assert(v@[i as int] == b);
            return true;
        }
        i = i + 1;
    }
    false
}

impl SSAConverter {
    /// A copy of the table of versions at the end of block `b`.
    fn versions_at(&self, b: BlockId) -> (r: Vec<(Arg, SSAArg)>)
        requires
            all_versions_ok(self.var_versions@),
            assoc_get(self.var_versions@, b) is Some,
        ensures
            forall|j: int| 0 <= j < r@.len() ==> spec_as_arg((#[trigger] r@[j]).1.arg) == r@[j].0 && !(r@[j].0 is Deref),
            r@ == assoc_get(self.var_versions@, b)->Some_0@,
    {
        proof {
            lemma_key_index(self.var_versions@, b);
        }
        let i = match find_key(&self.var_versions, &b) {
            Some(i) => i,
            None => {
                assert(false);
                return Vec::new();
            },
        };
        let t = &self.var_versions[i].1;
        assert(versions_ok(t@));
        let mut r: Vec<(Arg, SSAArg)> = Vec::new();
        let mut k: usize = 0;
        while k < t.len()
            invariant
                k <= t@.len(),
                versions_ok(t@),
                r@ == t@.take(k as int),
            decreases t.len() - k,
        {
            r.push(t[k]);
            k = k + 1;
            assert(r@ =~= t@.take(k as int));
        }
        assert(r@ =~= t@);
        r
    }

    /// Makes sure block `b` has a table of versions.
    fn ensure_versions_entry(&mut self, b: BlockId)
        requires
            all_versions_ok(old(self).var_versions@),
        ensures
            all_versions_ok(final(self).var_versions@),
            assoc_get(final(self).var_versions@, b) is Some,
            forall|x: BlockId| #[trigger] assoc_get(old(self).var_versions@, x) is Some ==> assoc_get(final(self).var_versions@, x) is Some,
            final(self).current_version == old(self).current_version,
            final(self).var_locations == old(self).var_locations,
            final(self).phi_nodes == old(self).phi_nodes,
            final(self).visited == old(self).visited,
            final(self).out == old(self).out,
            final(self).call_arguments == old(self).call_arguments,
            final(self).created == old(self).created,
    {
        let ghost vv = self.var_versions@;
        proof {
            lemma_key_index(vv, b);
        }
        match find_key(&self.var_versions, &b) {
            Some(_) => {},
            None => {
                self.var_versions.push((b, Vec::new()));
                proof {
                    assert forall|k: int| 0 <= k < self.var_versions@.len() implies versions_ok((#[trigger] self.var_versions@[k]).1@) by {
                        if k < vv.len() {
                            assert(self.var_versions@[k] == vv[k]);
                        }
                    }
                    assert forall|x: BlockId| #[trigger] assoc_get(vv, x) is Some implies assoc_get(self.var_versions@, x) is Some by {
                        lemma_key_index(vv, x);
                        lemma_key_index(self.var_versions@, x);
                        assert(self.var_versions@[key_index(vv, x)].0 == x);
                    }
                    lemma_key_index(self.var_versions@, b);
                    assert(self.var_versions@[vv.len() as int].0 == b);
                }
            },
        }
    }

    /// Adds `versioned` to the inputs of the phi function for `var` in block
    /// `next`, and tells whether there is one.
    fn push_phi_input(&mut self, next: BlockId, var: Arg, versioned: SSAArg) -> (r: bool)
        requires
            all_phis_ok(old(self).phi_nodes@),
            spec_as_arg(versioned.arg) == var,
        ensures
            all_phis_ok(final(self).phi_nodes@),
            same_phi_blocks(final(self).phi_nodes@, old(self).phi_nodes@),
            r == phi_at(old(self).phi_nodes@, next, var) is Some,
            !r ==> final(self).phi_nodes@ == old(self).phi_nodes@,
            r ==> phi_at(final(self).phi_nodes@, next, var) is Some,
            r ==> phi_at(final(self).phi_nodes@, next, var)->Some_0.output == phi_at(old(self).phi_nodes@, next, var)->Some_0.output,
            r ==> phi_at(final(self).phi_nodes@, next, var)->Some_0.inputs@ == phi_at(old(self).phi_nodes@, next, var)->Some_0.inputs@.push(
                versioned,
            ),
            forall|b2: BlockId, k2: Arg|
                !(b2 == next && k2 == var) ==> #[trigger] phi_at(final(self).phi_nodes@, b2, k2) == phi_at(old(self).phi_nodes@, b2, k2),
            final(self).current_version == old(self).current_version,
            final(self).var_versions == old(self).var_versions,
            final(self).var_locations == old(self).var_locations,
            final(self).visited == old(self).visited,
            final(self).out == old(self).out,
            final(self).call_arguments == old(self).call_arguments,
            final(self).created == old(self).created,
    {
        let ghost pn = self.phi_nodes@;
        proof {
            lemma_key_index(pn, next);
        }
        let i = match find_key(&self.phi_nodes, &next) {
            Some(i) => i,
            None => {
                return false;
            },
        };
        let ghost t0 = self.phi_nodes@[i as int].1@;
        assert(phis_ok(t0));
        proof {
            lemma_key_index(t0, var);
        }
        let j = match find_key(&self.phi_nodes[i].1, &var) {
            Some(j) => j,
            None => {
                return false;
            },
        };
        proof {
            lemma_key_index(t0, var);
        }
        let ghost old_node_inputs = t0[j as int].1.inputs@;
        let entry = &mut self.phi_nodes[i];
        let node = &mut entry.1[j];
        node.1.inputs.push(versioned);
        proof {
            let t1 = self.phi_nodes@[i as int].1@;
            assert(t1[j as int].0 == var);
            assert(t1[j as int].1.output == t0[j as int].1.output);
            assert(t1[j as int].1.inputs@ == old_node_inputs.push(versioned));
            assert(phi_of(t1[j as int].0, t1[j as int].1));
            assert forall|q: int| 0 <= q < t1.len() implies phi_of((#[trigger] t1[q]).0, t1[q].1) by {
                if q != j {
                    assert(t1[q] == t0[q]);
                }
            }
            assert(keys_distinct(t1)) by {
                assert forall|a: int, b: int| 0 <= a < b < t1.len() implies t1[a].0 != t1[b].0 by {
                    assert(t1[a].0 == t0[a].0);
                    assert(t1[b].0 == t0[b].0);
                }
            }
            assert forall|q: int| 0 <= q < self.phi_nodes@.len() implies phis_ok((#[trigger] self.phi_nodes@[q]).1@) by {
                if q != i {
                    assert(self.phi_nodes@[q] == pn[q]);
                }
            }
            assert(keys_distinct(self.phi_nodes@)) by {
                assert forall|a: int, b: int| 0 <= a < b < self.phi_nodes@.len() implies self.phi_nodes@[a].0 != self.phi_nodes@[b].0 by {
                    assert(self.phi_nodes@[a].0 == pn[a].0);
                    assert(self.phi_nodes@[b].0 == pn[b].0);
                }
            }
            assert forall|q: int| 0 <= q < pn.len() implies (#[trigger] self.phi_nodes@[q]).0 == pn[q].0 by {
                if q != i {
                    assert(self.phi_nodes@[q] == pn[q]);
                }
            }
            let newv = self.phi_nodes@[i as int].1;
            let newnode = t1[j as int].1;
            assert(self.phi_nodes@ =~= assoc_insert(pn, next, newv));
            assert(newv@ =~= assoc_insert(t0, var, newnode));
            crate::assoc::lemma_get_insert(pn, next, newv, next);
            crate::assoc::lemma_get_insert(t0, var, newnode, var);
            assert forall|b2: BlockId, k2: Arg|
                !(b2 == next && k2 == var) implies #[trigger] phi_at(self.phi_nodes@, b2, k2) == phi_at(pn, b2, k2) by {
                crate::assoc::lemma_get_insert(pn, next, newv, b2);
                crate::assoc::lemma_get_insert(t0, var, newnode, k2);
            }
        }
        true
    }
}

impl SSAConverter {
    /// Converts block `block_id` and, depth first, each block it leads to
    /// that was not converted yet: its operations are renamed, its latest
    /// versions flow into the phi functions of its successors, and into the
    /// tables of successors met for the first time.
    fn process_block(&mut self, cf: &ControlFlowGraph<OpArg>, block_id: BlockId, scope: FunctionId, Ghost(measure): Ghost<nat>)
        requires
            measure == count_unvisited(block_keys(cf.blocks@), old(self).visited@),
            old(self).tables_ok(),
            old(self).walk_ok(*cf),
            graph_closed(*cf),
            block_keys(cf.blocks@).contains(block_id),
            !old(self).visited@.contains(block_id),
            assoc_get(old(self).var_versions@, block_id) is Some,
            old(self).created@ + cost_unvisited(cf.blocks@, old(self).visited@) <= usize::MAX,
        ensures
            final(self).tables_ok(),
            final(self).walk_ok(*cf),
            forall|x: BlockId| old(self).visited@.contains(x) ==> final(self).visited@.contains(x),
            final(self).visited@.contains(block_id),
            final(self).created@ + cost_unvisited(cf.blocks@, final(self).visited@) <= old(self).created@ + cost_unvisited(
                cf.blocks@,
                old(self).visited@,
            ),
            old(self).created@ <= final(self).created@,
            forall|i: int|
                #![trigger cf.blocks@[i]]
                0 <= i < cf.blocks@.len() && old(self).visited@.contains(cf.blocks@[i].0) ==> final(self).out.blocks@[i]
                    == old(self).out.blocks@[i],
            forall|i: int|
                #![trigger cf.blocks@[i]]
                0 <= i < cf.blocks@.len() && final(self).visited@.contains(cf.blocks@[i].0) && !old(self).visited@.contains(
                    cf.blocks@[i].0,
                ) ==> body_renamed(final(self).out, *cf, i) && (forall|y: BlockId|
                    #[trigger] next_targets(cf.blocks@[i].1.next).contains(y) ==> final(self).visited@.contains(y)),
            forall|i: int| #![trigger cf.blocks@[i]] 0 <= i < cf.blocks@.len() ==> final(self).out.blocks@[i].1.next == old(self).out.blocks@[i].1.next,
            final(self).call_arguments == old(self).call_arguments,
            forall|x: BlockId| #[trigger] assoc_get(old(self).var_versions@, x) is Some ==> assoc_get(final(self).var_versions@, x) is Some,
            same_phi_blocks(final(self).phi_nodes@, old(self).phi_nodes@),
        decreases measure,
    {
        let ghost v0 = self.visited@;
        let ghost c0 = self.created@;
        let ghost keys = block_keys(cf.blocks@);
        let ghost out0 = self.out;
        proof {
            lemma_key_index(cf.blocks@, block_id);
            let j = choose|j: int| 0 <= j < keys.len() && keys[j] == block_id;
            assert(cf.blocks@[j].0 == block_id);
        }
        let bi = match find_key(&cf.blocks, &block_id) {
            Some(bi) => bi,
            None => {
                assert(false);
                return;
            },
        };
        assert(cf.blocks@[bi as int].0 == block_id);
        self.visited.push(block_id);
        proof {
            assert(self.visited@[v0.len() as int] == block_id);
            assert forall|x: BlockId| v0.contains(x) implies self.visited@.contains(x) by {
                let j = choose|j: int| 0 <= j < v0.len() && v0[j] == x;
                assert(self.visited@[j] == x);
            }
            lemma_cost_visit(cf.blocks@, v0, bi as int);
            assert(keys[bi as int] == block_id);
            lemma_count_mono(keys, v0, self.visited@);
        }
        self.insert_ops_with_renames(cf, bi, scope);
        let ghost v1 = self.visited@;
        proof {
            assert forall|x: BlockId| self.visited@.contains(x) implies block_keys(cf.blocks@).contains(x) by {
                if x != block_id {
                    let j = choose|j: int| 0 <= j < self.visited@.len() && self.visited@[j] == x;
                    if j < v0.len() {
                        assert(v0[j] == x);
                        assert(v0.contains(x));
                    }
                }
            }
            assert forall|x: BlockId| #[trigger] self.visited@.contains(x) implies assoc_get(self.var_versions@, x) is Some by {
                if x != block_id {
                    let j = choose|j: int| 0 <= j < self.visited@.len() && self.visited@[j] == x;
                    if j < v0.len() {
                        assert(v0[j] == x);
                        assert(v0.contains(x));
                    }
                }
            }
            assert forall|i: int|
                0 <= i < cf.blocks@.len() && !self.visited@.contains(cf.blocks@[i].0) implies (#[trigger] self.out.blocks@[i]).1.ops@.len() == 0 by {
                assert(i != bi);
                if v0.contains(cf.blocks@[i].0) {
                    let j = choose|j: int| 0 <= j < v0.len() && v0[j] == cf.blocks@[i].0;
                    assert(self.visited@[j] == cf.blocks@[i].0);
                }
            }
        }
        let nexts = cf.blocks[bi].1.next_blocks();
        let mut n: usize = 0;
        while n < nexts.len()
            invariant
                bi < cf.blocks@.len(),
                cf.blocks@[bi as int].0 == block_id,
                nexts@ == next_targets(cf.blocks@[bi as int].1.next),
                n <= nexts@.len(),
                self.tables_ok(),
                self.walk_ok(*cf),
                graph_closed(*cf),
                keys == block_keys(cf.blocks@),
                forall|x: BlockId| v0.contains(x) ==> self.visited@.contains(x),
                self.visited@.contains(block_id),
                !v0.contains(block_id),
                count_unvisited(keys, v1) < count_unvisited(keys, v0),
                measure == count_unvisited(keys, v0),
                forall|x: BlockId| v1.contains(x) ==> self.visited@.contains(x),
                self.created@ + cost_unvisited(cf.blocks@, self.visited@) <= c0 + cost_unvisited(cf.blocks@, v0),
                c0 + cost_unvisited(cf.blocks@, v0) <= usize::MAX,
                c0 <= self.created@,
                forall|i: int|
                    #![trigger cf.blocks@[i]]
                    0 <= i < cf.blocks@.len() && v0.contains(cf.blocks@[i].0) ==> self.out.blocks@[i] == out0.blocks@[i],
                body_renamed(self.out, *cf, bi as int),
                forall|i: int|
                    #![trigger cf.blocks@[i]]
                    0 <= i < cf.blocks@.len() && self.visited@.contains(cf.blocks@[i].0) && !v0.contains(cf.blocks@[i].0)
                        && i != bi ==> body_renamed(self.out, *cf, i) && (forall|y: BlockId|
                        #[trigger] next_targets(cf.blocks@[i].1.next).contains(y) ==> self.visited@.contains(y)),
                forall|m: int| 0 <= m < n ==> self.visited@.contains(#[trigger] nexts@[m]),
                forall|i: int| #![trigger cf.blocks@[i]] 0 <= i < cf.blocks@.len() ==> self.out.blocks@[i].1.next == out0.blocks@[i].1.next,
                self.call_arguments == old(self).call_arguments,
                forall|x: BlockId| #[trigger] assoc_get(old(self).var_versions@, x) is Some ==> assoc_get(self.var_versions@, x) is Some,
                same_phi_blocks(self.phi_nodes@, old(self).phi_nodes@),
            decreases nexts.len() - n,
        {
            let next = nexts[n];
            let next_visited = holds_block(&self.visited, next);
            let block_vars = self.versions_at(block_id);
            let ghost snap_vis = self.visited;
            let ghost snap_out = self.out;
            let ghost snap_vv = self.var_versions;
            let ghost snap_cv = self.current_version;
            let ghost snap_created = self.created;
            let mut new_vars: Vec<(Arg, SSAArg)> = Vec::new();
            let mut q: usize = 0;
            while q < block_vars.len()
                invariant
                    q <= block_vars@.len(),
                    forall|j: int|
                        0 <= j < block_vars@.len() ==> spec_as_arg((#[trigger] block_vars@[j]).1.arg) == block_vars@[j].0
                            && !(block_vars@[j].0 is Deref),
                    forall|j: int|
                        0 <= j < new_vars@.len() ==> spec_as_arg((#[trigger] new_vars@[j]).1.arg) == new_vars@[j].0
                            && !(new_vars@[j].0 is Deref),
                    self.tables_ok(),
                    self.visited == snap_vis,
                    self.out == snap_out,
                    self.var_versions == snap_vv,
                    self.current_version == snap_cv,
                    self.created == snap_created,
                    self.call_arguments == old(self).call_arguments,
                    same_phi_blocks(self.phi_nodes@, old(self).phi_nodes@),
                decreases block_vars.len() - q,
            {
                let (var, versioned) = block_vars[q];
                let ghost pq = self.phi_nodes@;
                let has_phi = self.push_phi_input(next, var, versioned);
                proof {
                    assert forall|z: int| 0 <= z < old(self).phi_nodes@.len() implies (#[trigger] self.phi_nodes@[z]).0 == old(self).phi_nodes@[z].0 by {
                        assert(self.phi_nodes@[z].0 == pq[z].0);
                    }
                }
                if !has_phi && !next_visited {
                    new_vars.push((var, versioned));
                }
                q = q + 1;
            }
            if !next_visited {
                proof {
                    assert(nexts@[n as int] == next);
                    assert(next_targets(cf.blocks@[bi as int].1.next).contains(next));
                }
                let ghost pn_q = self.phi_nodes;
                self.ensure_versions_entry(next);
                let mut q2: usize = 0;
                while q2 < new_vars.len()
                    invariant
                        q2 <= new_vars@.len(),
                        forall|j: int|
                            0 <= j < new_vars@.len() ==> spec_as_arg((#[trigger] new_vars@[j]).1.arg) == new_vars@[j].0
                                && !(new_vars@[j].0 is Deref),
                        self.tables_ok(),
                        self.visited == snap_vis,
                        self.out == snap_out,
                        self.current_version == snap_cv,
                        self.created == snap_created,
                        self.call_arguments == old(self).call_arguments,
                        assoc_get(self.var_versions@, next) is Some,
                        forall|x: BlockId| #[trigger] assoc_get(snap_vv@, x) is Some ==> assoc_get(self.var_versions@, x) is Some,
                        self.phi_nodes == pn_q,
                    decreases new_vars.len() - q2,
                {
                    let (var, v) = new_vars[q2];
                    self.set_version(next, var, v);
                    q2 = q2 + 1;
                }
                let ghost vis_before = self.visited@;
                let ghost out_before = self.out;
                let ghost pn_before = self.phi_nodes@;
                proof {
                    lemma_count_mono(keys, v1, vis_before);
                    assert(count_unvisited(block_keys(cf.blocks@), self.visited@) < count_unvisited(block_keys(cf.blocks@), v0));
                }
                self.process_block(cf, next, scope, Ghost(count_unvisited(block_keys(cf.blocks@), self.visited@)));
                proof {
                    assert forall|z: int| 0 <= z < old(self).phi_nodes@.len() implies (#[trigger] self.phi_nodes@[z]).0 == old(self).phi_nodes@[z].0 by {
                        assert(self.phi_nodes@[z].0 == pn_before[z].0);
                    }
                    assert forall|m: int| 0 <= m <= n implies self.visited@.contains(#[trigger] nexts@[m]) by {
                        if m < n {
                            assert(vis_before.contains(nexts@[m]));
                        }
                    }
                    assert forall|i: int|
                        #![trigger cf.blocks@[i]]
                        0 <= i < cf.blocks@.len() && self.visited@.contains(cf.blocks@[i].0) && !v0.contains(cf.blocks@[i].0)
                            && i != bi implies body_renamed(self.out, *cf, i) && (forall|y: BlockId|
                            #[trigger] next_targets(cf.blocks@[i].1.next).contains(y) ==> self.visited@.contains(y)) by {
                        if vis_before.contains(cf.blocks@[i].0) {
                            assert(self.out.blocks@[i] == out_before.blocks@[i]);
                        }
                    }
                }
            } else {
                proof {
                    assert(nexts@[n as int] == next);
                    assert forall|m: int| 0 <= m <= n implies self.visited@.contains(#[trigger] nexts@[m]) by {}
                }
            }
            n = n + 1;
        }
    }
}

/// Whether a table of renamings only changes versions.
pub open spec fn renames_ok(t: Seq<(SSAArg, SSAArg)>) -> bool {
    forall|j: int| 0 <= j < t.len() ==> spec_as_arg((#[trigger] t[j]).1.arg) == spec_as_arg(t[j].0.arg)
}

/// The entry of `t` for `a`, or `a` itself.
pub open spec fn spec_lookup_rename(t: Seq<(SSAArg, SSAArg)>, a: SSAArg) -> SSAArg {
    match assoc_get(t, a) {
        Some(x) => x,
        None => a,
    }
}

/// The new name of a version: its entry in `t`; a pointer target also
/// takes the new version of its pointer cell, when that has an entry.
pub open spec fn spec_rename_var(t: Seq<(SSAArg, SSAArg)>, a: SSAArg) -> SSAArg {
    let r = spec_lookup_rename(t, a);
    match r.arg {
        SSAArgKind::Deref { addr, deref_version } => match assoc_get(
            t,
            SSAArg { scope: a.scope, arg: SSAArgKind::Mem(addr as i128), version: deref_version },
        ) {
            Some(x) => SSAArg { scope: r.scope, arg: SSAArgKind::Deref { addr, deref_version: x.version }, version: r.version },
            None => r,
        },
        _ => r,
    }
}

/// The entry of `t` for `a`, or `a` itself.
fn lookup_rename(t: &Vec<(SSAArg, SSAArg)>, a: SSAArg) -> (r: SSAArg)
    requires
        renames_ok(t@),
    ensures
        spec_as_arg(r.arg) == spec_as_arg(a.arg),
        r == spec_lookup_rename(t@, a),
{
    proof {
        lemma_key_index(t@, a);
    }
    match crate::assoc::get_value(t, &a) {
        Some(x) => {
            proof {
                assert(t@[key_index(t@, a)].1 == *x);
            }
            *x
        },
        None => a,
    }
}

/// The new name of a version: its entry in `t`; a pointer target also
/// takes the new version of its pointer cell.
fn rename_var(t: &Vec<(SSAArg, SSAArg)>, a: SSAArg) -> (r: SSAArg)
    requires
        renames_ok(t@),
    ensures
        spec_as_arg(r.arg) == spec_as_arg(a.arg),
        r == spec_rename_var(t@, a),
{
    let r = lookup_rename(t, a);
    match r.arg {
        SSAArgKind::Deref { addr, deref_version } => {
            let key = SSAArg { scope: a.scope, arg: SSAArgKind::Mem(addr as i128), version: deref_version };
            proof {
                lemma_key_index(t@, key);
            }
            match crate::assoc::get_value(t, &key) {
                Some(x) => SSAArg { scope: r.scope, arg: SSAArgKind::Deref { addr, deref_version: x.version }, version: r.version },
                None => r,
            }
        },
        _ => r,
    }
}

/// An instruction whose operands are related by `rel` to those of another
/// is, without versions, the same instruction, when `rel` keeps operands.
proof fn lemma_related_erase(i: InstrView<SSAArg>, o: InstrView<SSAArg>, rel: spec_fn(SSAArg, SSAArg) -> bool)
    requires
        crate::low_ir::instr_related(i, o, rel),
        forall|a: SSAArg, b: SSAArg| #[trigger] rel(a, b) ==> spec_as_arg(b.arg) == spec_as_arg(a.arg),
    ensures
        instr_map(o, ssa_erase()) == instr_map(i, ssa_erase()),
{
    match (i, o) {
        (InstrView::Phi(a, v), InstrView::Phi(x, w)) => {
            assert(rel(a, x));
            assert forall|k: int| 0 <= k < v.len() implies w.map_values(ssa_erase())[k] == v.map_values(ssa_erase())[k] by {
                assert(rel(v[k], w[k]));
            }
            assert(w.map_values(ssa_erase()) =~= v.map_values(ssa_erase()));
        },
        (InstrView::Add(a, b, c), InstrView::Add(x, y, z)) => {
            assert(rel(a, x) && rel(b, y) && rel(c, z));
        },
        (InstrView::Mul(a, b, c), InstrView::Mul(x, y, z)) => {
            assert(rel(a, x) && rel(b, y) && rel(c, z));
        },
        (InstrView::LessThan(a, b, c), InstrView::LessThan(x, y, z)) => {
            assert(rel(a, x) && rel(b, y) && rel(c, z));
        },
        (InstrView::Equals(a, b, c), InstrView::Equals(x, y, z)) => {
            assert(rel(a, x) && rel(b, y) && rel(c, z));
        },
        (InstrView::JumpIf(a, b, c), InstrView::JumpIf(x, y, z)) => {
            assert(rel(a, x) && rel(c, z));
        },
        (InstrView::Assign(a, b), InstrView::Assign(x, y)) => {
            assert(rel(a, x) && rel(b, y));
        },
        (InstrView::Input(a), InstrView::Input(x)) => {
            assert(rel(a, x));
        },
        (InstrView::Output(a), InstrView::Output(x)) => {
            assert(rel(a, x));
        },
        (InstrView::AdjustRelativeBase(a), InstrView::AdjustRelativeBase(x)) => {
            assert(rel(a, x));
        },
        (InstrView::Goto(a), InstrView::Goto(x)) => {
            assert(rel(a, x));
        },
        _ => {},
    }
}

/// The renaming of one operand by `t`: as [`rename_var`] does it when
/// pointer targets follow their cells, else as [`lookup_rename`].
pub open spec fn renamer(t: Seq<(SSAArg, SSAArg)>, with_targets: bool) -> spec_fn(SSAArg) -> SSAArg {
    |a: SSAArg| if with_targets { spec_rename_var(t, a) } else { spec_lookup_rename(t, a) }
}

impl SSAConverter {
    /// Renames every operand of the converted operations by `t`, keeping
    /// operands and addresses.
    fn rename_in_ops(&mut self, t: &Vec<(SSAArg, SSAArg)>, with_targets: bool)
        requires
            renames_ok(t@),
        ensures
            final(self).out.start == old(self).out.start,
            final(self).out.stack_size == old(self).out.stack_size,
            final(self).out.blocks@.len() == old(self).out.blocks@.len(),
            forall|i: int|
                #![trigger final(self).out.blocks@[i]]
                0 <= i < old(self).out.blocks@.len() ==> final(self).out.blocks@[i].0 == old(self).out.blocks@[i].0
                    && final(self).out.blocks@[i].1.span == old(self).out.blocks@[i].1.span
                    && final(self).out.blocks@[i].1.predecessors == old(self).out.blocks@[i].1.predecessors
                    && final(self).out.blocks@[i].1.next == old(self).out.blocks@[i].1.next
                    && final(self).out.blocks@[i].1.ops@.len() == old(self).out.blocks@[i].1.ops@.len()
                    && forall|k: int| 0 <= k < old(self).out.blocks@[i].1.ops@.len() ==> (#[trigger] final(self).out.blocks@[i].1.ops@[k]).0
                        == old(self).out.blocks@[i].1.ops@[k].0 && instr_map(final(self).out.blocks@[i].1.ops@[k].1@, ssa_erase())
                        == instr_map(old(self).out.blocks@[i].1.ops@[k].1@, ssa_erase()),
            forall|i: int, k: int|
                0 <= i < old(self).out.blocks@.len() && 0 <= k < old(self).out.blocks@[i].1.ops@.len() ==> (#[trigger] final(self).out.blocks@[i].1.ops@[k]).1@ == instr_map(old(self).out.blocks@[i].1.ops@[k].1@, renamer(t@, with_targets)),
            final(self).current_version == old(self).current_version,
            final(self).var_versions == old(self).var_versions,
            final(self).var_locations == old(self).var_locations,
            final(self).phi_nodes == old(self).phi_nodes,
            final(self).visited == old(self).visited,
            final(self).call_arguments == old(self).call_arguments,
            final(self).created == old(self).created,
    {
        let ghost out0 = self.out;
        let mut i: usize = 0;
        while i < self.out.blocks.len()
            invariant
                renames_ok(t@),
                i <= self.out.blocks@.len(),
                self.out.start == out0.start,
                self.out.stack_size == out0.stack_size,
                self.out.blocks@.len() == out0.blocks@.len(),
                forall|j: int|
                    #![trigger self.out.blocks@[j]]
                    0 <= j < out0.blocks@.len() ==> self.out.blocks@[j].0 == out0.blocks@[j].0 && self.out.blocks@[j].1.span
                        == out0.blocks@[j].1.span && self.out.blocks@[j].1.predecessors == out0.blocks@[j].1.predecessors
                        && self.out.blocks@[j].1.next == out0.blocks@[j].1.next && self.out.blocks@[j].1.ops@.len()
                        == out0.blocks@[j].1.ops@.len() && forall|k: int|
                        0 <= k < out0.blocks@[j].1.ops@.len() ==> (#[trigger] self.out.blocks@[j].1.ops@[k]).0
                            == out0.blocks@[j].1.ops@[k].0 && instr_map(self.out.blocks@[j].1.ops@[k].1@, ssa_erase())
                            == instr_map(out0.blocks@[j].1.ops@[k].1@, ssa_erase()),
                forall|j: int, q: int|
                    0 <= j < out0.blocks@.len() && 0 <= q < out0.blocks@[j].1.ops@.len() ==> (#[trigger] self.out.blocks@[j].1.ops@[q]).1@
                        == (if j < i {
                        instr_map(out0.blocks@[j].1.ops@[q].1@, renamer(t@, with_targets))
                    } else {
                        out0.blocks@[j].1.ops@[q].1@
                    }),
                self.current_version == old(self).current_version,
                self.var_versions == old(self).var_versions,
                self.var_locations == old(self).var_locations,
                self.phi_nodes == old(self).phi_nodes,
                self.visited == old(self).visited,
                self.call_arguments == old(self).call_arguments,
                self.created == old(self).created,
            decreases self.out.blocks.len() - i,
        {
            let mut k: usize = 0;
            while k < self.out.blocks[i].1.ops.len()
                invariant
                    renames_ok(t@),
                    i < self.out.blocks@.len(),
                    k <= self.out.blocks@[i as int].1.ops@.len(),
                    self.out.start == out0.start,
                    self.out.stack_size == out0.stack_size,
                    self.out.blocks@.len() == out0.blocks@.len(),
                    forall|j: int|
                        #![trigger self.out.blocks@[j]]
                        0 <= j < out0.blocks@.len() ==> self.out.blocks@[j].0 == out0.blocks@[j].0 && self.out.blocks@[j].1.span
                            == out0.blocks@[j].1.span && self.out.blocks@[j].1.predecessors == out0.blocks@[j].1.predecessors
                            && self.out.blocks@[j].1.next == out0.blocks@[j].1.next && self.out.blocks@[j].1.ops@.len()
                            == out0.blocks@[j].1.ops@.len() && forall|q: int|
                            0 <= q < out0.blocks@[j].1.ops@.len() ==> (#[trigger] self.out.blocks@[j].1.ops@[q]).0
                                == out0.blocks@[j].1.ops@[q].0 && instr_map(self.out.blocks@[j].1.ops@[q].1@, ssa_erase())
                                == instr_map(out0.blocks@[j].1.ops@[q].1@, ssa_erase()),
                    forall|j: int, q: int|
                        0 <= j < out0.blocks@.len() && 0 <= q < out0.blocks@[j].1.ops@.len() ==> (#[trigger] self.out.blocks@[j].1.ops@[q]).1@
                            == (if j < i || (j == i && q < k) {
                            instr_map(out0.blocks@[j].1.ops@[q].1@, renamer(t@, with_targets))
                        } else {
                            out0.blocks@[j].1.ops@[q].1@
                        }),
                    self.current_version == old(self).current_version,
                    self.var_versions == old(self).var_versions,
                    self.var_locations == old(self).var_locations,
                    self.phi_nodes == old(self).phi_nodes,
                    self.visited == old(self).visited,
                    self.call_arguments == old(self).call_arguments,
                    self.created == old(self).created,
                decreases self.out.blocks@[i as int].1.ops@.len() - k,
            {
                let addr = self.out.blocks[i].1.ops[k].0;
                let ghost old_op = self.out.blocks@[i as int].1.ops@[k as int].1;
                let new_op = if with_targets {
                    let f = |a: &SSAArg| -> (r: SSAArg)
                        ensures
                            spec_as_arg(r.arg) == spec_as_arg(a.arg),
                            r == spec_rename_var(t@, *a),
                        { rename_var(t, *a) };
                    let o = self.out.blocks[i].1.ops[k].1.map(f);
                    proof {
                        lemma_related_erase(old_op@, o@, |a: SSAArg, b: SSAArg| f.ensures((&a,), b));
                        crate::low_ir::lemma_map_is_instr_map(old_op@, o@, |a: SSAArg, b: SSAArg| f.ensures((&a,), b), renamer(t@, with_targets));
                    }
                    o
                } else {
                    let f = |a: &SSAArg| -> (r: SSAArg)
                        ensures
                            spec_as_arg(r.arg) == spec_as_arg(a.arg),
                            r == spec_lookup_rename(t@, *a),
                        { lookup_rename(t, *a) };
                    let o = self.out.blocks[i].1.ops[k].1.map(f);
                    proof {
                        lemma_related_erase(old_op@, o@, |a: SSAArg, b: SSAArg| f.ensures((&a,), b));
                        crate::low_ir::lemma_map_is_instr_map(old_op@, o@, |a: SSAArg, b: SSAArg| f.ensures((&a,), b), renamer(t@, with_targets));
                    }
                    o
                };
                let ghost blocks_before = self.out.blocks@;
                let entry = &mut self.out.blocks[i];
                entry.1.ops.set(k, (addr, new_op));
                proof {
                    assert forall|j: int|
                        #![trigger self.out.blocks@[j]]
                        0 <= j < out0.blocks@.len() implies self.out.blocks@[j].0 == out0.blocks@[j].0 && self.out.blocks@[j].1.span
                            == out0.blocks@[j].1.span && self.out.blocks@[j].1.predecessors == out0.blocks@[j].1.predecessors
                            && self.out.blocks@[j].1.next == out0.blocks@[j].1.next && self.out.blocks@[j].1.ops@.len()
                            == out0.blocks@[j].1.ops@.len() && forall|q: int|
                            0 <= q < out0.blocks@[j].1.ops@.len() ==> (#[trigger] self.out.blocks@[j].1.ops@[q]).0
                                == out0.blocks@[j].1.ops@[q].0 && instr_map(self.out.blocks@[j].1.ops@[q].1@, ssa_erase())
                                == instr_map(out0.blocks@[j].1.ops@[q].1@, ssa_erase()) by {
                        if j != i {
                            assert(self.out.blocks@[j] == blocks_before[j]);
                        } else {
                            assert forall|q: int| 0 <= q < out0.blocks@[j].1.ops@.len() implies (#[trigger] self.out.blocks@[j].1.ops@[q]).0
                                == out0.blocks@[j].1.ops@[q].0 && instr_map(self.out.blocks@[j].1.ops@[q].1@, ssa_erase())
                                == instr_map(out0.blocks@[j].1.ops@[q].1@, ssa_erase()) by {
                                if q != k {
                                    assert(self.out.blocks@[j].1.ops@[q] == blocks_before[j].1.ops@[q]);
                                }
                            }
                        }
                    }
                    assert forall|j: int, q: int|
                        0 <= j < out0.blocks@.len() && 0 <= q < out0.blocks@[j].1.ops@.len() implies (#[trigger] self.out.blocks@[j].1.ops@[q]).1@
                            == (if j < i || (j == i && q < k + 1) {
                            instr_map(out0.blocks@[j].1.ops@[q].1@, renamer(t@, with_targets))
                        } else {
                            out0.blocks@[j].1.ops@[q].1@
                        }) by {
                        if j != i {
                            assert(self.out.blocks@[j] == blocks_before[j]);
                        } else if q != k {
                            assert(self.out.blocks@[j].1.ops@[q] == blocks_before[j].1.ops@[q]);
                        } else {
                            assert(blocks_before[j].1.ops@[q].1 == old_op);
                        }
                    }
                }
                k = k + 1;
            }
            i = i + 1;
        }
    }
}

/// Whether `new` is the phi function `old` renamed by `t`: its output, when
/// asked, by its entry; its inputs by [`renamer`].
pub open spec fn phi_renamed(old: PhiNode, new: PhiNode, t: Seq<(SSAArg, SSAArg)>, rename_outputs: bool, full: bool) -> bool {
    &&& new.output == (if rename_outputs {
        spec_lookup_rename(t, old.output)
    } else {
        old.output
    })
    &&& new.inputs@ == old.inputs@.map_values(renamer(t, full))
}

/// How many versions of the operand of the `e`-th entry among the first `f`
/// entries are written before it: at a lower address, or at the same one
/// and listed earlier.
pub open spec fn rank_upto(locs: Seq<(SSAArg, usize)>, e: int, f: int) -> nat
    decreases f,
{
    if f <= 0 {
        0
    } else {
        rank_upto(locs, e, f - 1) + if locs[f - 1].0.arg == locs[e].0.arg && (locs[f - 1].1 < locs[e].1 || (locs[f - 1].1
            == locs[e].1 && f - 1 < e)) {
            1nat
        } else {
            0nat
        }
    }
}

/// Each version, with where it is written, renamed to its rank among the
/// versions of its operand.
pub open spec fn renumber_table(locs: Seq<(SSAArg, usize)>) -> Seq<(SSAArg, SSAArg)> {
    Seq::new(
        locs.len(),
        |e: int| (locs[e].0, SSAArg { scope: locs[e].0.scope, arg: locs[e].0.arg, version: rank_upto(locs, e, locs.len() as int) as usize }),
    )
}

impl SSAConverter {
    /// Renames the phi functions by `t`: their outputs, when asked, by their
    /// entries, and their inputs by their entries, or as [`rename_var`]
    /// does when `full`.
    fn rename_phis(&mut self, t: &Vec<(SSAArg, SSAArg)>, rename_outputs: bool, full: bool)
        requires
            renames_ok(t@),
            all_phis_ok(old(self).phi_nodes@),
        ensures
            all_phis_ok(final(self).phi_nodes@),
            final(self).phi_nodes@.len() == old(self).phi_nodes@.len(),
            forall|i: int| 0 <= i < old(self).phi_nodes@.len() ==> (#[trigger] final(self).phi_nodes@[i]).0 == old(self).phi_nodes@[i].0,
            same_phi_keys(final(self).phi_nodes@, old(self).phi_nodes@),
            forall|q: int, r: int|
                0 <= q < old(self).phi_nodes@.len() && 0 <= r < old(self).phi_nodes@[q].1@.len() ==> phi_renamed(
                    old(self).phi_nodes@[q].1@[r].1,
                    (#[trigger] final(self).phi_nodes@[q].1@[r]).1,
                    t@,
                    rename_outputs,
                    full,
                ),
            final(self).current_version == old(self).current_version,
            final(self).var_versions == old(self).var_versions,
            final(self).var_locations == old(self).var_locations,
            final(self).visited == old(self).visited,
            final(self).out == old(self).out,
            final(self).call_arguments == old(self).call_arguments,
            final(self).created == old(self).created,
    {
        let ghost pn0 = self.phi_nodes@;
        let mut i: usize = 0;
        while i < self.phi_nodes.len()
            invariant
                renames_ok(t@),
                i <= self.phi_nodes@.len(),
                self.phi_nodes@.len() == pn0.len(),
                all_phis_ok(self.phi_nodes@),
                forall|q: int| 0 <= q < pn0.len() ==> (#[trigger] self.phi_nodes@[q]).0 == pn0[q].0,
                same_phi_keys(self.phi_nodes@, pn0),
                forall|q: int, r: int|
                    0 <= q < pn0.len() && 0 <= r < pn0[q].1@.len() ==> if q < i {
                        phi_renamed(pn0[q].1@[r].1, (#[trigger] self.phi_nodes@[q].1@[r]).1, t@, rename_outputs, full)
                    } else {
                        self.phi_nodes@[q].1@[r] == pn0[q].1@[r]
                    },
                self.current_version == old(self).current_version,
                self.var_versions == old(self).var_versions,
                self.var_locations == old(self).var_locations,
                self.visited == old(self).visited,
                self.out == old(self).out,
                self.call_arguments == old(self).call_arguments,
                self.created == old(self).created,
            decreases self.phi_nodes.len() - i,
        {
            let mut j: usize = 0;
            let ghost keys_i = self.phi_nodes@[i as int].1@.map_values(|e: (Arg, PhiNode)| e.0);
            while j < self.phi_nodes[i].1.len()
                invariant
                    renames_ok(t@),
                    i < self.phi_nodes@.len(),
                    j <= self.phi_nodes@[i as int].1@.len(),
                    self.phi_nodes@.len() == pn0.len(),
                    all_phis_ok(self.phi_nodes@),
                    forall|q: int| 0 <= q < pn0.len() ==> (#[trigger] self.phi_nodes@[q]).0 == pn0[q].0,
                    same_phi_keys(self.phi_nodes@, pn0),
                    forall|q: int, r: int|
                        0 <= q < pn0.len() && 0 <= r < pn0[q].1@.len() ==> if q < i || (q == i && r < j) {
                            phi_renamed(pn0[q].1@[r].1, (#[trigger] self.phi_nodes@[q].1@[r]).1, t@, rename_outputs, full)
                        } else {
                            self.phi_nodes@[q].1@[r] == pn0[q].1@[r]
                        },
                    self.current_version == old(self).current_version,
                    self.var_versions == old(self).var_versions,
                    self.var_locations == old(self).var_locations,
                    self.visited == old(self).visited,
                    self.out == old(self).out,
                    self.call_arguments == old(self).call_arguments,
                    self.created == old(self).created,
                decreases self.phi_nodes@[i as int].1@.len() - j,
            {
                let ghost pn1 = self.phi_nodes@;
                let ghost t0 = pn1[i as int].1@;
                assert(phis_ok(t0));
                assert(phi_of(t0[j as int].0, t0[j as int].1));
                let key = self.phi_nodes[i].1[j].0;
                let out0 = self.phi_nodes[i].1[j].1.output;
                let new_output = if rename_outputs {
                    lookup_rename(t, out0)
                } else {
                    out0
                };
                let mut new_inputs: Vec<SSAArg> = Vec::new();
                let mut k: usize = 0;
                while k < self.phi_nodes[i].1[j].1.inputs.len()
                    invariant
                        renames_ok(t@),
                        i < self.phi_nodes@.len(),
                        j < self.phi_nodes@[i as int].1@.len(),
                        self.phi_nodes@ == pn1,
                        phi_of(key, pn1[i as int].1@[j as int].1),
                        k <= pn1[i as int].1@[j as int].1.inputs@.len(),
                        new_inputs@.len() == k,
                        forall|q: int| 0 <= q < k ==> spec_as_arg((#[trigger] new_inputs@[q]).arg) == key,
                        new_inputs@ == pn1[i as int].1@[j as int].1.inputs@.take(k as int).map_values(renamer(t@, full)),
                    decreases self.phi_nodes@[i as int].1@[j as int].1.inputs@.len() - k,
                {
                    let a = self.phi_nodes[i].1[j].1.inputs[k];
                    assert(spec_as_arg(pn1[i as int].1@[j as int].1.inputs@[k as int].arg) == key);
                    let b = if full {
                        rename_var(t, a)
                    } else {
                        lookup_rename(t, a)
                    };
                    new_inputs.push(b);
                    k = k + 1;
                    assert(new_inputs@ =~= pn1[i as int].1@[j as int].1.inputs@.take(k as int).map_values(renamer(t@, full)));
                }
                assert(pn1[i as int].1@[j as int].1.inputs@.take(k as int) =~= pn1[i as int].1@[j as int].1.inputs@);
                let node = PhiNode { output: new_output, inputs: new_inputs };
                assert(phi_of(key, node));
                let entry = &mut self.phi_nodes[i];
                entry.1.set(j, (key, node));
                proof {
                    let t1 = self.phi_nodes@[i as int].1@;
                    assert(pn1[i as int].1@[j as int] == pn0[i as int].1@[j as int]);
                    assert forall|q: int, r: int|
                        0 <= q < pn0.len() && 0 <= r < pn0[q].1@.len() implies if q < i || (q == i && r < j + 1) {
                            phi_renamed(pn0[q].1@[r].1, (#[trigger] self.phi_nodes@[q].1@[r]).1, t@, rename_outputs, full)
                        } else {
                            self.phi_nodes@[q].1@[r] == pn0[q].1@[r]
                        } by {
                        if q != i {
                            assert(self.phi_nodes@[q] == pn1[q]);
                        } else if r != j {
                            assert(self.phi_nodes@[q].1@[r] == pn1[q].1@[r]);
                        }
                    }
                    assert forall|q: int| 0 <= q < t1.len() implies phi_of((#[trigger] t1[q]).0, t1[q].1) by {
                        if q != j {
                            assert(t1[q] == t0[q]);
                        }
                    }
                    assert(keys_distinct(t1)) by {
                        assert forall|a: int, b: int| 0 <= a < b < t1.len() implies t1[a].0 != t1[b].0 by {
                            assert(t1[a].0 == t0[a].0);
                            assert(t1[b].0 == t0[b].0);
                        }
                    }
                    assert forall|q: int| 0 <= q < self.phi_nodes@.len() implies phis_ok((#[trigger] self.phi_nodes@[q]).1@) by {
                        if q != i {
                            assert(self.phi_nodes@[q] == pn1[q]);
                        }
                    }
                    assert(keys_distinct(self.phi_nodes@)) by {
                        assert forall|a: int, b: int| 0 <= a < b < self.phi_nodes@.len() implies self.phi_nodes@[a].0 != self.phi_nodes@[b].0 by {
                            assert(self.phi_nodes@[a].0 == pn1[a].0);
                            assert(self.phi_nodes@[b].0 == pn1[b].0);
                        }
                    }
                    assert forall|q: int| 0 <= q < pn0.len() implies (#[trigger] self.phi_nodes@[q]).0 == pn0[q].0 by {
                        assert(self.phi_nodes@[q].0 == pn1[q].0);
                    }
                    assert(same_phi_keys(self.phi_nodes@, pn0)) by {
                        assert forall|q: int| 0 <= q < pn0.len() implies (#[trigger] self.phi_nodes@[q]).1@.len() == pn0[q].1@.len()
                            && forall|r: int| 0 <= r < pn0[q].1@.len() ==> (#[trigger] self.phi_nodes@[q].1@[r]).0 == pn0[q].1@[r].0 by {
                            if q != i {
                                assert(self.phi_nodes@[q] == pn1[q]);
                            } else {
                                assert forall|r: int| 0 <= r < pn0[q].1@.len() implies (#[trigger] self.phi_nodes@[q].1@[r]).0 == pn0[q].1@[r].0 by {
                                    if r != j {
                                        assert(self.phi_nodes@[q].1@[r] == pn1[q].1@[r]);
                                    }
                                }
                            }
                        }
                    }
                }
                j = j + 1;
            }
            i = i + 1;
        }
    }

    /// Renames each latest version as [`rename_var`] does.
    fn rename_versions(&mut self, t: &Vec<(SSAArg, SSAArg)>)
        requires
            renames_ok(t@),
            all_versions_ok(old(self).var_versions@),
        ensures
            all_versions_ok(final(self).var_versions@),
            forall|b: BlockId| #[trigger] assoc_get(old(self).var_versions@, b) is Some ==> assoc_get(final(self).var_versions@, b) is Some,
            final(self).var_versions@.len() == old(self).var_versions@.len(),
            forall|q: int|
                0 <= q < old(self).var_versions@.len() ==> (#[trigger] final(self).var_versions@[q]).0 == old(self).var_versions@[q].0
                    && final(self).var_versions@[q].1@.len() == old(self).var_versions@[q].1@.len(),
            forall|q: int, r: int|
                0 <= q < old(self).var_versions@.len() && 0 <= r < old(self).var_versions@[q].1@.len() ==> (#[trigger] final(self).var_versions@[q].1@[r]) == (old(self).var_versions@[q].1@[r].0, spec_rename_var(t@, old(self).var_versions@[q].1@[r].1)),
            final(self).current_version == old(self).current_version,
            final(self).phi_nodes == old(self).phi_nodes,
            final(self).var_locations == old(self).var_locations,
            final(self).visited == old(self).visited,
            final(self).out == old(self).out,
            final(self).call_arguments == old(self).call_arguments,
            final(self).created == old(self).created,
    {
        let ghost vv0 = self.var_versions@;
        let mut i: usize = 0;
        while i < self.var_versions.len()
            invariant
                renames_ok(t@),
                i <= self.var_versions@.len(),
                self.var_versions@.len() == vv0.len(),
                all_versions_ok(self.var_versions@),
                forall|q: int| 0 <= q < vv0.len() ==> (#[trigger] self.var_versions@[q]).0 == vv0[q].0,
                forall|q: int| 0 <= q < vv0.len() ==> (#[trigger] self.var_versions@[q]).1@.len() == vv0[q].1@.len(),
                forall|q: int, r: int|
                    0 <= q < vv0.len() && 0 <= r < vv0[q].1@.len() ==> (#[trigger] self.var_versions@[q].1@[r]) == if q < i {
                        (vv0[q].1@[r].0, spec_rename_var(t@, vv0[q].1@[r].1))
                    } else {
                        vv0[q].1@[r]
                    },
                self.current_version == old(self).current_version,
                self.phi_nodes == old(self).phi_nodes,
                self.var_locations == old(self).var_locations,
                self.visited == old(self).visited,
                self.out == old(self).out,
                self.call_arguments == old(self).call_arguments,
                self.created == old(self).created,
            decreases self.var_versions.len() - i,
        {
            let mut j: usize = 0;
            while j < self.var_versions[i].1.len()
                invariant
                    renames_ok(t@),
                    i < self.var_versions@.len(),
                    j <= self.var_versions@[i as int].1@.len(),
                    self.var_versions@.len() == vv0.len(),
                    all_versions_ok(self.var_versions@),
                    forall|q: int| 0 <= q < vv0.len() ==> (#[trigger] self.var_versions@[q]).0 == vv0[q].0,
                    forall|q: int| 0 <= q < vv0.len() ==> (#[trigger] self.var_versions@[q]).1@.len() == vv0[q].1@.len(),
                    forall|q: int, r: int|
                        0 <= q < vv0.len() && 0 <= r < vv0[q].1@.len() ==> (#[trigger] self.var_versions@[q].1@[r]) == if q < i || (q == i
                            && r < j) {
                            (vv0[q].1@[r].0, spec_rename_var(t@, vv0[q].1@[r].1))
                        } else {
                            vv0[q].1@[r]
                        },
                    self.current_version == old(self).current_version,
                    self.phi_nodes == old(self).phi_nodes,
                    self.var_locations == old(self).var_locations,
                    self.visited == old(self).visited,
                    self.out == old(self).out,
                    self.call_arguments == old(self).call_arguments,
                    self.created == old(self).created,
                decreases self.var_versions@[i as int].1@.len() - j,
            {
                let ghost vv1 = self.var_versions@;
                let ghost t0 = vv1[i as int].1@;
                assert(versions_ok(t0));
                let (k, v) = self.var_versions[i].1[j];
                assert(spec_as_arg(t0[j as int].1.arg) == t0[j as int].0);
                let nv = rename_var(t, v);
                let entry = &mut self.var_versions[i];
                entry.1.set(j, (k, nv));
                proof {
                    let t1 = self.var_versions@[i as int].1@;
                    assert forall|q: int| 0 <= q < t1.len() implies spec_as_arg((#[trigger] t1[q]).1.arg) == t1[q].0 && !(t1[q].0 is Deref) by {
                        if q != j {
                            assert(t1[q] == t0[q]);
                        }
                    }
                    assert(keys_distinct(t1)) by {
                        assert forall|a: int, b: int| 0 <= a < b < t1.len() implies t1[a].0 != t1[b].0 by {
                            assert(t1[a].0 == t0[a].0);
                            assert(t1[b].0 == t0[b].0);
                        }
                    }
                    assert forall|q: int| 0 <= q < self.var_versions@.len() implies versions_ok((#[trigger] self.var_versions@[q]).1@) by {
                        if q != i {
                            assert(self.var_versions@[q] == vv1[q]);
                        }
                    }
                    assert(keys_distinct(self.var_versions@)) by {
                        assert forall|a: int, b: int| 0 <= a < b < self.var_versions@.len() implies self.var_versions@[a].0 != self.var_versions@[b].0 by {
                            assert(self.var_versions@[a].0 == vv1[a].0);
                            assert(self.var_versions@[b].0 == vv1[b].0);
                        }
                    }
                    assert forall|q: int| 0 <= q < vv0.len() implies (#[trigger] self.var_versions@[q]).0 == vv0[q].0 by {
                        assert(self.var_versions@[q].0 == vv1[q].0);
                    }
                    assert forall|q: int| 0 <= q < vv0.len() implies (#[trigger] self.var_versions@[q]).1@.len() == vv0[q].1@.len() by {
                        if q != i {
                            assert(self.var_versions@[q] == vv1[q]);
                        }
                    }
                    assert(vv1[i as int].1@[j as int] == vv0[i as int].1@[j as int]);
                    assert forall|q: int, r: int|
                        0 <= q < vv0.len() && 0 <= r < vv0[q].1@.len() implies (#[trigger] self.var_versions@[q].1@[r]) == if q < i || (q == i
                            && r < j + 1) {
                            (vv0[q].1@[r].0, spec_rename_var(t@, vv0[q].1@[r].1))
                        } else {
                            vv0[q].1@[r]
                        } by {
                        if q != i {
                            assert(self.var_versions@[q] == vv1[q]);
                        } else if r != j {
                            assert(self.var_versions@[q].1@[r] == vv1[q].1@[r]);
                        }
                    }
                }
                j = j + 1;
            }
            i = i + 1;
        }
        proof {
            assert forall|b: BlockId| #[trigger] assoc_get(vv0, b) is Some implies assoc_get(self.var_versions@, b) is Some by {
                crate::assoc::lemma_key_index_keys(vv0, self.var_versions@, b);
                lemma_key_index(vv0, b);
            }
        }
    }

    /// Numbers the versions of each operand again from zero, in the order of
    /// the addresses where they are written: each version is renamed as
    /// [`renumber_table`] says, in the operations, the phi functions and the
    /// latest versions.
    fn renumber_all_vars(&mut self)
        requires
            all_phis_ok(old(self).phi_nodes@),
            all_versions_ok(old(self).var_versions@),
        ensures
            all_phis_ok(final(self).phi_nodes@),
            all_versions_ok(final(self).var_versions@),
            forall|b: BlockId| #[trigger] assoc_get(old(self).var_versions@, b) is Some ==> assoc_get(final(self).var_versions@, b) is Some,
            final(self).phi_nodes@.len() == old(self).phi_nodes@.len(),
            forall|i: int| 0 <= i < old(self).phi_nodes@.len() ==> (#[trigger] final(self).phi_nodes@[i]).0 == old(self).phi_nodes@[i].0,
            final(self).out.start == old(self).out.start,
            final(self).out.stack_size == old(self).out.stack_size,
            final(self).out.blocks@.len() == old(self).out.blocks@.len(),
            forall|i: int|
                #![trigger final(self).out.blocks@[i]]
                0 <= i < old(self).out.blocks@.len() ==> final(self).out.blocks@[i].0 == old(self).out.blocks@[i].0
                    && final(self).out.blocks@[i].1.span == old(self).out.blocks@[i].1.span
                    && final(self).out.blocks@[i].1.predecessors == old(self).out.blocks@[i].1.predecessors
                    && final(self).out.blocks@[i].1.next == old(self).out.blocks@[i].1.next
                    && final(self).out.blocks@[i].1.ops@.len() == old(self).out.blocks@[i].1.ops@.len()
                    && forall|k: int| 0 <= k < old(self).out.blocks@[i].1.ops@.len() ==> (#[trigger] final(self).out.blocks@[i].1.ops@[k]).0
                        == old(self).out.blocks@[i].1.ops@[k].0 && instr_map(final(self).out.blocks@[i].1.ops@[k].1@, ssa_erase())
                        == instr_map(old(self).out.blocks@[i].1.ops@[k].1@, ssa_erase()),
            forall|i: int, k: int|
                0 <= i < old(self).out.blocks@.len() && 0 <= k < old(self).out.blocks@[i].1.ops@.len() ==> (#[trigger] final(self).out.blocks@[i].1.ops@[k]).1@
                    == instr_map(old(self).out.blocks@[i].1.ops@[k].1@, renamer(renumber_table(old(self).var_locations@), true)),
            forall|q: int, r: int|
                0 <= q < old(self).phi_nodes@.len() && 0 <= r < old(self).phi_nodes@[q].1@.len() ==> phi_renamed(
                    old(self).phi_nodes@[q].1@[r].1,
                    (#[trigger] final(self).phi_nodes@[q].1@[r]).1,
                    renumber_table(old(self).var_locations@),
                    true,
                    true,
                ),
            final(self).var_versions@.len() == old(self).var_versions@.len(),
            forall|q: int, r: int|
                0 <= q < old(self).var_versions@.len() && 0 <= r < old(self).var_versions@[q].1@.len() ==> (#[trigger] final(self).var_versions@[q].1@[r])
                    == (old(self).var_versions@[q].1@[r].0, spec_rename_var(renumber_table(old(self).var_locations@), old(self).var_versions@[q].1@[r].1)),
            final(self).current_version == old(self).current_version,
            final(self).visited == old(self).visited,
            final(self).call_arguments == old(self).call_arguments,
            final(self).created == old(self).created,
    {
        let ghost locs = self.var_locations@;
        let mut rename_list: Vec<(SSAArg, SSAArg)> = Vec::new();
        let n = self.var_locations.len();
        let mut e: usize = 0;
        while e < n
            invariant
                n == self.var_locations@.len(),
                locs == self.var_locations@,
                e <= n,
                renames_ok(rename_list@),
                rename_list@ == renumber_table(locs).take(e as int),
            decreases n - e,
        {
            let (ssa, loc) = self.var_locations[e];
            let mut rank: usize = 0;
            let mut f: usize = 0;
            while f < n
                invariant
                    n == self.var_locations@.len(),
                    locs == self.var_locations@,
                    e < n,
                    ssa == locs[e as int].0,
                    loc == locs[e as int].1,
                    f <= n,
                    rank <= f,
                    rank == rank_upto(locs, e as int, f as int),
                decreases n - f,
            {
                let (ssa2, loc2) = self.var_locations[f];
                if ssa2.arg == ssa.arg && (loc2 < loc || (loc2 == loc && f < e)) {
                    rank = rank + 1;
                }
                f = f + 1;
            }
            let new_ssa = SSAArg { scope: ssa.scope, arg: ssa.arg, version: rank };
            rename_list.push((ssa, new_ssa));
            e = e + 1;
            assert(rename_list@ =~= renumber_table(locs).take(e as int));
        }
        assert(renumber_table(locs).take(e as int) =~= renumber_table(locs));
        self.rename_in_ops(&rename_list, true);
        self.rename_phis(&rename_list, true, true);
        self.rename_versions(&rename_list);
    }
}

/// Whether an operation is a phi function of versions of one operand.
pub open spec fn single_operand_phi(i: InstrView<SSAArg>) -> bool {
    match i {
        InstrView::Phi(o, ins) => forall|q: int| 0 <= q < ins.len() ==> spec_as_arg((#[trigger] ins[q]).arg) == spec_as_arg(o.arg),
        _ => false,
    }
}

/// Whether the operations are phi functions of one operand each, at `at`.
pub open spec fn phi_ops(ops: Seq<(usize, InstrView<SSAArg>)>, at: usize) -> bool {
    forall|k: int| 0 <= k < ops.len() ==> (#[trigger] ops[k]).0 == at && single_operand_phi(ops[k].1)
}

/// Whether `a` comes before `b` in the order of operand kinds: immediate
/// values, frame slots, memory cells, pointer targets, each by its numbers.
pub open spec fn spec_kind_before(a: SSAArgKind, b: SSAArgKind) -> bool {
    match (a, b) {
        (SSAArgKind::Value(x), SSAArgKind::Value(y)) => x < y,
        (SSAArgKind::Value(_), _) => true,
        (SSAArgKind::RelativeMem(_), SSAArgKind::Value(_)) => false,
        (SSAArgKind::RelativeMem(x), SSAArgKind::RelativeMem(y)) => x < y,
        (SSAArgKind::RelativeMem(_), _) => true,
        (SSAArgKind::Mem(x), SSAArgKind::Mem(y)) => x < y,
        (SSAArgKind::Mem(_), SSAArgKind::Deref { .. }) => true,
        (SSAArgKind::Mem(_), _) => false,
        (SSAArgKind::Deref { addr: a1, deref_version: d1 }, SSAArgKind::Deref { addr: a2, deref_version: d2 }) => a1 < a2 || (a1
            == a2 && d1 < d2),
        (SSAArgKind::Deref { .. }, _) => false,
    }
}

/// Whether `a` comes before `b` in the order of operand kinds.
fn kind_before(a: SSAArgKind, b: SSAArgKind) -> (r: bool)
    ensures
        r == spec_kind_before(a, b),
{
    match (a, b) {
        (SSAArgKind::Value(x), SSAArgKind::Value(y)) => x < y,
        (SSAArgKind::Value(_), _) => true,
        (SSAArgKind::RelativeMem(_), SSAArgKind::Value(_)) => false,
        (SSAArgKind::RelativeMem(x), SSAArgKind::RelativeMem(y)) => x < y,
        (SSAArgKind::RelativeMem(_), _) => true,
        (SSAArgKind::Mem(x), SSAArgKind::Mem(y)) => x < y,
        (SSAArgKind::Mem(_), SSAArgKind::Deref { .. }) => true,
        (SSAArgKind::Mem(_), _) => false,
        (SSAArgKind::Deref { addr: a1, deref_version: d1 }, SSAArgKind::Deref { addr: a2, deref_version: d2 }) => a1 < a2 || (a1
            == a2 && d1 < d2),
        (SSAArgKind::Deref { .. }, _) => false,
    }
}

/// A phi function as an operation.
pub open spec fn phi_instr(n: PhiNode) -> InstrView<SSAArg> {
    InstrView::Phi(n.output, n.inputs@)
}

/// Whether `ops` lists the phi functions of `phis` as operations at `at`,
/// each once, ordered by the kind of operand they define.
#[verifier::opaque]
pub open spec fn phi_listing(ops: Seq<(usize, InstrView<SSAArg>)>, phis: Seq<(Arg, PhiNode)>, at: usize) -> bool {
    &&& ops.len() == phis.len()
    &&& forall|k: int| 0 <= k < ops.len() ==> (#[trigger] ops[k]).0 == at
    &&& forall|k: int| 0 <= k < ops.len() ==> exists|j: int| 0 <= j < phis.len() && (#[trigger] ops[k]).1 == phi_instr(#[trigger] phis[j].1)
    &&& forall|j: int| 0 <= j < phis.len() ==> exists|k: int| 0 <= k < ops.len() && (#[trigger] ops[k]).1 == phi_instr(#[trigger] phis[j].1)
    &&& forall|k1: int, k2: int|
        0 <= k1 < k2 < ops.len() ==> !spec_kind_before((#[trigger] ops[k2]).1->Phi_0.arg, (#[trigger] ops[k1]).1->Phi_0.arg)
}

/// How many entries are set.
pub open spec fn count_set(s: Seq<bool>) -> nat
    decreases s.len(),
{
    if s.len() == 0 {
        0
    } else {
        count_set(s.drop_last()) + if s.last() {
            1nat
        } else {
            0nat
        }
    }
}

proof fn lemma_count_set_bound(s: Seq<bool>)
    ensures
        count_set(s) <= s.len(),
        count_set(s) == s.len() ==> forall|j: int| 0 <= j < s.len() ==> #[trigger] s[j],
        count_set(s) == 0 ==> forall|j: int| 0 <= j < s.len() ==> !#[trigger] s[j],
    decreases s.len(),
{
    if s.len() > 0 {
        lemma_count_set_bound(s.drop_last());
        assert forall|j: int| 0 <= j < s.len() - 1 implies s.drop_last()[j] == s[j] by {}
    }
}

/// No operations list no phi functions.
proof fn lemma_phi_listing_empty(at: usize)
    ensures
        phi_listing(Seq::empty(), Seq::empty(), at),
{
    reveal(phi_listing);
}

proof fn lemma_count_set_all(s: Seq<bool>)
    requires
        forall|j: int| 0 <= j < s.len() ==> #[trigger] s[j],
    ensures
        count_set(s) == s.len(),
    decreases s.len(),
{
    if s.len() > 0 {
        assert forall|j: int| 0 <= j < s.len() - 1 implies #[trigger] s.drop_last()[j] by {
            assert(s.drop_last()[j] == s[j]);
        }
        lemma_count_set_all(s.drop_last());
    }
}

proof fn lemma_count_set_update(s: Seq<bool>, i: int)
    requires
        0 <= i < s.len(),
        !s[i],
    ensures
        count_set(s.update(i, true)) == count_set(s) + 1,
    decreases s.len(),
{
    if i < s.len() - 1 {
        lemma_count_set_update(s.drop_last(), i);
        assert(s.update(i, true).drop_last() =~= s.drop_last().update(i, true));
    } else {
        assert(s.update(i, true).drop_last() =~= s.drop_last());
    }
}

proof fn lemma_kind_before_order(a: SSAArgKind, b: SSAArgKind, c: SSAArgKind)
    ensures
        !spec_kind_before(a, a),
        spec_kind_before(a, b) && spec_kind_before(b, c) ==> spec_kind_before(a, c),
{
}

/// The phi functions of a block as operations at `at`, ordered by the
/// kind of operand they define.
fn phi_operations(phis: &Vec<(Arg, PhiNode)>, at: usize) -> (r: Vec<(usize, GenericInstruction<SSAArg>)>)
    requires
        phis_ok(phis@),
    ensures
        phi_ops(ops_view(r@), at),
        phi_listing(ops_view(r@), phis@, at),
{
    let n = phis.len();
    let mut taken: Vec<bool> = Vec::new();
    let mut i: usize = 0;
    while i < n
        invariant
            i <= n,
            taken@.len() == i,
            count_set(taken@) == 0,
        decreases n - i,
    {
        let ghost t0 = taken@;
        taken.push(false);
        assert(taken@.drop_last() =~= t0);
        i = i + 1;
    }
    proof {
        lemma_count_set_bound(taken@);
    }
    let mut r: Vec<(usize, GenericInstruction<SSAArg>)> = Vec::new();
    let ghost mut picked: Seq<int> = Seq::empty();
    let mut round: usize = 0;
    while round < n
        invariant
            n == phis@.len(),
            taken@.len() == n,
            phis_ok(phis@),
            phi_ops(ops_view(r@), at),
            round <= n,
            count_set(taken@) == round,
            picked.len() == round,
            r@.len() == round,
            forall|k: int| 0 <= k < round ==> 0 <= #[trigger] picked[k] < n && taken@[picked[k]],
            forall|j: int| 0 <= j < n && #[trigger] taken@[j] ==> exists|k: int| 0 <= k < round && picked[k] == j,
            forall|k: int| 0 <= k < round ==> (#[trigger] ops_view(r@)[k]) == (at, phi_instr(phis@[picked[k]].1)),
            forall|k1: int, k2: int|
                0 <= k1 < k2 < round ==> !spec_kind_before(
                    phis@[#[trigger] picked[k2]].1.output.arg,
                    phis@[#[trigger] picked[k1]].1.output.arg,
                ),
            forall|k: int, j: int|
                0 <= k < round && 0 <= j < n && !(#[trigger] taken@[j]) ==> !spec_kind_before(
                    phis@[j].1.output.arg,
                    phis@[#[trigger] picked[k]].1.output.arg,
                ),
        decreases n - round,
    {
        proof {
            lemma_count_set_bound(taken@);
        }
        let mut best: usize = n;
        let mut j: usize = 0;
        while j < n
            invariant
                n == phis@.len(),
                taken@.len() == n,
                j <= n,
                best == n || (best < n && !taken@[best as int]),
                forall|q: int|
                    0 <= q < j && !(#[trigger] taken@[q]) ==> best < n && !spec_kind_before(
                        phis@[q].1.output.arg,
                        phis@[best as int].1.output.arg,
                    ),
            decreases n - j,
        {
            if !taken[j] && (best == n || kind_before(phis[j].1.output.arg, phis[best].1.output.arg)) {
                proof {
                    assert forall|q: int|
                        0 <= q < j + 1 && !(#[trigger] taken@[q]) implies !spec_kind_before(
                        phis@[q].1.output.arg,
                        phis@[j as int].1.output.arg,
                    ) by {
                        lemma_kind_before_order(phis@[q].1.output.arg, phis@[j as int].1.output.arg, phis@[best as int].1.output.arg);
                    }
                }
                best = j;
            }
            j = j + 1;
        }
        proof {
            if best == n {
                assert forall|q: int| 0 <= q < taken@.len() implies #[trigger] taken@[q] by {}
                lemma_count_set_all(taken@);
                assert(false);
            }
        }
        let ghost taken0 = taken@;
        taken.set(best, true);
        proof {
            lemma_count_set_update(taken0, best as int);
            assert(taken@ == taken0.update(best as int, true));
        }
        let node = &phis[best].1;
        assert(phi_of(phis@[best as int].0, phis@[best as int].1));
        let mut ins: Vec<SSAArg> = Vec::new();
        let mut k: usize = 0;
        while k < node.inputs.len()
            invariant
                k <= node.inputs@.len(),
                ins@ == node.inputs@.take(k as int),
            decreases node.inputs.len() - k,
        {
            ins.push(node.inputs[k]);
            k = k + 1;
            assert(ins@ =~= node.inputs@.take(k as int));
        }
        assert(ins@ =~= node.inputs@);
        let ghost r0 = r@;
        let ghost picked0 = picked;
        r.push((at, GenericInstruction::Phi(node.output, ins)));
        proof {
            picked = picked0.push(best as int);
            assert(ops_view(r@) =~= ops_view(r0).push((at, InstrView::Phi(node.output, node.inputs@))));
            assert forall|k: int| 0 <= k < round + 1 implies (#[trigger] ops_view(r@)[k]) == (at, phi_instr(phis@[picked[k]].1)) by {
                if k < round {
                    assert(ops_view(r@)[k] == ops_view(r0)[k]);
                    assert(picked[k] == picked0[k]);
                }
            }
            assert forall|k: int| 0 <= k < round + 1 implies 0 <= #[trigger] picked[k] < n && taken@[picked[k]] by {
                if k < round {
                    assert(picked[k] == picked0[k]);
                }
            }
            assert forall|q: int| 0 <= q < n && #[trigger] taken@[q] implies exists|k: int| 0 <= k < round + 1 && picked[k] == q by {
                if q == best {
                    assert(picked[round as int] == q);
                } else {
                    assert(taken0[q]);
                    let k = choose|k: int| 0 <= k < round && picked0[k] == q;
                    assert(picked[k] == q);
                }
            }
            assert forall|k1: int, k2: int|
                0 <= k1 < k2 < round + 1 implies !spec_kind_before(
                    phis@[#[trigger] picked[k2]].1.output.arg,
                    phis@[#[trigger] picked[k1]].1.output.arg,
                ) by {
                assert(picked[k1] == picked0[k1]);
                if k2 < round {
                    assert(picked[k2] == picked0[k2]);
                } else {
                    assert(!taken0[best as int]);
                }
            }
            assert forall|k: int, q: int|
                0 <= k < round + 1 && 0 <= q < n && !(#[trigger] taken@[q]) implies !spec_kind_before(
                    phis@[q].1.output.arg,
                    phis@[#[trigger] picked[k]].1.output.arg,
                ) by {
                assert(!taken0[q]);
                if k < round {
                    assert(picked[k] == picked0[k]);
                }
            }
        }
        round = round + 1;
    }
    proof {
        reveal(phi_listing);
        lemma_count_set_bound(taken@);
        let ops = ops_view(r@);
        assert forall|k: int| 0 <= k < ops.len() implies exists|j: int| 0 <= j < phis@.len() && (#[trigger] ops[k]).1 == phi_instr(#[trigger] phis@[j].1) by {
            assert(ops[k] == (at, phi_instr(phis@[picked[k]].1)));
        }
        assert forall|j: int| 0 <= j < phis@.len() implies exists|k: int| 0 <= k < ops.len() && (#[trigger] ops[k]).1 == phi_instr(#[trigger] phis@[j].1) by {
            assert(taken@[j]);
            let k = choose|k: int| 0 <= k < n && picked[k] == j;
            assert(ops[k] == (at, phi_instr(phis@[picked[k]].1)));
        }
        assert forall|k1: int, k2: int|
            0 <= k1 < k2 < ops.len() implies !spec_kind_before((#[trigger] ops[k2]).1->Phi_0.arg, (#[trigger] ops[k1]).1->Phi_0.arg) by {
            assert(ops[k1] == (at, phi_instr(phis@[picked[k1]].1)));
            assert(ops[k2] == (at, phi_instr(phis@[picked[k2]].1)));
        }
    }
    r
}

/// The phi functions of block `b`.
pub open spec fn phis_for(pn: Seq<(BlockId, Vec<(Arg, PhiNode)>)>, b: BlockId) -> Seq<(Arg, PhiNode)> {
    match assoc_get(pn, b) {
        Some(t) => t@,
        None => Seq::empty(),
    }
}

/// The phi functions due at the start of the `i`-th block once the first
/// `limit` entries of `pn` are placed: those of its key, for the first
/// block of that key.
pub open spec fn phis_due(blocks: Seq<(BlockId, Block<SSAArg>)>, pn: Seq<(BlockId, Vec<(Arg, PhiNode)>)>, i: int, limit: int) -> Seq<(Arg, PhiNode)> {
    if i == key_index(blocks, blocks[i].0) && key_index(pn, blocks[i].0) < limit {
        phis_for(pn, blocks[i].0)
    } else {
        Seq::empty()
    }
}

/// Whether the block `nb` is `ob` with the operations of the phi functions
/// `phis` put before its own.
pub open spec fn prefixed(nb: Block<SSAArg>, ob: Block<SSAArg>, phis: Seq<(Arg, PhiNode)>) -> bool {
    &&& nb.ops@.len() >= ob.ops@.len()
    &&& {
        let ops = ops_view(nb.ops@);
        let p = ops.len() - ob.ops@.len();
        &&& phi_ops(ops.take(p), ob.span.start)
        &&& ops.skip(p) == ops_view(ob.ops@)
        &&& phi_listing(ops.take(p), phis, ob.span.start)
    }
}

impl SSAConverter {
    /// Puts the phi functions of each block before its operations, at the
    /// block's start: the first block of each key gets those of its key,
    /// listed as [`phi_operations`] does.
    fn populate_phi_functions(&mut self)
        requires
            all_phis_ok(old(self).phi_nodes@),
            forall|i: int| 0 <= i < old(self).phi_nodes@.len() ==> #[trigger] assoc_get(old(self).out.blocks@, old(self).phi_nodes@[i].0) is Some,
        ensures
            final(self).out.start == old(self).out.start,
            final(self).out.stack_size == old(self).out.stack_size,
            final(self).out.blocks@.len() == old(self).out.blocks@.len(),
            forall|i: int|
                #![trigger final(self).out.blocks@[i]]
                0 <= i < old(self).out.blocks@.len() ==> final(self).out.blocks@[i].0 == old(self).out.blocks@[i].0
                    && final(self).out.blocks@[i].1.span == old(self).out.blocks@[i].1.span
                    && final(self).out.blocks@[i].1.predecessors == old(self).out.blocks@[i].1.predecessors
                    && final(self).out.blocks@[i].1.next == old(self).out.blocks@[i].1.next
                    && prefixed(
                    final(self).out.blocks@[i].1,
                    old(self).out.blocks@[i].1,
                    phis_due(old(self).out.blocks@, old(self).phi_nodes@, i, old(self).phi_nodes@.len() as int),
                ),
            final(self).current_version == old(self).current_version,
            final(self).var_versions == old(self).var_versions,
            final(self).phi_nodes == old(self).phi_nodes,
            final(self).visited == old(self).visited,
            final(self).call_arguments == old(self).call_arguments,
            final(self).created == old(self).created,
    {
        let ghost out0 = self.out;
        let ghost pn = self.phi_nodes@;
        let mut pi: usize = 0;
        proof {
            assert forall|i: int|
                #![trigger self.out.blocks@[i]]
                0 <= i < out0.blocks@.len() implies prefixed(self.out.blocks@[i].1, out0.blocks@[i].1, phis_due(out0.blocks@, pn, i, 0)) by {
                let ops = ops_view(self.out.blocks@[i].1.ops@);
                lemma_phi_listing_empty(out0.blocks@[i].1.span.start);
                assert(ops.take(0) =~= Seq::<(usize, InstrView<SSAArg>)>::empty());
                assert(ops.skip(0) =~= ops);
                lemma_key_index(pn, out0.blocks@[i].0);
                assert(phis_due(out0.blocks@, pn, i, 0) =~= Seq::<(Arg, PhiNode)>::empty()) by {
                    if key_index(pn, out0.blocks@[i].0) < 0 {
                        assert(assoc_get(pn, out0.blocks@[i].0) is None);
                    }
                }
            }
        }
        while pi < self.phi_nodes.len()
            invariant
                pi <= self.phi_nodes@.len(),
                pn == self.phi_nodes@,
                all_phis_ok(self.phi_nodes@),
                forall|i: int| 0 <= i < self.phi_nodes@.len() ==> #[trigger] assoc_get(self.out.blocks@, self.phi_nodes@[i].0) is Some,
                self.out.start == out0.start,
                self.out.stack_size == out0.stack_size,
                self.out.blocks@.len() == out0.blocks@.len(),
                forall|i: int|
                    #![trigger self.out.blocks@[i]]
                    0 <= i < out0.blocks@.len() ==> self.out.blocks@[i].0 == out0.blocks@[i].0 && self.out.blocks@[i].1.span
                        == out0.blocks@[i].1.span && self.out.blocks@[i].1.predecessors == out0.blocks@[i].1.predecessors
                        && self.out.blocks@[i].1.next == out0.blocks@[i].1.next && prefixed(
                        self.out.blocks@[i].1,
                        out0.blocks@[i].1,
                        phis_due(out0.blocks@, pn, i, pi as int),
                    ),
                self.current_version == old(self).current_version,
                self.var_versions == old(self).var_versions,
                self.phi_nodes == old(self).phi_nodes,
                self.visited == old(self).visited,
                self.call_arguments == old(self).call_arguments,
                self.created == old(self).created,
            decreases self.phi_nodes.len() - pi,
        {
            let block_id = self.phi_nodes[pi].0;
            assert(assoc_get(self.out.blocks@, self.phi_nodes@[pi as int].0) is Some);
            proof {
                lemma_key_index(self.out.blocks@, block_id);
            }
            let bi = match find_key(&self.out.blocks, &block_id) {
                Some(bi) => bi,
                None => {
                    assert(false);
                    return;
                },
            };
            assert(phis_ok(self.phi_nodes@[pi as int].1@));
            let at = self.out.blocks[bi].1.span.start;
            let mut new_ops = phi_operations(&self.phi_nodes[pi].1, at);
            let ghost phis_v = ops_view(new_ops@);
            let ghost before = self.out.blocks@;
            let ghost old_ops = before[bi as int].1.ops@;
            let entry = &mut self.out.blocks[bi];
            let mut rest: Vec<(usize, GenericInstruction<SSAArg>)> = Vec::new();
            std::mem::swap(&mut rest, &mut entry.1.ops);
            new_ops.append(&mut rest);
            entry.1.ops = new_ops;
            proof {
                assert(ops_view(self.out.blocks@[bi as int].1.ops@) =~= phis_v + ops_view(old_ops));
                lemma_populate_step(out0.blocks@, before, self.out.blocks@, pn, pi as int, bi as int, phis_v);
                assert forall|i: int| 0 <= i < self.phi_nodes@.len() implies #[trigger] assoc_get(self.out.blocks@, self.phi_nodes@[i].0) is Some by {
                    let b = self.phi_nodes@[i].0;
                    assert forall|q: int| 0 <= q < before.len() implies before[q].0 == self.out.blocks@[q].0 by {
                        if q != bi {
                            assert(self.out.blocks@[q] == before[q]);
                        }
                    }
                    crate::assoc::lemma_get_keys(before, self.out.blocks@, b);
                }
            }
            pi = pi + 1;
        }
    }
}

/// One step of placing phi functions: the entry `pi` of `pn` goes to the
/// block `bi` of its key.
proof fn lemma_populate_step(
    blocks0: Seq<(BlockId, Block<SSAArg>)>,
    before: Seq<(BlockId, Block<SSAArg>)>,
    after: Seq<(BlockId, Block<SSAArg>)>,
    pn: Seq<(BlockId, Vec<(Arg, PhiNode)>)>,
    pi: int,
    bi: int,
    phis_v: Seq<(usize, InstrView<SSAArg>)>,
)
    requires
        all_phis_ok(pn),
        0 <= pi < pn.len(),
        before.len() == blocks0.len(),
        after.len() == blocks0.len(),
        0 <= bi < before.len(),
        key_index(before, pn[pi].0) == bi,
        forall|i: int|
            #![trigger before[i]]
            0 <= i < blocks0.len() ==> before[i].0 == blocks0[i].0 && before[i].1.span == blocks0[i].1.span && before[i].1.predecessors
                == blocks0[i].1.predecessors && before[i].1.next == blocks0[i].1.next && prefixed(
                before[i].1,
                blocks0[i].1,
                phis_due(blocks0, pn, i, pi),
            ),
        forall|i: int| 0 <= i < after.len() && i != bi ==> #[trigger] after[i] == before[i],
        after[bi].0 == before[bi].0,
        after[bi].1.span == before[bi].1.span,
        after[bi].1.predecessors == before[bi].1.predecessors,
        after[bi].1.next == before[bi].1.next,
        ops_view(after[bi].1.ops@) == phis_v + ops_view(before[bi].1.ops@),
        phi_ops(phis_v, before[bi].1.span.start),
        phi_listing(phis_v, pn[pi].1@, before[bi].1.span.start),
    ensures
        forall|i: int|
            #![trigger after[i]]
            0 <= i < blocks0.len() ==> after[i].0 == blocks0[i].0 && after[i].1.span == blocks0[i].1.span && after[i].1.predecessors
                == blocks0[i].1.predecessors && after[i].1.next == blocks0[i].1.next && prefixed(
                after[i].1,
                blocks0[i].1,
                phis_due(blocks0, pn, i, pi + 1),
            ),
{
    let block_id = pn[pi].0;
    crate::assoc::lemma_distinct_get(pn, block_id);
    lemma_key_index(pn, block_id);
    assert(key_index(pn, block_id) == pi);
    assert(phis_for(pn, block_id) == pn[pi].1@);
    assert forall|q: int| 0 <= q < before.len() implies before[q].0 == blocks0[q].0 by {
        assert(before[q].0 == blocks0[q].0);
    }
    crate::assoc::lemma_key_index_keys(before, blocks0, block_id);
    lemma_key_index(before, block_id);
    assert(before[bi].0 == blocks0[bi].0);
    assert(bi == key_index(blocks0, blocks0[bi].0));
    assert forall|i: int|
        #![trigger after[i]]
        0 <= i < blocks0.len() implies after[i].0 == blocks0[i].0 && after[i].1.span == blocks0[i].1.span && after[i].1.predecessors
            == blocks0[i].1.predecessors && after[i].1.next == blocks0[i].1.next && prefixed(
            after[i].1,
            blocks0[i].1,
            phis_due(blocks0, pn, i, pi + 1),
        ) by {
        assert(before[i].0 == blocks0[i].0);
        if i != bi {
            assert(after[i] == before[i]);
            if i == key_index(blocks0, blocks0[i].0) {
                assert(blocks0[i].0 != block_id);
                lemma_key_index(pn, blocks0[i].0);
                if key_index(pn, blocks0[i].0) == pi {
                    assert(pn[pi].0 == blocks0[i].0);
                }
            }
            assert(phis_due(blocks0, pn, i, pi + 1) == phis_due(blocks0, pn, i, pi));
        } else {
            assert(phis_due(blocks0, pn, i, pi) =~= Seq::<(Arg, PhiNode)>::empty());
            assert(phis_due(blocks0, pn, i, pi + 1) == pn[pi].1@);
            let ops = ops_view(after[i].1.ops@);
            let ops0 = ops_view(before[i].1.ops@);
            let p0 = ops0.len() - blocks0[i].1.ops@.len();
            let p = ops.len() - blocks0[i].1.ops@.len();
            assert(ops0.take(p0).len() == 0) by {
                reveal(phi_listing);
            }
            assert(p == phis_v.len() + p0);
            assert(ops.take(p) =~= phis_v);
            assert(ops.skip(p) =~= ops0.skip(p0));
        }
    }
}

/// The callee that a block's ending calls at a literal address, as the call
/// analysis knows it.
pub open spec fn literal_callee(infos: Seq<(FunctionId, InfoView)>, n: NextKind<OpArg>) -> Option<InfoView> {
    match n {
        NextKind::FunctionCall(fc) => match fc.function_addr.kind {
            Arg::Value(v) => assoc_get(infos, FunctionId(v as usize)),
            _ => None,
        },
        _ => None,
    }
}

/// Whether every call at a literal address is to a function that the call
/// analysis knows.
pub open spec fn calls_known(cf: ControlFlowGraph<OpArg>, infos: Seq<(FunctionId, InfoView)>) -> bool {
    forall|i: int|
        0 <= i < cf.blocks@.len() ==> match (#[trigger] cf.blocks@[i]).1.next {
            NextKind::FunctionCall(fc) => match fc.function_addr.kind {
                Arg::Value(v) => assoc_get(infos, FunctionId(v as usize)) is Some,
                _ => true,
            },
            _ => true,
        }
}

/// An upper bound on the versions made when a block's ending is converted.
pub open spec fn next_cost(infos: Seq<(FunctionId, InfoView)>, n: NextKind<OpArg>) -> nat {
    1 + match literal_callee(infos, n) {
        Some(info) => info.args.len(),
        None => 0,
    }
}

pub open spec fn nexts_cost(infos: Seq<(FunctionId, InfoView)>, blocks: Seq<(BlockId, Block<OpArg>)>) -> nat
    decreases blocks.len(),
{
    if blocks.len() == 0 {
        0
    } else {
        nexts_cost(infos, blocks.drop_last()) + next_cost(infos, blocks.last().1.next)
    }
}

proof fn lemma_nexts_cost_prefix(infos: Seq<(FunctionId, InfoView)>, blocks: Seq<(BlockId, Block<OpArg>)>, n: int)
    requires
        0 <= n <= blocks.len(),
    ensures
        nexts_cost(infos, blocks.take(n)) <= nexts_cost(infos, blocks),
    decreases blocks.len(),
{
    if n < blocks.len() {
        assert(blocks.drop_last().take(n) =~= blocks.take(n));
        lemma_nexts_cost_prefix(infos, blocks.drop_last(), n);
    } else {
        assert(blocks.take(n) =~= blocks);
    }
}

impl SSAConverter {
    /// The ending of a block in versions current at the block's end; a call
    /// at a literal address also gets the versions of its callee's
    /// arguments, recorded for the block.
    fn transform_next_to_ssa(
        &mut self,
        program_analysis: &ProgramAnalysis,
        block_id: BlockId,
        next_kind: &NextKind<OpArg>,
        scope: FunctionId,
    ) -> (r: NextKind<SSAArg>)
        requires
            old(self).tables_ok(),
            assoc_get(old(self).var_versions@, block_id) is Some,
            old(self).created@ + next_cost(infos_view(program_analysis.function_infos@), *next_kind) <= usize::MAX,
            match *next_kind {
                NextKind::FunctionCall(fc) => match fc.function_addr.kind {
                    Arg::Value(v) => assoc_get(infos_view(program_analysis.function_infos@), FunctionId(v as usize)) is Some,
                    _ => true,
                },
                _ => true,
            },
        ensures
            final(self).tables_ok(),
            next_map(r, ssa_erase()) == next_map(*next_kind, op_erase()),
            old(self).created@ <= final(self).created@ <= old(self).created@ + next_cost(
                infos_view(program_analysis.function_infos@),
                *next_kind,
            ),
            final(self).call_arguments@ == match literal_callee(infos_view(program_analysis.function_infos@), *next_kind) {
                Some(_) => old(self).call_arguments@.push(final(self).call_arguments@.last()),
                None => old(self).call_arguments@,
            },
            literal_callee(infos_view(program_analysis.function_infos@), *next_kind) matches Some(info) ==> final(self).call_arguments@.last().0
                == block_id && final(self).call_arguments@.last().1@.map_values(ssa_erase()) == info.args,
            final(self).phi_nodes == old(self).phi_nodes,
            final(self).visited == old(self).visited,
            final(self).out == old(self).out,
            forall|b: BlockId| #[trigger] assoc_get(old(self).var_versions@, b) is Some ==> assoc_get(final(self).var_versions@, b) is Some,
    {
        match next_kind {
            NextKind::Goto(arg) => {
                let a = self.get_or_create_new_version_for_arg(arg.kind, block_id, 0, scope);
                NextKind::Goto(a)
            },
            NextKind::FunctionCall(FunctionCall { calling_block, function_addr, return_block }) => {
                let ghost infos = infos_view(program_analysis.function_infos@);
                match function_addr.kind.value() {
                    Some(value) => {
                        let id = FunctionId(#[verifier::truncate] (value as usize));
                        proof {
                            crate::assoc::lemma_get_keys(program_analysis.function_infos@, infos, id);
                        }
                        let info = match crate::assoc::get_value(&program_analysis.function_infos, &id) {
                            Some(info) => info,
                            None => {
                                assert(false);
                                return NextKind::Unknown;
                            },
                        };
                        let ghost c0 = self.created@;
                        let mut args: Vec<SSAArg> = Vec::new();
                        let mut k: usize = 0;
                        while k < info.args.len()
                            invariant
                                k <= info.args@.len(),
                                self.tables_ok(),
                                c0 <= self.created@ <= c0 + k,
                                c0 + 1 + info.args@.len() <= usize::MAX,
                                assoc_get(self.var_versions@, block_id) is Some,
                                args@.map_values(ssa_erase()) == info.args@.take(k as int),
                                self.phi_nodes == old(self).phi_nodes,
                                self.visited == old(self).visited,
                                self.out == old(self).out,
                                self.call_arguments == old(self).call_arguments,
                                forall|b: BlockId| #[trigger] assoc_get(old(self).var_versions@, b) is Some ==> assoc_get(self.var_versions@, b) is Some,
                            decreases info.args.len() - k,
                        {
                            let a = self.get_or_create_new_version_for_arg(info.args[k], block_id, 0, scope);
                            let ghost a0 = args@;
                            args.push(a);
                            assert(args@.map_values(ssa_erase()) =~= a0.map_values(ssa_erase()).push(info.args@[k as int]));
                            assert(info.args@.take(k + 1) =~= info.args@.take(k as int).push(info.args@[k as int]));
                            k = k + 1;
                        }
                        assert(info.args@.take(k as int) =~= info.args@);
                        let f = self.get_or_create_new_version_for_arg(function_addr.kind, block_id, 0, scope);
                        self.call_arguments.push((block_id, args));
                        NextKind::FunctionCall(FunctionCall { calling_block: *calling_block, function_addr: f, return_block: *return_block })
                    },
                    None => {
                        let f = self.get_or_create_new_version_for_arg(function_addr.kind, block_id, 0, scope);
                        NextKind::FunctionCall(FunctionCall { calling_block: *calling_block, function_addr: f, return_block: *return_block })
                    },
                }
            },
            NextKind::Condition(Condition { from_block, jump_block, follows_block, arg, matches }) => {
                let a = self.get_or_create_new_version_for_arg(arg.kind, block_id, 0, scope);
                NextKind::Condition(Condition {
                    from_block: *from_block,
                    jump_block: *jump_block,
                    follows_block: *follows_block,
                    arg: a,
                    matches: *matches,
                })
            },
            NextKind::Halt => NextKind::Halt,
            NextKind::Unknown => NextKind::Unknown,
            NextKind::Return => NextKind::Return,
            NextKind::Follows(b) => NextKind::Follows(*b),
        }
    }
}

/// The number of phi functions.
pub open spec fn phi_count(pn: Seq<(BlockId, Vec<(Arg, PhiNode)>)>) -> nat
    decreases pn.len(),
{
    if pn.len() == 0 {
        0
    } else {
        phi_count(pn.drop_last()) + pn.last().1@.len()
    }
}

/// Whether block `b` has a phi function for `k`.
pub open spec fn phi_present(pn: Seq<(BlockId, Vec<(Arg, PhiNode)>)>, b: BlockId, k: Arg) -> bool {
    &&& assoc_get(pn, b) is Some
    &&& assoc_get(assoc_get(pn, b)->Some_0@, k) is Some
}

/// Changing one entry changes the count by the change of its length.
proof fn lemma_phi_count_update(pn: Seq<(BlockId, Vec<(Arg, PhiNode)>)>, i: int, e: (BlockId, Vec<(Arg, PhiNode)>))
    requires
        0 <= i < pn.len(),
    ensures
        phi_count(pn.update(i, e)) + pn[i].1@.len() == phi_count(pn) + e.1@.len(),
    decreases pn.len(),
{
    if i < pn.len() - 1 {
        lemma_phi_count_update(pn.drop_last(), i, e);
        assert(pn.update(i, e).drop_last() =~= pn.drop_last().update(i, e));
    } else {
        assert(pn.update(i, e).drop_last() =~= pn.drop_last());
    }
}

/// The single value the inputs all have, if there are any.
fn exactly_one(inputs: &Vec<SSAArg>) -> (r: Option<SSAArg>)
    ensures
        r matches Some(u) ==> inputs@.len() > 0 && inputs@[0] == u,
        r is Some <==> inputs@.len() > 0 && forall|j: int| 0 <= j < inputs@.len() ==> #[trigger] inputs@[j] == inputs@[0],
{
    if inputs.len() == 0 {
        return None;
    }
    let first = inputs[0];
    let mut i: usize = 1;
    while i < inputs.len()
        invariant
            1 <= i <= inputs@.len(),
            first == inputs@[0],
            forall|j: int| 0 <= j < i ==> #[trigger] inputs@[j] == first,
        decreases inputs.len() - i,
    {
        if inputs[i] != first {
            assert(inputs@[i as int] != inputs@[0]);
            return None;
        }
        i = i + 1;
    }
    Some(first)
}

/// Whether `v` holds the pair.
fn holds_pair(v: &Vec<(BlockId, SSAArg)>, b: BlockId, a: SSAArg) -> (r: bool)
    ensures
        r == v@.contains((b, a)),
{
    let mut i: usize = 0;
    while i < v.len()
        invariant
            i <= v@.len(),
            forall|j: int| 0 <= j < i ==> v@[j] != (b, a),
        decreases v.len() - i,
    {
        if v[i].0 == b && v[i].1 == a {
            assert(v@[i as int] == (b, a));
            return true;
        }
        i = i + 1;
    }
    false
}

/// Where `n` steps of following replacements from `t` lead, stopping at a
/// version that has none.
pub open spec fn spec_chase(replacements: Seq<(SSAArg, (BlockId, SSAArg))>, t: SSAArg, n: nat) -> SSAArg
    decreases n,
{
    if n == 0 {
        t
    } else {
        match assoc_get(replacements, t) {
            Some(x) => spec_chase(replacements, x.1, (n - 1) as nat),
            None => t,
        }
    }
}

/// Follows replacements from `t`, at most as many steps as there are.
fn chase(replacements: &Vec<(SSAArg, (BlockId, SSAArg))>, t: SSAArg) -> (r: SSAArg)
    requires
        forall|j: int| 0 <= j < replacements@.len() ==> spec_as_arg((#[trigger] replacements@[j]).1.1.arg) == spec_as_arg(replacements@[j].0.arg),
    ensures
        spec_as_arg(r.arg) == spec_as_arg(t.arg),
        r == spec_chase(replacements@, t, replacements@.len()),
{
    let mut target = t;
    let mut steps: usize = 0;
    while steps < replacements.len()
        invariant
            steps <= replacements@.len(),
            spec_chase(replacements@, target, (replacements@.len() - steps) as nat) == spec_chase(replacements@, t, replacements@.len()),
            spec_as_arg(target.arg) == spec_as_arg(t.arg),
            forall|j: int| 0 <= j < replacements@.len() ==> spec_as_arg((#[trigger] replacements@[j]).1.1.arg) == spec_as_arg(replacements@[j].0.arg),
        decreases replacements.len() - steps,
    {
        proof {
            lemma_key_index(replacements@, target);
        }
        match crate::assoc::find_key(replacements, &target) {
            Some(j) => {
                target = replacements[j].1.1;
            },
            None => {
                return target;
            },
        }
        steps = steps + 1;
    }
    target
}

impl SSAConverter {
    /// Removes the phi function for `k` from block `b`, if there is one.
    fn remove_phi(&mut self, b: BlockId, k: Arg)
        requires
            all_phis_ok(old(self).phi_nodes@),
            assoc_get(old(self).phi_nodes@, b) is Some,
        ensures
            all_phis_ok(final(self).phi_nodes@),
            phi_present(old(self).phi_nodes@, b, k) ==> phi_count(final(self).phi_nodes@) + 1 == phi_count(old(self).phi_nodes@),
            !phi_present(old(self).phi_nodes@, b, k) ==> phi_count(final(self).phi_nodes@) == phi_count(old(self).phi_nodes@),
            !phi_present(final(self).phi_nodes@, b, k),
            forall|b2: BlockId, k2: Arg|
                !(b2 == b && k2 == k) ==> #[trigger] phi_present(final(self).phi_nodes@, b2, k2) == phi_present(
                    old(self).phi_nodes@,
                    b2,
                    k2,
                ),
            final(self).phi_nodes@.len() == old(self).phi_nodes@.len(),
            forall|i: int| 0 <= i < old(self).phi_nodes@.len() ==> (#[trigger] final(self).phi_nodes@[i]).0 == old(self).phi_nodes@[i].0,
            final(self).current_version == old(self).current_version,
            final(self).var_versions == old(self).var_versions,
            final(self).var_locations == old(self).var_locations,
            final(self).visited == old(self).visited,
            final(self).out == old(self).out,
            final(self).call_arguments == old(self).call_arguments,
            final(self).created == old(self).created,
    {
        let ghost pn = self.phi_nodes@;
        proof {
            lemma_key_index(pn, b);
        }
        let i = match find_key(&self.phi_nodes, &b) {
            Some(i) => i,
            None => {
                assert(false);
                return;
            },
        };
        let ghost t0 = pn[i as int].1@;
        assert(phis_ok(t0));
        proof {
            lemma_key_index(t0, k);
            crate::assoc::lemma_distinct_get(pn, b);
            assert(assoc_get(pn, b) == Some(pn[i as int].1));
        }
        match find_key(&self.phi_nodes[i].1, &k) {
            Some(j) => {
                let entry = &mut self.phi_nodes[i];
                let _ = entry.1.remove(j);
                proof {
                    let t1 = self.phi_nodes@[i as int].1@;
                    assert(t1 =~= t0.remove(j as int));
                    assert(self.phi_nodes@ =~= pn.update(i as int, self.phi_nodes@[i as int]));
                    lemma_phi_count_update(pn, i as int, self.phi_nodes@[i as int]);
                    assert(phis_ok(t1)) by {
                        assert forall|q: int| 0 <= q < t1.len() implies phi_of((#[trigger] t1[q]).0, t1[q].1) by {
                            if q < j {
                                assert(t1[q] == t0[q]);
                            } else {
                                assert(t1[q] == t0[q + 1]);
                            }
                        }
                        assert forall|a: int, c: int| 0 <= a < c < t1.len() implies t1[a].0 != t1[c].0 by {
                            let a0 = if a < j { a } else { a + 1 };
                            let c0 = if c < j { c } else { c + 1 };
                            assert(t1[a] == t0[a0]);
                            assert(t1[c] == t0[c0]);
                        }
                    }
                    assert forall|q: int| 0 <= q < self.phi_nodes@.len() implies phis_ok((#[trigger] self.phi_nodes@[q]).1@) by {
                        if q != i {
                            assert(self.phi_nodes@[q] == pn[q]);
                        }
                    }
                    assert(keys_distinct(self.phi_nodes@)) by {
                        assert forall|a: int, c: int| 0 <= a < c < self.phi_nodes@.len() implies self.phi_nodes@[a].0 != self.phi_nodes@[c].0 by {
                            assert(self.phi_nodes@[a].0 == pn[a].0);
                            assert(self.phi_nodes@[c].0 == pn[c].0);
                        }
                    }
                    crate::assoc::lemma_distinct_get(self.phi_nodes@, b);
                    assert(self.phi_nodes@[i as int].0 == b);
                    crate::assoc::lemma_distinct_get(t0, k);
                    assert(t0[j as int].0 == k);
                    crate::assoc::lemma_distinct_get(t1, k);
                    assert forall|q: int| 0 <= q < t1.len() implies #[trigger] t1[q].0 != k by {
                        if q < j {
                            assert(t1[q] == t0[q]);
                        } else {
                            assert(t1[q] == t0[q + 1]);
                        }
                    }
                    assert(phi_present(pn, b, k));
                    assert forall|b2: BlockId, k2: Arg|
                        !(b2 == b && k2 == k) implies #[trigger] phi_present(self.phi_nodes@, b2, k2) == phi_present(pn, b2, k2) by {
                        crate::assoc::lemma_distinct_get(pn, b2);
                        crate::assoc::lemma_distinct_get(self.phi_nodes@, b2);
                        if b2 == b {
                            crate::assoc::lemma_distinct_get(t0, k2);
                            crate::assoc::lemma_distinct_get(t1, k2);
                            if exists|q: int| 0 <= q < t0.len() && #[trigger] t0[q].0 == k2 {
                                let q = choose|q: int| 0 <= q < t0.len() && #[trigger] t0[q].0 == k2;
                                assert(q != j);
                                if q < j {
                                    assert(t1[q] == t0[q]);
                                } else {
                                    assert(t1[q - 1] == t0[q]);
                                }
                            } else {
                                assert forall|q: int| 0 <= q < t1.len() implies #[trigger] t1[q].0 != k2 by {
                                    if q < j {
                                        assert(t1[q] == t0[q]);
                                    } else {
                                        assert(t1[q] == t0[q + 1]);
                                    }
                                }
                            }
                        } else {
                            if exists|q: int| 0 <= q < pn.len() && #[trigger] pn[q].0 == b2 {
                                let q = choose|q: int| 0 <= q < pn.len() && #[trigger] pn[q].0 == b2;
                                assert(q != i);
                                assert(self.phi_nodes@[q] == pn[q]);
                            } else {
                                assert forall|q: int| 0 <= q < self.phi_nodes@.len() implies #[trigger] self.phi_nodes@[q].0 != b2 by {
                                    assert(self.phi_nodes@[q].0 == pn[q].0);
                                }
                            }
                        }
                    }
                }
            },
            None => {
                proof {
                    crate::assoc::lemma_distinct_get(t0, k);
                    assert(!phi_present(pn, b, k));
                }
            },
        }
    }
}

/// Whether two sets of phi functions have the same blocks and operands in
/// the same places.
pub open spec fn same_phi_keys(a: Seq<(BlockId, Vec<(Arg, PhiNode)>)>, b: Seq<(BlockId, Vec<(Arg, PhiNode)>)>) -> bool {
    &&& a.len() == b.len()
    &&& forall|q: int|
        0 <= q < b.len() ==> (#[trigger] a[q]).1@.len() == b[q].1@.len() && a[q].0 == b[q].0 && forall|r: int|
            0 <= r < b[q].1@.len() ==> (#[trigger] a[q].1@[r]).0 == b[q].1@[r].0
}

proof fn lemma_same_phi_keys(a: Seq<(BlockId, Vec<(Arg, PhiNode)>)>, b: Seq<(BlockId, Vec<(Arg, PhiNode)>)>)
    requires
        same_phi_keys(a, b),
    ensures
        phi_count(a) == phi_count(b),
        forall|x: BlockId, k: Arg| #[trigger] phi_present(a, x, k) == phi_present(b, x, k),
    decreases a.len(),
{
    if a.len() > 0 {
        lemma_same_phi_keys(a.drop_last(), b.drop_last());
    }
    assert forall|x: BlockId, k: Arg| #[trigger] phi_present(a, x, k) == phi_present(b, x, k) by {
        crate::assoc::lemma_get_keys(a, b, x);
        let i = key_index(a, x);
        if i >= 0 {
            crate::assoc::lemma_get_keys(a[i].1@, b[i].1@, k);
        }
    }
}

/// Whether every block with phi functions has a table of versions.
pub open spec fn phi_blocks_versioned(pn: Seq<(BlockId, Vec<(Arg, PhiNode)>)>, vv: Seq<(BlockId, Vec<(Arg, SSAArg)>)>) -> bool {
    forall|i: int| 0 <= i < pn.len() ==> #[trigger] assoc_get(vv, pn[i].0) is Some
}

impl SSAConverter {
    /// Forgets the latest version of `k` in block `b`.
    fn remove_version(&mut self, b: BlockId, k: Arg)
        requires
            all_versions_ok(old(self).var_versions@),
            assoc_get(old(self).var_versions@, b) is Some,
        ensures
            all_versions_ok(final(self).var_versions@),
            final(self).var_versions@.len() == old(self).var_versions@.len(),
            forall|q: int|
                0 <= q < old(self).var_versions@.len() && q != key_index(old(self).var_versions@, b)
                    ==> #[trigger] final(self).var_versions@[q] == old(self).var_versions@[q],
            final(self).var_versions@[key_index(old(self).var_versions@, b)].0 == b,
            final(self).var_versions@[key_index(old(self).var_versions@, b)].1@ == assoc_remove(
                old(self).var_versions@[key_index(old(self).var_versions@, b)].1@,
                k,
            ),
            forall|x: BlockId| #[trigger] assoc_get(old(self).var_versions@, x) is Some ==> assoc_get(final(self).var_versions@, x) is Some,
            final(self).current_version == old(self).current_version,
            final(self).phi_nodes == old(self).phi_nodes,
            final(self).var_locations == old(self).var_locations,
            final(self).visited == old(self).visited,
            final(self).out == old(self).out,
            final(self).call_arguments == old(self).call_arguments,
            final(self).created == old(self).created,
    {
        let ghost vv = self.var_versions@;
        proof {
            lemma_key_index(vv, b);
        }
        let i = match find_key(&self.var_versions, &b) {
            Some(i) => i,
            None => {
                assert(false);
                return;
            },
        };
        let ghost t0 = vv[i as int].1@;
        assert(versions_ok(t0));
        match find_key(&self.var_versions[i].1, &k) {
            Some(j) => {
                let entry = &mut self.var_versions[i];
                let _ = entry.1.remove(j);
                proof {
                    let t1 = self.var_versions@[i as int].1@;
                    assert(t1 =~= t0.remove(j as int));
                    assert forall|q: int| 0 <= q < t1.len() implies spec_as_arg((#[trigger] t1[q]).1.arg) == t1[q].0 && !(t1[q].0 is Deref) by {
                        if q < j {
                            assert(t1[q] == t0[q]);
                        } else {
                            assert(t1[q] == t0[q + 1]);
                        }
                    }
                    assert forall|a: int, c: int| 0 <= a < c < t1.len() implies t1[a].0 != t1[c].0 by {
                        let a0 = if a < j { a } else { a + 1 };
                        let c0 = if c < j { c } else { c + 1 };
                        assert(t1[a] == t0[a0]);
                        assert(t1[c] == t0[c0]);
                    }
                    assert forall|q: int| 0 <= q < self.var_versions@.len() implies versions_ok((#[trigger] self.var_versions@[q]).1@) by {
                        if q != i {
                            assert(self.var_versions@[q] == vv[q]);
                        }
                    }
                    assert forall|a: int, c: int| 0 <= a < c < self.var_versions@.len() implies self.var_versions@[a].0 != self.var_versions@[c].0 by {
                        assert(self.var_versions@[a].0 == vv[a].0);
                        assert(self.var_versions@[c].0 == vv[c].0);
                    }
                    assert forall|x: BlockId| #[trigger] assoc_get(vv, x) is Some implies assoc_get(self.var_versions@, x) is Some by {
                        assert forall|q: int| 0 <= q < vv.len() implies vv[q].0 == self.var_versions@[q].0 by {
                            if q != i {
                                assert(self.var_versions@[q] == vv[q]);
                            }
                        }
                        crate::assoc::lemma_get_keys(vv, self.var_versions@, x);
                    }
                }
            },
            None => {},
        }
    }

    /// Forgets where version `a` is written.
    fn remove_location(&mut self, a: SSAArg)
        ensures
            final(self).var_locations@ == assoc_remove(old(self).var_locations@, a),
            final(self).current_version == old(self).current_version,
            final(self).var_versions == old(self).var_versions,
            final(self).phi_nodes == old(self).phi_nodes,
            final(self).visited == old(self).visited,
            final(self).out == old(self).out,
            final(self).call_arguments == old(self).call_arguments,
            final(self).created == old(self).created,
    {
        match find_key(&self.var_locations, &a) {
            Some(j) => {
                let _ = self.var_locations.remove(j);
            },
            None => {},
        }
    }
}

/// The list without the entry of `k`.
pub open spec fn assoc_remove<K, V>(s: Seq<(K, V)>, k: K) -> Seq<(K, V)> {
    if key_index(s, k) >= 0 {
        s.remove(key_index(s, k))
    } else {
        s
    }
}

/// Whether the converted blocks keep the keys, spans, predecessors, endings
/// and, without versions, the operations of `b`.
pub open spec fn same_out_erased(a: ControlFlowGraph<SSAArg>, b: ControlFlowGraph<SSAArg>) -> bool {
    &&& a.start == b.start
    &&& a.stack_size == b.stack_size
    &&& a.blocks@.len() == b.blocks@.len()
    &&& forall|i: int|
        #![trigger a.blocks@[i]]
        0 <= i < b.blocks@.len() ==> a.blocks@[i].0 == b.blocks@[i].0 && a.blocks@[i].1.span == b.blocks@[i].1.span
            && a.blocks@[i].1.predecessors == b.blocks@[i].1.predecessors && a.blocks@[i].1.next == b.blocks@[i].1.next
            && a.blocks@[i].1.ops@.len() == b.blocks@[i].1.ops@.len() && forall|k: int|
            0 <= k < b.blocks@[i].1.ops@.len() ==> (#[trigger] a.blocks@[i].1.ops@[k]).0 == b.blocks@[i].1.ops@[k].0
                && instr_map(a.blocks@[i].1.ops@[k].1@, ssa_erase()) == instr_map(b.blocks@[i].1.ops@[k].1@, ssa_erase())
}

proof fn lemma_same_out_erased_trans(a: ControlFlowGraph<SSAArg>, b: ControlFlowGraph<SSAArg>, c: ControlFlowGraph<SSAArg>)
    requires
        same_out_erased(a, b),
        same_out_erased(b, c),
    ensures
        same_out_erased(a, c),
{
    assert forall|i: int|
        #![trigger a.blocks@[i]]
        0 <= i < c.blocks@.len() implies a.blocks@[i].0 == c.blocks@[i].0 && a.blocks@[i].1.span == c.blocks@[i].1.span
            && a.blocks@[i].1.predecessors == c.blocks@[i].1.predecessors && a.blocks@[i].1.next == c.blocks@[i].1.next
            && a.blocks@[i].1.ops@.len() == c.blocks@[i].1.ops@.len() && forall|k: int|
            0 <= k < c.blocks@[i].1.ops@.len() ==> (#[trigger] a.blocks@[i].1.ops@[k]).0 == c.blocks@[i].1.ops@[k].0
                && instr_map(a.blocks@[i].1.ops@[k].1@, ssa_erase()) == instr_map(c.blocks@[i].1.ops@[k].1@, ssa_erase()) by {
        assert(b.blocks@[i].0 == c.blocks@[i].0);
        assert forall|k: int| 0 <= k < c.blocks@[i].1.ops@.len() implies (#[trigger] a.blocks@[i].1.ops@[k]).0 == c.blocks@[i].1.ops@[k].0
            && instr_map(a.blocks@[i].1.ops@[k].1@, ssa_erase()) == instr_map(c.blocks@[i].1.ops@[k].1@, ssa_erase()) by {
            assert(b.blocks@[i].1.ops@[k].0 == c.blocks@[i].1.ops@[k].0);
        }
    }
}

/// Whether each replacement drops a phi function of the block it names for
/// a version of the same operand.
pub open spec fn replacements_ok(r: Seq<(SSAArg, (BlockId, SSAArg))>, pn: Seq<(BlockId, Vec<(Arg, PhiNode)>)>) -> bool {
    &&& keys_distinct(r)
    &&& forall|j: int|
        0 <= j < r.len() ==> phi_present(pn, (#[trigger] r[j]).1.0, spec_as_arg(r[j].0.arg)) && spec_as_arg(r[j].1.1.arg)
            == spec_as_arg(r[j].0.arg)
}

/// Whether each removal names a phi function of its block.
pub open spec fn removals_ok(t: Seq<(BlockId, SSAArg)>, pn: Seq<(BlockId, Vec<(Arg, PhiNode)>)>) -> bool {
    forall|j: int| 0 <= j < t.len() ==> phi_present(pn, (#[trigger] t[j]).0, spec_as_arg(t[j].1.arg))
}

/// Whether a phi function has one distinct input, or none.
pub open spec fn prunable(n: PhiNode) -> bool {
    n.inputs@.len() == 0 || forall|j: int| 0 <= j < n.inputs@.len() ==> #[trigger] n.inputs@[j] == n.inputs@[0]
}

/// Whether the position `(a, b)` comes before `(i, j)`: in an earlier
/// block, or earlier in the same one.
pub open spec fn before(a: int, b: int, i: int, j: int) -> bool {
    a < i || (a == i && b < j)
}

/// Whether no phi function is prunable.
pub open spec fn none_prunable(pn: Seq<(BlockId, Vec<(Arg, PhiNode)>)>) -> bool {
    forall|a: int, b: int| 0 <= a < pn.len() && 0 <= b < pn[a].1@.len() ==> !prunable(#[trigger] pn[a].1@[b].1)
}

/// Whether the replacement `e` stands for a phi function of its block with
/// one distinct input: `e` maps its output to that input.
pub open spec fn replaces_at(pn: Seq<(BlockId, Vec<(Arg, PhiNode)>)>, e: (SSAArg, (BlockId, SSAArg))) -> bool {
    match phi_at(pn, e.1.0, spec_as_arg(e.0.arg)) {
        Some(n) => n.output == e.0 && n.inputs@.len() > 0 && prunable(n) && n.inputs@[0] == e.1.1,
        None => false,
    }
}

/// Whether `x` names a phi function of its block, by its output, that has
/// no input.
pub open spec fn removal_at(pn: Seq<(BlockId, Vec<(Arg, PhiNode)>)>, x: (BlockId, SSAArg)) -> bool {
    match phi_at(pn, x.0, spec_as_arg(x.1.arg)) {
        Some(n) => n.output == x.1 && n.inputs@.len() == 0,
        None => false,
    }
}

/// The phi function at a position is found by its block and operand.
proof fn lemma_phi_at_index(pn: Seq<(BlockId, Vec<(Arg, PhiNode)>)>, a: int, b: int)
    requires
        all_phis_ok(pn),
        0 <= a < pn.len(),
        0 <= b < pn[a].1@.len(),
    ensures
        phi_at(pn, pn[a].0, pn[a].1@[b].0) == Some(pn[a].1@[b].1),
        spec_as_arg(pn[a].1@[b].1.output.arg) == pn[a].1@[b].0,
{
    crate::assoc::lemma_distinct_get(pn, pn[a].0);
    assert(phis_ok(pn[a].1@));
    crate::assoc::lemma_distinct_get(pn[a].1@, pn[a].1@[b].0);
    assert(phi_of(pn[a].1@[b].0, pn[a].1@[b].1));
}

/// A phi function found by its block and operand is at some position.
proof fn lemma_phi_at_position(pn: Seq<(BlockId, Vec<(Arg, PhiNode)>)>, blk: BlockId, k: Arg) -> (ab: (int, int))
    requires
        phi_at(pn, blk, k) is Some,
    ensures
        0 <= ab.0 < pn.len(),
        0 <= ab.1 < pn[ab.0].1@.len(),
        pn[ab.0].0 == blk,
        pn[ab.0].1@[ab.1] == (k, phi_at(pn, blk, k)->Some_0),
{
    lemma_key_index(pn, blk);
    let a = key_index(pn, blk);
    lemma_key_index(pn[a].1@, k);
    let b = key_index(pn[a].1@, k);
    (a, b)
}

impl SSAConverter {
    /// The phi functions that pruning drops this round: those with one
    /// distinct input are replaced by it, those with none are removed.
    fn build_candidates(&self) -> (r: (bool, Vec<(SSAArg, (BlockId, SSAArg))>, Vec<(BlockId, SSAArg)>))
        requires
            all_phis_ok(self.phi_nodes@),
        ensures
            replacements_ok(r.1@, self.phi_nodes@),
            removals_ok(r.2@, self.phi_nodes@),
            r.0 ==> r.1@.len() > 0 || r.2@.len() > 0,
            !r.0 ==> r.1@.len() == 0 && r.2@.len() == 0,
            r.0 <==> !none_prunable(self.phi_nodes@),
            forall|q: int| 0 <= q < r.1@.len() ==> replaces_at(self.phi_nodes@, #[trigger] r.1@[q]),
            forall|a: int, b: int|
                0 <= a < self.phi_nodes@.len() && 0 <= b < self.phi_nodes@[a].1@.len() && self.phi_nodes@[a].1@[b].1.inputs@.len() > 0
                    && prunable(#[trigger] self.phi_nodes@[a].1@[b].1) ==> assoc_get(r.1@, self.phi_nodes@[a].1@[b].1.output) is Some,
            forall|x: (BlockId, SSAArg)| #[trigger] r.2@.contains(x) <==> removal_at(self.phi_nodes@, x),
    {
        let ghost pn = self.phi_nodes@;
        let mut changed = false;
        let mut replacements: Vec<(SSAArg, (BlockId, SSAArg))> = Vec::new();
        let mut to_remove: Vec<(BlockId, SSAArg)> = Vec::new();
        let mut i: usize = 0;
        while i < self.phi_nodes.len()
            invariant
                pn == self.phi_nodes@,
                all_phis_ok(pn),
                i <= pn.len(),
                replacements_ok(replacements@, pn),
                removals_ok(to_remove@, pn),
                changed ==> replacements@.len() > 0 || to_remove@.len() > 0,
                !changed ==> replacements@.len() == 0 && to_remove@.len() == 0,
                changed <==> exists|a: int, b: int| 0 <= a < i && 0 <= b < pn[a].1@.len() && prunable(#[trigger] pn[a].1@[b].1),
                forall|q: int| 0 <= q < replacements@.len() ==> replaces_at(pn, #[trigger] replacements@[q]),
                forall|a: int, b: int|
                    0 <= a < i && 0 <= b < pn[a].1@.len() && pn[a].1@[b].1.inputs@.len() > 0 && prunable(#[trigger] pn[a].1@[b].1)
                        ==> assoc_get(replacements@, pn[a].1@[b].1.output) is Some,
                forall|x: (BlockId, SSAArg)| #[trigger] to_remove@.contains(x) ==> removal_at(pn, x),
                forall|a: int, b: int|
                    0 <= a < i && 0 <= b < pn[a].1@.len() && (#[trigger] pn[a].1@[b]).1.inputs@.len() == 0 ==> to_remove@.contains(
                        (pn[a].0, pn[a].1@[b].1.output),
                    ),
            decreases self.phi_nodes.len() - i,
        {
            let block_id = self.phi_nodes[i].0;
            let phis = &self.phi_nodes[i].1;
            proof {
                crate::assoc::lemma_distinct_get(pn, block_id);
                assert(assoc_get(pn, block_id) == Some(pn[i as int].1));
            }
            let mut j: usize = 0;
            while j < phis.len()
                invariant
                    pn == self.phi_nodes@,
                    all_phis_ok(pn),
                    i < pn.len(),
                    *phis == pn[i as int].1,
                    block_id == pn[i as int].0,
                    assoc_get(pn, block_id) == Some(pn[i as int].1),
                    j <= phis@.len(),
                    replacements_ok(replacements@, pn),
                    removals_ok(to_remove@, pn),
                    changed ==> replacements@.len() > 0 || to_remove@.len() > 0,
                    !changed ==> replacements@.len() == 0 && to_remove@.len() == 0,
                    changed <==> exists|a: int, b: int| before(a, b, i as int, j as int) && 0 <= a && 0 <= b < pn[a].1@.len() && prunable(
                        #[trigger] pn[a].1@[b].1,
                    ),
                    forall|q: int| 0 <= q < replacements@.len() ==> replaces_at(pn, #[trigger] replacements@[q]),
                    forall|a: int, b: int|
                        before(a, b, i as int, j as int) && 0 <= a && 0 <= b < pn[a].1@.len() && pn[a].1@[b].1.inputs@.len() > 0 && prunable(
                            #[trigger] pn[a].1@[b].1,
                        ) ==> assoc_get(replacements@, pn[a].1@[b].1.output) is Some,
                    forall|x: (BlockId, SSAArg)| #[trigger] to_remove@.contains(x) ==> removal_at(pn, x),
                    forall|a: int, b: int|
                        before(a, b, i as int, j as int) && 0 <= a && 0 <= b < pn[a].1@.len() && (#[trigger] pn[a].1@[b]).1.inputs@.len() == 0
                            ==> to_remove@.contains((pn[a].0, pn[a].1@[b].1.output)),
                decreases phis.len() - j,
            {
                let key = phis[j].0;
                let node = &phis[j].1;
                proof {
                    assert(phis_ok(phis@));
                    assert(phi_of(phis@[j as int].0, phis@[j as int].1));
                    crate::assoc::lemma_distinct_get(phis@, key);
                    assert(phi_present(pn, block_id, key));
                }
                let ghost r0 = replacements@;
                let ghost tr0 = to_remove@;
                let ghost ch0 = changed;
                assert(*node == pn[i as int].1@[j as int].1);
                let one = exactly_one(&node.inputs);
                match one {
                    Some(u) => {
                        assert(spec_as_arg(node.inputs@[0].arg) == key);
                        crate::assoc::insert_value(&mut replacements, node.output, (block_id, u));
                        proof {
                            crate::assoc::lemma_insert_distinct(r0, node.output, (block_id, u));
                            lemma_key_index(r0, node.output);
                            assert forall|q: int| 0 <= q < replacements@.len() implies phi_present(pn, (#[trigger] replacements@[q]).1.0, spec_as_arg(replacements@[q].0.arg)) && spec_as_arg(replacements@[q].1.1.arg)
                                == spec_as_arg(replacements@[q].0.arg) by {
                                if q < r0.len() && q != key_index(r0, node.output) {
                                    assert(replacements@[q] == r0[q]);
                                }
                            }
                        }
                        changed = true;
                    },
                    None => {},
                }
                if node.inputs.len() == 0 {
                    if !holds_pair(&to_remove, block_id, node.output) {
                        to_remove.push((block_id, node.output));
                    }
                    changed = true;
                }
                proof {
                    let ii = i as int;
                    let jj = j as int;
                    assert(prunable(*node) <==> (one is Some || node.inputs@.len() == 0));
                    lemma_phi_at_index(pn, ii, jj);
                    assert(pn[ii].0 == block_id && pn[ii].1@[jj].0 == key);
                    if one is Some {
                        assert(replacements@ == assoc_insert(r0, node.output, (block_id, node.inputs@[0])));
                        lemma_key_index(r0, node.output);
                        assert(replaces_at(pn, (node.output, (block_id, node.inputs@[0]))));
                        assert forall|q: int| 0 <= q < replacements@.len() implies replaces_at(pn, #[trigger] replacements@[q]) by {
                            if q < r0.len() && q != key_index(r0, node.output) {
                                assert(replacements@[q] == r0[q]);
                            } else {
                                assert(replacements@[q] == (node.output, (block_id, node.inputs@[0])));
                            }
                        }
                    } else {
                        assert(replacements@ == r0);
                    }
                    assert forall|a: int, b: int|
                        before(a, b, ii, jj + 1) && 0 <= a && 0 <= b < pn[a].1@.len() && pn[a].1@[b].1.inputs@.len() > 0 && prunable(
                            #[trigger] pn[a].1@[b].1,
                        ) implies assoc_get(replacements@, pn[a].1@[b].1.output) is Some by {
                        if one is Some {
                            crate::assoc::lemma_get_insert(r0, node.output, (block_id, node.inputs@[0]), pn[a].1@[b].1.output);
                        }
                        if a == ii && b == jj {
                            assert(pn[a].1@[b].1 == *node);
                        }
                    }
                    if node.inputs@.len() == 0 {
                        assert(removal_at(pn, (block_id, node.output)));
                    }
                    assert forall|x: (BlockId, SSAArg)| #[trigger] to_remove@.contains(x) implies removal_at(pn, x) by {
                        if !tr0.contains(x) {
                            let w = choose|w: int| 0 <= w < to_remove@.len() && to_remove@[w] == x;
                            assert(w == tr0.len());
                        }
                    }
                    assert forall|a: int, b: int|
                        before(a, b, ii, jj + 1) && 0 <= a && 0 <= b < pn[a].1@.len() && (#[trigger] pn[a].1@[b]).1.inputs@.len() == 0
                            implies to_remove@.contains((pn[a].0, pn[a].1@[b].1.output)) by {
                        let x = (pn[a].0, pn[a].1@[b].1.output);
                        if before(a, b, ii, jj) {
                            assert(tr0.contains(x));
                            let w = choose|w: int| 0 <= w < tr0.len() && tr0[w] == x;
                            assert(to_remove@[w] == x);
                        } else {
                            assert(a == ii && b == jj);
                            if to_remove@ != tr0 {
                                assert(to_remove@[tr0.len() as int] == x);
                            }
                        }
                    }
                    if changed {
                        if !ch0 {
                            assert(prunable(pn[ii].1@[jj].1));
                            assert(before(ii, jj, ii, jj + 1));
                        } else {
                            let (a, b) = choose|a: int, b: int| before(a, b, ii, jj) && 0 <= a && 0 <= b < pn[a].1@.len() && prunable(
                                #[trigger] pn[a].1@[b].1,
                            );
                            assert(before(a, b, ii, jj + 1));
                        }
                    }
                    if exists|a: int, b: int| before(a, b, ii, jj + 1) && 0 <= a && 0 <= b < pn[a].1@.len() && prunable(#[trigger] pn[a].1@[b].1) {
                        let (a, b) = choose|a: int, b: int| before(a, b, ii, jj + 1) && 0 <= a && 0 <= b < pn[a].1@.len() && prunable(
                            #[trigger] pn[a].1@[b].1,
                        );
                        if before(a, b, ii, jj) {
                            assert(ch0);
                        } else {
                            assert(pn[a].1@[b].1 == *node);
                        }
                    }
                }
                j = j + 1;
            }
            i = i + 1;
        }
        proof {
            assert forall|x: (BlockId, SSAArg)| #[trigger] to_remove@.contains(x) <==> removal_at(pn, x) by {
                if removal_at(pn, x) {
                    let (a, b) = lemma_phi_at_position(pn, x.0, spec_as_arg(x.1.arg));
                    assert(pn[a].1@[b].1.inputs@.len() == 0);
                }
            }
        }
        (changed, replacements, to_remove)
    }
}

/// Follows each replacement to its end; one whose end is removed in its
/// block is removed itself, the others are kept with their end as target.
fn resolve_replacements(
    replacements: &Vec<(SSAArg, (BlockId, SSAArg))>,
    to_remove: Vec<(BlockId, SSAArg)>,
    Ghost(pn): Ghost<Seq<(BlockId, Vec<(Arg, PhiNode)>)>>,
) -> (r: (Vec<(BlockId, SSAArg)>, Vec<(SSAArg, (BlockId, SSAArg))>))
    requires
        replacements_ok(replacements@, pn),
        removals_ok(to_remove@, pn),
    ensures
        removals_ok(r.0@, pn),
        replacements_ok(r.1@, pn),
        forall|j: int| 0 <= j < to_remove@.len() ==> r.0@.contains(#[trigger] to_remove@[j]),
        forall|j: int|
            0 <= j < replacements@.len() ==> r.0@.contains(((#[trigger] replacements@[j]).1.0, replacements@[j].0)) || (assoc_get(
                r.1@,
                replacements@[j].0,
            ) matches Some(v) && v.0 == replacements@[j].1.0),
{
    let ghost t0 = to_remove@;
    let mut to_remove = to_remove;
    let mut final_replacements: Vec<(SSAArg, (BlockId, SSAArg))> = Vec::new();
    proof {
        assert forall|j: int| 0 <= j < replacements@.len() implies spec_as_arg((#[trigger] replacements@[j]).1.1.arg) == spec_as_arg(replacements@[j].0.arg) by {}
    }
    let mut i: usize = 0;
    while i < replacements.len()
        invariant
            i <= replacements@.len(),
            replacements_ok(replacements@, pn),
            removals_ok(to_remove@, pn),
            replacements_ok(final_replacements@, pn),
            forall|j: int| 0 <= j < t0.len() ==> to_remove@.contains(#[trigger] t0[j]),
            forall|j: int|
                0 <= j < i ==> to_remove@.contains(((#[trigger] replacements@[j]).1.0, replacements@[j].0)) || (assoc_get(
                    final_replacements@,
                    replacements@[j].0,
                ) matches Some(v) && v.0 == replacements@[j].1.0),
            forall|j: int| 0 <= j < final_replacements@.len() ==> exists|q: int| 0 <= q < i && (#[trigger] final_replacements@[j]).0 == replacements@[q].0,
        decreases replacements.len() - i,
    {
        let source = replacements[i].0;
        let block_id = replacements[i].1.0;
        let target = chase(replacements, replacements[i].1.1);
        let ghost tr0 = to_remove@;
        let ghost f0 = final_replacements@;
        proof {
            assert(phi_present(pn, replacements@[i as int].1.0, spec_as_arg(replacements@[i as int].0.arg)));
        }
        if holds_pair(&to_remove, block_id, target) {
            if !holds_pair(&to_remove, block_id, source) {
                to_remove.push((block_id, source));
            }
            proof {
                assert(to_remove@.contains((block_id, source))) by {
                    if !tr0.contains((block_id, source)) {
                        assert(to_remove@[tr0.len() as int] == (block_id, source));
                    }
                }
                assert forall|j: int| 0 <= j < to_remove@.len() implies phi_present(pn, (#[trigger] to_remove@[j]).0, spec_as_arg(to_remove@[j].1.arg)) by {
                    if j < tr0.len() {
                        assert(to_remove@[j] == tr0[j]);
                    }
                }
                assert forall|j: int| 0 <= j < t0.len() implies to_remove@.contains(#[trigger] t0[j]) by {
                    assert(tr0.contains(t0[j]));
                    let q = choose|q: int| 0 <= q < tr0.len() && tr0[q] == t0[j];
                    assert(to_remove@[q] == t0[j]);
                }
                assert forall|j: int|
                    0 <= j < i + 1 implies to_remove@.contains(((#[trigger] replacements@[j]).1.0, replacements@[j].0)) || (assoc_get(
                        final_replacements@,
                        replacements@[j].0,
                    ) matches Some(v) && v.0 == replacements@[j].1.0) by {
                    if j < i && tr0.contains((replacements@[j].1.0, replacements@[j].0)) {
                        let q = choose|q: int| 0 <= q < tr0.len() && tr0[q] == (replacements@[j].1.0, replacements@[j].0);
                        assert(to_remove@[q] == tr0[q]);
                    }
                }
                assert forall|j: int| 0 <= j < final_replacements@.len() implies exists|q: int| 0 <= q < i + 1 && (#[trigger] final_replacements@[j]).0 == replacements@[q].0 by {
                    let q = choose|q: int| 0 <= q < i && final_replacements@[j].0 == replacements@[q].0;
                }
            }
        } else {
            crate::assoc::insert_value(&mut final_replacements, source, (block_id, target));
            proof {
                crate::assoc::lemma_insert_distinct(f0, source, (block_id, target));
                lemma_key_index(f0, source);
                assert forall|j: int| 0 <= j < final_replacements@.len() implies phi_present(pn, (#[trigger] final_replacements@[j]).1.0, spec_as_arg(final_replacements@[j].0.arg))
                    && spec_as_arg(final_replacements@[j].1.1.arg) == spec_as_arg(final_replacements@[j].0.arg) by {
                    if j < f0.len() && j != key_index(f0, source) {
                        assert(final_replacements@[j] == f0[j]);
                    }
                }
                crate::assoc::lemma_get_insert(f0, source, (block_id, target), source);
                assert forall|j: int|
                    0 <= j < i + 1 implies to_remove@.contains(((#[trigger] replacements@[j]).1.0, replacements@[j].0)) || (assoc_get(
                        final_replacements@,
                        replacements@[j].0,
                    ) matches Some(v) && v.0 == replacements@[j].1.0) by {
                    crate::assoc::lemma_get_insert(f0, source, (block_id, target), replacements@[j].0);
                    if j < i {
                        assert(replacements@[j].0 != source);
                    }
                }
                assert forall|j: int| 0 <= j < final_replacements@.len() implies exists|q: int| 0 <= q < i + 1 && (#[trigger] final_replacements@[j]).0 == replacements@[q].0 by {
                    if j < f0.len() && j != key_index(f0, source) {
                        assert(final_replacements@[j] == f0[j]);
                        let q = choose|q: int| 0 <= q < i && f0[j].0 == replacements@[q].0;
                    } else {
                        assert(final_replacements@[j].0 == source);
                        assert(replacements@[i as int].0 == source);
                    }
                }
            }
        }
        i = i + 1;
    }
    (to_remove, final_replacements)
}

/// Whether a removal or a kept replacement drops the phi function for
/// operand `w.1` in block `w.0`.
pub open spec fn targets(
    t: Seq<(BlockId, SSAArg)>,
    f: Seq<(SSAArg, (BlockId, SSAArg))>,
    w: (BlockId, Arg),
) -> bool {
    (exists|j: int| 0 <= j < t.len() && (#[trigger] t[j]).0 == w.0 && spec_as_arg(t[j].1.arg) == w.1) || (exists|j: int|
        0 <= j < f.len() && (#[trigger] f[j]).1.0 == w.0 && spec_as_arg(f[j].0.arg) == w.1)
}

/// Whether two sets of phi functions are kept for the same blocks.
pub open spec fn same_phi_blocks(a: Seq<(BlockId, Vec<(Arg, PhiNode)>)>, b: Seq<(BlockId, Vec<(Arg, PhiNode)>)>) -> bool {
    &&& a.len() == b.len()
    &&& forall|q: int| 0 <= q < b.len() ==> (#[trigger] a[q]).0 == b[q].0
}

proof fn lemma_same_phi_blocks_get(a: Seq<(BlockId, Vec<(Arg, PhiNode)>)>, b: Seq<(BlockId, Vec<(Arg, PhiNode)>)>, x: BlockId)
    requires
        same_phi_blocks(a, b),
    ensures
        (assoc_get(a, x) is Some) == (assoc_get(b, x) is Some),
{
    crate::assoc::lemma_get_keys(a, b, x);
}

impl SSAConverter {
    /// Drops the phi functions of one round of pruning and renames the
    /// dropped versions to their replacements.
    fn apply_prune(
        &mut self,
        to_remove: &Vec<(BlockId, SSAArg)>,
        final_replacements: &Vec<(SSAArg, (BlockId, SSAArg))>,
        Ghost(w): Ghost<Option<(BlockId, Arg)>>,
    )
        requires
            all_phis_ok(old(self).phi_nodes@),
            all_versions_ok(old(self).var_versions@),
            phi_blocks_versioned(old(self).phi_nodes@, old(self).var_versions@),
            removals_ok(to_remove@, old(self).phi_nodes@),
            replacements_ok(final_replacements@, old(self).phi_nodes@),
            w matches Some(x) ==> phi_present(old(self).phi_nodes@, x.0, x.1) && targets(to_remove@, final_replacements@, x),
        ensures
            all_phis_ok(final(self).phi_nodes@),
            all_versions_ok(final(self).var_versions@),
            phi_blocks_versioned(final(self).phi_nodes@, final(self).var_versions@),
            same_phi_blocks(final(self).phi_nodes@, old(self).phi_nodes@),
            forall|x: BlockId| #[trigger] assoc_get(old(self).var_versions@, x) is Some ==> assoc_get(final(self).var_versions@, x) is Some,
            same_out_erased(final(self).out, old(self).out),
            phi_count(final(self).phi_nodes@) <= phi_count(old(self).phi_nodes@),
            w is Some ==> phi_count(final(self).phi_nodes@) < phi_count(old(self).phi_nodes@),
            final(self).current_version == old(self).current_version,
            final(self).visited == old(self).visited,
            final(self).call_arguments == old(self).call_arguments,
            final(self).created == old(self).created,
    {
        let ghost pn0 = self.phi_nodes@;
        let ghost vv0 = self.var_versions@;
        let ghost out0 = self.out;
        let ghost wb = match w { Some(x) => x.0, None => BlockId(0) };
        let ghost wk = match w { Some(x) => x.1, None => Arg::Value(0) };
        let mut t: usize = 0;
        while t < to_remove.len()
            invariant
                t <= to_remove@.len(),
                all_phis_ok(self.phi_nodes@),
                all_versions_ok(self.var_versions@),
                same_phi_blocks(self.phi_nodes@, pn0),
                phi_blocks_versioned(self.phi_nodes@, self.var_versions@),
                forall|x: BlockId| #[trigger] assoc_get(vv0, x) is Some ==> assoc_get(self.var_versions@, x) is Some,
                removals_ok(to_remove@, pn0),
                phi_count(self.phi_nodes@) <= phi_count(pn0),
                w is Some ==> phi_count(self.phi_nodes@) + (if phi_present(self.phi_nodes@, wb, wk) { 0nat } else { 1nat }) <= phi_count(pn0),
                w is Some ==> phi_present(pn0, wb, wk),
                forall|q: int| 0 <= q < t ==> !phi_present(self.phi_nodes@, (#[trigger] to_remove@[q]).0, spec_as_arg(to_remove@[q].1.arg)),
                self.out == out0,
                self.current_version == old(self).current_version,
                self.visited == old(self).visited,
                self.call_arguments == old(self).call_arguments,
                self.created == old(self).created,
            decreases to_remove.len() - t,
        {
            let b = to_remove[t].0;
            let k = to_remove[t].1.as_arg();
            let ghost pn1 = self.phi_nodes@;
            let ghost vv1 = self.var_versions@;
            proof {
                assert(phi_present(pn0, to_remove@[t as int].0, spec_as_arg(to_remove@[t as int].1.arg)));
                lemma_same_phi_blocks_get(pn1, pn0, b);
                let i = key_index(pn1, b);
                lemma_key_index(pn1, b);
                assert(assoc_get(self.var_versions@, pn1[i].0) is Some);
            }
            self.remove_phi(b, k);
            self.remove_version(b, k);
            proof {
                assert(same_phi_blocks(self.phi_nodes@, pn0)) by {
                    assert forall|q: int| 0 <= q < pn0.len() implies (#[trigger] self.phi_nodes@[q]).0 == pn0[q].0 by {
                        assert(self.phi_nodes@[q].0 == pn1[q].0);
                    }
                }
                assert forall|q: int| 0 <= q < self.phi_nodes@.len() implies #[trigger] assoc_get(self.var_versions@, self.phi_nodes@[q].0) is Some by {
                    assert(self.phi_nodes@[q].0 == pn1[q].0);
                    assert(assoc_get(vv1, pn1[q].0) is Some);
                }
                assert forall|q: int| 0 <= q < t + 1 implies !phi_present(self.phi_nodes@, (#[trigger] to_remove@[q]).0, spec_as_arg(to_remove@[q].1.arg)) by {
                    if q < t {
                        let b2 = to_remove@[q].0;
                        let k2 = spec_as_arg(to_remove@[q].1.arg);
                        if !(b2 == b && k2 == k) {
                            assert(phi_present(self.phi_nodes@, b2, k2) == phi_present(pn1, b2, k2));
                        }
                    }
                }
                if w is Some {
                    if !(wb == b && wk == k) {
                        assert(phi_present(self.phi_nodes@, wb, wk) == phi_present(pn1, wb, wk));
                    }
                }
            }
            t = t + 1;
        }
        let mut pairs: Vec<(SSAArg, SSAArg)> = Vec::new();
        let mut f: usize = 0;
        while f < final_replacements.len()
            invariant
                f <= final_replacements@.len(),
                all_phis_ok(self.phi_nodes@),
                all_versions_ok(self.var_versions@),
                same_phi_blocks(self.phi_nodes@, pn0),
                phi_blocks_versioned(self.phi_nodes@, self.var_versions@),
                forall|x: BlockId| #[trigger] assoc_get(vv0, x) is Some ==> assoc_get(self.var_versions@, x) is Some,
                replacements_ok(final_replacements@, pn0),
                phi_count(self.phi_nodes@) <= phi_count(pn0),
                w is Some ==> phi_count(self.phi_nodes@) + (if phi_present(self.phi_nodes@, wb, wk) { 0nat } else { 1nat }) <= phi_count(pn0),
                forall|q: int| 0 <= q < to_remove@.len() ==> !phi_present(self.phi_nodes@, (#[trigger] to_remove@[q]).0, spec_as_arg(to_remove@[q].1.arg)),
                forall|q: int| 0 <= q < f ==> !phi_present(self.phi_nodes@, (#[trigger] final_replacements@[q]).1.0, spec_as_arg(final_replacements@[q].0.arg)),
                renames_ok(pairs@),
                self.out == out0,
                self.current_version == old(self).current_version,
                self.visited == old(self).visited,
                self.call_arguments == old(self).call_arguments,
                self.created == old(self).created,
            decreases final_replacements.len() - f,
        {
            let source = final_replacements[f].0;
            let b = final_replacements[f].1.0;
            let target = final_replacements[f].1.1;
            let k = source.as_arg();
            let ghost pn1 = self.phi_nodes@;
            proof {
                assert(phi_present(pn0, final_replacements@[f as int].1.0, spec_as_arg(final_replacements@[f as int].0.arg)));
                lemma_same_phi_blocks_get(pn1, pn0, b);
            }
            self.remove_phi(b, k);
            self.remove_location(source);
            let ghost pn2 = self.phi_nodes@;
            let mut one: Vec<(SSAArg, SSAArg)> = Vec::new();
            one.push((source, target));
            self.rename_phis(&one, false, false);
            pairs.push((source, target));
            proof {
                lemma_same_phi_keys(self.phi_nodes@, pn2);
                assert(same_phi_blocks(self.phi_nodes@, pn0)) by {
                    assert forall|q: int| 0 <= q < pn0.len() implies (#[trigger] self.phi_nodes@[q]).0 == pn0[q].0 by {
                        assert(self.phi_nodes@[q].0 == pn2[q].0);
                        assert(pn2[q].0 == pn1[q].0);
                    }
                }
                assert forall|q: int| 0 <= q < self.phi_nodes@.len() implies #[trigger] assoc_get(self.var_versions@, self.phi_nodes@[q].0) is Some by {
                    assert(self.phi_nodes@[q].0 == pn1[q].0);
                }
                assert forall|q: int| 0 <= q < to_remove@.len() implies !phi_present(self.phi_nodes@, (#[trigger] to_remove@[q]).0, spec_as_arg(to_remove@[q].1.arg)) by {
                    let b2 = to_remove@[q].0;
                    let k2 = spec_as_arg(to_remove@[q].1.arg);
                    if !(b2 == b && k2 == k) {
                        assert(phi_present(pn2, b2, k2) == phi_present(pn1, b2, k2));
                    }
                }
                assert forall|q: int| 0 <= q < f + 1 implies !phi_present(self.phi_nodes@, (#[trigger] final_replacements@[q]).1.0, spec_as_arg(final_replacements@[q].0.arg)) by {
                    if q < f {
                        let b2 = final_replacements@[q].1.0;
                        let k2 = spec_as_arg(final_replacements@[q].0.arg);
                        if !(b2 == b && k2 == k) {
                            assert(phi_present(pn2, b2, k2) == phi_present(pn1, b2, k2));
                        }
                    }
                }
                if w is Some {
                    if !(wb == b && wk == k) {
                        assert(phi_present(pn2, wb, wk) == phi_present(pn1, wb, wk));
                    }
                }
                assert(spec_as_arg(target.arg) == spec_as_arg(source.arg));
            }
            f = f + 1;
        }
        proof {
            if w is Some {
                if exists|j: int| 0 <= j < to_remove@.len() && (#[trigger] to_remove@[j]).0 == wb && spec_as_arg(to_remove@[j].1.arg) == wk {
                    let j = choose|j: int| 0 <= j < to_remove@.len() && (#[trigger] to_remove@[j]).0 == wb && spec_as_arg(to_remove@[j].1.arg) == wk;
                    assert(!phi_present(self.phi_nodes@, to_remove@[j].0, spec_as_arg(to_remove@[j].1.arg)));
                } else {
                    let j = choose|j: int| 0 <= j < final_replacements@.len() && (#[trigger] final_replacements@[j]).1.0 == wb && spec_as_arg(final_replacements@[j].0.arg) == wk;
                    assert(!phi_present(self.phi_nodes@, final_replacements@[j].1.0, spec_as_arg(final_replacements@[j].0.arg)));
                }
            }
        }
        let ghost out1 = self.out;
        self.rename_in_ops(&pairs, false);
        assert(same_out_erased(self.out, out1));
    }
}

impl SSAConverter {
    /// Drops phi functions until none is left with a single distinct input
    /// or with no input: a phi function with one input is replaced by it
    /// everywhere, one with none is removed with its version.
    fn prune_phi_functions(&mut self)
        requires
            all_phis_ok(old(self).phi_nodes@),
            all_versions_ok(old(self).var_versions@),
            phi_blocks_versioned(old(self).phi_nodes@, old(self).var_versions@),
        ensures
            all_phis_ok(final(self).phi_nodes@),
            all_versions_ok(final(self).var_versions@),
            phi_blocks_versioned(final(self).phi_nodes@, final(self).var_versions@),
            same_phi_blocks(final(self).phi_nodes@, old(self).phi_nodes@),
            forall|x: BlockId| #[trigger] assoc_get(old(self).var_versions@, x) is Some ==> assoc_get(final(self).var_versions@, x) is Some,
            same_out_erased(final(self).out, old(self).out),
            none_prunable(final(self).phi_nodes@),
            final(self).current_version == old(self).current_version,
            final(self).visited == old(self).visited,
            final(self).call_arguments == old(self).call_arguments,
            final(self).created == old(self).created,
    {
        let ghost pn0 = self.phi_nodes@;
        let ghost vv0 = self.var_versions@;
        let ghost out0 = self.out;
        proof {
            assert(same_out_erased(out0, out0));
        }
        loop
            invariant
                all_phis_ok(self.phi_nodes@),
                all_versions_ok(self.var_versions@),
                phi_blocks_versioned(self.phi_nodes@, self.var_versions@),
                same_phi_blocks(self.phi_nodes@, pn0),
                forall|x: BlockId| #[trigger] assoc_get(vv0, x) is Some ==> assoc_get(self.var_versions@, x) is Some,
                same_out_erased(self.out, out0),
                self.current_version == old(self).current_version,
                self.visited == old(self).visited,
                self.call_arguments == old(self).call_arguments,
                self.created == old(self).created,
            ensures
                all_phis_ok(self.phi_nodes@),
                all_versions_ok(self.var_versions@),
                phi_blocks_versioned(self.phi_nodes@, self.var_versions@),
                same_phi_blocks(self.phi_nodes@, pn0),
                forall|x: BlockId| #[trigger] assoc_get(vv0, x) is Some ==> assoc_get(self.var_versions@, x) is Some,
                same_out_erased(self.out, out0),
                none_prunable(self.phi_nodes@),
                self.current_version == old(self).current_version,
                self.visited == old(self).visited,
                self.call_arguments == old(self).call_arguments,
                self.created == old(self).created,
            decreases phi_count(self.phi_nodes@),
        {
            let (c, replacements, to_remove) = self.build_candidates();
            if !c {
                break;
            }
            let ghost pn = self.phi_nodes@;
            let ghost vv = self.var_versions@;
            let ghost out1 = self.out;
            let ghost w: Option<(BlockId, Arg)> = if c {
                if to_remove@.len() > 0 {
                    Some((to_remove@[0].0, spec_as_arg(to_remove@[0].1.arg)))
                } else {
                    Some((replacements@[0].1.0, spec_as_arg(replacements@[0].0.arg)))
                }
            } else {
                None
            };
            let ghost t0 = to_remove@;
            let (to_remove2, final_replacements) = resolve_replacements(&replacements, to_remove, Ghost(pn));
            proof {
                if c {
                    if t0.len() > 0 {
                        assert(phi_present(pn, t0[0].0, spec_as_arg(t0[0].1.arg)));
                        assert(to_remove2@.contains(t0[0]));
                        let j = choose|j: int| 0 <= j < to_remove2@.len() && to_remove2@[j] == t0[0];
                        assert(to_remove2@[j].0 == w->Some_0.0 && spec_as_arg(to_remove2@[j].1.arg) == w->Some_0.1);
                    } else {
                        let r0 = replacements@[0];
                        assert(phi_present(pn, r0.1.0, spec_as_arg(r0.0.arg)));
                        if to_remove2@.contains((r0.1.0, r0.0)) {
                            let j = choose|j: int| 0 <= j < to_remove2@.len() && to_remove2@[j] == (r0.1.0, r0.0);
                            assert(to_remove2@[j].0 == w->Some_0.0 && spec_as_arg(to_remove2@[j].1.arg) == w->Some_0.1);
                        } else {
                            lemma_key_index(final_replacements@, r0.0);
                            let j = key_index(final_replacements@, r0.0);
                            assert(final_replacements@[j].1.0 == w->Some_0.0 && spec_as_arg(final_replacements@[j].0.arg) == w->Some_0.1);
                        }
                    }
                }
            }
            self.apply_prune(&to_remove2, &final_replacements, Ghost(w));
            proof {
                lemma_same_out_erased_trans(self.out, out1, out0);
                assert(same_phi_blocks(self.phi_nodes@, pn0)) by {
                    assert forall|q: int| 0 <= q < pn0.len() implies (#[trigger] self.phi_nodes@[q]).0 == pn0[q].0 by {
                        assert(self.phi_nodes@[q].0 == pn[q].0);
                    }
                }
            }
        }
    }
}

/// Whether every block with phi functions is one of `keys`.
pub open spec fn phi_blocks_in(pn: Seq<(BlockId, Vec<(Arg, PhiNode)>)>, keys: Seq<BlockId>) -> bool {
    forall|i: int| 0 <= i < pn.len() ==> keys.contains(#[trigger] pn[i].0)
}

/// The definitions reaching the blocks of the graph, counted.
pub open spec fn phi_budget(df: GraphDataFlow<OpArg>, blocks: Seq<(BlockId, Block<OpArg>)>) -> nat
    decreases blocks.len(),
{
    if blocks.len() == 0 {
        0
    } else {
        phi_budget(df, blocks.drop_last()) + defs_in_count(df, blocks.last().0)
    }
}

proof fn lemma_phi_budget_prefix(df: GraphDataFlow<OpArg>, blocks: Seq<(BlockId, Block<OpArg>)>, n: int)
    requires
        0 <= n <= blocks.len(),
    ensures
        phi_budget(df, blocks.take(n)) <= phi_budget(df, blocks),
    decreases blocks.len(),
{
    if n < blocks.len() {
        assert(blocks.drop_last().take(n) =~= blocks.take(n));
        lemma_phi_budget_prefix(df, blocks.drop_last(), n);
    } else {
        assert(blocks.take(n) =~= blocks);
    }
}

/// The operands of an instruction, in order; a phi function's output comes
/// before its inputs.
pub open spec fn instr_operands<A>(i: InstrView<A>) -> Seq<A> {
    match i {
        InstrView::Add(a, b, c) | InstrView::Mul(a, b, c) | InstrView::LessThan(a, b, c) | InstrView::Equals(a, b, c) => seq![a, b, c],
        InstrView::Input(a) | InstrView::Output(a) | InstrView::AdjustRelativeBase(a) | InstrView::Goto(a) => seq![a],
        InstrView::JumpIf(a, _, b) | InstrView::Assign(a, b) => seq![a, b],
        InstrView::Phi(a, v) => seq![a] + v,
        InstrView::Data(_) | InstrView::Halt => seq![],
    }
}

/// The operands of how a block ends.
pub open spec fn next_operands<A>(n: NextKind<A>) -> Seq<A> {
    match n {
        NextKind::Goto(a) => seq![a],
        NextKind::FunctionCall(c) => seq![c.function_addr],
        NextKind::Condition(c) => seq![c.arg],
        _ => seq![],
    }
}

/// The markers of the first `n` operands `ins`, each given to the operand at
/// the same place of `outs`.
pub open spec fn paired_markers(outs: Seq<SSAArg>, ins: Seq<OpArg>, n: int) -> Seq<(SSAArg, char)>
    decreases n,
{
    if n <= 0 {
        seq![]
    } else {
        paired_markers(outs, ins, n - 1) + match ins[n - 1].debug_marker {
            Some(c) => if n - 1 < outs.len() {
                seq![(outs[n - 1], c)]
            } else {
                seq![]
            },
            None => seq![],
        }
    }
}

/// The markers of the first `k` operations of block `cb`, each given to the
/// versioned operand at its place in the same operation of `ob`, whose
/// operations follow its phi functions.
pub open spec fn ops_markers(ob: Block<SSAArg>, cb: Block<OpArg>, k: int) -> Seq<(SSAArg, char)>
    decreases k,
{
    if k <= 0 {
        seq![]
    } else {
        let p = ob.ops@.len() - cb.ops@.len();
        let ins = instr_operands(cb.ops@[k - 1].1@);
        ops_markers(ob, cb, k - 1) + paired_markers(instr_operands(ob.ops@[p + k - 1].1@), ins, ins.len() as int)
    }
}

/// The markers of block `cb` given to the versioned operands of `ob`: those
/// of its operations, then those of its ending.
pub open spec fn block_markers(ob: Block<SSAArg>, cb: Block<OpArg>) -> Seq<(SSAArg, char)> {
    let ins = next_operands(cb.next);
    ops_markers(ob, cb, cb.ops@.len() as int) + paired_markers(next_operands(ob.next), ins, ins.len() as int)
}

/// The markers of the first `n` blocks of `cf`, in the order of the blocks.
pub open spec fn graph_markers(out: ControlFlowGraph<SSAArg>, cf: ControlFlowGraph<OpArg>, n: int) -> Seq<(SSAArg, char)>
    decreases n,
{
    if n <= 0 {
        seq![]
    } else {
        graph_markers(out, cf, n - 1) + block_markers(out.blocks@[n - 1].1, cf.blocks@[n - 1].1)
    }
}

fn instruction_operands<A: Copy>(x: &GenericInstruction<A>) -> (r: Vec<A>)
    ensures
        r@ == instr_operands(x@),
{
    match x {
        GenericInstruction::Add(a, b, c) | GenericInstruction::Mul(a, b, c) | GenericInstruction::LessThan(a, b, c)
        | GenericInstruction::Equals(a, b, c) => vec![*a, *b, *c],
        GenericInstruction::Input(a) | GenericInstruction::Output(a) | GenericInstruction::AdjustRelativeBase(a)
        | GenericInstruction::Goto(a) => vec![*a],
        GenericInstruction::JumpIf(a, _, b) | GenericInstruction::Assign(a, b) => vec![*a, *b],
        GenericInstruction::Phi(a, v) => {
            let mut r: Vec<A> = vec![*a];
            let mut k: usize = 0;
            while k < v.len()
                invariant
                    k <= v@.len(),
                    r@ == seq![*a] + v@.take(k as int),
                decreases v.len() - k,
            {
                r.push(v[k]);
                k = k + 1;
                assert(r@ =~= seq![*a] + v@.take(k as int));
            }
            assert(v@.take(k as int) =~= v@);
            r
        },
        GenericInstruction::Data(_) | GenericInstruction::Halt => Vec::new(),
    }
}

fn ending_operands<A: Copy>(n: &NextKind<A>) -> (r: Vec<A>)
    ensures
        r@ == next_operands(*n),
{
    match n {
        NextKind::Goto(a) => vec![*a],
        NextKind::FunctionCall(c) => vec![c.function_addr],
        NextKind::Condition(c) => vec![c.arg],
        _ => Vec::new(),
    }
}

/// Appends the markers of `ins`, each given to the operand at its place in
/// `outs`.
fn push_paired(m: &mut Vec<(SSAArg, char)>, outs: &Vec<SSAArg>, ins: &Vec<OpArg>)
    ensures
        final(m)@ == old(m)@ + paired_markers(outs@, ins@, ins@.len() as int),
{
    let mut j: usize = 0;
    while j < ins.len()
        invariant
            j <= ins@.len(),
            m@ == old(m)@ + paired_markers(outs@, ins@, j as int),
        decreases ins.len() - j,
    {
        let ghost before = m@;
        match ins[j].debug_marker {
            Some(c) => {
                if j < outs.len() {
                    m.push((outs[j], c));
                }
            },
            None => {},
        }
        j = j + 1;
        assert(m@ =~= old(m)@ + paired_markers(outs@, ins@, j as int));
    }
}

/// The debug markers of the operands of `cf`, each given to the versioned
/// operand at its place in `out`: block by block, the operations in order
/// and then the ending.
fn collect_markers(out: &ControlFlowGraph<SSAArg>, cf: &ControlFlowGraph<OpArg>) -> (r: Vec<(SSAArg, char)>)
    requires
        out.blocks@.len() == cf.blocks@.len(),
        forall|i: int| 0 <= i < cf.blocks@.len() ==> (#[trigger] out.blocks@[i]).1.ops@.len() >= cf.blocks@[i].1.ops@.len(),
    ensures
        r@ == graph_markers(*out, *cf, cf.blocks@.len() as int),
{
    let mut m: Vec<(SSAArg, char)> = Vec::new();
    let mut i: usize = 0;
    while i < cf.blocks.len()
        invariant
            i <= cf.blocks@.len(),
            out.blocks@.len() == cf.blocks@.len(),
            forall|q: int| 0 <= q < cf.blocks@.len() ==> (#[trigger] out.blocks@[q]).1.ops@.len() >= cf.blocks@[q].1.ops@.len(),
            m@ == graph_markers(*out, *cf, i as int),
        decreases cf.blocks.len() - i,
    {
        let ob = &out.blocks[i].1;
        let cb = &cf.blocks[i].1;
        assert(ob.ops@.len() >= cb.ops@.len());
        let p = ob.ops.len() - cb.ops.len();
        let ghost m0 = m@;
        let mut k: usize = 0;
        while k < cb.ops.len()
            invariant
                k <= cb.ops@.len(),
                cb.ops@.len() <= ob.ops@.len(),
                p == ob.ops@.len() - cb.ops@.len(),
                m@ == m0 + ops_markers(*ob, *cb, k as int),
            decreases cb.ops.len() - k,
        {
            let n_out = ob.ops.len();
            assert(p + k < n_out);
            let outs = instruction_operands(&ob.ops[p + k].1);
            let ins = instruction_operands(&cb.ops[k].1);
            push_paired(&mut m, &outs, &ins);
            k = k + 1;
        }
        let outs = ending_operands(&ob.next);
        let ins = ending_operands(&cb.next);
        push_paired(&mut m, &outs, &ins);
        i = i + 1;
    }
    m
}

/// A function's graph in SSA form: the graph with versioned operands and
/// phi functions, the debug marker of each marked operand given to its
/// version, and the versions of the arguments of each
/// call at a literal address, by calling block.
pub struct SSAGraph {
    pub cfg: ControlFlowGraph<SSAArg>,
    pub debug_markers: Vec<(SSAArg, char)>,
    pub call_arguments: Vec<(BlockId, Vec<SSAArg>)>,
}

/// Whether a function can be converted to SSA form without failing: its
/// graph names only its own blocks, each reachable from the start and named
/// by its start address; the data flow covers it and defines no immediate
/// value; every call at a literal address is to a known function; and the
/// versions to be made can be numbered in a `usize`.
pub open spec fn ssa_defined(pa: ProgramAnalysis, cf: ControlFlowGraph<OpArg>, df: GraphDataFlow<OpArg>) -> bool {
    &&& graph_closed(cf)
    &&& block_keys(cf.blocks@).contains(cf.start)
    &&& forall|i: int| 0 <= i < cf.blocks@.len() ==> reachable(blocks_view(cf.blocks@), cf.start, #[trigger] cf.blocks@[i].0)
    &&& forall|i: int| 0 <= i < cf.blocks@.len() ==> (#[trigger] cf.blocks@[i]).0 == BlockId(cf.blocks@[i].1.span.start)
    &&& flow_covers(cf, df)
    &&& no_value_definitions(df)
    &&& calls_known(cf, infos_view(pa.function_infos@))
    &&& phi_budget(df, cf.blocks@) + cost_unvisited(cf.blocks@, seq![]) + nexts_cost(infos_view(pa.function_infos@), cf.blocks@) <= usize::MAX
}

/// Whether block `i` of the converted graph is block `i` of the original:
/// the same key, span and ending (up to versions), no predecessors
/// recorded, and operations that are phi functions of one operand each at
/// the block's start, followed by the original operations renamed.
pub open spec fn block_converted(out: ControlFlowGraph<SSAArg>, cf: ControlFlowGraph<OpArg>, i: int) -> bool {
    let ob = out.blocks@[i];
    let cb = cf.blocks@[i];
    let ops = ops_view(ob.1.ops@);
    let p = ops.len() - cb.1.ops@.len();
    &&& ob.0 == cb.0
    &&& ob.1.span == cb.1.span
    &&& ob.1.predecessors@.len() == 0
    &&& next_map(ob.1.next, ssa_erase()) == next_map(cb.1.next, op_erase())
    &&& p >= 0
    &&& phi_ops(ops.take(p), cb.1.span.start)
    &&& renamed_ops(ops.skip(p), ops_view(cb.1.ops@))
}

proof fn lemma_renamed_erased(a: ControlFlowGraph<SSAArg>, b: ControlFlowGraph<SSAArg>, cf: ControlFlowGraph<OpArg>, i: int)
    requires
        same_out_erased(a, b),
        0 <= i < b.blocks@.len(),
        i < cf.blocks@.len(),
        body_renamed(b, cf, i),
    ensures
        body_renamed(a, cf, i),
{
    let oa = ops_view(a.blocks@[i].1.ops@);
    let ob = ops_view(b.blocks@[i].1.ops@);
    let oc = ops_view(cf.blocks@[i].1.ops@);
    assert forall|k: int| 0 <= k < oa.len() implies (#[trigger] oa[k]).0 == oc[k].0 && instr_map(oa[k].1, ssa_erase())
        == instr_map(oc[k].1, op_erase()) by {
        assert(a.blocks@[i].1.ops@[k].0 == b.blocks@[i].1.ops@[k].0);
        assert(ob[k].0 == oc[k].0);
    }
}

/// What a conversion of `control_flow` to SSA form gives: a graph of the
/// same shape whose blocks are converted, the debug markers of the operands
/// given to their versions, and the arguments of each call to a known
/// function recorded.
pub open spec fn ssa_result(program_analysis: ProgramAnalysis, control_flow: ControlFlowGraph<OpArg>, r: SSAGraph) -> bool {
    &&& r.cfg.start == control_flow.start
    &&& r.cfg.stack_size == control_flow.stack_size
    &&& r.cfg.blocks@.len() == control_flow.blocks@.len()
    &&& forall|i: int| 0 <= i < control_flow.blocks@.len() ==> #[trigger] block_converted(r.cfg, control_flow, i)
    &&& r.debug_markers@ == graph_markers(r.cfg, control_flow, control_flow.blocks@.len() as int)
    &&& forall|i: int|
        0 <= i < control_flow.blocks@.len() ==> (literal_callee(
            infos_view(program_analysis.function_infos@),
            (#[trigger] control_flow.blocks@[i]).1.next,
        ) matches Some(info) ==> exists|j: int|
            0 <= j < r.call_arguments@.len() && r.call_arguments@[j].0 == control_flow.blocks@[i].0
                && (#[trigger] r.call_arguments@[j]).1@.map_values(ssa_erase()) == info.args)
}

/// Converts the graph of a function to SSA form: phi functions are placed
/// where several definitions of an operand meet, the blocks are renamed
/// depth first from the start, phi functions with a single distinct input
/// or none are dropped, versions are numbered again per operand by the
/// address that writes them, and the endings are renamed last.
pub fn convert_to_ssa(
    program_analysis: &ProgramAnalysis,
    control_flow: &ControlFlowGraph<OpArg>,
    data_flow: &GraphDataFlow<OpArg>,
) -> (r: SSAGraph)
    requires
        ssa_defined(*program_analysis, *control_flow, *data_flow),
    ensures
        r.cfg.start == control_flow.start,
        r.cfg.stack_size == control_flow.stack_size,
        r.cfg.blocks@.len() == control_flow.blocks@.len(),
        forall|i: int| 0 <= i < control_flow.blocks@.len() ==> #[trigger] block_converted(r.cfg, *control_flow, i),
        r.debug_markers@ == graph_markers(r.cfg, *control_flow, control_flow.blocks@.len() as int),
        forall|i: int|
            0 <= i < control_flow.blocks@.len() ==> (literal_callee(
                infos_view(program_analysis.function_infos@),
                (#[trigger] control_flow.blocks@[i]).1.next,
            ) matches Some(info) ==> exists|j: int|
                0 <= j < r.call_arguments@.len() && r.call_arguments@[j].0 == control_flow.blocks@[i].0
                    && (#[trigger] r.call_arguments@[j]).1@.map_values(ssa_erase()) == info.args),
        ssa_result(*program_analysis, *control_flow, r),
{
    let cf = control_flow;
    let df = data_flow;
    let scope = FunctionId(cf.start.0);
    let ghost infos = infos_view(program_analysis.function_infos@);
    let mut blocks: Vec<(BlockId, Block<SSAArg>)> = Vec::new();
    let mut i: usize = 0;
    while i < cf.blocks.len()
        invariant
            i <= cf.blocks@.len(),
            blocks@.len() == i,
            forall|j: int|
                #![trigger blocks@[j]]
                0 <= j < i ==> blocks@[j].0 == cf.blocks@[j].0 && blocks@[j].1.span == cf.blocks@[j].1.span
                    && blocks@[j].1.predecessors@.len() == 0 && blocks@[j].1.ops@.len() == 0,
        decreases cf.blocks.len() - i,
    {
        blocks.push((cf.blocks[i].0, Block { predecessors: Vec::new(), ops: Vec::new(), next: NextKind::Unknown, span: cf.blocks[i].1.span }));
        i = i + 1;
    }
    let mut conv = SSAConverter {
        current_version: Vec::new(),
        var_versions: Vec::new(),
        var_locations: Vec::new(),
        phi_nodes: Vec::new(),
        visited: Vec::new(),
        out: ControlFlowGraph { start: cf.start, stack_size: cf.stack_size, blocks },
        call_arguments: Vec::new(),
        created: Ghost(0),
    };
    proof {
        assert(conv.tables_ok());
        assert(shape_ok(conv.out, *cf));
    }
    let mut bi: usize = 0;
    assert(cf.blocks@.take(0) =~= seq![]);
    while bi < cf.blocks.len()
        invariant
            bi <= cf.blocks@.len(),
            ssa_defined(*program_analysis, *cf, *df),
            conv.tables_ok(),
            shape_ok(conv.out, *cf),
            forall|j: int| 0 <= j < cf.blocks@.len() ==> (#[trigger] conv.out.blocks@[j]).1.ops@.len() == 0,
            conv.visited@.len() == 0,
            conv.call_arguments@.len() == 0,
            conv.created@ <= phi_budget(*df, cf.blocks@.take(bi as int)),
            phi_blocks_in(conv.phi_nodes@, block_keys(cf.blocks@)),
            phi_blocks_versioned(conv.phi_nodes@, conv.var_versions@),
        decreases cf.blocks.len() - bi,
    {
        proof {
            assert(cf.blocks@.take(bi + 1).drop_last() =~= cf.blocks@.take(bi as int));
            lemma_phi_budget_prefix(*df, cf.blocks@, bi + 1);
        }
        conv.insert_phi_functions(cf, df, bi, scope);
        bi = bi + 1;
    }
    assert(cf.blocks@.take(bi as int) =~= cf.blocks@);
    conv.reset_versions(cf.start);
    let ghost keys = block_keys(cf.blocks@);
    proof {
        assert(conv.walk_ok(*cf));
        assert(cost_unvisited(cf.blocks@, conv.visited@) == cost_unvisited(cf.blocks@, seq![])) by {
            assert(conv.visited@ =~= seq![]);
        }
    }
    let ghost c_phi = conv.created@;
    let ghost out_dfs_before = conv.out;
    conv.process_block(cf, cf.start, scope, Ghost(count_unvisited(keys, conv.visited@)));
    let ghost visited = conv.visited@;
    proof {
        // every block is visited, hence renamed
        let bv = blocks_view(cf.blocks@);
        assert forall|x: BlockId, y: BlockId| visited.contains(x) && #[trigger] next_targets(block_of(bv, x).next).contains(y) implies #[trigger] visited.contains(y) by {
            assert(keys.contains(x));
            let q = choose|q: int| 0 <= q < keys.len() && keys[q] == x;
            crate::assoc::lemma_distinct_get(bv, x);
            assert(bv[q].0 == x);
            assert(block_of(bv, x) == cf.blocks@[q].1.view());
            assert(visited.contains(cf.blocks@[q].0));
        }
        assert(closed_under_successors(bv, visited));
        assert(keys.contains(cf.start));
        assert forall|i: int| 0 <= i < cf.blocks@.len() implies #[trigger] visited.contains(cf.blocks@[i].0) by {
            assert(reachable(bv, cf.start, cf.blocks@[i].0));
            lemma_closed_holds_reachable(bv, visited, cf.start, cf.blocks@[i].0);
        }
    }
    let ghost out_dfs = conv.out;
    let ghost vv_dfs = conv.var_versions@;
    let ghost pn_dfs = conv.phi_nodes@;
    conv.prune_phi_functions();
    let ghost out_pruned = conv.out;
    let ghost pn_pruned = conv.phi_nodes@;
    conv.renumber_all_vars();
    let ghost out_renum = conv.out;
    proof {
        assert(same_out_erased(conv.out, out_pruned));
        lemma_same_out_erased_trans(conv.out, out_pruned, out_dfs);
        assert forall|q: int| 0 <= q < conv.phi_nodes@.len() implies #[trigger] assoc_get(conv.out.blocks@, conv.phi_nodes@[q].0) is Some by {
            let b = conv.phi_nodes@[q].0;
            assert(b == pn_pruned[q].0);
            assert(pn_pruned[q].0 == pn_dfs[q].0);
            assert(keys.contains(b));
            let j = choose|j: int| 0 <= j < keys.len() && keys[j] == b;
            assert(conv.out.blocks@[j].0 == b);
            lemma_key_index(conv.out.blocks@, b);
        }
    }
    conv.populate_phi_functions();
    let ghost out_pop = conv.out;
    let mut t: usize = 0;
    assert(cf.blocks@.take(0) =~= seq![]);
    while t < cf.blocks.len()
        invariant
            t <= cf.blocks@.len(),
            ssa_defined(*program_analysis, *cf, *df),
            infos == infos_view(program_analysis.function_infos@),
            conv.tables_ok(),
            conv.out.start == out_pop.start,
            conv.out.stack_size == out_pop.stack_size,
            conv.out.blocks@.len() == out_pop.blocks@.len(),
            out_pop.blocks@.len() == cf.blocks@.len(),
            forall|j: int|
                #![trigger conv.out.blocks@[j]]
                0 <= j < cf.blocks@.len() ==> conv.out.blocks@[j].0 == out_pop.blocks@[j].0 && conv.out.blocks@[j].1.span
                    == out_pop.blocks@[j].1.span && conv.out.blocks@[j].1.predecessors == out_pop.blocks@[j].1.predecessors
                    && conv.out.blocks@[j].1.ops == out_pop.blocks@[j].1.ops,
            forall|j: int|
                0 <= j < t ==> next_map((#[trigger] conv.out.blocks@[j]).1.next, ssa_erase()) == next_map(cf.blocks@[j].1.next, op_erase()),
            forall|j: int| 0 <= j < cf.blocks@.len() ==> #[trigger] assoc_get(conv.var_versions@, cf.blocks@[j].0) is Some,
            conv.created@ <= c_phi + cost_unvisited(cf.blocks@, seq![]) + nexts_cost(infos, cf.blocks@.take(t as int)),
            c_phi <= phi_budget(*df, cf.blocks@),
            forall|j: int|
                0 <= j < t ==> (literal_callee(infos, (#[trigger] cf.blocks@[j]).1.next) matches Some(info) ==> exists|q: int|
                    0 <= q < conv.call_arguments@.len() && conv.call_arguments@[q].0 == cf.blocks@[j].0
                        && (#[trigger] conv.call_arguments@[q]).1@.map_values(ssa_erase()) == info.args),
        decreases cf.blocks.len() - t,
    {
        let id = cf.blocks[t].1.id();
        proof {
            assert(cf.blocks@[t as int].0 == BlockId(cf.blocks@[t as int].1.span.start));
            assert(cf.blocks@.take(t + 1).drop_last() =~= cf.blocks@.take(t as int));
            lemma_nexts_cost_prefix(infos, cf.blocks@, t + 1);
            assert(match cf.blocks@[t as int].1.next {
                NextKind::FunctionCall(fc) => match fc.function_addr.kind {
                    Arg::Value(v) => assoc_get(infos, FunctionId(v as usize)) is Some,
                    _ => true,
                },
                _ => true,
            });
        }
        let ghost ca0 = conv.call_arguments@;
        let ghost vv_t = conv.var_versions@;
        let next = conv.transform_next_to_ssa(program_analysis, id, &cf.blocks[t].1.next, scope);
        let ghost blocks_before = conv.out.blocks@;
        let entry = &mut conv.out.blocks[t];
        entry.1.next = next;
        proof {
            assert forall|j: int| 0 <= j < cf.blocks@.len() implies #[trigger] assoc_get(conv.var_versions@, cf.blocks@[j].0) is Some by {
                assert(assoc_get(vv_t, cf.blocks@[j].0) is Some);
            }
            assert forall|j: int| 0 <= j < t + 1 implies next_map((#[trigger] conv.out.blocks@[j]).1.next, ssa_erase()) == next_map(cf.blocks@[j].1.next, op_erase()) by {
                if j < t {
                    assert(conv.out.blocks@[j] == blocks_before[j]);
                }
            }
            assert forall|j: int|
                #![trigger conv.out.blocks@[j]]
                0 <= j < cf.blocks@.len() implies conv.out.blocks@[j].0 == out_pop.blocks@[j].0 && conv.out.blocks@[j].1.span
                    == out_pop.blocks@[j].1.span && conv.out.blocks@[j].1.predecessors == out_pop.blocks@[j].1.predecessors
                    && conv.out.blocks@[j].1.ops == out_pop.blocks@[j].1.ops by {
                if j != t {
                    assert(conv.out.blocks@[j] == blocks_before[j]);
                }
            }
            assert forall|j: int|
                0 <= j < t + 1 implies (literal_callee(infos, (#[trigger] cf.blocks@[j]).1.next) matches Some(info) ==> exists|q: int|
                    0 <= q < conv.call_arguments@.len() && conv.call_arguments@[q].0 == cf.blocks@[j].0
                        && (#[trigger] conv.call_arguments@[q]).1@.map_values(ssa_erase()) == info.args) by {
                if j < t {
                    if let Some(info) = literal_callee(infos, cf.blocks@[j].1.next) {
                        let q = choose|q: int|
                            0 <= q < ca0.len() && ca0[q].0 == cf.blocks@[j].0 && (#[trigger] ca0[q]).1@.map_values(ssa_erase()) == info.args;
                        assert(conv.call_arguments@[q] == ca0[q]);
                    }
                } else {
                    if let Some(info) = literal_callee(infos, cf.blocks@[j].1.next) {
                        let q = conv.call_arguments@.len() - 1;
                        assert(conv.call_arguments@[q].0 == cf.blocks@[j].0);
                    }
                }
            }
        }
        t = t + 1;
    }
    proof {
        assert forall|i: int| 0 <= i < cf.blocks@.len() implies #[trigger] block_converted(conv.out, *cf, i) by {
            assert(visited.contains(cf.blocks@[i].0));
            assert(body_renamed(out_dfs, *cf, i));
            lemma_renamed_erased(out_renum, out_dfs, *cf, i);
            let ops = ops_view(conv.out.blocks@[i].1.ops@);
            assert(conv.out.blocks@[i].1.ops == out_pop.blocks@[i].1.ops);
            let p = ops.len() - out_renum.blocks@[i].1.ops@.len();
            assert(out_renum.blocks@[i].1.ops@.len() == out_dfs.blocks@[i].1.ops@.len());
            assert(out_dfs.blocks@[i].1.ops@.len() == cf.blocks@[i].1.ops@.len());
            assert(ops.skip(p) == ops_view(out_renum.blocks@[i].1.ops@));
        }
        assert forall|i: int|
            0 <= i < cf.blocks@.len() implies (literal_callee(infos, (#[trigger] cf.blocks@[i]).1.next) matches Some(info) ==> exists|j: int|
                0 <= j < conv.call_arguments@.len() && conv.call_arguments@[j].0 == cf.blocks@[i].0
                    && (#[trigger] conv.call_arguments@[j]).1@.map_values(ssa_erase()) == info.args) by {
            assert(i < t);
        }
    }
    let ghost ca = conv.call_arguments@;
    proof {
        assert forall|i: int| 0 <= i < cf.blocks@.len() implies (#[trigger] conv.out.blocks@[i]).1.ops@.len() >= cf.blocks@[i].1.ops@.len() by {
            assert(block_converted(conv.out, *cf, i));
        }
    }
    let markers = collect_markers(&conv.out, cf);
    let r = SSAGraph { cfg: conv.out, debug_markers: markers, call_arguments: conv.call_arguments };
    proof {
        assert(r.call_arguments@ == ca);
        assert forall|i: int|
            0 <= i < control_flow.blocks@.len() implies (literal_callee(
                infos_view(program_analysis.function_infos@),
                (#[trigger] control_flow.blocks@[i]).1.next,
            ) matches Some(info) ==> exists|j: int|
                0 <= j < r.call_arguments@.len() && r.call_arguments@[j].0 == control_flow.blocks@[i].0
                    && (#[trigger] r.call_arguments@[j]).1@.map_values(ssa_erase()) == info.args) by {
            if let Some(info) = literal_callee(infos, cf.blocks@[i].1.next) {
                assert(exists|j: int|
                    0 <= j < ca.len() && ca[j].0 == cf.blocks@[i].0 && (#[trigger] ca[j]).1@.map_values(ssa_erase()) == info.args);
            }
        }
    }
    r
}

impl SSAConverter {
    /// Starts the table of versions of block `b` afresh.
    fn reset_versions(&mut self, b: BlockId)
        requires
            all_versions_ok(old(self).var_versions@),
        ensures
            all_versions_ok(final(self).var_versions@),
            assoc_get(final(self).var_versions@, b) is Some,
            forall|x: BlockId| #[trigger] assoc_get(old(self).var_versions@, x) is Some ==> assoc_get(final(self).var_versions@, x) is Some,
            final(self).current_version == old(self).current_version,
            final(self).var_locations == old(self).var_locations,
            final(self).phi_nodes == old(self).phi_nodes,
            final(self).visited == old(self).visited,
            final(self).out == old(self).out,
            final(self).call_arguments == old(self).call_arguments,
            final(self).created == old(self).created,
    {
        let ghost vv = self.var_versions@;
        let empty: Vec<(Arg, SSAArg)> = Vec::new();
        let ghost e = empty;
        crate::assoc::insert_value(&mut self.var_versions, b, empty);
        proof {
            crate::assoc::lemma_insert_distinct(vv, b, e);
            lemma_key_index(vv, b);
            crate::assoc::lemma_get_insert(vv, b, e, b);
            assert forall|k: int| 0 <= k < self.var_versions@.len() implies versions_ok((#[trigger] self.var_versions@[k]).1@) by {
                if k < vv.len() && k != key_index(vv, b) {
                    assert(self.var_versions@[k] == vv[k]);
                } else {
                    assert(self.var_versions@[k].1@ =~= Seq::<(Arg, SSAArg)>::empty());
                }
            }
            assert forall|x: BlockId| #[trigger] assoc_get(vv, x) is Some implies assoc_get(self.var_versions@, x) is Some by {
                crate::assoc::lemma_get_insert(vv, b, e, x);
            }
        }
    }
}

} // verus!
