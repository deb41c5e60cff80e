//! Finding the functions of a program: those reached from the entry at 0 by
//! direct calls, and by the addresses that calls pass to parameters that
//! are called through.
use vstd::prelude::*;
use crate::low_ir::{Input, ParseError};
use crate::mid_ir::{MidIRView, spec_children, spec_print};
use crate::code_printer::{CodePrinter, CodeWriter};
use crate::text::{append_str, append_uint, spec_uint_text};
use crate::function_parser::{
    Argument, FunctionRange, after, body_flow, body_graph, discover_function_pointers, find_function_calls, function_defined,
    parse_function, pointers_defined, spec_calls, spec_flow_mid, spec_frame, spec_function_pointers, function_calls_of,
};

verus! {

/// The body of the function parsed at `a`, when its frame set-up is there.
#[verifier::opaque]
pub open spec fn parsed_body(prog: Seq<i128>, a: usize) -> Option<MidIRView> {
    match spec_frame(a as int, prog.skip(a as int)) {
        Err(_) => None,
        Ok((n, stack)) => match body_flow(stack, (a + n) as usize, after(prog.skip(a as int), n)) {
            Some((w, h)) => Some(spec_flow_mid(h, body_graph(w), stack)->0),
            None => None,
        },
    }
}

/// The addresses the function parsed at `a` calls directly, in order.
#[verifier::opaque]
pub open spec fn called_at(prog: Seq<i128>, a: usize) -> Seq<usize> {
    if a < prog.len() {
        match parsed_body(prog, a) {
            Some(b) => spec_calls(spec_children(b)).map_values(|c: (usize, Seq<crate::mid_ir::ExprView>)| c.0),
            None => seq![],
        }
    } else {
        seq![]
    }
}

/// Whether `f` is the function parsed at its start.
pub open spec fn parsed_from(prog: Seq<i128>, f: FunctionRange) -> bool {
    &&& f.start < prog.len()
    &&& parsed_body(prog, f.start) == Some(f.block.view())
}

/// Whether a function can be parsed at every address of the program.
pub open spec fn defined_everywhere(prog: Seq<i128>) -> bool {
    forall|a: usize| a < prog.len() ==> #[trigger] function_defined(a, prog.skip(a as int))
}

/// Whether the calls through parameters of any functions parsed from the
/// program are passed literals where they are passed anything.
pub open spec fn pointers_ok(prog: Seq<i128>) -> bool {
    forall|fs: Seq<FunctionRange>|
        (forall|i: int| 0 <= i < fs.len() ==> parsed_from(prog, #[trigger] fs[i])) ==> #[trigger] pointers_defined(fs)
}

/// The start addresses of `fs`.
pub open spec fn starts(fs: Seq<FunctionRange>) -> Seq<usize> {
    fs.map_values(|f: FunctionRange| f.start)
}

/// The addresses that the function at `a` calls, parsed from the program;
/// none where it does not parse.
fn called_functions(prog: &[i128], a: usize) -> (r: Vec<usize>)
    requires
        prog@.len() + 8 <= usize::MAX,
        defined_everywhere(prog@),
    ensures
        r@ == called_at(prog@, a),
{
    proof {
        reveal(called_at);
        reveal(parsed_body);
    }
    if a >= prog.len() {
        return Vec::new();
    }
    let (_, rest) = prog.split_at(a);
    assert(rest@ == prog@.skip(a as int));
    assert(function_defined(a, prog@.skip(a as int)));
    match parse_function(Input::new(a, rest)) {
        Ok(f) => {
            let calls = find_function_calls(&f);
            let mut r: Vec<usize> = Vec::new();
            let mut i: usize = 0;
            while i < calls.len()
                invariant
                    i <= calls@.len(),
                    r@ == calls@.take(i as int).map_values(|c: (usize, Vec<crate::mid_ir::Expr>)| c.0),
                decreases calls.len() - i,
            {
                r.push(calls[i].0);
                i = i + 1;
                assert(r@ =~= calls@.take(i as int).map_values(|c: (usize, Vec<crate::mid_ir::Expr>)| c.0));
            }
            proof {
                assert(calls@.take(i as int) =~= calls@);
                let fc = function_calls_of(f);
                assert(crate::function_parser::found_calls_view(calls@) == fc);
                assert forall|k: int| 0 <= k < r@.len() implies r@[k] == fc[k].0 by {
                    assert(crate::function_parser::found_calls_view(calls@)[k].0 == calls@[k].0);
                }
                assert(r@ =~= fc.map_values(|c: (usize, Seq<crate::mid_ir::ExprView>)| c.0));
            }
            r
        },
        Err(_) => Vec::new(),
    }
}

/// Whether each address of `order` after the first is called by one before it.
pub open spec fn called_in_order(prog: Seq<i128>, order: Seq<usize>) -> bool {
    forall|k: int|
        #![trigger order[k]]
        0 < k < order.len() ==> exists|j: int| 0 <= j < k && #[trigger] called_at(prog, order[j]).contains(order[k])
}

/// Whether every address that one of `order` calls is among them.
pub open spec fn calls_within(prog: Seq<i128>, order: Seq<usize>) -> bool {
    forall|k: int, s: usize| 0 <= k < order.len() && #[trigger] called_at(prog, order[k]).contains(s) ==> order.contains(s)
}

/// The functions reachable by direct calls from `start`, `start` first,
/// each once, found by `pathfinding::directed::dfs::dfs_reach`: every one
/// after the first is called by one found before it, and every function
/// that one of them calls is found.
#[verifier::external_body]
fn reachable_functions(prog: &[i128], start: usize) -> (r: Vec<usize>)
    requires
        prog@.len() + 8 <= usize::MAX,
        defined_everywhere(prog@),
    ensures
        r@.len() > 0,
        r@[0] == start,
        r@.no_duplicates(),
        called_in_order(prog@, r@),
        calls_within(prog@, r@),
{
    pathfinding::directed::dfs::dfs_reach(start, |a: &usize| called_functions(prog, *a)).collect()
}

/// Where `a` is among the starts of `fs`, if it is.
fn position_of(fs: &Vec<FunctionRange>, a: usize) -> (r: Option<usize>)
    ensures
        match r {
            Some(i) => i < fs@.len() && fs@[i as int].start == a,
            None => !starts(fs@).contains(a),
        },
{
    let mut i: usize = 0;
    while i < fs.len()
        invariant
            i <= fs@.len(),
            forall|j: int| 0 <= j < i ==> fs@[j].start != a,
        decreases fs.len() - i,
    {
        if fs[i].start == a {
            return Some(i);
        }
        i = i + 1;
    }
    proof {
        if starts(fs@).contains(a) {
            let j = choose|j: int| 0 <= j < starts(fs@).len() && starts(fs@)[j] == a;
            assert(fs@[j].start == a);
        }
    }
    None
}

/// Whether `v` holds `a`.
fn holds(v: &Vec<usize>, a: usize) -> (r: bool)
    ensures
        r == v@.contains(a),
{
    let mut i: usize = 0;
    while i < v.len()
        invariant
            i <= v@.len(),
            forall|j: int| 0 <= j < i ==> v@[j] != a,
        decreases v.len() - i,
    {
        if v[i] == a {
            return true;
        }
        i = i + 1;
    }
    false
}

/// Whether the functions `fs` are the functions of the program reached from
/// the entry: each is parsed from the program at its start, once; the
/// first is at 0; each later one is called by one before it, or is an
/// address passed for a parameter that the ones before it call through;
/// and every function they call, and every such address, is among them.
pub open spec fn discovered(prog: Seq<i128>, fs: Seq<FunctionRange>) -> bool {
    &&& fs.len() > 0
    &&& fs[0].start == 0
    &&& forall|i: int| 0 <= i < fs.len() ==> parsed_from(prog, #[trigger] fs[i])
    &&& starts(fs).no_duplicates()
    &&& forall|k: int|
        #![trigger fs[k]]
        0 < k < fs.len() ==> (exists|j: int| 0 <= j < k && #[trigger] called_at(prog, fs[j].start).contains(fs[k].start)) || (exists|
            m: int,
        |
            0 <= m <= k && #[trigger] spec_function_pointers(fs.take(m)).contains(fs[k].start))
    &&& forall|k: int, s: usize| 0 <= k < fs.len() && #[trigger] called_at(prog, fs[k].start).contains(s) ==> starts(fs).contains(s)
    &&& forall|p: usize| #[trigger] spec_function_pointers(fs).contains(p) ==> starts(fs).contains(p)
}

/// Whether the address `a`, queued when `m` functions were found, is the
/// entry or an address passed for a parameter those functions call through.
pub open spec fn queued_for(fs: Seq<FunctionRange>, a: usize, m: int) -> bool {
    a == 0 || (0 <= m <= fs.len() && spec_function_pointers(fs.take(m)).contains(a))
}

/// Whether each of the functions `fs` after the first is called by one
/// before it, or is an address passed for a parameter that the ones before
/// it call through.
pub open spec fn justified(prog: Seq<i128>, fs: Seq<FunctionRange>) -> bool {
    forall|k: int|
        #![trigger fs[k]]
        0 < k < fs.len() ==> (exists|j: int| 0 <= j < k && #[trigger] called_at(prog, fs[j].start).contains(fs[k].start)) || (exists|
            m: int,
        |
            0 <= m <= k && #[trigger] spec_function_pointers(fs.take(m)).contains(fs[k].start))
}

/// Whether each of the functions `fs` is parsed from the program at its
/// start, each start once, the first at 0.
pub open spec fn well_found(prog: Seq<i128>, fs: Seq<FunctionRange>) -> bool {
    &&& forall|i: int| 0 <= i < fs.len() ==> parsed_from(prog, #[trigger] fs[i])
    &&& starts(fs).no_duplicates()
    &&& fs.len() > 0 ==> fs[0].start == 0
}

/// Whether every function that one of `fs` calls is among them.
pub open spec fn calls_closed(prog: Seq<i128>, fs: Seq<FunctionRange>) -> bool {
    forall|k: int, s: usize| 0 <= k < fs.len() && #[trigger] called_at(prog, fs[k].start).contains(s) ==> starts(fs).contains(s)
}

/// Whether the search reaches `a` next after the functions `fs`: `a` is the
/// entry, or called by one of them, or an address passed for a parameter
/// that some of the first of them call through.
pub open spec fn reached_after(prog: Seq<i128>, fs: Seq<FunctionRange>, a: usize) -> bool {
    ||| a == 0
    ||| exists|j: int| 0 <= j < fs.len() && #[trigger] called_at(prog, fs[j].start).contains(a)
    ||| exists|m: int| 0 <= m <= fs.len() && #[trigger] spec_function_pointers(fs.take(m)).contains(a)
}

/// Whether the search, having found the functions `fs` (each parsed at its
/// start and reached from the entry), reaches the address `a`, which fails
/// with `e`: `Empty` past the end of the program, or the error with which
/// the frame set-up of a function at `a` is refused.
pub open spec fn fails_at(prog: Seq<i128>, fs: Seq<FunctionRange>, a: usize, e: ParseError) -> bool {
    &&& well_found(prog, fs)
    &&& justified(prog, fs)
    &&& reached_after(prog, fs, a)
    &&& !starts(fs).contains(a)
    &&& if a >= prog.len() {
        e == ParseError::Empty
    } else {
        spec_frame(a as int, prog.skip(a as int)) == Err::<(nat, usize), ParseError>(e)
    }
}

/// Whether the search from the entry reaches an address that fails with `e`.
pub open spec fn failed_with(prog: Seq<i128>, e: ParseError) -> bool {
    exists|fs: Seq<FunctionRange>, a: usize| #[trigger] fails_at(prog, fs, a, e)
}

/// The function parsed from the program at `a`, which lies inside it.
fn parse_at(prog: &Vec<i128>, a: usize) -> (r: Result<FunctionRange, ParseError>)
    requires
        prog@.len() + 8 <= usize::MAX,
        defined_everywhere(prog@),
        a < prog@.len(),
    ensures
        r matches Ok(f) ==> f.start == a && parsed_from(prog@, f),
        r matches Err(e) ==> spec_frame(a as int, prog@.skip(a as int)) == Err::<(nat, usize), ParseError>(e),
{
    let (_, rest) = prog.as_slice().split_at(a);
    assert(rest@ == prog@.skip(a as int));
    assert(function_defined(a, prog@.skip(a as int)));
    let r = parse_function(Input::new(a, rest));
    proof {
        reveal(parsed_body);
    }
    r
}

/// Adds, in order, the functions of `order` not yet among `found`, parsed
/// from the program; `order` holds the functions reachable by calls from
/// its first, which was queued when `m0` functions were found.
#[verifier::spinoff_prover]
#[verifier::rlimit(30)]
fn add_reached(prog: &Vec<i128>, found: &mut Vec<FunctionRange>, order: &Vec<usize>, Ghost(m0): Ghost<int>) -> (r: Result<(), ParseError>)
    requires
        prog@.len() + 8 <= usize::MAX,
        defined_everywhere(prog@),
        well_found(prog@, old(found)@),
        justified(prog@, old(found)@),
        calls_closed(prog@, old(found)@),
        order@.len() > 0,
        old(found)@.len() == 0 ==> order@[0] == 0,
        queued_for(old(found)@, order@[0], m0),
        called_in_order(prog@, order@),
        calls_within(prog@, order@),
    ensures
        r is Ok ==> {
            &&& well_found(prog@, final(found)@)
            &&& justified(prog@, final(found)@)
            &&& calls_closed(prog@, final(found)@)
            &&& old(found)@.is_prefix_of(final(found)@)
            &&& forall|x: usize| #[trigger] order@.contains(x) ==> starts(final(found)@).contains(x)
        },
        r matches Err(e) ==> failed_with(prog@, e),
{
    let ghost found0 = found@;
    let mut i: usize = 0;
    while i < order.len()
        invariant
            prog@.len() + 8 <= usize::MAX,
            defined_everywhere(prog@),
            i <= order@.len(),
            order@.len() > 0,
            found0.len() == 0 ==> order@[0] == 0,
            queued_for(found0, order@[0], m0),
            called_in_order(prog@, order@),
            calls_within(prog@, order@),
            found0.is_prefix_of(found@),
            forall|j: int| 0 <= j < i ==> starts(found@).contains(#[trigger] order@[j]),
            well_found(prog@, found@),
            justified(prog@, found@),
            calls_closed(prog@, found0),
            forall|k: int, s: usize|
                0 <= k < found@.len() && #[trigger] called_at(prog@, found@[k].start).contains(s) ==> starts(found@).contains(s)
                    || order@.contains(s),
        decreases order.len() - i,
    {
        let a = order[i];
        match position_of(found, a) {
            Some(idx) => {
                assert(starts(found@)[idx as int] == a);
            },
            None => {
                proof {
                    lemma_reached(prog@, found0, found@, order@, i as int, m0);
                }
                if a >= prog.len() {
                    assert(fails_at(prog@, found@, a, ParseError::Empty));
                    return Err(ParseError::Empty);
                }
                let f = match parse_at(prog, a) {
                    Ok(f) => f,
                    Err(e) => {
                        assert(fails_at(prog@, found@, a, e));
                        return Err(e);
                    },
                };
                let ghost fb = found@;
                found.push(f);
                proof {
                    assert(found@.drop_last() =~= fb);
                    lemma_add_found(prog@, found0, fb, found@, order@, i as int, m0);
                }
            },
        }
        i = i + 1;
    }
    proof {
        assert forall|x: usize| #[trigger] order@.contains(x) implies starts(found@).contains(x) by {
            let j = choose|j: int| 0 <= j < order@.len() && order@[j] == x;
        }
    }
    Ok(())
}

/// The next address of `order` is reached after the functions found.
proof fn lemma_reached(
    prog: Seq<i128>,
    found0: Seq<FunctionRange>,
    found: Seq<FunctionRange>,
    order: Seq<usize>,
    i: int,
    m0: int,
)
    requires
        0 <= i < order.len(),
        found0.is_prefix_of(found),
        queued_for(found0, order[0], m0),
        called_in_order(prog, order),
        forall|j: int| 0 <= j < i ==> starts(found).contains(#[trigger] order[j]),
    ensures
        reached_after(prog, found, order[i]),
{
    if i > 0 {
        let j = choose|j: int| 0 <= j < i && #[trigger] called_at(prog, order[j]).contains(order[i]);
        assert(starts(found).contains(order[j]));
        let w = choose|w: int| 0 <= w < starts(found).len() && starts(found)[w] == order[j];
        assert(found[w].start == order[j]);
        assert(called_at(prog, found[w].start).contains(order[i]));
    } else if order[0] != 0 {
        assert(found.take(m0) =~= found0.take(m0));
        assert(spec_function_pointers(found.take(m0)).contains(order[0]));
    }
}

/// One function added to those found: the invariants of [`add_reached`]
/// carry over.
#[verifier::spinoff_prover]
proof fn lemma_add_found(
    prog: Seq<i128>,
    found0: Seq<FunctionRange>,
    fb: Seq<FunctionRange>,
    fs: Seq<FunctionRange>,
    order: Seq<usize>,
    i: int,
    m0: int,
)
    requires
        0 <= i < order.len(),
        fs.len() == fb.len() + 1,
        fs.drop_last() == fb,
        fs.last().start == order[i],
        parsed_from(prog, fs.last()),
        !starts(fb).contains(order[i]),
        found0.len() == 0 ==> order[0] == 0,
        queued_for(found0, order[0], m0),
        called_in_order(prog, order),
        calls_within(prog, order),
        found0.is_prefix_of(fb),
        forall|j: int| 0 <= j < i ==> starts(fb).contains(#[trigger] order[j]),
        well_found(prog, fb),
        justified(prog, fb),
        forall|k: int, s: usize| 0 <= k < fb.len() && #[trigger] called_at(prog, fb[k].start).contains(s) ==> starts(fb).contains(s)
            || order.contains(s),
    ensures
        found0.is_prefix_of(fs),
        forall|j: int| 0 <= j < i + 1 ==> starts(fs).contains(#[trigger] order[j]),
        well_found(prog, fs),
        justified(prog, fs),
        forall|k: int, s: usize| 0 <= k < fs.len() && #[trigger] called_at(prog, fs[k].start).contains(s) ==> starts(fs).contains(s)
            || order.contains(s),
{
    let k = fb.len() as int;
    let a = order[i];
    assert(forall|q: int| 0 <= q < k ==> fs[q] == fb[q]);
    assert(starts(fs) =~= starts(fb).push(a));
    lemma_starts_grow(fb, fs);
    assert(starts(fs)[k] == a);
    assert forall|j: int| 0 <= j < i + 1 implies starts(fs).contains(#[trigger] order[j]) by {}
    assert forall|q: int| 0 <= q < fs.len() implies parsed_from(prog, #[trigger] fs[q]) by {}
    if k == 0 {
        assert(found0.len() == 0);
        if i > 0 {
            let j = choose|j: int| 0 <= j < i && #[trigger] called_at(prog, order[j]).contains(order[i]);
            assert(starts(fb).contains(order[j]));
        }
        assert(a == 0);
    }
    if k > 0 {
        lemma_add_justified(prog, found0, fb, fs, order, i, m0);
    }
    lemma_add_closed(prog, fb, fs, order, i);
    assert(found0.is_prefix_of(fs));
}

/// What the functions found call stays among them or the addresses to add.
#[verifier::spinoff_prover]
proof fn lemma_add_closed(prog: Seq<i128>, fb: Seq<FunctionRange>, fs: Seq<FunctionRange>, order: Seq<usize>, i: int)
    requires
        0 <= i < order.len(),
        fs.len() == fb.len() + 1,
        fs.drop_last() == fb,
        fs.last().start == order[i],
        calls_within(prog, order),
        forall|k: int, s: usize| 0 <= k < fb.len() && #[trigger] called_at(prog, fb[k].start).contains(s) ==> starts(fb).contains(s)
            || order.contains(s),
    ensures
        forall|k: int, s: usize| 0 <= k < fs.len() && #[trigger] called_at(prog, fs[k].start).contains(s) ==> starts(fs).contains(s)
            || order.contains(s),
{
    let k = fb.len() as int;
    assert(forall|q: int| 0 <= q < k ==> fs[q] == fb[q]);
    lemma_starts_grow(fb, fs);
    assert forall|kk: int, s: usize|
        0 <= kk < fs.len() && #[trigger] called_at(prog, fs[kk].start).contains(s) implies starts(fs).contains(s) || order.contains(s) by {
        if kk < k {
            assert(fs[kk] == fb[kk]);
        } else {
            assert(order[i] == fs[kk].start);
        }
    }
}

/// Every start of `fb` is a start of `fs`, which extends it.
proof fn lemma_starts_grow(fb: Seq<FunctionRange>, fs: Seq<FunctionRange>)
    requires
        fb.is_prefix_of(fs),
    ensures
        forall|x: usize| #[trigger] starts(fb).contains(x) ==> starts(fs).contains(x),
{
    assert forall|x: usize| #[trigger] starts(fb).contains(x) implies starts(fs).contains(x) by {
        let w = choose|w: int| 0 <= w < starts(fb).len() && starts(fb)[w] == x;
        assert(fs[w] == fb[w]);
        assert(starts(fs)[w] == x);
    }
}

/// The function added last is called by one found before it, or was
/// queued as an address called through.
#[verifier::spinoff_prover]
proof fn lemma_add_justified(
    prog: Seq<i128>,
    found0: Seq<FunctionRange>,
    fb: Seq<FunctionRange>,
    fs: Seq<FunctionRange>,
    order: Seq<usize>,
    i: int,
    m0: int,
)
    requires
        0 <= i < order.len(),
        fs.len() == fb.len() + 1,
        fs.drop_last() == fb,
        fs.last().start == order[i],
        fb.len() > 0,
        !starts(fb).contains(order[i]),
        queued_for(found0, order[0], m0),
        called_in_order(prog, order),
        found0.is_prefix_of(fb),
        forall|j: int| 0 <= j < i ==> starts(fb).contains(#[trigger] order[j]),
        well_found(prog, fb),
        justified(prog, fb),
    ensures
        justified(prog, fs),
{
    let k = fb.len() as int;
    assert(forall|q: int| 0 <= q < k ==> fs[q] == fb[q]);
    if i > 0 {
        let j = choose|j: int| 0 <= j < i && #[trigger] called_at(prog, order[j]).contains(order[i]);
        assert(starts(fb).contains(order[j]));
        let w = choose|w: int| 0 <= w < starts(fb).len() && starts(fb)[w] == order[j];
        assert(fs[w].start == order[j]);
        assert(called_at(prog, fs[w].start).contains(fs[k].start));
    } else {
        if order[0] == 0 {
            assert(fb[0].start == 0);
            assert(starts(fb)[0] == 0);
            assert(starts(fb).contains(order[0]));
        } else {
            assert(fs.take(m0) =~= found0.take(m0));
            assert(spec_function_pointers(fs.take(m0)).contains(fs[k].start));
        }
    }
    assert forall|kk: int|
        #![trigger fs[kk]]
        0 < kk < fs.len() implies (exists|j: int| 0 <= j < kk && #[trigger] called_at(prog, fs[j].start).contains(fs[kk].start)) || (exists|
            m: int,
        |
            0 <= m <= kk && #[trigger] spec_function_pointers(fs.take(m)).contains(fs[kk].start)) by {
        if kk == k {
            if i > 0 {
                let j = choose|j: int| 0 <= j < i && #[trigger] called_at(prog, order[j]).contains(order[i]);
                let w = choose|w: int| 0 <= w < starts(fb).len() && starts(fb)[w] == order[j];
                assert(fs[w].start == order[j]);
                assert(called_at(prog, fs[w].start).contains(fs[kk].start));
            } else {
                assert(0 <= m0 <= kk);
                assert(fs.take(m0) =~= found0.take(m0));
            }
        } else {
            if exists|j: int| 0 <= j < kk && #[trigger] called_at(prog, fb[j].start).contains(fb[kk].start) {
                let j = choose|j: int| 0 <= j < kk && #[trigger] called_at(prog, fb[j].start).contains(fb[kk].start);
                assert(fs[j] == fb[j]);
            } else {
                let m = choose|m: int| 0 <= m <= kk && #[trigger] spec_function_pointers(fb.take(m)).contains(fb[kk].start);
                assert(fb.take(m) =~= fs.take(m));
            }
        }
    }
}

/// Queues each address of `ptrs` not seen yet, noting for it that `mark`
/// functions were found; `marks` notes this for each address seen.
fn queue_pointers(
    seen: &mut Vec<usize>,
    stack: &mut Vec<usize>,
    ptrs: &Vec<usize>,
    Ghost(fs): Ghost<Seq<FunctionRange>>,
    Ghost(marks): Ghost<Seq<int>>,
) -> (r: Ghost<Seq<int>>)
    requires
        ptrs@ == spec_function_pointers(fs),
        marked(fs, old(seen)@, marks),
        among(old(stack)@, old(seen)@),
    ensures
        marked(fs, final(seen)@, r@),
        among(final(stack)@, final(seen)@),
        among(ptrs@, final(seen)@),
        final(seen)@.len() - old(seen)@.len() == final(stack)@.len() - old(stack)@.len(),
        old(seen)@.is_prefix_of(final(seen)@),
        old(stack)@.is_prefix_of(final(stack)@),
        forall|a: usize| #[trigger] final(seen)@.contains(a) && !old(seen)@.contains(a) ==> final(stack)@.contains(a),
{
    let ghost seen0 = seen@;
    let ghost stack0 = stack@;
    let ghost mut mk = marks;
    let ghost mark = fs.len() as int;
    let mut p: usize = 0;
    while p < ptrs.len()
        invariant
            p <= ptrs@.len(),
            ptrs@ == spec_function_pointers(fs),
            mark == fs.len(),
            mk.len() == seen@.len(),
            forall|q: int| 0 <= q < seen@.len() ==> queued_for(fs, #[trigger] seen@[q], mk[q]),
            forall|a: usize| #[trigger] stack@.contains(a) ==> seen@.contains(a),
            forall|j: int| 0 <= j < p ==> seen@.contains(#[trigger] ptrs@[j]),
            seen@.len() >= seen0.len(),
            seen@.len() - seen0.len() == stack@.len() - stack0.len(),
            seen0.is_prefix_of(seen@),
            stack0.is_prefix_of(stack@),
            forall|a: usize| #[trigger] seen@.contains(a) && !seen0.contains(a) ==> stack@.contains(a),
        decreases ptrs.len() - p,
    {
        let x = ptrs[p];
        let ghost sb = seen@;
        let ghost stb = stack@;
        if !holds(seen, x) {
            seen.push(x);
            stack.push(x);
            proof {
                mk = mk.push(mark);
                assert(fs.take(mark) =~= fs);
                assert(ptrs@.contains(x)) by {
                    assert(ptrs@[p as int] == x);
                }
                assert(seen@[seen@.len() - 1] == x);
                assert forall|q: int| 0 <= q < seen@.len() implies queued_for(fs, #[trigger] seen@[q], mk[q]) by {
                    if q < sb.len() {
                        assert(seen@[q] == sb[q]);
                    }
                }
                assert forall|a: usize| #[trigger] stack@.contains(a) implies seen@.contains(a) by {
                    if a != x {
                        let w = choose|w: int| 0 <= w < stack@.len() && stack@[w] == a;
                        assert(w < stb.len());
                        assert(stb[w] == a);
                        assert(stb.contains(a));
                        let v = choose|v: int| 0 <= v < sb.len() && sb[v] == a;
                        assert(seen@[v] == a);
                    }
                }
                assert forall|j: int| 0 <= j < p + 1 implies seen@.contains(#[trigger] ptrs@[j]) by {
                    if j < p {
                        assert(sb.contains(ptrs@[j]));
                        let v = choose|v: int| 0 <= v < sb.len() && sb[v] == ptrs@[j];
                        assert(seen@[v] == ptrs@[j]);
                    }
                }
                assert forall|a: usize| #[trigger] seen@.contains(a) && !seen0.contains(a) implies stack@.contains(a) by {
                    if a == x {
                        assert(stack@[stack@.len() - 1] == x);
                    } else {
                        let v = choose|v: int| 0 <= v < seen@.len() && seen@[v] == a;
                        assert(v < sb.len());
                        assert(sb[v] == a);
                        assert(sb.contains(a));
                        assert(stb.contains(a));
                        let w = choose|w: int| 0 <= w < stb.len() && stb[w] == a;
                        assert(stack@[w] == a);
                    }
                }
                assert(seen0.is_prefix_of(seen@));
                assert(stack0.is_prefix_of(stack@));
            }
        }
        p = p + 1;
    }
    proof {
        assert forall|x: usize| #[trigger] ptrs@.contains(x) implies seen@.contains(x) by {
            let j = choose|j: int| 0 <= j < ptrs@.len() && ptrs@[j] == x;
        }
    }
    Ghost(mk)
}

/// Whether each address seen was queued for by the functions found when
/// its mark was taken.
pub open spec fn marked(fs: Seq<FunctionRange>, seen: Seq<usize>, marks: Seq<int>) -> bool {
    &&& marks.len() == seen.len()
    &&& forall|q: int| 0 <= q < seen.len() ==> queued_for(fs, #[trigger] seen[q], marks[q])
}

/// Whether every address of `part` is in `whole`.
pub open spec fn among(part: Seq<usize>, whole: Seq<usize>) -> bool {
    forall|a: usize| #[trigger] part.contains(a) ==> whole.contains(a)
}

/// Whether every address seen is still to do or a start of a function found.
pub open spec fn seen_handled(seen: Seq<usize>, stack: Seq<usize>, fs: Seq<FunctionRange>) -> bool {
    forall|a: usize| #[trigger] seen.contains(a) ==> stack.contains(a) || starts(fs).contains(a)
}

/// Marks taken against `f0` still hold against its extension `f1`.
proof fn lemma_marks_grow(f0: Seq<FunctionRange>, f1: Seq<FunctionRange>, seen: Seq<usize>, marks: Seq<int>)
    requires
        f0.is_prefix_of(f1),
        marked(f0, seen, marks),
    ensures
        marked(f1, seen, marks),
{
    assert forall|q: int| 0 <= q < seen.len() implies queued_for(f1, #[trigger] seen[q], marks[q]) by {
        assert(queued_for(f0, seen[q], marks[q]));
        let m = marks[q];
        if seen[q] != 0 {
            assert(f0.take(m) =~= f1.take(m));
        }
    }
}

/// Popping the last address keeps the rest among those seen.
proof fn lemma_pop_among(stack0: Seq<usize>, stack: Seq<usize>, seen: Seq<usize>)
    requires
        stack0.len() > 0,
        stack == stack0.drop_last(),
        among(stack0, seen),
    ensures
        among(stack, seen),
        seen.contains(stack0.last()),
{
    assert(stack0.contains(stack0.last())) by {
        assert(stack0[stack0.len() - 1] == stack0.last());
    }
    assert forall|a: usize| #[trigger] stack.contains(a) implies seen.contains(a) by {
        let w = choose|w: int| 0 <= w < stack.len() && stack[w] == a;
        assert(stack0[w] == a);
        assert(stack0.contains(a));
    }
}

/// After one round, every address seen is still to do or found.
proof fn lemma_round_handled(
    seen2: Seq<usize>,
    seen: Seq<usize>,
    stack0: Seq<usize>,
    stack2: Seq<usize>,
    stack: Seq<usize>,
    found0: Seq<FunctionRange>,
    found: Seq<FunctionRange>,
    init: usize,
)
    requires
        stack0.len() > 0,
        init == stack0.last(),
        stack2 == stack0.drop_last(),
        stack2.is_prefix_of(stack),
        found0.is_prefix_of(found),
        starts(found).contains(init),
        seen_handled(seen2, stack0, found0),
        forall|a: usize| #[trigger] seen.contains(a) && !seen2.contains(a) ==> stack.contains(a),
    ensures
        seen_handled(seen, stack, found),
{
    lemma_starts_grow(found0, found);
    assert forall|a: usize| #[trigger] seen.contains(a) implies stack.contains(a) || starts(found).contains(a) by {
        if seen2.contains(a) {
            if a != init && stack0.contains(a) {
                let w = choose|w: int| 0 <= w < stack0.len() && stack0[w] == a;
                assert(w < stack2.len());
                assert(stack2[w] == a);
                assert(stack[w] == a);
            }
        }
    }
}

/// The state of the search: the functions found, the addresses seen with
/// their marks, and those still to do.
#[verifier::opaque]
pub open spec fn searching(
    prog: Seq<i128>,
    found: Seq<FunctionRange>,
    seen: Seq<usize>,
    stack: Seq<usize>,
    marks: Seq<int>,
) -> bool {
    &&& well_found(prog, found)
    &&& justified(prog, found)
    &&& calls_closed(prog, found)
    &&& found.len() == 0 ==> stack == seq![0usize] && seen == seq![0usize]
    &&& marked(found, seen, marks)
    &&& among(stack, seen)
    &&& seen_handled(seen, stack, found)
    &&& found.len() > 0 ==> among(spec_function_pointers(found), seen)
}

/// When nothing is left to do, the functions found are those discovered.
#[verifier::spinoff_prover]
proof fn lemma_search_done(
    prog: Seq<i128>,
    found: Seq<FunctionRange>,
    seen: Seq<usize>,
    stack: Seq<usize>,
    marks: Seq<int>,
)
    requires
        stack.len() == 0,
        searching(prog, found, seen, stack, marks),
    ensures
        discovered(prog, found),
{
    reveal(searching);
    assert(found.len() > 0);
    assert forall|p2: usize| #[trigger] spec_function_pointers(found).contains(p2) implies starts(found).contains(p2) by {
        assert(seen.contains(p2));
    }
}

/// One round of the search: the last address to do is taken, the functions
/// reached from it by calls are added, and the addresses passed for
/// parameters called through are queued.
#[verifier::spinoff_prover]
#[verifier::rlimit(40)]
fn search_round(
    prog: &Vec<i128>,
    found: &mut Vec<FunctionRange>,
    seen: &mut Vec<usize>,
    stack: &mut Vec<usize>,
    Ghost(marks): Ghost<Seq<int>>,
) -> (r: Result<Ghost<Seq<int>>, ParseError>)
    requires
        prog@.len() + 8 <= usize::MAX,
        defined_everywhere(prog@),
        pointers_ok(prog@),
        old(stack)@.len() > 0,
        searching(prog@, old(found)@, old(seen)@, old(stack)@, marks),
    ensures
        r matches Ok(nm) ==> {
            &&& searching(prog@, final(found)@, final(seen)@, final(stack)@, nm@)
            &&& final(seen)@.len() - old(seen)@.len() == final(stack)@.len() + 1 - old(stack)@.len()
            &&& old(seen)@.len() <= final(seen)@.len()
        },
        r matches Err(e) ==> failed_with(prog@, e),
{
    proof {
        reveal(searching);
    }
    let ghost stack0 = stack@;
    let init = match stack.pop() {
        Some(x) => x,
        None => {
            assert(false);
            return Err(ParseError::Empty);
        },
    };
    proof {
        lemma_pop_among(stack0, stack@, seen@);
    }
    let ghost q0 = choose|q: int| 0 <= q < seen@.len() && seen@[q] == init;
    let ghost found0 = found@;
    let order = reachable_functions(prog.as_slice(), init);
    proof {
        assert(queued_for(found0, seen@[q0], marks[q0]));
        if found0.len() == 0 {
            assert(init == 0);
        }
    }
    match add_reached(prog, found, &order, Ghost(marks[q0])) {
        Ok(()) => {},
        Err(e) => {
            return Err(e);
        },
    }
    proof {
        lemma_marks_grow(found0, found@, seen@, marks);
        assert(order@.contains(init)) by {
            assert(order@[0] == init);
        }
        assert(pointers_defined(found@));
    }
    let ptrs = discover_function_pointers(found.as_slice());
    let ghost stack2 = stack@;
    let ghost seen2 = seen@;
    let nm = queue_pointers(seen, stack, &ptrs, Ghost(found@), Ghost(marks));
    proof {
        assert(seen2.len() <= seen@.len());
        lemma_round_handled(seen2, seen@, stack0, stack2, stack@, found0, found@, init);
    }
    Ok(nm)
}

/// Finds the functions of a program reached from its entry at 0 by direct
/// calls and by the addresses passed for parameters that are called
/// through; see [`discovered`]. An address past the program is refused with
/// `Empty`, and one where no function parses with the parse error.
pub fn discover_functions(prog: &Vec<i128>) -> (r: Result<Vec<FunctionRange>, ParseError>)
    requires
        prog@.len() + 8 <= usize::MAX,
        defined_everywhere(prog@),
        pointers_ok(prog@),
    ensures
        r matches Ok(fs) ==> discovered(prog@, fs@),
        r matches Err(e) ==> failed_with(prog@, e),
{
    let mut found: Vec<FunctionRange> = Vec::new();
    let mut seen: Vec<usize> = Vec::new();
    let mut stack: Vec<usize> = Vec::new();
    seen.push(0);
    stack.push(0);
    let ghost mut marks: Seq<int> = seq![0int];
    proof {
        reveal(searching);
        assert(among(stack@, seen@)) by {
            assert forall|a: usize| #[trigger] stack@.contains(a) implies seen@.contains(a) by {
                assert(stack@ == seen@);
            }
        }
        assert(marked(found@, seen@, marks)) by {
            assert forall|q: int| 0 <= q < seen@.len() implies queued_for(found@, #[trigger] seen@[q], marks[q]) by {
                assert(seen@[q] == 0);
            }
        }
    }
    while stack.len() > 0
        invariant
            prog@.len() + 8 <= usize::MAX,
            defined_everywhere(prog@),
            pointers_ok(prog@),
            searching(prog@, found@, seen@, stack@, marks),
        decreases usize::MAX - seen@.len(), stack@.len(),
    {
        match search_round(prog, &mut found, &mut seen, &mut stack, Ghost(marks)) {
            Ok(nm) => {
                proof {
                    marks = nm@;
                }
                let n = seen.len();
                assert(n <= usize::MAX);
            },
            Err(e) => {
                return Err(e);
            },
        }
    }
    proof {
        lemma_search_done(prog@, found@, seen@, stack@, marks);
    }
    Ok(found)
}

/// The names of the arguments, separated by a comma and a space.
pub open spec fn args_text(args: Seq<Argument>) -> Seq<char>
    decreases args.len(),
{
    if args.len() == 0 {
        seq![]
    } else if args.len() == 1 {
        args[0].name@
    } else {
        args_text(args.drop_last()) + seq![',', ' '] + args.last().name@
    }
}

/// The text of one function: its head with its start and arguments, its
/// body indented by two spaces, the closing brace and an empty line.
pub open spec fn function_text(f: FunctionRange) -> Seq<char> {
    seq!['f', 'n', ' ', 'f'] + spec_uint_text(f.start as nat) + seq!['('] + args_text(f.args@) + seq![')', ' ', '{', '\n']
        + spec_print(f.block.view(), seq![' ', ' ']) + seq!['}', '\n', '\n']
}

/// The position of the first function with the lowest start.
pub open spec fn first_lowest(fs: Seq<FunctionRange>) -> int
    decreases fs.len(),
{
    if fs.len() <= 1 {
        0
    } else {
        let j = first_lowest(fs.drop_last());
        if fs.last().start < fs[j].start {
            fs.len() - 1
        } else {
            j
        }
    }
}

/// The texts of the functions, in the order of their starts.
pub open spec fn program_text_of(fs: Seq<FunctionRange>) -> Seq<char>
    decreases fs.len(),
{
    if fs.len() == 0 {
        seq![]
    } else {
        let i = first_lowest(fs);
        if 0 <= i < fs.len() {
            function_text(fs[i]) + program_text_of(fs.remove(i))
        } else {
            seq![]
        }
    }
}

/// `first_lowest` is a position of the sequence, holding a lowest start.
proof fn lemma_first_lowest(fs: Seq<FunctionRange>)
    requires
        fs.len() > 0,
    ensures
        0 <= first_lowest(fs) < fs.len(),
        forall|q: int| 0 <= q < fs.len() ==> fs[first_lowest(fs)].start <= #[trigger] fs[q].start,
    decreases fs.len(),
{
    if fs.len() > 1 {
        lemma_first_lowest(fs.drop_last());
        assert(forall|q: int| 0 <= q < fs.len() - 1 ==> fs.drop_last()[q] == fs[q]);
    }
}

/// Where the function with the lowest start is, the first of them.
fn lowest_start(fs: &Vec<FunctionRange>) -> (r: usize)
    requires
        fs@.len() > 0,
    ensures
        r == first_lowest(fs@),
        r < fs@.len(),
{
    let mut best: usize = 0;
    let mut i: usize = 1;
    proof {
        assert(fs@.take(1).len() == 1);
    }
    while i < fs.len()
        invariant
            1 <= i <= fs@.len(),
            best == first_lowest(fs@.take(i as int)),
            best < i,
        decreases fs.len() - i,
    {
        proof {
            assert(fs@.take(i + 1).drop_last() =~= fs@.take(i as int));
            assert(fs@.take(i + 1)[best as int] == fs@[best as int]);
            assert(fs@.take(i + 1).last() == fs@[i as int]);
        }
        if fs[i].start < fs[best].start {
            best = i;
        }
        i = i + 1;
    }
    proof {
        assert(fs@.take(i as int) =~= fs@);
    }
    best
}

/// Writes one function: its head, its body indented, the closing brace and
/// an empty line.
fn print_function(p: &mut CodePrinter, f: &FunctionRange)
    ensures
        final(p).view() == old(p).view() + function_text(*f),
{
    let mut head = String::new();
    append_str(&mut head, "fn f");
    append_uint(&mut head, f.start as u128);
    append_str(&mut head, "(");
    proof {
        reveal_strlit("fn f");
        reveal_strlit("(");
        assert(f.args@.take(0) =~= Seq::<Argument>::empty());
        assert(head@ =~= seq!['f', 'n', ' ', 'f'] + spec_uint_text(f.start as nat) + seq!['('] + args_text(f.args@.take(0)));
    }
    let mut k: usize = 0;
    while k < f.args.len()
        invariant
            k <= f.args@.len(),
            head@ == seq!['f', 'n', ' ', 'f'] + spec_uint_text(f.start as nat) + seq!['('] + args_text(f.args@.take(k as int)),
        decreases f.args.len() - k,
    {
        proof {
            assert(f.args@.take(k + 1).drop_last() =~= f.args@.take(k as int));
        }
        if k > 0 {
            append_str(&mut head, ", ");
        }
        append_str(&mut head, f.args[k].name.as_str());
        k = k + 1;
        proof {
            reveal_strlit(", ");
            if k == 1 {
                assert(args_text(f.args@.take(1)) == f.args@[0].name@);
            }
        }
    }
    proof {
        assert(f.args@.take(k as int) =~= f.args@);
    }
    append_str(&mut head, ") {");
    proof {
        reveal_strlit(") {");
    }
    let ghost h = head@;
    assert(h == seq!['f', 'n', ' ', 'f'] + spec_uint_text(f.start as nat) + seq!['('] + args_text(f.args@) + seq![')', ' ', '{']);
    let ghost t0 = p.view();
    p.line(head.as_str());
    let ghost t1 = p.view();
    assert(t1 == t0 + h + seq!['\n']);
    let mut pad = String::new();
    append_str(&mut pad, "  ");
    proof {
        reveal_strlit("  ");
        assert(p.line_prefix() + pad@ =~= seq![' ', ' ']);
    }
    f.block.print_at(p, &pad);
    let ghost t2 = p.view();
    assert(t2 == t1 + spec_print(f.block.view(), seq![' ', ' ']));
    p.line("}");
    p.line("");
    proof {
        reveal_strlit("}");
        reveal_strlit("");
        assert(p.view() =~= t2 + seq!['}', '\n'] + seq!['\n']);
        assert(p.view() =~= t0 + function_text(*f));
    }
}

/// The text of the functions `fs`, in the order of their starts: for each,
/// its head `fn f<start>(<arguments>) {`, its body indented by two spaces,
/// `}` and an empty line.
pub fn program_text(fs: Vec<FunctionRange>) -> (r: String)
    ensures
        r@ == program_text_of(fs@),
{
    let ghost all = fs@;
    let mut rest = fs;
    let mut p = CodePrinter::new();
    while rest.len() > 0
        invariant
            p.view() + program_text_of(rest@) == program_text_of(all),
        decreases rest@.len(),
    {
        let i = lowest_start(&rest);
        let ghost before = rest@;
        let f = rest.remove(i);
        print_function(&mut p, &f);
        proof {
            assert(program_text_of(before) == function_text(f) + program_text_of(rest@));
        }
    }
    proof {
        assert(program_text_of(rest@) =~= Seq::<char>::empty());
    }
    p.result()
}

/// The functions of a program, found from its entry as
/// [`discover_functions`] does, written out in the order of their starts
/// as [`program_text`] does.
pub fn mid_ir_text(prog: &Vec<i128>) -> (r: Result<String, ParseError>)
    requires
        prog@.len() + 8 <= usize::MAX,
        defined_everywhere(prog@),
        pointers_ok(prog@),
    ensures
        r matches Ok(t) ==> exists|fs: Seq<FunctionRange>| discovered(prog@, fs) && t@ == program_text_of(fs),
        r matches Err(e) ==> failed_with(prog@, e),
{
    match discover_functions(prog) {
        Ok(fs) => {
            let ghost v = fs@;
            let t = program_text(fs);
            assert(discovered(prog@, v) && t@ == program_text_of(v));
            Ok(t)
        },
        Err(e) => Err(e),
    }
}

} // verus!
