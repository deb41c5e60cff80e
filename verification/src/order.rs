//! Stable ordering of items by an address key.
use vstd::prelude::*;

verus! {

/// Index of the first entry with the smallest key.
pub open spec fn spec_argmin(s: Seq<(usize, usize)>) -> int
    decreases s.len(),
{
    if s.len() <= 1 {
        0
    } else {
        let m = spec_argmin(s.drop_last());
        if s.last().0 < s[m].0 {
            s.len() - 1
        } else {
            m
        }
    }
}

/// The second components of `s`, ordered by the first, keeping the order of
/// equal keys (selection of the first smallest, repeated).
pub open spec fn spec_sorted_indices(s: Seq<(usize, usize)>) -> Seq<usize>
    decreases s.len(),
{
    if s.len() == 0 {
        Seq::empty()
    } else {
        let m = spec_argmin(s);
        proof {
            lemma_argmin_bounds(s);
        }
        seq![s[m].1] + spec_sorted_indices(s.remove(m))
    }
}

/// The pairs `(keys[i], i)`.
pub open spec fn spec_keyed(keys: Seq<usize>) -> Seq<(usize, usize)> {
    Seq::new(keys.len(), |i: int| (keys[i], i as usize))
}

pub proof fn lemma_argmin_bounds(s: Seq<(usize, usize)>)
    requires
        s.len() > 0,
    ensures
        0 <= spec_argmin(s) < s.len(),
        forall|j: int| 0 <= j < s.len() ==> s[spec_argmin(s)].0 <= #[trigger] s[j].0,
    decreases s.len(),
{
    if s.len() > 1 {
        lemma_argmin_bounds(s.drop_last());
        let m = spec_argmin(s.drop_last());
        assert forall|j: int| 0 <= j < s.len() implies s[spec_argmin(s)].0 <= #[trigger] s[j].0 by {
            if j < s.len() - 1 {
                assert(s.drop_last()[j] == s[j]);
            }
        }
    }
}

/// Every position in the result is a second component of the input.
pub proof fn lemma_sorted_indices_members(s: Seq<(usize, usize)>)
    ensures
        forall|j: int| 0 <= j < spec_sorted_indices(s).len() ==> exists|i: int| 0 <= i < s.len() && s[i].1 == #[trigger] spec_sorted_indices(s)[j],
    decreases s.len(),
{
    if s.len() > 0 {
        lemma_argmin_bounds(s);
        let m = spec_argmin(s);
        let rest = s.remove(m);
        lemma_sorted_indices_members(rest);
        assert forall|j: int| 0 <= j < spec_sorted_indices(s).len() implies exists|i: int| 0 <= i < s.len() && s[i].1 == #[trigger] spec_sorted_indices(s)[j] by {
            if j == 0 {
                assert(s[m].1 == spec_sorted_indices(s)[0]);
            } else {
                assert(spec_sorted_indices(s)[j] == spec_sorted_indices(rest)[j - 1]);
                let i = choose|i: int| 0 <= i < rest.len() && rest[i].1 == spec_sorted_indices(rest)[j - 1];
                if i < m {
                    assert(s[i] == rest[i]);
                } else {
                    assert(s[i + 1] == rest[i]);
                }
            }
        }
    }
}

fn argmin(s: &Vec<(usize, usize)>) -> (r: usize)
    requires
        s@.len() > 0,
    ensures
        r == spec_argmin(s@),
{
    let mut best: usize = 0;
    let mut j: usize = 1;
    proof {
        assert(s@.subrange(0, 1).len() == 1);
    }
    while j < s.len()
        invariant
            1 <= j <= s@.len(),
            best < j,
            best == spec_argmin(s@.subrange(0, j as int)),
        decreases s@.len() - j,
    {
        proof {
            let t = s@.subrange(0, j + 1);
            assert(t.drop_last() =~= s@.subrange(0, j as int));
            lemma_argmin_bounds(s@.subrange(0, j as int));
        }
        if s[j].0 < s[best].0 {
            best = j;
        }
        j = j + 1;
    }
    assert(s@.subrange(0, s@.len() as int) =~= s@);
    best
}

/// Positions `0..keys.len()` ordered by key, equal keys in their original
/// order.
pub fn sorted_indices(keys: &Vec<usize>) -> (r: Vec<usize>)
    ensures
        r@ == spec_sorted_indices(spec_keyed(keys@)),
{
    let mut items: Vec<(usize, usize)> = Vec::new();
    let mut i: usize = 0;
    while i < keys.len()
        invariant
            i <= keys@.len(),
            items@ == spec_keyed(keys@).subrange(0, i as int),
        decreases keys@.len() - i,
    {
        items.push((keys[i], i));
        i = i + 1;
        assert(items@ =~= spec_keyed(keys@).subrange(0, i as int));
    }
    assert(items@ =~= spec_keyed(keys@));
    let ghost all = items@;
    let mut out: Vec<usize> = Vec::new();
    while items.len() > 0
        invariant
            out@ + spec_sorted_indices(items@) == spec_sorted_indices(all),
        decreases items@.len(),
    {
        let m = argmin(&items);
        proof {
            lemma_argmin_bounds(items@);
        }
        let ghost before = items@;
        let (_, idx) = items.remove(m);
        proof {
            assert(spec_sorted_indices(before) == seq![idx] + spec_sorted_indices(items@));
            assert(out@.push(idx) + spec_sorted_indices(items@) =~= out@ + spec_sorted_indices(before));
        }
        out.push(idx);
    }
    assert(out@ + spec_sorted_indices(items@) =~= out@);
    out
}

} // verus!
