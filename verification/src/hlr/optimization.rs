//! Bookkeeping for optimizations of the high-level representation.
use vstd::prelude::*;
use crate::hlr::ast::{HlrExpression, HlrVariable, expr_same, var_same};
use crate::symbol_renaming::str_equals;

verus! {

/// Index of the first entry for a variable equal to `v`, or -1.
pub open spec fn replacement_index(s: Seq<(HlrVariable, HlrExpression)>, v: HlrVariable) -> int
    decreases s.len(),
{
    if s.len() == 0 {
        -1
    } else {
        let j = replacement_index(s.drop_last(), v);
        if j >= 0 {
            j
        } else if var_same(s.last().0, v) {
            s.len() - 1
        } else {
            -1
        }
    }
}

proof fn lemma_replacement_index(s: Seq<(HlrVariable, HlrExpression)>, v: HlrVariable)
    ensures
        -1 <= replacement_index(s, v) < s.len(),
        replacement_index(s, v) >= 0 ==> var_same(s[replacement_index(s, v)].0, v),
        forall|j: int|
            0 <= j < s.len() && (replacement_index(s, v) < 0 || j < replacement_index(s, v))
                ==> !var_same(#[trigger] s[j].0, v),
    decreases s.len(),
{
    if s.len() > 0 {
        lemma_replacement_index(s.drop_last(), v);
        assert forall|j: int| 0 <= j < s.len() - 1 implies s.drop_last()[j] == s[j] by {}
    }
}

/// Expressions that stand in for variables, one per variable.
pub struct VariableReplacements {
    replacements: Vec<(HlrVariable, HlrExpression)>,
}

impl VariableReplacements {
    pub closed spec fn view(&self) -> Seq<(HlrVariable, HlrExpression)> {
        self.replacements@
    }

    pub fn new() -> (r: Self)
        ensures
            r.view() == Seq::<(HlrVariable, HlrExpression)>::empty(),
    {
        VariableReplacements { replacements: Vec::new() }
    }

    /// Whether variable `a` is the variable `b`: same name, type and scope.
    fn same_variable(a: &HlrVariable, b: &HlrVariable) -> (r: bool)
        ensures
            r == var_same(*a, *b),
    {
        str_equals(a.name.as_str(), b.name.as_str()) && a.type_info.equals(&b.type_info) && a.scope
            == b.scope
    }

    fn find(&self, var: &HlrVariable) -> (r: Option<usize>)
        ensures
            match r {
                Some(i) => i < self.view().len() && replacement_index(self.view(), *var) == i,
                None => replacement_index(self.view(), *var) < 0,
            },
    {
        proof {
            lemma_replacement_index(self.view(), *var);
        }
        let mut i: usize = 0;
        while i < self.replacements.len()
            invariant
                i <= self.replacements@.len(),
                forall|j: int| 0 <= j < i ==> !var_same(#[trigger] self.replacements@[j].0, *var),
                -1 <= replacement_index(self.replacements@, *var) < self.replacements@.len(),
                replacement_index(self.replacements@, *var) >= 0 ==> var_same(
                    self.replacements@[replacement_index(self.replacements@, *var)].0,
                    *var,
                ),
                forall|j: int|
                    0 <= j < self.replacements@.len() && (replacement_index(self.replacements@, *var)
                        < 0 || j < replacement_index(self.replacements@, *var)) ==> !var_same(
                        #[trigger] self.replacements@[j].0,
                        *var,
                    ),
            decreases self.replacements.len() - i,
        {
            if Self::same_variable(&self.replacements[i].0, var) {
                return Some(i);
            }
            i = i + 1;
        }
        None
    }

    /// Lets `expr` stand for `var`, in place of what stood for it before.
    pub fn add_replacement(&mut self, var: HlrVariable, expr: HlrExpression)
        ensures
            ({
                let i = replacement_index(old(self).view(), var);
                if i < 0 {
                    final(self).view() == old(self).view().push((var, expr))
                } else {
                    final(self).view() == old(self).view().update(i, (var, expr))
                }
            }),
    {
        match self.find(&var) {
            Some(i) => {
                self.replacements.set(i, (var, expr));
            },
            None => {
                self.replacements.push((var, expr));
            },
        }
    }

    /// What stands for `var`, if anything does.
    pub fn get_replacement(&self, var: &HlrVariable) -> (r: Option<&HlrExpression>)
        ensures
            ({
                let i = replacement_index(self.view(), *var);
                match r {
                    Some(e) => i >= 0 && *e == self.view()[i].1,
                    None => i < 0,
                }
            }),
    {
        match self.find(var) {
            Some(i) => Some(&self.replacements[i].1),
            None => None,
        }
    }

    /// Whether no variable has a replacement.
    pub fn is_empty(&self) -> (r: bool)
        ensures
            r == (self.view().len() == 0),
    {
        self.replacements.len() == 0
    }
}

/// After adding a replacement for a variable, looking that variable up
/// finds it.
pub proof fn lemma_add_then_get(s: Seq<(HlrVariable, HlrExpression)>, var: HlrVariable, expr: HlrExpression)
    ensures
        ({
            let i = replacement_index(s, var);
            let t = if i < 0 {
                s.push((var, expr))
            } else {
                s.update(i, (var, expr))
            };
            let j = replacement_index(t, var);
            j >= 0 && t[j].1 == expr
        }),
{
    lemma_replacement_index(s, var);
    let i = replacement_index(s, var);
    let t = if i < 0 {
        s.push((var, expr))
    } else {
        s.update(i, (var, expr))
    };
    lemma_replacement_index(t, var);
    assert(var_same(var, var));
    let j = replacement_index(t, var);
    if i < 0 {
        assert(var_same(t[s.len() as int].0, var));
        if j >= 0 && j < s.len() {
            assert(t[j] == s[j]);
        }
    } else {
        assert(var_same(t[i].0, var));
        if j >= 0 && j != i {
            assert(t[j] == s[j]);
        }
    }
}

} // verus!
