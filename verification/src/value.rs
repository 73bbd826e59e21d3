//! Typed values carried by behavior nodes and instance variables, and the
//! named-variable store an interpreter walk reads and writes.

use vstd::prelude::*;

verus! {

/// A node field or variable value: a number or a piece of text.
#[derive(Clone, PartialEq, Eq, Debug)]
pub enum NodeValue {
    Number(i64),
    Text(String),
}

/// The mathematical shape of a `NodeValue`.
pub enum ValView {
    Num(i64),
    Txt(Seq<char>),
}

/// The view of one value.
pub open spec fn val_view(v: NodeValue) -> ValView {
    match v {
        NodeValue::Number(n) => ValView::Num(n),
        NodeValue::Text(s) => ValView::Txt(s@),
    }
}

/// A variable store: named values, names unique.
pub type Vars = Vec<(String, NodeValue)>;

/// The view of a variable store: an association sequence over character
/// sequences.
pub type VarsView = Seq<(Seq<char>, ValView)>;

/// The view of a variable store.
pub open spec fn vars_view(v: Seq<(String, NodeValue)>) -> VarsView {
    v.map_values(|p: (String, NodeValue)| (p.0@, val_view(p.1)))
}

/// Whether `vars` binds `name`.
pub open spec fn var_has(vars: VarsView, name: Seq<char>) -> bool {
    exists|i: int| 0 <= i < vars.len() && (#[trigger] vars[i]).0 == name
}

/// The index binding `name` (meaningful only under `var_has`; unique under
/// `wf_vars`).
pub open spec fn var_index(vars: VarsView, name: Seq<char>) -> int {
    choose|i: int| 0 <= i < vars.len() && (#[trigger] vars[i]).0 == name
}

/// A value coerced to a number: text reads as 0.
pub open spec fn as_num(v: ValView) -> i64 {
    match v {
        ValView::Num(n) => n,
        ValView::Txt(_) => 0,
    }
}

/// The number `name` holds; a missing or textual variable reads as the
/// defined default 0, never as an error.
pub open spec fn var_num(vars: VarsView, name: Seq<char>) -> i64 {
    if var_has(vars, name) {
        as_num(vars[var_index(vars, name)].1)
    } else {
        0
    }
}

/// The store after `name` is set to `value`: updated in place when bound,
/// appended otherwise.
pub open spec fn var_set_view(vars: VarsView, name: Seq<char>, value: ValView) -> VarsView {
    if var_has(vars, name) {
        vars.update(var_index(vars, name), (name, value))
    } else {
        vars.push((name, value))
    }
}

/// Unique names in a variable store.
pub open spec fn wf_vars(vars: VarsView) -> bool {
    forall|i: int, j: int|
        0 <= i < j < vars.len() ==> (#[trigger] vars[i]).0 != (#[trigger] vars[j]).0
}

/// Under unique names, the binding found at index `i` is the one
/// `var_index` denotes.
pub proof fn lemma_var_index_is(vars: VarsView, name: Seq<char>, i: int)
    requires
        wf_vars(vars),
        0 <= i < vars.len(),
        vars[i].0 == name,
    ensures
        var_has(vars, name),
        var_index(vars, name) == i,
{
    assert(var_has(vars, name));
    let ci = var_index(vars, name);
    if ci < i {
        assert(vars[ci].0 != vars[i].0);
    } else if i < ci {
        assert(vars[i].0 != vars[ci].0);
    }
}

impl NodeValue {
    /// An exact copy of this value.
    pub fn duplicate(&self) -> (r: NodeValue)
        ensures
            r == *self,
    {
        match self {
            NodeValue::Number(n) => NodeValue::Number(*n),
            NodeValue::Text(s) => NodeValue::Text(s.clone()),
        }
    }
}

/// An exact copy of a variable store.
pub fn duplicate_vars(vars: &Vars) -> (r: Vars)
    ensures
        r@ == vars@,
{
    let mut r: Vars = Vec::new();
    let n = vars.len();
    let mut i: usize = 0;
    while i < n
        invariant
            n == vars@.len(),
            i <= n,
            r@ == vars@.take(i as int),
        decreases n - i,
    {
        r.push((vars[i].0.clone(), vars[i].1.duplicate()));
        proof {
            assert(vars@.take(i + 1 as int) =~= vars@.take(i as int).push(vars@[i as int]));
        }
        i += 1;
    }
    proof {
        assert(vars@.take(n as int) =~= vars@);
    }
    r
}

/// Reads the number bound to `name`, with the defined default for missing
/// or textual bindings.
pub fn var_num_exec(vars: &Vars, name: &String) -> (r: i64)
    requires
        wf_vars(vars_view(vars@)),
    ensures
        r == var_num(vars_view(vars@), name@),
{
    let ghost vv = vars_view(vars@);
    let n = vars.len();
    let mut i: usize = 0;
    while i < n
        invariant
            vv == vars_view(vars@),
            wf_vars(vv),
            n == vars@.len(),
            i <= n,
            vv.len() == n,
            forall|j: int| 0 <= j < i ==> (#[trigger] vv[j]).0 != name@,
        decreases n - i,
    {
        proof {
            assert(vv[i as int] == (vars@[i as int].0@, val_view(vars@[i as int].1)));
        }
        if vars[i].0 == *name {
            proof {
                lemma_var_index_is(vv, name@, i as int);
            }
            return match &vars[i].1 {
                NodeValue::Number(k) => *k,
                NodeValue::Text(_) => 0,
            };
        }
        i += 1;
    }
    proof {
        assert(!var_has(vv, name@));
    }
    0
}

/// Sets `name` to `value`, replacing an existing binding in place.
pub fn var_set_exec(vars: &mut Vars, name: &String, value: &NodeValue)
    requires
        wf_vars(vars_view(old(vars)@)),
    ensures
        vars_view(final(vars)@) == var_set_view(vars_view(old(vars)@), name@, val_view(*value)),
        wf_vars(vars_view(final(vars)@)),
{
    let ghost vv = vars_view(old(vars)@);
    let n = vars.len();
    let mut i: usize = 0;
    while i < n
        invariant
            *vars == *old(vars),
            vv == vars_view(vars@),
            wf_vars(vv),
            n == vars@.len(),
            i <= n,
            vv.len() == n,
            forall|j: int| 0 <= j < i ==> (#[trigger] vv[j]).0 != name@,
        decreases n - i,
    {
        proof {
            assert(vv[i as int] == (vars@[i as int].0@, val_view(vars@[i as int].1)));
        }
        if vars[i].0 == *name {
            proof {
                lemma_var_index_is(vv, name@, i as int);
            }
            vars.set(i, (name.clone(), value.duplicate()));
            proof {
                let vv2 = vars_view(vars@);
                assert(vv2 =~= var_set_view(vv, name@, val_view(*value)));
                assert forall|a: int, b: int| 0 <= a < b < vv2.len() implies (#[trigger] vv2[a]).0
                    != (#[trigger] vv2[b]).0 by {
                    assert(vv2[a].0 == vv[a].0 && vv2[b].0 == vv[b].0);
                }
            }
            return ;
        }
        i += 1;
    }
    proof {
        assert(!var_has(vv, name@));
    }
    vars.push((name.clone(), value.duplicate()));
    proof {
        let vv2 = vars_view(vars@);
        assert(vv2 =~= var_set_view(vv, name@, val_view(*value)));
        assert forall|a: int, b: int| 0 <= a < b < vv2.len() implies (#[trigger] vv2[a]).0 != (
        #[trigger] vv2[b]).0 by {
            assert(vv2[a].0 == vv[a].0);
            if b < vv.len() {
                assert(vv2[b].0 == vv[b].0);
            }
        }
    }
}

} // verus!
