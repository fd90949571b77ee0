//! Derives, from the schema, where each keyed list's data stands in a value
//! tree: a path of member and descent steps per list.
use vstd::prelude::*;
use crate::navigate::{PathStep, Step, steps_view};
use crate::reshape::{KeyField, keys_view};
use crate::schema::{NodeKind, SchemaNode, key_fields, numeric_type, is_numeric_type};

verus! {

broadcast use vstd::std_specs::vec::group_vec_axioms;

/// The key fields of a list node, in schema order.
pub fn list_keys(node: &SchemaNode) -> (r: Vec<KeyField>)
    ensures
        keys_view(r@) == key_fields(node.children@),
{
    let mut r: Vec<KeyField> = Vec::new();
    let mut i: usize = 0;
    assert(node.children@.take(0) =~= Seq::<SchemaNode>::empty());
    assert(keys_view(r@) =~= Seq::<(Seq<char>, bool)>::empty());
    while i < node.children.len()
        invariant
            i <= node.children.len(),
            keys_view(r@) == key_fields(node.children@.take(i as int)),
        decreases node.children.len() - i,
    {
        let c = &node.children[i];
        assert(node.children@.take(i + 1).drop_last() =~= node.children@.take(i as int));
        if c.is_key {
            let ghost before = keys_view(r@);
            r.push(KeyField { name: c.name.clone(), numeric: numeric_type(c.base_type) });
            assert(keys_view(r@) =~= before.push((c.name@, is_numeric_type(c.base_type))));
        }
        i = i + 1;
    }
    assert(node.children@.take(i as int) =~= node.children@);
    r
}


/// A keyed list node, and where its data stands.
pub struct ListTarget {
    /// The list node's name.
    pub list: String,
    /// The path from the root of the value tree to the list's data.
    pub steps: Vec<Step>,
    /// The list's key fields, in schema order.
    pub keys: Vec<KeyField>,
}

impl View for ListTarget {
    type V = (Seq<char>, Seq<PathStep>, Seq<(Seq<char>, bool)>);

    open spec fn view(&self) -> (Seq<char>, Seq<PathStep>, Seq<(Seq<char>, bool)>) {
        (self.list@, steps_view(self.steps@), keys_view(self.keys@))
    }
}

pub open spec fn targets_view(ts: Seq<ListTarget>) -> Seq<(Seq<char>, Seq<PathStep>, Seq<(Seq<char>, bool)>)> {
    Seq::new(ts.len(), |i: int| ts[i]@)
}

/// The member name under which a node's data stands: a top-level node's
/// name is qualified by its module.
pub open spec fn member_name(n: SchemaNode, module: Seq<char>, top: bool) -> Seq<char> {
    if top {
        module + seq![':'] + n.name@
    } else {
        n.name@
    }
}

/// `k` descent steps.
pub open spec fn descents(k: nat) -> Seq<PathStep> {
    Seq::new(k, |i: int| PathStep::Descend)
}

/// The keyed lists in the subtree of `n`, in pre-order, each with its path;
/// `base` is the path to the node's parent. Below a list, one descent step
/// stands for each of its keys.
pub open spec fn targets_of(n: SchemaNode, base: Seq<PathStep>, module: Seq<char>, top: bool) -> Seq<
    (Seq<char>, Seq<PathStep>, Seq<(Seq<char>, bool)>),
>
    decreases n,
{
    let here = base.push(PathStep::Member(member_name(n, module, top)));
    let keys = key_fields(n.children@);
    let own = if n.kind == NodeKind::List && keys.len() > 0 {
        seq![(n.name@, here, keys)]
    } else {
        Seq::empty()
    };
    let below = if n.kind == NodeKind::List {
        here + descents(keys.len())
    } else {
        here
    };
    own + targets_of_children(n.children@, below, module)
}

/// The keyed lists under each of `cs`, in order.
pub open spec fn targets_of_children(cs: Seq<SchemaNode>, base: Seq<PathStep>, module: Seq<char>) -> Seq<
    (Seq<char>, Seq<PathStep>, Seq<(Seq<char>, bool)>),
>
    decreases cs,
{
    if cs.len() == 0 {
        Seq::empty()
    } else {
        targets_of_children(cs.drop_last(), base, module) + targets_of(cs.last(), base, module, false)
    }
}

/// The keyed lists under the schema's top-level nodes, in order.
pub open spec fn plan_of(roots: Seq<SchemaNode>, module: Seq<char>) -> Seq<
    (Seq<char>, Seq<PathStep>, Seq<(Seq<char>, bool)>),
>
    decreases roots.len(),
{
    if roots.len() == 0 {
        Seq::empty()
    } else {
        plan_of(roots.drop_last(), module) + targets_of(roots.last(), Seq::empty(), module, true)
    }
}


/// A copy of a path.
fn copy_steps(steps: &Vec<Step>) -> (r: Vec<Step>)
    ensures
        steps_view(r@) == steps_view(steps@),
{
    let mut r: Vec<Step> = Vec::new();
    let mut i: usize = 0;
    while i < steps.len()
        invariant
            i <= steps.len(),
            r@.len() == i,
            forall|m: int| 0 <= m < i ==> (#[trigger] r@[m])@ == steps@[m]@,
        decreases steps.len() - i,
    {
        let s = match &steps[i] {
            Step::Member(k) => Step::Member(k.clone()),
            Step::Descend => Step::Descend,
        };
        r.push(s);
        i = i + 1;
    }
    assert(steps_view(r@) =~= steps_view(steps@));
    r
}

/// The member name under which a node's data stands.
fn member_of(n: &SchemaNode, module: &String, top: bool) -> (r: String)
    ensures
        r@ == member_name(*n, module@, top),
{
    if top {
        let mut s = module.clone();
        proof {
            reveal_strlit(":");
        }
        s.append(":");
        s.append(n.name.as_str());
        s
    } else {
        n.name.clone()
    }
}

/// Appends to `out` the keyed lists in the subtree of `n`, in pre-order;
/// `base` is the path to the node's parent.
fn collect_targets(
    n: &SchemaNode,
    base: &mut Vec<Step>,
    module: &String,
    top: bool,
    out: &mut Vec<ListTarget>,
)
    ensures
        steps_view(final(base)@) == steps_view(old(base)@),
        targets_view(final(out)@) == targets_view(old(out)@) + targets_of(
            *n,
            steps_view(old(base)@),
            module@,
            top,
        ),
    decreases n,
{
    let ghost b0 = steps_view(base@);
    let ghost out0 = targets_view(out@);
    let ghost here = b0.push(PathStep::Member(member_name(*n, module@, top)));
    let ghost keysv = key_fields(n.children@);
    let len0 = base.len();
    let m = member_of(n, module, top);
    base.push(Step::Member(m));
    assert(steps_view(base@) =~= here);
    let keys = list_keys(n);
    if n.kind == NodeKind::List && keys.len() > 0 {
        let ghost before = targets_view(out@);
        let t = ListTarget { list: n.name.clone(), steps: copy_steps(base), keys };
        let ghost tv = t@;
        out.push(t);
        assert(targets_view(out@) =~= before.push(tv));
    }
    let ghost own = if n.kind == NodeKind::List && keysv.len() > 0 {
        seq![(n.name@, here, keysv)]
    } else {
        Seq::empty()
    };
    assert(targets_view(out@) =~= out0 + own);
    if n.kind == NodeKind::List {
        let k = key_count(n);
        let mut j: usize = 0;
        while j < k
            invariant
                j <= k,
                k == keysv.len(),
                steps_view(base@) == here + descents(j as nat),
            decreases k - j,
        {
            let ghost bv = steps_view(base@);
            base.push(Step::Descend);
            assert(steps_view(base@) =~= bv.push(PathStep::Descend));
            assert(steps_view(base@) =~= here + descents((j + 1) as nat));
            j = j + 1;
        }
    }
    let ghost below = steps_view(base@);
    assert(below == if n.kind == NodeKind::List {
        here + descents(keysv.len())
    } else {
        here
    });
    let ghost mid = targets_view(out@);
    let mut i: usize = 0;
    assert(n.children@.take(0) =~= Seq::<SchemaNode>::empty());
    assert(mid =~= mid + targets_of_children(n.children@.take(0), below, module@));
    while i < n.children.len()
        invariant
            i <= n.children.len(),
            steps_view(base@) == below,
            targets_view(out@) == mid + targets_of_children(n.children@.take(i as int), below, module@),
        decreases n.children.len() - i,
    {
        assert(n.children@.take(i + 1).drop_last() =~= n.children@.take(i as int));
        assert(n.children@.take(i + 1).last() == n.children@[i as int]);
        let ghost before = targets_view(out@);
        collect_targets(&n.children[i], base, module, false, out);
        assert(targets_view(out@) =~= mid + targets_of_children(n.children@.take(i + 1), below, module@));
        i = i + 1;
    }
    assert(n.children@.take(i as int) =~= n.children@);
    let ghost pre = steps_view(base@);
    assert(len0 == b0.len());
    assert(forall|m: int| 0 <= m < len0 ==> pre[m] == here[m]);
    assert(forall|m: int| 0 <= m < len0 ==> here[m] == b0[m]);
    base.truncate(len0);
    assert(forall|m: int| 0 <= m < len0 ==> steps_view(base@)[m] == pre[m]);
    assert(steps_view(base@) =~= b0);
    assert(targets_view(out@) =~= out0 + targets_of(*n, b0, module@, top));
}

/// The number of key fields of a list node.
fn key_count(n: &SchemaNode) -> (r: usize)
    ensures
        r == key_fields(n.children@).len(),
{
    list_keys(n).len()
}

/// Every keyed list of the schema with the path to its data, the lists of
/// each top-level node in pre-order. Lists without keys are left out.
pub fn plan_lists(roots: &Vec<SchemaNode>, module: &String) -> (r: Vec<ListTarget>)
    ensures
        targets_view(r@) == plan_of(roots@, module@),
{
    let mut out: Vec<ListTarget> = Vec::new();
    let mut base: Vec<Step> = Vec::new();
    let mut i: usize = 0;
    assert(roots@.take(0) =~= Seq::<SchemaNode>::empty());
    assert(targets_view(out@) =~= Seq::empty());
    while i < roots.len()
        invariant
            i <= roots.len(),
            steps_view(base@) == Seq::<PathStep>::empty(),
            targets_view(out@) == plan_of(roots@.take(i as int), module@),
        decreases roots.len() - i,
    {
        assert(roots@.take(i + 1).drop_last() =~= roots@.take(i as int));
        assert(roots@.take(i + 1).last() == roots@[i as int]);
        collect_targets(&roots[i], &mut base, module, true, &mut out);
        i = i + 1;
    }
    assert(roots@.take(i as int) =~= roots@);
    out
}


proof fn lemma_targets_keyed(n: SchemaNode, base: Seq<PathStep>, module: Seq<char>, top: bool)
    ensures
        forall|i: int|
            0 <= i < targets_of(n, base, module, top).len() ==> (#[trigger] targets_of(
                n,
                base,
                module,
                top,
            )[i]).2.len() > 0,
    decreases n,
{
    let here = base.push(PathStep::Member(member_name(n, module, top)));
    let keys = key_fields(n.children@);
    let below = if n.kind == NodeKind::List {
        here + descents(keys.len())
    } else {
        here
    };
    lemma_children_keyed(n.children@, below, module);
    let own = if n.kind == NodeKind::List && keys.len() > 0 {
        seq![(n.name@, here, keys)]
    } else {
        Seq::empty()
    };
    let rest = targets_of_children(n.children@, below, module);
    assert(targets_of(n, base, module, top) == own + rest);
    assert forall|i: int| 0 <= i < (own + rest).len() implies (#[trigger] (own + rest)[i]).2.len()
        > 0 by {
        if i >= own.len() {
            assert((own + rest)[i] == rest[i - own.len()]);
        }
    }
}

proof fn lemma_children_keyed(cs: Seq<SchemaNode>, base: Seq<PathStep>, module: Seq<char>)
    ensures
        forall|i: int|
            0 <= i < targets_of_children(cs, base, module).len() ==> (#[trigger] targets_of_children(
                cs,
                base,
                module,
            )[i]).2.len() > 0,
    decreases cs,
{
    if cs.len() > 0 {
        lemma_children_keyed(cs.drop_last(), base, module);
        lemma_targets_keyed(cs.last(), base, module, false);
        let a = targets_of_children(cs.drop_last(), base, module);
        let b = targets_of(cs.last(), base, module, false);
        assert forall|i: int| 0 <= i < (a + b).len() implies (#[trigger] (a + b)[i]).2.len() > 0 by {
            if i >= a.len() {
                assert((a + b)[i] == b[i - a.len()]);
            }
        }
    }
}

/// A list without key fields is never rewritten, in either direction: every
/// planned list has at least one key field.
pub proof fn lemma_keyless_lists_skipped(roots: Seq<SchemaNode>, module: Seq<char>)
    ensures
        forall|i: int|
            0 <= i < plan_of(roots, module).len() ==> (#[trigger] plan_of(roots, module)[i]).2.len()
                > 0,
    decreases roots.len(),
{
    if roots.len() > 0 {
        lemma_keyless_lists_skipped(roots.drop_last(), module);
        lemma_targets_keyed(roots.last(), Seq::empty(), module, true);
        let a = plan_of(roots.drop_last(), module);
        let b = targets_of(roots.last(), Seq::empty(), module, true);
        assert forall|i: int| 0 <= i < (a + b).len() implies (#[trigger] (a + b)[i]).2.len() > 0 by {
            if i >= a.len() {
                assert((a + b)[i] == b[i - a.len()]);
            }
        }
    }
}

} // verus!
