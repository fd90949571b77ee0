//! Converts a whole value tree: every keyed list of the schema, wherever
//! its data stands, is rewritten in one direction.
use vstd::prelude::*;
use crate::json::{Json, JsonValue};
use crate::navigate::{PathStep, rewrite_at, rewrite_list};
use crate::plan::{ListTarget, plan_lists, plan_of, targets_view};
use crate::reshape::{Direction, ReshapeError};
use crate::schema::SchemaNode;

verus! {

/// A list whose data could not be rewritten, and why.
#[derive(Debug, PartialEq, Eq)]
pub struct ConvertFailure {
    /// The list node's name.
    pub list: String,
    pub error: ReshapeError,
}

/// The tree after each target in turn has been rewritten; the first failure
/// names its list.
pub open spec fn run_targets(
    v: Json,
    ts: Seq<(Seq<char>, Seq<PathStep>, Seq<(Seq<char>, bool)>)>,
    dir: Direction,
) -> Result<Json, (Seq<char>, ReshapeError)>
    decreases ts.len(),
{
    if ts.len() == 0 {
        Ok(v)
    } else {
        match run_targets(v, ts.drop_last(), dir) {
            Err(e) => Err(e),
            Ok(w) => match rewrite_at(w, ts.last().1, dir, ts.last().2) {
                Ok(x) => Ok(x),
                Err(e) => Err((ts.last().0, e)),
            },
        }
    }
}

/// The whole conversion of `v`: every keyed list of the schema, in the
/// planned order.
pub open spec fn convert_tree(roots: Seq<SchemaNode>, module: Seq<char>, dir: Direction, v: Json) -> Result<
    Json,
    (Seq<char>, ReshapeError),
> {
    run_targets(v, plan_of(roots, module), dir)
}

pub open spec fn failure_view(r: Result<JsonValue, ConvertFailure>) -> Result<Json, (Seq<char>, ReshapeError)> {
    match r {
        Ok(v) => Ok(v@),
        Err(f) => Err((f.list@, f.error)),
    }
}

proof fn lemma_run_err(
    v: Json,
    ts: Seq<(Seq<char>, Seq<PathStep>, Seq<(Seq<char>, bool)>)>,
    dir: Direction,
    j: int,
)
    requires
        0 <= j <= ts.len(),
        run_targets(v, ts.take(j), dir) is Err,
    ensures
        run_targets(v, ts, dir) == run_targets(v, ts.take(j), dir),
    decreases ts.len(),
{
    if j == ts.len() {
        assert(ts.take(j) =~= ts);
    } else {
        assert(ts.drop_last().take(j) =~= ts.take(j));
        lemma_run_err(v, ts.drop_last(), dir, j);
    }
}

/// Rewrites each planned list in turn.
pub fn run_plan(v: JsonValue, plan: &Vec<ListTarget>, dir: Direction) -> (r: Result<JsonValue, ConvertFailure>)
    ensures
        failure_view(r) == run_targets(v@, targets_view(plan@), dir),
{
    let ghost tv = targets_view(plan@);
    let ghost v0 = v@;
    let mut cur = v;
    let mut i: usize = 0;
    assert(tv.take(0) =~= Seq::<(Seq<char>, Seq<PathStep>, Seq<(Seq<char>, bool)>)>::empty());
    while i < plan.len()
        invariant
            i <= plan.len(),
            tv == targets_view(plan@),
            v0 == v@,
            run_targets(v0, tv.take(i as int), dir) == Ok::<Json, (Seq<char>, ReshapeError)>(cur@),
        decreases plan.len() - i,
    {
        assert(tv.take(i + 1).drop_last() =~= tv.take(i as int));
        assert(tv.take(i + 1).last() == plan@[i as int]@);
        let t = &plan[i];
        match rewrite_list(cur, &t.steps, dir, &t.keys) {
            Ok(x) => {
                cur = x;
            },
            Err(e) => {
                proof {
                    lemma_run_err(v0, tv, dir, i + 1);
                }
                return Err(ConvertFailure { list: t.list.clone(), error: e });
            },
        }
        i = i + 1;
    }
    assert(tv.take(i as int) =~= tv);
    Ok(cur)
}

/// Converts a value tree in one direction: the data of every keyed list
/// under `roots` is rewritten wherever it stands. A top-level node's data
/// stands under its name qualified by `module`. Data that is absent is
/// left alone; the first list whose data has the wrong shape fails the
/// whole conversion.
pub fn convert(roots: &Vec<SchemaNode>, module: &String, dir: Direction, v: JsonValue) -> (r: Result<
    JsonValue,
    ConvertFailure,
>)
    ensures
        failure_view(r) == convert_tree(roots@, module@, dir, v@),
{
    let plan = plan_lists(roots, module);
    run_plan(v, &plan, dir)
}

} // verus!
