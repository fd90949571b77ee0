//! Finds every place in a value tree where a list node's data stands, by a
//! path of steps derived from the schema, and rewrites the data there.
use vstd::prelude::*;
use crate::json::{
    Field, Json, JsonValue, fields_view, field_pos, find_field, has_field, items_view,
    result_view, lemma_array_view, lemma_object_view, lemma_field_pos,
};
use crate::reshape::{Direction, KeyField, ReshapeError, keys_view, reshape, reshape_node};

verus! {

broadcast use vstd::std_specs::vec::group_vec_axioms;

/// One step from a value towards a list node's data.
pub enum Step {
    /// Into the member of an object with this name; a value without that
    /// member holds no data for the list.
    Member(String),
    /// Into every element of an array, or every member value of an object:
    /// one level that stands for one key of an enclosing list, whichever
    /// form that list has at the moment.
    Descend,
}

/// The model of a step.
pub enum PathStep {
    Member(Seq<char>),
    Descend,
}

impl View for Step {
    type V = PathStep;

    open spec fn view(&self) -> PathStep {
        match self {
            Step::Member(k) => PathStep::Member(k@),
            Step::Descend => PathStep::Descend,
        }
    }
}

pub open spec fn steps_view(steps: Seq<Step>) -> Seq<PathStep> {
    Seq::new(steps.len(), |i: int| steps[i]@)
}

/// The tree `v` with the list data at the end of `steps` rewritten, wherever
/// the steps reach.
pub open spec fn rewrite_at(
    v: Json,
    steps: Seq<PathStep>,
    dir: Direction,
    keys: Seq<(Seq<char>, bool)>,
) -> Result<Json, ReshapeError>
    decreases steps.len(), 0int,
{
    if steps.len() == 0 {
        reshape(v, dir, keys)
    } else {
        match steps[0] {
            PathStep::Member(k) => match v {
                Json::Object(fs) => if has_field(fs, k) {
                    match rewrite_at(fs[field_pos(fs, k)].1, steps.drop_first(), dir, keys) {
                        Ok(c) => Ok(Json::Object(fs.update(field_pos(fs, k), (k, c)))),
                        Err(e) => Err(e),
                    }
                } else {
                    Ok(v)
                },
                _ => Ok(v),
            },
            PathStep::Descend => match v {
                Json::Array(items) => match rewrite_items(items, steps.drop_first(), dir, keys) {
                    Ok(s) => Ok(Json::Array(s)),
                    Err(e) => Err(e),
                },
                Json::Object(fs) => match rewrite_members(fs, steps.drop_first(), dir, keys) {
                    Ok(s) => Ok(Json::Object(s)),
                    Err(e) => Err(e),
                },
                _ => Err(ReshapeError::ExpectedContainer),
            },
        }
    }
}

/// `rewrite_at` on each element, in order.
pub open spec fn rewrite_items(
    items: Seq<Json>,
    steps: Seq<PathStep>,
    dir: Direction,
    keys: Seq<(Seq<char>, bool)>,
) -> Result<Seq<Json>, ReshapeError>
    decreases steps.len(), items.len() + 1,
{
    if items.len() == 0 {
        Ok(Seq::empty())
    } else {
        match rewrite_items(items.drop_last(), steps, dir, keys) {
            Err(e) => Err(e),
            Ok(a) => match rewrite_at(items.last(), steps, dir, keys) {
                Err(e) => Err(e),
                Ok(b) => Ok(a.push(b)),
            },
        }
    }
}

/// `rewrite_at` on each member value, in order, names kept.
pub open spec fn rewrite_members(
    fs: Seq<(Seq<char>, Json)>,
    steps: Seq<PathStep>,
    dir: Direction,
    keys: Seq<(Seq<char>, bool)>,
) -> Result<Seq<(Seq<char>, Json)>, ReshapeError>
    decreases steps.len(), fs.len() + 1,
{
    if fs.len() == 0 {
        Ok(Seq::empty())
    } else {
        match rewrite_members(fs.drop_last(), steps, dir, keys) {
            Err(e) => Err(e),
            Ok(a) => match rewrite_at(fs.last().1, steps, dir, keys) {
                Err(e) => Err(e),
                Ok(b) => Ok(a.push((fs.last().0, b))),
            },
        }
    }
}


proof fn lemma_items_err(
    items: Seq<Json>,
    steps: Seq<PathStep>,
    dir: Direction,
    keys: Seq<(Seq<char>, bool)>,
    j: int,
)
    requires
        0 <= j <= items.len(),
        rewrite_items(items.take(j), steps, dir, keys) is Err,
    ensures
        rewrite_items(items, steps, dir, keys) == rewrite_items(items.take(j), steps, dir, keys),
    decreases items.len(),
{
    if j == items.len() {
        assert(items.take(j) =~= items);
    } else {
        assert(items.drop_last().take(j) =~= items.take(j));
        lemma_items_err(items.drop_last(), steps, dir, keys, j);
    }
}

proof fn lemma_members_err(
    fs: Seq<(Seq<char>, Json)>,
    steps: Seq<PathStep>,
    dir: Direction,
    keys: Seq<(Seq<char>, bool)>,
    j: int,
)
    requires
        0 <= j <= fs.len(),
        rewrite_members(fs.take(j), steps, dir, keys) is Err,
    ensures
        rewrite_members(fs, steps, dir, keys) == rewrite_members(fs.take(j), steps, dir, keys),
    decreases fs.len(),
{
    if j == fs.len() {
        assert(fs.take(j) =~= fs);
    } else {
        assert(fs.drop_last().take(j) =~= fs.take(j));
        lemma_members_err(fs.drop_last(), steps, dir, keys, j);
    }
}

/// Rewrites the list data at the end of `steps[i..]`, wherever it stands
/// in `v`.
fn rewrite_from(
    v: JsonValue,
    steps: &Vec<Step>,
    i: usize,
    dir: Direction,
    keys: &Vec<KeyField>,
) -> (r: Result<JsonValue, ReshapeError>)
    requires
        i <= steps.len(),
    ensures
        result_view(r) == rewrite_at(
            v@,
            steps_view(steps@).subrange(i as int, steps@.len() as int),
            dir,
            keys_view(keys@),
        ),
    decreases steps.len() - i, 0int,
{
    let ghost sv = steps_view(steps@).subrange(i as int, steps@.len() as int);
    let ghost kv = keys_view(keys@);
    if i == steps.len() {
        assert(sv.len() == 0);
        return reshape_node(v, dir, keys);
    }
    let ghost rest = sv.drop_first();
    assert(rest =~= steps_view(steps@).subrange(i + 1, steps@.len() as int));
    assert(sv[0] == steps@[i as int]@);
    let ghost vv = v@;
    match &steps[i] {
        Step::Member(k) => {
            match v {
                JsonValue::Object(mut fields) => {
                    proof {
                        lemma_object_view(fields);
                    }
                    let ghost fs = fields_view(fields@);
                    match find_field(&fields, k) {
                        Option::Some(j) => {
                            let mut f = Field { name: String::new(), value: JsonValue::Null };
                            fields.set_and_swap(j, &mut f);
                            match rewrite_from(f.value, steps, i + 1, dir, keys) {
                                Ok(c) => {
                                    let ghost cv = c@;
                                    fields.set(j, Field { name: f.name, value: c });
                                    assert(fields_view(fields@) =~= fs.update(j as int, (k@, cv)));
                                    proof {
                                        lemma_object_view(fields);
                                    }
                                    Ok(JsonValue::Object(fields))
                                },
                                Err(e) => Err(e),
                            }
                        },
                        Option::None => {
                            proof {
                                lemma_object_view(fields);
                            }
                            Ok(JsonValue::Object(fields))
                        },
                    }
                },
                other => Ok(other),
            }
        },
        Step::Descend => {
            match v {
                JsonValue::Array(items) => {
                    proof {
                        lemma_array_view(items);
                    }
                    match rewrite_each_item(items, steps, i + 1, dir, keys) {
                        Ok(out) => {
                            proof {
                                lemma_array_view(out);
                            }
                            Ok(JsonValue::Array(out))
                        },
                        Err(e) => Err(e),
                    }
                },
                JsonValue::Object(fields) => {
                    proof {
                        lemma_object_view(fields);
                    }
                    match rewrite_each_member(fields, steps, i + 1, dir, keys) {
                        Ok(out) => {
                            proof {
                                lemma_object_view(out);
                            }
                            Ok(JsonValue::Object(out))
                        },
                        Err(e) => Err(e),
                    }
                },
                _ => Err(ReshapeError::ExpectedContainer),
            }
        },
    }
}

/// `rewrite_from` on each element of an array.
fn rewrite_each_item(
    elements: Vec<JsonValue>,
    steps: &Vec<Step>,
    i: usize,
    dir: Direction,
    keys: &Vec<KeyField>,
) -> (r: Result<Vec<JsonValue>, ReshapeError>)
    requires
        i <= steps.len(),
    ensures
        match rewrite_items(
            items_view(elements@),
            steps_view(steps@).subrange(i as int, steps@.len() as int),
            dir,
            keys_view(keys@),
        ) {
            Ok(s) => r matches Ok(out) && items_view(out@) == s,
            Err(e) => r == Err::<Vec<JsonValue>, ReshapeError>(e),
        },
    decreases steps.len() - i, 1int,
{
    let ghost sv = steps_view(steps@).subrange(i as int, steps@.len() as int);
    let ghost kv = keys_view(keys@);
    let ghost iv = items_view(elements@);
    let mut items = elements;
    let mut j: usize = 0;
    assert(iv.take(0) =~= Seq::<Json>::empty());
    assert(items_view(items@).take(0) =~= Seq::<Json>::empty());
    while j < items.len()
        invariant
            i <= steps.len(),
            j <= items.len(),
            iv.len() == items@.len(),
            iv == items_view(elements@),
            sv == steps_view(steps@).subrange(i as int, steps@.len() as int),
            kv == keys_view(keys@),
            forall|m: int| j <= m < items@.len() ==> #[trigger] items@[m]@ == iv[m],
            rewrite_items(iv.take(j as int), sv, dir, kv) == Ok::<Seq<Json>, ReshapeError>(
                items_view(items@).take(j as int),
            ),
        decreases items.len() - j,
    {
        let ghost done = items_view(items@).take(j as int);
        assert(iv.take(j + 1).drop_last() =~= iv.take(j as int));
        assert(iv.take(j + 1).last() == iv[j as int]);
        let mut item = JsonValue::Null;
        items.set_and_swap(j, &mut item);
        match rewrite_from(item, steps, i, dir, keys) {
            Ok(c) => {
                let ghost cv = c@;
                items.set(j, c);
                assert(items_view(items@).take(j + 1) =~= done.push(cv));
                assert forall|m: int| j + 1 <= m < items@.len() implies #[trigger] items@[m]@ == iv[m] by {}
            },
            Err(e) => {
                proof {
                    lemma_items_err(iv, sv, dir, kv, j + 1);
                }
                return Err(e);
            },
        }
        j = j + 1;
    }
    assert(iv.take(j as int) =~= iv);
    assert(items_view(items@).take(j as int) =~= items_view(items@));
    Ok(items)
}

/// `rewrite_from` on each member value of an object.
fn rewrite_each_member(
    members: Vec<Field>,
    steps: &Vec<Step>,
    i: usize,
    dir: Direction,
    keys: &Vec<KeyField>,
) -> (r: Result<Vec<Field>, ReshapeError>)
    requires
        i <= steps.len(),
    ensures
        match rewrite_members(
            fields_view(members@),
            steps_view(steps@).subrange(i as int, steps@.len() as int),
            dir,
            keys_view(keys@),
        ) {
            Ok(s) => r matches Ok(out) && fields_view(out@) == s,
            Err(e) => r == Err::<Vec<Field>, ReshapeError>(e),
        },
    decreases steps.len() - i, 1int,
{
    let ghost sv = steps_view(steps@).subrange(i as int, steps@.len() as int);
    let ghost kv = keys_view(keys@);
    let ghost fv = fields_view(members@);
    let mut fields = members;
    let mut j: usize = 0;
    assert(fv.take(0) =~= Seq::<(Seq<char>, Json)>::empty());
    assert(fields_view(fields@).take(0) =~= Seq::<(Seq<char>, Json)>::empty());
    while j < fields.len()
        invariant
            i <= steps.len(),
            j <= fields.len(),
            fv.len() == fields@.len(),
            fv == fields_view(members@),
            sv == steps_view(steps@).subrange(i as int, steps@.len() as int),
            kv == keys_view(keys@),
            forall|m: int| j <= m < fields@.len() ==> (#[trigger] fields@[m]).name@ == fv[m].0
                && fields@[m].value@ == fv[m].1,
            rewrite_members(fv.take(j as int), sv, dir, kv) == Ok::<
                Seq<(Seq<char>, Json)>,
                ReshapeError,
            >(fields_view(fields@).take(j as int)),
        decreases fields.len() - j,
    {
        let ghost done = fields_view(fields@).take(j as int);
        assert(fv.take(j + 1).drop_last() =~= fv.take(j as int));
        assert(fv.take(j + 1).last() == fv[j as int]);
        let mut f = Field { name: String::new(), value: JsonValue::Null };
        fields.set_and_swap(j, &mut f);
        match rewrite_from(f.value, steps, i, dir, keys) {
            Ok(c) => {
                let ghost cv = c@;
                let ghost nv = f.name@;
                fields.set(j, Field { name: f.name, value: c });
                assert(fields_view(fields@).take(j + 1) =~= done.push((nv, cv)));
                assert forall|m: int| j + 1 <= m < fields@.len() implies (#[trigger] fields@[m]).name@
                    == fv[m].0 && fields@[m].value@ == fv[m].1 by {}
            },
            Err(e) => {
                proof {
                    lemma_members_err(fv, sv, dir, kv, j + 1);
                }
                return Err(e);
            },
        }
        j = j + 1;
    }
    assert(fv.take(j as int) =~= fv);
    assert(fields_view(fields@).take(j as int) =~= fields_view(fields@));
    Ok(fields)
}

/// Rewrites, in the given direction, a list node's data wherever `steps`
/// reach it in `v`. A member that is missing on the way leaves that branch
/// as it is.
pub fn rewrite_list(v: JsonValue, steps: &Vec<Step>, dir: Direction, keys: &Vec<KeyField>) -> (r: Result<
    JsonValue,
    ReshapeError,
>)
    ensures
        result_view(r) == rewrite_at(v@, steps_view(steps@), dir, keys_view(keys@)),
{
    assert(steps_view(steps@).subrange(0, steps@.len() as int) =~= steps_view(steps@));
    rewrite_from(v, steps, 0, dir, keys)
}


/// No data stands at the end of `steps` in `v`: on every branch a member
/// along the way is missing.
pub open spec fn path_absent(v: Json, steps: Seq<PathStep>) -> bool
    decreases steps.len(), 0int,
{
    if steps.len() == 0 {
        false
    } else {
        match steps[0] {
            PathStep::Member(k) => match v {
                Json::Object(fs) => !has_field(fs, k) || path_absent(
                    fs[field_pos(fs, k)].1,
                    steps.drop_first(),
                ),
                _ => true,
            },
            PathStep::Descend => match v {
                Json::Array(items) => items_absent(items, steps.drop_first()),
                Json::Object(fs) => members_absent(fs, steps.drop_first()),
                _ => false,
            },
        }
    }
}

pub open spec fn items_absent(items: Seq<Json>, steps: Seq<PathStep>) -> bool
    decreases steps.len(), items.len() + 1,
{
    items.len() == 0 || (items_absent(items.drop_last(), steps) && path_absent(items.last(), steps))
}

pub open spec fn members_absent(fs: Seq<(Seq<char>, Json)>, steps: Seq<PathStep>) -> bool
    decreases steps.len(), fs.len() + 1,
{
    fs.len() == 0 || (members_absent(fs.drop_last(), steps) && path_absent(fs.last().1, steps))
}

/// Where a list's data is absent from the tree, rewriting it changes
/// nothing, in either direction.
pub proof fn lemma_absent_untouched(
    v: Json,
    steps: Seq<PathStep>,
    dir: Direction,
    keys: Seq<(Seq<char>, bool)>,
)
    requires
        path_absent(v, steps),
    ensures
        rewrite_at(v, steps, dir, keys) == Ok::<Json, ReshapeError>(v),
    decreases steps.len(), 0int,
{
    match steps[0] {
        PathStep::Member(k) => match v {
            Json::Object(fs) => if has_field(fs, k) {
                lemma_field_pos(fs, k);
                lemma_absent_untouched(fs[field_pos(fs, k)].1, steps.drop_first(), dir, keys);
                assert(fs.update(field_pos(fs, k), (k, fs[field_pos(fs, k)].1)) =~= fs);
            },
            _ => {},
        },
        PathStep::Descend => match v {
            Json::Array(items) => lemma_items_untouched(items, steps.drop_first(), dir, keys),
            Json::Object(fs) => lemma_members_untouched(fs, steps.drop_first(), dir, keys),
            _ => {},
        },
    }
}

proof fn lemma_items_untouched(
    items: Seq<Json>,
    steps: Seq<PathStep>,
    dir: Direction,
    keys: Seq<(Seq<char>, bool)>,
)
    requires
        items_absent(items, steps),
    ensures
        rewrite_items(items, steps, dir, keys) == Ok::<Seq<Json>, ReshapeError>(items),
    decreases steps.len(), items.len() + 1,
{
    if items.len() > 0 {
        lemma_items_untouched(items.drop_last(), steps, dir, keys);
        lemma_absent_untouched(items.last(), steps, dir, keys);
        assert(items.drop_last().push(items.last()) =~= items);
    } else {
        assert(items =~= Seq::<Json>::empty());
    }
}

proof fn lemma_members_untouched(
    fs: Seq<(Seq<char>, Json)>,
    steps: Seq<PathStep>,
    dir: Direction,
    keys: Seq<(Seq<char>, bool)>,
)
    requires
        members_absent(fs, steps),
    ensures
        rewrite_members(fs, steps, dir, keys) == Ok::<Seq<(Seq<char>, Json)>, ReshapeError>(fs),
    decreases steps.len(), fs.len() + 1,
{
    if fs.len() > 0 {
        lemma_members_untouched(fs.drop_last(), steps, dir, keys);
        lemma_absent_untouched(fs.last().1, steps, dir, keys);
        assert(fs.drop_last().push((fs.last().0, fs.last().1)) =~= fs);
    } else {
        assert(fs =~= Seq::<(Seq<char>, Json)>::empty());
    }
}

} // verus!
