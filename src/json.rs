//! A JSON value tree and its mathematical model.
use vstd::prelude::*;

verus! {

broadcast use vstd::std_specs::vec::group_vec_axioms;

/// The mathematical model of a JSON value. A number is held as its
/// canonical decimal text; an object is its ordered sequence of fields.
pub enum Json {
    Null,
    Bool(bool),
    Number(Seq<char>),
    Str(Seq<char>),
    Array(Seq<Json>),
    Object(Seq<(Seq<char>, Json)>),
}

/// A JSON value. A number is held as its canonical decimal text; an object
/// holds its fields in order.
#[derive(Debug, PartialEq, Eq)]
pub enum JsonValue {
    Null,
    Bool(bool),
    Number(String),
    Str(String),
    Array(Vec<JsonValue>),
    Object(Vec<Field>),
}

/// A named member of a JSON object.
#[derive(Debug, PartialEq, Eq)]
pub struct Field {
    pub name: String,
    pub value: JsonValue,
}

impl View for JsonValue {
    type V = Json;

    open spec fn view(&self) -> Json
        decreases self,
    {
        match self {
            JsonValue::Null => Json::Null,
            JsonValue::Bool(b) => Json::Bool(*b),
            JsonValue::Number(t) => Json::Number(t@),
            JsonValue::Str(s) => Json::Str(s@),
            JsonValue::Array(items) => Json::Array(
                Seq::new(
                    items@.len(),
                    |i: int|
                        if 0 <= i < items@.len() {
                            items@[i].view()
                        } else {
                            Json::Null
                        },
                ),
            ),
            JsonValue::Object(fields) => Json::Object(
                Seq::new(
                    fields@.len(),
                    |i: int|
                        if 0 <= i < fields@.len() {
                            (fields@[i].name@, fields@[i].value.view())
                        } else {
                            (Seq::empty(), Json::Null)
                        },
                ),
            ),
        }
    }
}


/// The model of a result that may hold a value.
pub open spec fn result_view<E>(r: Result<JsonValue, E>) -> Result<Json, E> {
    match r {
        Ok(v) => Ok(v@),
        Err(e) => Err(e),
    }
}

/// The models of a sequence of values.
pub open spec fn items_view(items: Seq<JsonValue>) -> Seq<Json> {
    Seq::new(items.len(), |i: int| items[i]@)
}

/// The models of a sequence of fields.
pub open spec fn fields_view(fields: Seq<Field>) -> Seq<(Seq<char>, Json)> {
    Seq::new(fields.len(), |i: int| (fields[i].name@, fields[i].value@))
}

pub proof fn lemma_array_view(items: Vec<JsonValue>)
    ensures
        JsonValue::Array(items)@ == Json::Array(items_view(items@)),
{
    assert(JsonValue::Array(items)@->Array_0 =~= items_view(items@));
}

pub proof fn lemma_object_view(fields: Vec<Field>)
    ensures
        JsonValue::Object(fields)@ == Json::Object(fields_view(fields@)),
{
    reveal_with_fuel(<JsonValue as View>::view, 2);
    assert(JsonValue::Object(fields)@->Object_0 =~= fields_view(fields@));
}

/// `j` is the first position of a field named `k`.
pub open spec fn first_field_at(fs: Seq<(Seq<char>, Json)>, k: Seq<char>, j: int) -> bool {
    &&& 0 <= j < fs.len()
    &&& fs[j].0 == k
    &&& forall|i: int| 0 <= i < j ==> fs[i].0 != k
}

/// Some field is named `k`.
pub open spec fn has_field(fs: Seq<(Seq<char>, Json)>, k: Seq<char>) -> bool {
    exists|j: int| 0 <= j < fs.len() && fs[j].0 == k
}

/// The first position of a field named `k`.
pub open spec fn field_pos(fs: Seq<(Seq<char>, Json)>, k: Seq<char>) -> int {
    choose|j: int| first_field_at(fs, k, j)
}

/// The value of the first field named `k`, if there is one.
pub open spec fn get_field(fs: Seq<(Seq<char>, Json)>, k: Seq<char>) -> Option<Json> {
    if has_field(fs, k) {
        Some(fs[field_pos(fs, k)].1)
    } else {
        None
    }
}

/// Gives the first field named `k` the value `v`, or appends the field.
pub open spec fn set_field(fs: Seq<(Seq<char>, Json)>, k: Seq<char>, v: Json) -> Seq<(Seq<char>, Json)> {
    if has_field(fs, k) {
        fs.update(field_pos(fs, k), (k, v))
    } else {
        fs.push((k, v))
    }
}

/// Takes out the first field named `k`, if there is one.
pub open spec fn remove_field(fs: Seq<(Seq<char>, Json)>, k: Seq<char>) -> Seq<(Seq<char>, Json)> {
    if has_field(fs, k) {
        fs.remove(field_pos(fs, k))
    } else {
        fs
    }
}

proof fn lemma_first_below(fs: Seq<(Seq<char>, Json)>, k: Seq<char>, j: int)
    requires
        0 <= j < fs.len(),
        fs[j].0 == k,
    ensures
        exists|i: int| first_field_at(fs, k, i),
    decreases j,
{
    if exists|i: int| 0 <= i < j && fs[i].0 == k {
        let i = choose|i: int| 0 <= i < j && fs[i].0 == k;
        lemma_first_below(fs, k, i);
    } else {
        assert(first_field_at(fs, k, j));
    }
}

/// The first field named `k` is where `field_pos` points.
pub proof fn lemma_field_pos(fs: Seq<(Seq<char>, Json)>, k: Seq<char>)
    requires
        has_field(fs, k),
    ensures
        first_field_at(fs, k, field_pos(fs, k)),
{
    let j = choose|j: int| 0 <= j < fs.len() && fs[j].0 == k;
    lemma_first_below(fs, k, j);
}

/// The first position of a name is unique.
pub proof fn lemma_field_pos_unique(fs: Seq<(Seq<char>, Json)>, k: Seq<char>, j: int)
    requires
        first_field_at(fs, k, j),
    ensures
        has_field(fs, k),
        field_pos(fs, k) == j,
{
    lemma_field_pos(fs, k);
    let p = field_pos(fs, k);
    if p < j {
        assert(fs[p].0 != k);
    } else if j < p {
        assert(fs[j].0 != k);
    }
}

/// Finds the first field named `k`.
pub fn find_field(fields: &Vec<Field>, k: &String) -> (r: Option<usize>)
    ensures
        r is None <==> !has_field(fields_view(fields@), k@),
        r matches Some(j) ==> j == field_pos(fields_view(fields@), k@) && first_field_at(
            fields_view(fields@),
            k@,
            j as int,
        ),
{
    let ghost fs = fields_view(fields@);
    let mut i: usize = 0;
    while i < fields.len()
        invariant
            i <= fields.len(),
            fs == fields_view(fields@),
            forall|m: int| 0 <= m < i ==> fs[m].0 != k@,
        decreases fields.len() - i,
    {
        if fields[i].name == *k {
            proof {
                lemma_field_pos_unique(fs, k@, i as int);
            }
            return Some(i);
        }
        i = i + 1;
    }
    Option::None
}


/// Takes out the first field named `k` and hands back its value.
pub fn take_field(fields: &mut Vec<Field>, k: &String) -> (r: Option<JsonValue>)
    ensures
        fields_view(final(fields)@) == remove_field(fields_view(old(fields)@), k@),
        r is None <==> get_field(fields_view(old(fields)@), k@) is None,
        r matches Some(v) ==> get_field(fields_view(old(fields)@), k@) == Some(v@),
{
    let ghost fs = fields_view(fields@);
    match find_field(fields, k) {
        Option::Some(j) => {
            let f = fields.remove(j);
            assert(fields_view(fields@) =~= fs.remove(j as int));
            Option::Some(f.value)
        },
        Option::None => Option::None,
    }
}

/// Gives the first field named `k` the value `v`, or appends that field.
pub fn put_field(fields: &mut Vec<Field>, k: String, v: JsonValue)
    ensures
        fields_view(final(fields)@) == set_field(fields_view(old(fields)@), k@, v@),
{
    let ghost fs = fields_view(fields@);
    let ghost kv = (k@, v@);
    match find_field(fields, &k) {
        Option::Some(j) => {
            fields.set(j, Field { name: k, value: v });
            assert(fields_view(fields@) =~= fs.update(j as int, kv));
        },
        Option::None => {
            fields.push(Field { name: k, value: v });
            assert(fields_view(fields@) =~= fs.push(kv));
        },
    }
}


/// Setting a field changes what that name finds and nothing else.
pub proof fn lemma_get_set_field(fs: Seq<(Seq<char>, Json)>, k: Seq<char>, v: Json, n: Seq<char>)
    ensures
        get_field(set_field(fs, k, v), n) == if n == k {
            Some(v)
        } else {
            get_field(fs, n)
        },
{
    let r = set_field(fs, k, v);
    if has_field(fs, k) {
        lemma_field_pos(fs, k);
        let p = field_pos(fs, k);
        assert(forall|i: int| 0 <= i < r.len() ==> r[i].0 == fs[i].0);
        if n == k {
            assert(first_field_at(r, k, p));
            lemma_field_pos_unique(r, k, p);
        } else if has_field(fs, n) {
            lemma_field_pos(fs, n);
            let q = field_pos(fs, n);
            assert(first_field_at(r, n, q));
            lemma_field_pos_unique(r, n, q);
        } else {
            assert(!has_field(r, n));
        }
    } else {
        let p = fs.len() as int;
        assert(forall|i: int| 0 <= i < fs.len() ==> r[i] == fs[i]);
        if n == k {
            assert(first_field_at(r, k, p));
            lemma_field_pos_unique(r, k, p);
        } else if has_field(fs, n) {
            lemma_field_pos(fs, n);
            let q = field_pos(fs, n);
            assert(first_field_at(r, n, q));
            lemma_field_pos_unique(r, n, q);
        } else {
            assert(!has_field(r, n));
        }
    }
}

/// Taking out the field named `k` leaves what other names find unchanged.
pub proof fn lemma_get_remove_field(fs: Seq<(Seq<char>, Json)>, k: Seq<char>, n: Seq<char>)
    requires
        n != k,
    ensures
        get_field(remove_field(fs, k), n) == get_field(fs, n),
{
    if has_field(fs, k) {
        lemma_field_pos(fs, k);
        let p = field_pos(fs, k);
        let r = fs.remove(p);
        if has_field(fs, n) {
            lemma_field_pos(fs, n);
            let q = field_pos(fs, n);
            if q < p {
                assert(first_field_at(r, n, q));
                lemma_field_pos_unique(r, n, q);
            } else {
                assert(q != p);
                assert(r[q - 1] == fs[q]);
                assert forall|i: int| 0 <= i < q - 1 implies r[i].0 != n by {
                    if i < p {
                        assert(r[i] == fs[i]);
                    } else {
                        assert(r[i] == fs[i + 1]);
                    }
                }
                assert(first_field_at(r, n, q - 1));
                lemma_field_pos_unique(r, n, q - 1);
            }
        } else {
            assert forall|i: int| 0 <= i < r.len() implies r[i].0 != n by {
                if i < p {
                    assert(r[i] == fs[i]);
                } else {
                    assert(r[i] == fs[i + 1]);
                }
            }
        }
    }
}

} // verus!
