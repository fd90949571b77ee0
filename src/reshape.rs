//! Rewrites one list node between its list-style form (an array of records
//! that carry their key fields) and its map-style form (objects nested one
//! level per key field).
use vstd::prelude::*;
use crate::json::{
    Field, Json, JsonValue, result_view, fields_view, get_field, items_view, remove_field, set_field, take_field,
    put_field, find_field, lemma_array_view, lemma_object_view, has_field, field_pos,
    lemma_field_pos,
};

verus! {

broadcast use vstd::std_specs::vec::group_vec_axioms;

/// Why a list node could not be rewritten.
#[derive(PartialEq, Eq, Structural, Clone, Copy, Debug)]
pub enum ReshapeError {
    /// List-style data was expected, and the node is not an array.
    ExpectedArray,
    /// A record or a level of map-style data is not an object.
    ExpectedObject,
    /// A record lacks one of its key fields.
    MissingKey,
    /// A key value is neither a string nor a number.
    BadKeyValue,
    /// A map key of a numeric key field does not read as a JSON number.
    BadKeyNumber,
    /// A level that stands for an enclosing list's key is neither an array
    /// nor an object.
    ExpectedContainer,
}

/// Which way a run rewrites list nodes.
#[derive(PartialEq, Eq, Structural, Clone, Copy, Debug)]
pub enum Direction {
    /// From arrays of records to objects nested by key.
    ListToMap,
    /// From objects nested by key to arrays of records.
    MapToList,
}

/// A key field of a list: its name, and whether its declared type is numeric.
pub struct KeyField {
    pub name: String,
    pub numeric: bool,
}

impl View for KeyField {
    type V = (Seq<char>, bool);

    open spec fn view(&self) -> (Seq<char>, bool) {
        (self.name@, self.numeric)
    }
}

pub open spec fn keys_view(keys: Seq<KeyField>) -> Seq<(Seq<char>, bool)> {
    Seq::new(keys.len(), |i: int| keys[i]@)
}

pub open spec fn key_names(keys: Seq<(Seq<char>, bool)>) -> Seq<Seq<char>> {
    Seq::new(keys.len(), |i: int| keys[i].0)
}

pub open spec fn strings_view(s: Seq<String>) -> Seq<Seq<char>> {
    Seq::new(s.len(), |i: int| s[i]@)
}

/// The text under which a key value files its record: a string as it is,
/// a number as its canonical decimal text.
pub open spec fn key_text(v: Json) -> Option<Seq<char>> {
    match v {
        Json::Str(s) => Some(s),
        Json::Number(t) => Some(t),
        _ => None,
    }
}

/// Takes the key fields out of a record, in key order: the key texts and
/// the fields that are left.
pub open spec fn strip_keys(fs: Seq<(Seq<char>, Json)>, keys: Seq<Seq<char>>) -> Result<
    (Seq<Seq<char>>, Seq<(Seq<char>, Json)>),
    ReshapeError,
>
    decreases keys.len(),
{
    if keys.len() == 0 {
        Ok((Seq::empty(), fs))
    } else {
        match strip_keys(fs, keys.drop_last()) {
            Err(e) => Err(e),
            Ok((ts, rest)) => match get_field(rest, keys.last()) {
                None => Err(ReshapeError::MissingKey),
                Some(v) => match key_text(v) {
                    None => Err(ReshapeError::BadKeyValue),
                    Some(t) => Ok((ts.push(t), remove_field(rest, keys.last()))),
                },
            },
        }
    }
}

/// Files `leaf` in `acc` under the path of map keys `path`, making each
/// level an object.
pub open spec fn insert_at(acc: Json, path: Seq<Seq<char>>, leaf: Json) -> Json
    decreases path.len(),
{
    if path.len() == 0 {
        leaf
    } else {
        let fs = match acc {
            Json::Object(fs) => fs,
            _ => Seq::empty(),
        };
        let sub = match get_field(fs, path[0]) {
            Some(c) => c,
            None => Json::Null,
        };
        Json::Object(set_field(fs, path[0], insert_at(sub, path.drop_first(), leaf)))
    }
}

/// The map-style form of a sequence of records, each filed in turn.
pub open spec fn records_to_map(items: Seq<Json>, keys: Seq<Seq<char>>) -> Result<Json, ReshapeError>
    decreases items.len(),
{
    if items.len() == 0 {
        Ok(Json::Object(Seq::empty()))
    } else {
        match records_to_map(items.drop_last(), keys) {
            Err(e) => Err(e),
            Ok(acc) => match items.last() {
                Json::Object(fs) => match strip_keys(fs, keys) {
                    Err(e) => Err(e),
                    Ok((ts, rest)) => Ok(insert_at(acc, ts, Json::Object(rest))),
                },
                _ => Err(ReshapeError::ExpectedObject),
            },
        }
    }
}

/// The map-style form of a list node's list-style data.
pub open spec fn list_to_map(v: Json, keys: Seq<Seq<char>>) -> Result<Json, ReshapeError> {
    match v {
        Json::Array(items) => records_to_map(items, keys),
        _ => Err(ReshapeError::ExpectedArray),
    }
}


proof fn lemma_strip_keys_err(fs: Seq<(Seq<char>, Json)>, keys: Seq<Seq<char>>, j: int)
    requires
        0 <= j <= keys.len(),
        strip_keys(fs, keys.take(j)) is Err,
    ensures
        strip_keys(fs, keys) == strip_keys(fs, keys.take(j)),
    decreases keys.len(),
{
    if j == keys.len() {
        assert(keys.take(j) =~= keys);
    } else {
        assert(keys.drop_last().take(j) =~= keys.take(j));
        lemma_strip_keys_err(fs, keys.drop_last(), j);
    }
}

proof fn lemma_records_err(items: Seq<Json>, keys: Seq<Seq<char>>, j: int)
    requires
        0 <= j <= items.len(),
        records_to_map(items.take(j), keys) is Err,
    ensures
        records_to_map(items, keys) == records_to_map(items.take(j), keys),
    decreases items.len(),
{
    if j == items.len() {
        assert(items.take(j) =~= items);
    } else {
        assert(items.drop_last().take(j) =~= items.take(j));
        lemma_records_err(items.drop_last(), keys, j);
    }
}

/// The text under which a key value files its record.
fn take_key_text(v: JsonValue) -> (r: Option<String>)
    ensures
        r is None <==> key_text(v@) is None,
        r matches Some(t) ==> key_text(v@) == Some(t@),
{
    match v {
        JsonValue::Str(s) => Option::Some(s),
        JsonValue::Number(t) => Option::Some(t),
        _ => Option::None,
    }
}

/// Takes the key fields out of a record's fields and hands back their texts.
fn strip_record(fields: &mut Vec<Field>, keys: &Vec<KeyField>) -> (r: Result<Vec<String>, ReshapeError>)
    ensures
        match strip_keys(fields_view(old(fields)@), key_names(keys_view(keys@))) {
            Ok((ts, rest)) => r matches Ok(t) && strings_view(t@) == ts && fields_view(final(fields)@)
                == rest,
            Err(e) => r == Err::<Vec<String>, ReshapeError>(e),
        },
{
    let ghost fs0 = fields_view(fields@);
    let ghost names = key_names(keys_view(keys@));
    let mut texts: Vec<String> = Vec::new();
    let mut i: usize = 0;
    assert(names.take(0) =~= Seq::<Seq<char>>::empty());
    assert(strings_view(texts@) =~= Seq::<Seq<char>>::empty());
    while i < keys.len()
        invariant
            i <= keys.len(),
            names == key_names(keys_view(keys@)),
            names.len() == keys.len(),
            fs0 == fields_view(old(fields)@),
            strip_keys(fs0, names.take(i as int)) == Ok::<_, ReshapeError>(
                (strings_view(texts@), fields_view(fields@)),
            ),
        decreases keys.len() - i,
    {
        let ghost before = fields_view(fields@);
        assert(names.take(i + 1).drop_last() =~= names.take(i as int));
        assert(names.take(i + 1).last() == keys@[i as int].name@);
        match take_field(fields, &keys[i].name) {
            Option::None => {
                proof {
                    assert(strip_keys(fs0, names.take(i + 1)) == Err::<
                        (Seq<Seq<char>>, Seq<(Seq<char>, Json)>),
                        ReshapeError,
                    >(ReshapeError::MissingKey));
                    lemma_strip_keys_err(fs0, names, i + 1);
                }
                return Err(ReshapeError::MissingKey);
            },
            Option::Some(v) => match take_key_text(v) {
                Option::None => {
                    proof {
                        assert(strip_keys(fs0, names.take(i + 1)) == Err::<
                            (Seq<Seq<char>>, Seq<(Seq<char>, Json)>),
                            ReshapeError,
                        >(ReshapeError::BadKeyValue));
                        lemma_strip_keys_err(fs0, names, i + 1);
                    }
                    return Err(ReshapeError::BadKeyValue);
                },
                Option::Some(t) => {
                    let ghost tv = strings_view(texts@).push(t@);
                    texts.push(t);
                    assert(strings_view(texts@) =~= tv);
                },
            },
        }
        i = i + 1;
    }
    assert(names.take(i as int) =~= names);
    Ok(texts)
}


/// Files `leaf` in `acc` under the map keys `path[i..]`.
fn insert_path(acc: JsonValue, path: &Vec<String>, i: usize, leaf: JsonValue) -> (r: JsonValue)
    requires
        i <= path.len(),
    ensures
        r@ == insert_at(acc@, strings_view(path@).subrange(i as int, path@.len() as int), leaf@),
    decreases path.len() - i,
{
    let ghost p = strings_view(path@).subrange(i as int, path@.len() as int);
    if i == path.len() {
        assert(p.len() == 0);
        return leaf;
    }
    assert(p.drop_first() =~= strings_view(path@).subrange(i + 1, path@.len() as int));
    assert(p[0] == path@[i as int]@);
    let ghost accv = acc@;
    let mut fields = match acc {
        JsonValue::Object(fields) => {
            proof {
                lemma_object_view(fields);
            }
            fields
        },
        _ => Vec::new(),
    };
    let ghost fs = fields_view(fields@);
    assert(fs =~= match accv {
        Json::Object(fs) => fs,
        _ => Seq::empty(),
    });
    match find_field(&fields, &path[i]) {
        Option::Some(j) => {
            let mut f = Field { name: String::new(), value: JsonValue::Null };
            fields.set_and_swap(j, &mut f);
            let sub = insert_path(f.value, path, i + 1, leaf);
            let ghost subv = sub@;
            fields.set(j, Field { name: f.name, value: sub });
            assert(fields_view(fields@) =~= fs.update(j as int, (p[0], subv)));
        },
        Option::None => {
            let sub = insert_path(JsonValue::Null, path, i + 1, leaf);
            let ghost subv = sub@;
            fields.push(Field { name: path[i].clone(), value: sub });
            assert(fields_view(fields@) =~= fs.push((p[0], subv)));
        },
    }
    proof {
        lemma_object_view(fields);
    }
    JsonValue::Object(fields)
}

/// Rewrites a list node's list-style data, an array of records, into its
/// map-style form: each record, without its key fields, is filed under its
/// key texts, one object level per key field, later records replacing
/// earlier ones with the same keys.
pub fn to_map_form(v: JsonValue, keys: &Vec<KeyField>) -> (r: Result<JsonValue, ReshapeError>)
    ensures
        result_view(r) == list_to_map(v@, key_names(keys_view(keys@))),
{
    match v {
        JsonValue::Array(items) => {
            proof {
                lemma_array_view(items);
            }
            records_into_map(items, keys)
        },
        _ => Err(ReshapeError::ExpectedArray),
    }
}

/// Files each record of `items` in turn in an empty object.
fn records_into_map(records: Vec<JsonValue>, keys: &Vec<KeyField>) -> (r: Result<
    JsonValue,
    ReshapeError,
>)
    ensures
        result_view(r) == records_to_map(items_view(records@), key_names(keys_view(keys@))),
{
    let ghost names = key_names(keys_view(keys@));
    let mut items = records;
    let ghost iv = items_view(items@);
    let empty: Vec<Field> = Vec::new();
    proof {
        lemma_object_view(empty);
        assert(fields_view(empty@) =~= Seq::empty());
    }
    let mut acc = JsonValue::Object(empty);
    proof {
        assert(iv.take(0) =~= Seq::<Json>::empty());
    }
    let mut i: usize = 0;
    while i < items.len()
        invariant
            i <= items.len(),
            iv.len() == items@.len(),
            names == key_names(keys_view(keys@)),
            iv == items_view(records@),
            forall|m: int| i <= m < items@.len() ==> #[trigger] items@[m]@ == iv[m],
            records_to_map(iv.take(i as int), names) == Ok::<Json, ReshapeError>(acc@),
        decreases items.len() - i,
    {
        let mut item = JsonValue::Null;
        items.set_and_swap(i, &mut item);
        assert(item@ == iv[i as int]);
        assert(iv.take(i + 1).drop_last() =~= iv.take(i as int));
        assert(iv.take(i + 1).last() == iv[i as int]);
        match item {
            JsonValue::Object(mut fields) => {
                proof {
                    lemma_object_view(fields);
                }
                let ghost fv = fields_view(fields@);
                match strip_record(&mut fields, keys) {
                    Ok(texts) => {
                        proof {
                            lemma_object_view(fields);
                            assert(texts@.len() == strings_view(texts@).len());
                            assert(strings_view(texts@).subrange(0, texts@.len() as int) =~= strings_view(texts@));
                        }
                        acc = insert_path(acc, &texts, 0, JsonValue::Object(fields));
                    },
                    Err(e) => {
                        proof {
                            assert(strip_keys(fv, names) == Err::<
                                (Seq<Seq<char>>, Seq<(Seq<char>, Json)>),
                                ReshapeError,
                            >(e));
                            assert(records_to_map(iv.take(i + 1), names) == Err::<Json, ReshapeError>(e));
                            lemma_records_err(iv, names, i + 1);
                        }
                        return Err(e);
                    },
                }
            },
            _ => {
                proof {
                    lemma_records_err(iv, names, i + 1);
                }
                return Err(ReshapeError::ExpectedObject);
            },
        }
        i = i + 1;
    }
    assert(iv.take(i as int) =~= iv);
    Ok(acc)
}


/// The canonical text of the JSON number that `s` spells, if it spells one.
pub uninterp spec fn number_text(s: Seq<char>) -> Option<Seq<char>>;

/// Relies on `serde_json::from_str::<serde_json::Number>` to read `s` as one
/// JSON number, and on `serde_json::Number`'s `Display` for its canonical
/// text; the result depends on `s` alone.
#[verifier::external_body]
fn parse_number(s: &str) -> (r: Option<String>)
    ensures
        r is None <==> number_text(s@) is None,
        r matches Some(t) ==> number_text(s@) == Some(t@),
{
    serde_json::from_str::<serde_json::Number>(s).ok().map(|n| n.to_string())
}

/// The value that a map key stands for in a key field: a number where the
/// field's declared type is numeric, else the string itself.
pub open spec fn key_value(t: Seq<char>, numeric: bool) -> Option<Json> {
    if numeric {
        match number_text(t) {
            Some(u) => Some(Json::Number(u)),
            None => None,
        }
    } else {
        Some(Json::Str(t))
    }
}

/// Puts the key fields back into a record's fields, in key order, from the
/// map keys under which the record was filed.
pub open spec fn restore_keys(
    fs: Seq<(Seq<char>, Json)>,
    keys: Seq<(Seq<char>, bool)>,
    ts: Seq<Seq<char>>,
) -> Result<Seq<(Seq<char>, Json)>, ReshapeError>
    decreases keys.len(),
{
    if keys.len() == 0 {
        Ok(fs)
    } else {
        match restore_keys(fs, keys.drop_last(), ts.drop_last()) {
            Err(e) => Err(e),
            Ok(f2) => match key_value(ts.last(), keys.last().1) {
                None => Err(ReshapeError::BadKeyNumber),
                Some(kv) => Ok(set_field(f2, keys.last().0, kv)),
            },
        }
    }
}

/// The records held in map-style data `v`, found under the map keys
/// `prefix`: at the depth of the key count each object is a record,
/// above it each level must be an object too.
pub open spec fn gather(v: Json, keys: Seq<(Seq<char>, bool)>, prefix: Seq<Seq<char>>) -> Result<
    Seq<Json>,
    ReshapeError,
>
    decreases v,
{
    match v {
        Json::Object(fs) => if prefix.len() >= keys.len() {
            match restore_keys(fs, keys, prefix) {
                Ok(r) => Ok(seq![Json::Object(r)]),
                Err(e) => Err(e),
            }
        } else {
            gather_fields(fs, keys, prefix)
        },
        _ => Err(ReshapeError::ExpectedObject),
    }
}

/// The records under each field of an object, in field order.
pub open spec fn gather_fields(
    fs: Seq<(Seq<char>, Json)>,
    keys: Seq<(Seq<char>, bool)>,
    prefix: Seq<Seq<char>>,
) -> Result<Seq<Json>, ReshapeError>
    decreases fs,
{
    if fs.len() == 0 {
        Ok(Seq::empty())
    } else {
        match gather_fields(fs.drop_last(), keys, prefix) {
            Err(e) => Err(e),
            Ok(a) => match gather(fs.last().1, keys, prefix.push(fs.last().0)) {
                Err(e) => Err(e),
                Ok(b) => Ok(a + b),
            },
        }
    }
}

/// The list-style form of a list node's map-style data.
pub open spec fn map_to_list(v: Json, keys: Seq<(Seq<char>, bool)>) -> Result<Json, ReshapeError> {
    match gather(v, keys, Seq::empty()) {
        Ok(s) => Ok(Json::Array(s)),
        Err(e) => Err(e),
    }
}


proof fn lemma_restore_err(
    fs: Seq<(Seq<char>, Json)>,
    keys: Seq<(Seq<char>, bool)>,
    ts: Seq<Seq<char>>,
    j: int,
)
    requires
        0 <= j <= keys.len(),
        keys.len() == ts.len(),
        restore_keys(fs, keys.take(j), ts.take(j)) is Err,
    ensures
        restore_keys(fs, keys, ts) == restore_keys(fs, keys.take(j), ts.take(j)),
    decreases keys.len(),
{
    if j == keys.len() {
        assert(keys.take(j) =~= keys);
        assert(ts.take(j) =~= ts);
    } else {
        assert(keys.drop_last().take(j) =~= keys.take(j));
        assert(ts.drop_last().take(j) =~= ts.take(j));
        lemma_restore_err(fs, keys.drop_last(), ts.drop_last(), j);
    }
}

proof fn lemma_gather_fields_err(
    fs: Seq<(Seq<char>, Json)>,
    keys: Seq<(Seq<char>, bool)>,
    prefix: Seq<Seq<char>>,
    j: int,
)
    requires
        0 <= j <= fs.len(),
        gather_fields(fs.take(j), keys, prefix) is Err,
    ensures
        gather_fields(fs, keys, prefix) == gather_fields(fs.take(j), keys, prefix),
    decreases fs.len(),
{
    if j == fs.len() {
        assert(fs.take(j) =~= fs);
    } else {
        assert(fs.drop_last().take(j) =~= fs.take(j));
        lemma_gather_fields_err(fs.drop_last(), keys, prefix, j);
    }
}

/// Puts the key fields back into a record, from the map keys under which it
/// was filed.
fn restore_record(fields: &mut Vec<Field>, keys: &Vec<KeyField>, texts: &Vec<String>) -> (r: Result<
    (),
    ReshapeError,
>)
    requires
        texts.len() == keys.len(),
    ensures
        match restore_keys(fields_view(old(fields)@), keys_view(keys@), strings_view(texts@)) {
            Ok(rest) => r is Ok && fields_view(final(fields)@) == rest,
            Err(e) => r == Err::<(), ReshapeError>(e),
        },
{
    let ghost fs0 = fields_view(fields@);
    let ghost kv = keys_view(keys@);
    let ghost tv = strings_view(texts@);
    let mut i: usize = 0;
    assert(kv.take(0) =~= Seq::<(Seq<char>, bool)>::empty());
    while i < keys.len()
        invariant
            i <= keys.len(),
            texts.len() == keys.len(),
            kv == keys_view(keys@),
            tv == strings_view(texts@),
            fs0 == fields_view(old(fields)@),
            restore_keys(fs0, kv.take(i as int), tv.take(i as int)) == Ok::<_, ReshapeError>(
                fields_view(fields@),
            ),
        decreases keys.len() - i,
    {
        assert(kv.take(i + 1).drop_last() =~= kv.take(i as int));
        assert(tv.take(i + 1).drop_last() =~= tv.take(i as int));
        assert(kv.take(i + 1).last() == keys@[i as int]@);
        assert(tv.take(i + 1).last() == texts@[i as int]@);
        let value = if keys[i].numeric {
            match parse_number(texts[i].as_str()) {
                Option::Some(u) => JsonValue::Number(u),
                Option::None => {
                    proof {
                        lemma_restore_err(fs0, kv, tv, i + 1);
                    }
                    return Err(ReshapeError::BadKeyNumber);
                },
            }
        } else {
            JsonValue::Str(texts[i].clone())
        };
        put_field(fields, keys[i].name.clone(), value);
        i = i + 1;
    }
    assert(kv.take(i as int) =~= kv);
    assert(tv.take(i as int) =~= tv);
    Ok(())
}


/// Appends to `out` the records held in map-style data `v`, found under the
/// map keys `prefix`.
fn gather_into(
    v: JsonValue,
    keys: &Vec<KeyField>,
    prefix: &mut Vec<String>,
    out: &mut Vec<JsonValue>,
) -> (r: Result<(), ReshapeError>)
    requires
        old(prefix).len() <= keys.len(),
    ensures
        final(prefix)@ == old(prefix)@,
        match gather(v@, keys_view(keys@), strings_view(old(prefix)@)) {
            Ok(s) => r is Ok && items_view(final(out)@) == items_view(old(out)@) + s,
            Err(e) => r == Err::<(), ReshapeError>(e),
        },
    decreases v,
{
    let ghost v0 = v;
    let ghost kv = keys_view(keys@);
    let ghost pv = strings_view(prefix@);
    let ghost out0 = items_view(out@);
    let mut fields = match v {
        JsonValue::Object(fields) => {
            proof {
                lemma_object_view(fields);
            }
            fields
        },
        _ => {
            return Err(ReshapeError::ExpectedObject);
        },
    };
    let ghost fv = fields_view(fields@);
    let ghost fvec = fields;
    let ghost fields0 = fields@;
    if prefix.len() == keys.len() {
        match restore_record(&mut fields, keys, prefix) {
            Ok(()) => {
                proof {
                    lemma_object_view(fields);
                }
                let ghost rec = JsonValue::Object(fields)@;
                out.push(JsonValue::Object(fields));
                assert(items_view(out@) =~= out0 + seq![rec]);
                return Ok(());
            },
            Err(e) => {
                return Err(e);
            },
        }
    }
    assert(fv.take(0) =~= Seq::<(Seq<char>, Json)>::empty());
    assert(items_view(out@) =~= out0 + Seq::<Json>::empty());
    let mut i: usize = 0;
    while i < fields.len()
        invariant
            i <= fields.len(),
            prefix@ == old(prefix)@,
            prefix.len() < keys.len(),
            pv == strings_view(old(prefix)@),
            kv == keys_view(keys@),
            out0 == items_view(old(out)@),
            v0@ == Json::Object(fv),
            fv.len() == fields@.len(),
            fields0.len() == fields@.len(),
            v0 == JsonValue::Object(fvec),
            v0 == v,
            fields0 == fvec@,
            forall|m: int| i <= m < fields@.len() ==> #[trigger] fields@[m] == fields0[m],
            fv == fields_view(fields0),
            match gather_fields(fv.take(i as int), kv, pv) {
                Ok(s) => items_view(out@) == out0 + s,
                Err(_) => false,
            },
        decreases fields.len() - i,
    {
        let ghost before = items_view(out@);
        let ghost done = gather_fields(fv.take(i as int), kv, pv)->Ok_0;
        assert(fv.take(i + 1).drop_last() =~= fv.take(i as int));
        assert(fv.take(i + 1).last() == fv[i as int]);
        let mut f = Field { name: String::new(), value: JsonValue::Null };
        fields.set_and_swap(i, &mut f);
        assert(f == fields0[i as int]);
        proof {
            assert(decreases_to!(v0 => fvec));
            assert(decreases_to!(fvec => fvec[i as int]));
            assert(decreases_to!(fvec[i as int] => fvec[i as int].value));
            assert(decreases_to!(v => f.value));
        }
        let ghost pushed = strings_view(prefix@).push(f.name@);
        prefix.push(f.name);
        assert(strings_view(prefix@) =~= pushed);
        let res = gather_into(f.value, keys, prefix, out);
        prefix.pop();
        assert(prefix@ =~= old(prefix)@);
        match res {
            Ok(()) => {
                assert(items_view(out@) =~= out0 + (done + (items_view(out@).subrange(
                    before.len() as int,
                    items_view(out@).len() as int,
                ))));
            },
            Err(e) => {
                proof {
                    lemma_gather_fields_err(fv, kv, pv, i + 1);
                }
                return Err(e);
            },
        }
        i = i + 1;
    }
    assert(fv.take(i as int) =~= fv);
    Ok(())
}

/// Rewrites a list node's map-style data into its list-style form: the
/// records found at the depth of the key count, each with its key fields
/// put back from the map keys above it, in the order of the objects' fields.
pub fn to_list_form(v: JsonValue, keys: &Vec<KeyField>) -> (r: Result<JsonValue, ReshapeError>)
    ensures
        result_view(r) == map_to_list(v@, keys_view(keys@)),
{
    let mut prefix: Vec<String> = Vec::new();
    let mut out: Vec<JsonValue> = Vec::new();
    assert(strings_view(prefix@) =~= Seq::<Seq<char>>::empty());
    match gather_into(v, keys, &mut prefix, &mut out) {
        Ok(()) => {
            assert(items_view(Seq::<JsonValue>::empty()) =~= Seq::<Json>::empty());
            let ghost ov = items_view(out@);
            proof {
                lemma_array_view(out);
            }
            assert(ov =~= Seq::<Json>::empty() + ov);
            Ok(JsonValue::Array(out))
        },
        Err(e) => Err(e),
    }
}


/// The rewrite of one list node's data in the given direction.
pub open spec fn reshape(v: Json, dir: Direction, keys: Seq<(Seq<char>, bool)>) -> Result<Json, ReshapeError> {
    match dir {
        Direction::ListToMap => list_to_map(v, key_names(keys)),
        Direction::MapToList => map_to_list(v, keys),
    }
}

/// Rewrites one list node's data in the given direction.
pub fn reshape_node(v: JsonValue, dir: Direction, keys: &Vec<KeyField>) -> (r: Result<JsonValue, ReshapeError>)
    ensures
        result_view(r) == reshape(v@, dir, keys_view(keys@)),
{
    match dir {
        Direction::ListToMap => to_map_form(v, keys),
        Direction::MapToList => to_list_form(v, keys),
    }
}


/// `v` is map-style data `d` levels deep: an object whose member values,
/// for `d` levels, are objects again; at depth `d` the objects are records.
pub open spec fn nested(v: Json, d: nat) -> bool
    decreases v,
{
    match v {
        Json::Object(fs) => d == 0 || forall|i: int|
            0 <= i < fs.len() ==> nested(#[trigger] fs[i].1, (d - 1) as nat),
        _ => false,
    }
}

proof fn lemma_strip_len(fs: Seq<(Seq<char>, Json)>, keys: Seq<Seq<char>>)
    requires
        strip_keys(fs, keys) is Ok,
    ensures
        strip_keys(fs, keys)->Ok_0.0.len() == keys.len(),
    decreases keys.len(),
{
    if keys.len() > 0 {
        lemma_strip_len(fs, keys.drop_last());
    }
}

proof fn lemma_insert_nested(acc: Json, path: Seq<Seq<char>>, leaf: Json)
    requires
        leaf is Object,
        acc is Object ==> nested(acc, path.len()),
    ensures
        nested(insert_at(acc, path, leaf), path.len()),
    decreases path.len(),
{
    if path.len() > 0 {
        let d = (path.len() - 1) as nat;
        let fs = match acc {
            Json::Object(fs) => fs,
            _ => Seq::empty(),
        };
        let sub = match get_field(fs, path[0]) {
            Some(c) => c,
            None => Json::Null,
        };
        assert(forall|i: int| 0 <= i < fs.len() ==> nested(#[trigger] fs[i].1, d));
        if has_field(fs, path[0]) {
            lemma_field_pos(fs, path[0]);
        }
        lemma_insert_nested(sub, path.drop_first(), leaf);
        let c = insert_at(sub, path.drop_first(), leaf);
        let r = set_field(fs, path[0], c);
        assert forall|i: int| 0 <= i < r.len() implies nested(#[trigger] r[i].1, d) by {
            if has_field(fs, path[0]) && i != field_pos(fs, path[0]) {
                assert(r[i] == fs[i]);
            } else if !has_field(fs, path[0]) && i < fs.len() {
                assert(r[i] == fs[i]);
            }
        }
    }
}

proof fn lemma_records_nested(items: Seq<Json>, keys: Seq<Seq<char>>)
    requires
        records_to_map(items, keys) is Ok,
    ensures
        nested(records_to_map(items, keys)->Ok_0, keys.len()),
    decreases items.len(),
{
    if items.len() > 0 {
        lemma_records_nested(items.drop_last(), keys);
        let acc = records_to_map(items.drop_last(), keys)->Ok_0;
        let fs = items.last()->Object_0;
        lemma_strip_len(fs, keys);
        let (ts, rest) = strip_keys(fs, keys)->Ok_0;
        lemma_insert_nested(acc, ts, Json::Object(rest));
    }
}

/// The map-style form of a list with `k` key fields is nested exactly `k`
/// levels deep, its records at depth `k`.
pub proof fn lemma_map_form_depth(v: Json, keys: Seq<Seq<char>>)
    requires
        list_to_map(v, keys) is Ok,
    ensures
        nested(list_to_map(v, keys)->Ok_0, keys.len()),
{
    lemma_records_nested(v->Array_0, keys);
}

proof fn lemma_gather_nested(v: Json, keys: Seq<(Seq<char>, bool)>, prefix: Seq<Seq<char>>)
    requires
        prefix.len() <= keys.len(),
        gather(v, keys, prefix) is Ok,
    ensures
        nested(v, (keys.len() - prefix.len()) as nat),
    decreases v,
{
    if prefix.len() < keys.len() {
        lemma_gather_fields_nested(v->Object_0, keys, prefix);
    }
}

proof fn lemma_gather_fields_nested(
    fs: Seq<(Seq<char>, Json)>,
    keys: Seq<(Seq<char>, bool)>,
    prefix: Seq<Seq<char>>,
)
    requires
        prefix.len() < keys.len(),
        gather_fields(fs, keys, prefix) is Ok,
    ensures
        forall|i: int|
            0 <= i < fs.len() ==> nested(#[trigger] fs[i].1, (keys.len() - prefix.len() - 1) as nat),
    decreases fs,
{
    if fs.len() > 0 {
        lemma_gather_fields_nested(fs.drop_last(), keys, prefix);
        lemma_gather_nested(fs.last().1, keys, prefix.push(fs.last().0));
        assert forall|i: int| 0 <= i < fs.len() implies nested(
            #[trigger] fs[i].1,
            (keys.len() - prefix.len() - 1) as nat,
        ) by {
            if i < fs.len() - 1 {
                assert(fs[i] == fs.drop_last()[i]);
            }
        }
    }
}

/// Map-style data is read as exactly `k` levels for a list with `k` key
/// fields: data that is not nested `k` levels deep is refused.
pub proof fn lemma_list_form_depth(v: Json, keys: Seq<(Seq<char>, bool)>)
    requires
        map_to_list(v, keys) is Ok,
    ensures
        nested(v, keys.len()),
{
    lemma_gather_nested(v, keys, Seq::empty());
}

} // verus!
