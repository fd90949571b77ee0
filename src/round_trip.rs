//! Converting a list node's data to its map-style form and back gives the
//! same records, fields compared by name.
use vstd::prelude::*;
use crate::json::{
    Json, get_field, set_field, has_field, field_pos, lemma_field_pos, lemma_field_pos_unique,
    lemma_get_set_field, lemma_get_remove_field, first_field_at,
};
use crate::reshape::{
    insert_at, records_to_map, strip_keys, restore_keys, key_text, key_value, gather,
    gather_fields, list_to_map, map_to_list, ReshapeError, key_names, number_text,
};

verus! {

/// The value at the end of the map keys `path` in `m`.
pub open spec fn at(m: Json, path: Seq<Seq<char>>) -> Option<Json>
    decreases path.len(),
{
    if path.len() == 0 {
        Some(m)
    } else {
        match m {
            Json::Object(fs) => match get_field(fs, path[0]) {
                Some(c) => at(c, path.drop_first()),
                None => None,
            },
            _ => None,
        }
    }
}

/// No two fields share a name.
pub open spec fn distinct_names(fs: Seq<(Seq<char>, Json)>) -> bool {
    forall|i: int, j: int| 0 <= i < j < fs.len() ==> fs[i].0 != fs[j].0
}

/// Map-style data `d` levels deep whose levels have distinct member names.
pub open spec fn tidy(v: Json, d: nat) -> bool
    decreases v,
{
    match v {
        Json::Object(fs) => d == 0 || (distinct_names(fs) && forall|i: int|
            0 <= i < fs.len() ==> tidy(#[trigger] fs[i].1, (d - 1) as nat)),
        _ => false,
    }
}

proof fn lemma_insert_found(acc: Json, path: Seq<Seq<char>>, leaf: Json)
    ensures
        at(insert_at(acc, path, leaf), path) == Some(leaf),
    decreases path.len(),
{
    if path.len() > 0 {
        let fs = match acc {
            Json::Object(fs) => fs,
            _ => Seq::empty(),
        };
        let sub = match get_field(fs, path[0]) {
            Some(c) => c,
            None => Json::Null,
        };
        let c = insert_at(sub, path.drop_first(), leaf);
        lemma_get_set_field(fs, path[0], c, path[0]);
        lemma_insert_found(sub, path.drop_first(), leaf);
    }
}

proof fn lemma_insert_elsewhere(acc: Json, path: Seq<Seq<char>>, leaf: Json, p: Seq<Seq<char>>)
    requires
        acc is Object ==> tidy(acc, path.len()),
        p.len() == path.len(),
        p != path,
    ensures
        at(insert_at(acc, path, leaf), p) == at(acc, p),
    decreases path.len(),
{
    if path.len() == 0 {
        assert(p =~= path);
    } else {
        let fs = match acc {
            Json::Object(fs) => fs,
            _ => Seq::empty(),
        };
        let sub = match get_field(fs, path[0]) {
            Some(c) => c,
            None => Json::Null,
        };
        let c = insert_at(sub, path.drop_first(), leaf);
        lemma_get_set_field(fs, path[0], c, p[0]);
        if p[0] == path[0] {
            assert(p.drop_first() != path.drop_first()) by {
                if p.drop_first() =~= path.drop_first() {
                    assert forall|i: int| 0 <= i < p.len() implies p[i] == path[i] by {
                        if i > 0 {
                            assert(p[i] == p.drop_first()[i - 1]);
                            assert(path[i] == path.drop_first()[i - 1]);
                        }
                    }
                    assert(p =~= path);
                }
            }
            if has_field(fs, path[0]) {
                lemma_field_pos(fs, path[0]);
                assert(tidy(fs[field_pos(fs, path[0])].1, (path.len() - 1) as nat));
            }
            lemma_insert_elsewhere(sub, path.drop_first(), leaf, p.drop_first());
            assert(insert_at(acc, path, leaf) == Json::Object(set_field(fs, path[0], c)));
            assert(at(insert_at(acc, path, leaf), p) == at(c, p.drop_first()));
            if !(acc is Object) {
                assert(get_field(fs, p[0]) is None);
            }
            if get_field(fs, p[0]) is None {
                if p.drop_first().len() == 0 {
                    assert(p.drop_first() =~= path.drop_first());
                }
                assert(at(Json::Null, p.drop_first()) is None);
            }
        } else {
            if !(acc is Object) {
                assert(!has_field(fs, p[0]));
                assert(get_field(fs, p[0]) is None);
            }
        }
    }
}

proof fn lemma_set_distinct(fs: Seq<(Seq<char>, Json)>, k: Seq<char>, v: Json)
    requires
        distinct_names(fs),
    ensures
        distinct_names(set_field(fs, k, v)),
        forall|i: int|
            0 <= i < set_field(fs, k, v).len() ==> (#[trigger] set_field(fs, k, v)[i]).1 == v || exists|
                j: int,
            |
                0 <= j < fs.len() && fs[j] == set_field(fs, k, v)[i],
{
    let r = set_field(fs, k, v);
    if has_field(fs, k) {
        lemma_field_pos(fs, k);
        assert forall|i: int| 0 <= i < r.len() implies (#[trigger] r[i]).1 == v || exists|j: int|
            0 <= j < fs.len() && fs[j] == r[i] by {
            if i != field_pos(fs, k) {
                assert(fs[i] == r[i]);
            }
        }
    } else {
        assert forall|i: int| 0 <= i < r.len() implies (#[trigger] r[i]).1 == v || exists|j: int|
            0 <= j < fs.len() && fs[j] == r[i] by {
            if i < fs.len() {
                assert(fs[i] == r[i]);
            }
        }
    }
}

proof fn lemma_insert_tidy(acc: Json, path: Seq<Seq<char>>, leaf: Json)
    requires
        leaf is Object,
        acc is Object ==> tidy(acc, path.len()),
    ensures
        tidy(insert_at(acc, path, leaf), path.len()),
    decreases path.len(),
{
    if path.len() > 0 {
        let d = (path.len() - 1) as nat;
        let fs = match acc {
            Json::Object(fs) => fs,
            _ => Seq::empty(),
        };
        let sub = match get_field(fs, path[0]) {
            Some(c) => c,
            None => Json::Null,
        };
        if has_field(fs, path[0]) {
            lemma_field_pos(fs, path[0]);
        }
        lemma_insert_tidy(sub, path.drop_first(), leaf);
        let c = insert_at(sub, path.drop_first(), leaf);
        lemma_set_distinct(fs, path[0], c);
        let r = set_field(fs, path[0], c);
        assert forall|i: int| 0 <= i < r.len() implies tidy(#[trigger] r[i].1, d) by {
            if r[i].1 != c {
                let j = choose|j: int| 0 <= j < fs.len() && fs[j] == r[i];
                assert(tidy(fs[j].1, d));
            }
        }
    }
}


/// A key field's value fits its declared type: a string for a field of
/// non-numeric type, a number in canonical text for a numeric one.
pub open spec fn key_fits(v: Option<Json>, numeric: bool) -> bool {
    match v {
        Some(Json::Str(_)) => !numeric,
        Some(Json::Number(t)) => numeric && number_text(t) == Some(t),
        _ => false,
    }
}

/// `r` is a record of list-style data: an object that holds each key field
/// with a value that fits its type.
pub open spec fn valid_record(r: Json, keys: Seq<(Seq<char>, bool)>) -> bool {
    &&& r is Object
    &&& forall|j: int| 0 <= j < keys.len() ==> key_fits(get_field(r->Object_0, #[trigger] keys[j].0), keys[j].1)
}

/// No two key fields share a name.
pub open spec fn distinct_key_names(keys: Seq<(Seq<char>, bool)>) -> bool {
    forall|i: int, j: int| 0 <= i < j < keys.len() ==> keys[i].0 != keys[j].0
}

proof fn lemma_strip_valid(fs: Seq<(Seq<char>, Json)>, keys: Seq<(Seq<char>, bool)>)
    requires
        distinct_key_names(keys),
        valid_record(Json::Object(fs), keys),
    ensures
        strip_keys(fs, key_names(keys)) is Ok,
        strip_keys(fs, key_names(keys))->Ok_0.0.len() == keys.len(),
        forall|j: int|
            0 <= j < keys.len() ==> Some(#[trigger] strip_keys(fs, key_names(keys))->Ok_0.0[j])
                == key_text(get_field(fs, keys[j].0)->Some_0),
        forall|n: Seq<char>|
            !key_names(keys).contains(n) ==> get_field(
                #[trigger] strip_keys(fs, key_names(keys))->Ok_0.1,
                n,
            ) == get_field(fs, n),
    decreases keys.len(),
{
    let names = key_names(keys);
    if keys.len() == 0 {
        assert forall|n: Seq<char>| !names.contains(n) implies get_field(
            #[trigger] strip_keys(fs, names)->Ok_0.1,
            n,
        ) == get_field(fs, n) by {}
    } else {
        let k2 = keys.drop_last();
        assert(key_names(k2) =~= names.drop_last());
        assert(valid_record(Json::Object(fs), k2)) by {
            assert forall|j: int| 0 <= j < k2.len() implies key_fits(
                get_field(fs, #[trigger] k2[j].0),
                k2[j].1,
            ) by {
                assert(k2[j] == keys[j]);
            }
        }
        lemma_strip_valid(fs, k2);
        let (ts2, rest2) = strip_keys(fs, key_names(k2))->Ok_0;
        let last = keys.last().0;
        assert(names.last() == last);
        assert(!key_names(k2).contains(last)) by {
            if key_names(k2).contains(last) {
                let j = choose|j: int| 0 <= j < key_names(k2).len() && key_names(k2)[j] == last;
                assert(keys[j].0 == keys[keys.len() - 1].0);
            }
        }
        assert(key_fits(get_field(fs, keys[keys.len() - 1].0), keys[keys.len() - 1].1));
                let ts = strip_keys(fs, names)->Ok_0.0;
        assert forall|j: int| 0 <= j < keys.len() implies Some(#[trigger] ts[j]) == key_text(
            get_field(fs, keys[j].0)->Some_0,
        ) by {
            if j < keys.len() - 1 {
                assert(ts[j] == ts2[j]);
                assert(k2[j] == keys[j]);
            }
        }
        assert forall|n: Seq<char>| !names.contains(n) implies get_field(
            #[trigger] strip_keys(fs, names)->Ok_0.1,
            n,
        ) == get_field(fs, n) by {
            assert(n != last) by {
                if n == last {
                    assert(names[names.len() - 1] == last);
                }
            }
            assert(!key_names(k2).contains(n)) by {
                if key_names(k2).contains(n) {
                    let j = choose|j: int| 0 <= j < key_names(k2).len() && key_names(k2)[j] == n;
                    assert(names[j] == n);
                }
            }
            lemma_get_remove_field(rest2, last, n);
        }
    }
}


proof fn lemma_restore(fs: Seq<(Seq<char>, Json)>, keys: Seq<(Seq<char>, bool)>, ts: Seq<Seq<char>>)
    requires
        distinct_key_names(keys),
        ts.len() == keys.len(),
        forall|j: int| 0 <= j < keys.len() ==> (#[trigger] key_value(ts[j], keys[j].1)) is Some,
    ensures
        restore_keys(fs, keys, ts) is Ok,
        forall|j: int|
            0 <= j < keys.len() ==> get_field(restore_keys(fs, keys, ts)->Ok_0, #[trigger] keys[j].0)
                == key_value(ts[j], keys[j].1),
        forall|n: Seq<char>|
            !key_names(keys).contains(n) ==> get_field(
                #[trigger] restore_keys(fs, keys, ts)->Ok_0,
                n,
            ) == get_field(fs, n),
    decreases keys.len(),
{
    if keys.len() > 0 {
        let k2 = keys.drop_last();
        let t2 = ts.drop_last();
        assert forall|j: int| 0 <= j < k2.len() implies (#[trigger] key_value(t2[j], k2[j].1)) is Some by {
            assert(k2[j] == keys[j]);
            assert(t2[j] == ts[j]);
            assert(key_value(ts[j], keys[j].1) is Some);
        }
        lemma_restore(fs, k2, t2);
        let f2 = restore_keys(fs, k2, t2)->Ok_0;
        let last = keys.last();
        assert(key_value(ts[keys.len() - 1], keys[keys.len() - 1].1) is Some);
        let kv = key_value(ts.last(), last.1)->Some_0;
        let r = restore_keys(fs, keys, ts)->Ok_0;
        assert(r == set_field(f2, last.0, kv));
        assert forall|j: int| 0 <= j < keys.len() implies get_field(r, #[trigger] keys[j].0)
            == key_value(ts[j], keys[j].1) by {
            lemma_get_set_field(f2, last.0, kv, keys[j].0);
            if j < keys.len() - 1 {
                assert(k2[j] == keys[j]);
                assert(t2[j] == ts[j]);
                assert(keys[j].0 != last.0);
            }
        }
        assert forall|n: Seq<char>| !key_names(keys).contains(n) implies get_field(#[trigger] restore_keys(fs, keys, ts)->Ok_0, n)
            == get_field(fs, n) by {
            lemma_get_set_field(f2, last.0, kv, n);
            assert(n != last.0) by {
                if n == last.0 {
                    assert(key_names(keys)[keys.len() - 1] == n);
                }
            }
            assert(!key_names(k2).contains(n)) by {
                if key_names(k2).contains(n) {
                    let j = choose|j: int| 0 <= j < key_names(k2).len() && key_names(k2)[j] == n;
                    assert(key_names(keys)[j] == n);
                }
            }
        }
    }
}

/// A valid record, stripped of its key fields and given them back from its
/// key texts, finds under every name what it found before.
proof fn lemma_strip_restore(fs: Seq<(Seq<char>, Json)>, keys: Seq<(Seq<char>, bool)>)
    requires
        distinct_key_names(keys),
        valid_record(Json::Object(fs), keys),
    ensures
        ({
            let (ts, rest) = strip_keys(fs, key_names(keys))->Ok_0;
            &&& restore_keys(rest, keys, ts) is Ok
            &&& forall|n: Seq<char>|
                get_field(#[trigger] restore_keys(rest, keys, ts)->Ok_0, n) == get_field(fs, n)
        }),
{
    lemma_strip_valid(fs, keys);
    let (ts, rest) = strip_keys(fs, key_names(keys))->Ok_0;
    assert forall|j: int| 0 <= j < keys.len() implies (#[trigger] key_value(ts[j], keys[j].1)) is Some by {
        assert(key_fits(get_field(fs, keys[j].0), keys[j].1));
        assert(Some(ts[j]) == key_text(get_field(fs, keys[j].0)->Some_0));
    }
    lemma_restore(rest, keys, ts);
    let r = restore_keys(rest, keys, ts)->Ok_0;
    assert forall|n: Seq<char>| get_field(#[trigger] restore_keys(rest, keys, ts)->Ok_0, n) == get_field(fs, n) by {
        if key_names(keys).contains(n) {
            let j = choose|j: int| 0 <= j < key_names(keys).len() && key_names(keys)[j] == n;
            assert(keys[j].0 == n);
            assert(get_field(r, keys[j].0) == key_value(ts[j], keys[j].1));
            assert(key_fits(get_field(fs, keys[j].0), keys[j].1));
            assert(Some(ts[j]) == key_text(get_field(fs, keys[j].0)->Some_0));
        }
    }
}


/// The key texts and the remaining fields of a valid record.
pub open spec fn stripped(item: Json, keys: Seq<(Seq<char>, bool)>) -> (Seq<Seq<char>>, Seq<(Seq<char>, Json)>) {
    strip_keys(item->Object_0, key_names(keys))->Ok_0
}

proof fn lemma_records_hold(items: Seq<Json>, keys: Seq<(Seq<char>, bool)>)
    requires
        keys.len() > 0,
        distinct_key_names(keys),
        forall|i: int| 0 <= i < items.len() ==> valid_record(#[trigger] items[i], keys),
        forall|i: int, j: int|
            0 <= i < j < items.len() ==> stripped(items[i], keys).0 != stripped(items[j], keys).0,
    ensures
        records_to_map(items, key_names(keys)) is Ok,
        tidy(records_to_map(items, key_names(keys))->Ok_0, keys.len()),
        forall|i: int|
            0 <= i < items.len() ==> at(
                records_to_map(items, key_names(keys))->Ok_0,
                (#[trigger] stripped(items[i], keys)).0,
            ) == Some(Json::Object(stripped(items[i], keys).1)),
        forall|p: Seq<Seq<char>>|
            p.len() == keys.len() && (#[trigger] at(records_to_map(items, key_names(keys))->Ok_0, p))
                is Some ==> exists|i: int|
                0 <= i < items.len() && p == stripped(items[i], keys).0 && at(
                    records_to_map(items, key_names(keys))->Ok_0,
                    p,
                ) == Some(Json::Object(stripped(items[i], keys).1)),
    decreases items.len(),
{
    let names = key_names(keys);
    if items.len() == 0 {
        let m = records_to_map(items, names)->Ok_0;
        assert(m == Json::Object(Seq::empty()));
        assert forall|p: Seq<Seq<char>>|
            p.len() == keys.len() && (#[trigger] at(m, p)) is Some implies exists|i: int|
                0 <= i < items.len() && p == stripped(items[i], keys).0 && at(m, p) == Some(
                    Json::Object(stripped(items[i], keys).1),
                ) by {
            assert(!has_field(Seq::<(Seq<char>, Json)>::empty(), p[0]));
        }
    } else {
        let prev = items.drop_last();
        let n = items.len() - 1;
        assert forall|i: int| 0 <= i < prev.len() implies valid_record(#[trigger] prev[i], keys) by {
            assert(prev[i] == items[i]);
        }
        assert forall|i: int, j: int|
            0 <= i < j < prev.len() implies stripped(prev[i], keys).0 != stripped(prev[j], keys).0 by {
            assert(prev[i] == items[i]);
            assert(prev[j] == items[j]);
        }
        lemma_records_hold(prev, keys);
        let acc = records_to_map(prev, names)->Ok_0;
        let fs = items[n]->Object_0;
        assert(valid_record(items[n], keys));
        lemma_strip_valid(fs, keys);
        let (ts, rest) = stripped(items[n], keys);
        let leaf = Json::Object(rest);
        let m = records_to_map(items, names)->Ok_0;
        assert(m == insert_at(acc, ts, leaf));
        lemma_insert_tidy(acc, ts, leaf);
        lemma_insert_found(acc, ts, leaf);
        assert forall|i: int| 0 <= i < items.len() implies at(
            m,
            (#[trigger] stripped(items[i], keys)).0,
        ) == Some(Json::Object(stripped(items[i], keys).1)) by {
            if i < n {
                assert(prev[i] == items[i]);
                assert(at(acc, stripped(prev[i], keys).0) == Some(Json::Object(stripped(prev[i], keys).1)));
                assert(valid_record(items[i], keys));
                lemma_strip_valid(items[i]->Object_0, keys);
                lemma_insert_elsewhere(acc, ts, leaf, stripped(items[i], keys).0);
            }
        }
        assert forall|p: Seq<Seq<char>>|
            p.len() == keys.len() && (#[trigger] at(m, p)) is Some implies exists|i: int|
                0 <= i < items.len() && p == stripped(items[i], keys).0 && at(m, p) == Some(
                    Json::Object(stripped(items[i], keys).1),
                ) by {
            if p == ts {
                assert(p == stripped(items[n], keys).0);
            } else {
                lemma_insert_elsewhere(acc, ts, leaf, p);
                assert(at(acc, p) is Some);
                let i = choose|i: int|
                    0 <= i < prev.len() && p == stripped(prev[i], keys).0 && at(acc, p) == Some(
                        Json::Object(stripped(prev[i], keys).1),
                    );
                assert(prev[i] == items[i]);
            }
        }
    }
}


/// The record read back from the map keys `p` below `v`, under `prefix`.
#[verifier::opaque]
pub open spec fn restored(v: Json, keys: Seq<(Seq<char>, bool)>, prefix: Seq<Seq<char>>, p: Seq<Seq<char>>) -> Json {
    Json::Object(restore_keys(at(v, p)->Some_0->Object_0, keys, prefix + p)->Ok_0)
}

/// Every record below `v`, at depth `d`, can be given its key fields back.
pub open spec fn restorable(v: Json, keys: Seq<(Seq<char>, bool)>, prefix: Seq<Seq<char>>, d: nat) -> bool {
    forall|p: Seq<Seq<char>>|
        p.len() == d && (#[trigger] at(v, p)) is Some ==> restore_keys(
            at(v, p)->Some_0->Object_0,
            keys,
            prefix + p,
        ) is Ok
}

proof fn lemma_at_depth_object(v: Json, d: nat, p: Seq<Seq<char>>)
    requires
        tidy(v, d),
        p.len() == d,
        at(v, p) is Some,
    ensures
        at(v, p)->Some_0 is Object,
    decreases p.len(),
{
    if p.len() > 0 {
        let fs = v->Object_0;
        lemma_field_pos(fs, p[0]);
        assert(tidy(fs[field_pos(fs, p[0])].1, (d - 1) as nat));
        lemma_at_depth_object(fs[field_pos(fs, p[0])].1, (d - 1) as nat, p.drop_first());
    }
}

proof fn lemma_distinct_get(fs: Seq<(Seq<char>, Json)>, i: int)
    requires
        distinct_names(fs),
        0 <= i < fs.len(),
    ensures
        get_field(fs, fs[i].0) == Some(fs[i].1),
{
    assert(first_field_at(fs, fs[i].0, i));
    lemma_field_pos_unique(fs, fs[i].0, i);
}

proof fn lemma_at_member(fs: Seq<(Seq<char>, Json)>, i: int, q: Seq<Seq<char>>)
    requires
        distinct_names(fs),
        0 <= i < fs.len(),
    ensures
        at(Json::Object(fs), seq![fs[i].0] + q) == at(fs[i].1, q),
{
    lemma_distinct_get(fs, i);
    assert((seq![fs[i].0] + q).drop_first() =~= q);
}

/// `x` is the record read back from some map keys `q` below some field of
/// `fs`.
pub open spec fn from_fields(x: Json, fs: Seq<(Seq<char>, Json)>, keys: Seq<(Seq<char>, bool)>, prefix: Seq<Seq<char>>, d: nat) -> bool {
    exists|i: int, q: Seq<Seq<char>>|
        0 <= i < fs.len() && q.len() == d && (#[trigger] at(fs[i].1, q)) is Some && x == restored(
            fs[i].1,
            keys,
            prefix.push(fs[i].0),
            q,
        )
}

/// `x` is the record read back from some map keys below `v`.
pub open spec fn from_value(x: Json, v: Json, keys: Seq<(Seq<char>, bool)>, prefix: Seq<Seq<char>>, d: nat) -> bool {
    exists|p: Seq<Seq<char>>| p.len() == d && (#[trigger] at(v, p)) is Some && x == restored(v, keys, prefix, p)
}

/// `x` is among `s`.
pub open spec fn found_in(x: Json, s: Seq<Json>) -> bool {
    exists|j: int| 0 <= j < s.len() && s[j] == x
}

proof fn lemma_gather_reads(v: Json, keys: Seq<(Seq<char>, bool)>, prefix: Seq<Seq<char>>)
    requires
        prefix.len() <= keys.len(),
        tidy(v, (keys.len() - prefix.len()) as nat),
        restorable(v, keys, prefix, (keys.len() - prefix.len()) as nat),
    ensures
        gather(v, keys, prefix) is Ok,
        forall|j: int|
            0 <= j < gather(v, keys, prefix)->Ok_0.len() ==> from_value(
                #[trigger] gather(v, keys, prefix)->Ok_0[j],
                v,
                keys,
                prefix,
                (keys.len() - prefix.len()) as nat,
            ),
        forall|p: Seq<Seq<char>>|
            p.len() == keys.len() - prefix.len() && (#[trigger] at(v, p)) is Some ==> found_in(
                restored(v, keys, prefix, p),
                gather(v, keys, prefix)->Ok_0,
            ),
    decreases v,
{
    let d = (keys.len() - prefix.len()) as nat;
    let fs = v->Object_0;
    if prefix.len() >= keys.len() {
        let e = Seq::<Seq<char>>::empty();
        assert(at(v, e) == Some(v));
        assert(prefix + e =~= prefix);
        let s = gather(v, keys, prefix)->Ok_0;
        reveal(restored);
        assert(s[0] == restored(v, keys, prefix, e));
        assert(from_value(s[0], v, keys, prefix, d));
        assert forall|p: Seq<Seq<char>>| p.len() == d && (#[trigger] at(v, p)) is Some implies found_in(
            restored(v, keys, prefix, p),
            s,
        ) by {
            assert(p =~= e);
        }
    } else {
        lemma_fields_restorable(v, keys, prefix);
        lemma_gather_fields_reads(fs, keys, prefix);
        let s = gather(v, keys, prefix)->Ok_0;
        assert forall|j: int| 0 <= j < s.len() implies from_value(#[trigger] s[j], v, keys, prefix, d) by {
            lemma_from_member(v, keys, prefix, s[j]);
        }
        assert forall|p: Seq<Seq<char>>| p.len() == d && (#[trigger] at(v, p)) is Some implies found_in(
            restored(v, keys, prefix, p),
            s,
        ) by {
            lemma_member_found(v, keys, prefix, p);
        }
    }
}

proof fn lemma_fields_restorable(v: Json, keys: Seq<(Seq<char>, bool)>, prefix: Seq<Seq<char>>)
    requires
        prefix.len() < keys.len(),
        tidy(v, (keys.len() - prefix.len()) as nat),
        restorable(v, keys, prefix, (keys.len() - prefix.len()) as nat),
    ensures
        forall|i: int, q: Seq<Seq<char>>|
            0 <= i < v->Object_0.len() && q.len() == keys.len() - prefix.len() - 1 && (#[trigger] at(
                v->Object_0[i].1,
                q,
            )) is Some ==> restore_keys(
                at(v->Object_0[i].1, q)->Some_0->Object_0,
                keys,
                prefix.push(v->Object_0[i].0) + q,
            ) is Ok,
{
    let fs = v->Object_0;
    assert forall|i: int, q: Seq<Seq<char>>|
        0 <= i < fs.len() && q.len() == keys.len() - prefix.len() - 1 && (#[trigger] at(fs[i].1, q)) is Some implies restore_keys(
            at(fs[i].1, q)->Some_0->Object_0,
            keys,
            prefix.push(fs[i].0) + q,
        ) is Ok by {
        lemma_at_member(fs, i, q);
        assert(prefix.push(fs[i].0) + q =~= prefix + (seq![fs[i].0] + q));
        assert(at(v, seq![fs[i].0] + q) is Some);
    }
}

proof fn lemma_from_member(v: Json, keys: Seq<(Seq<char>, bool)>, prefix: Seq<Seq<char>>, x: Json)
    requires
        prefix.len() < keys.len(),
        tidy(v, (keys.len() - prefix.len()) as nat),
        from_fields(x, v->Object_0, keys, prefix, (keys.len() - prefix.len() - 1) as nat),
    ensures
        from_value(x, v, keys, prefix, (keys.len() - prefix.len()) as nat),
{
    let fs = v->Object_0;
    let d = (keys.len() - prefix.len() - 1) as nat;
    let (i, q) = choose|i: int, q: Seq<Seq<char>>|
        0 <= i < fs.len() && q.len() == d && (#[trigger] at(fs[i].1, q)) is Some && x == restored(
            fs[i].1,
            keys,
            prefix.push(fs[i].0),
            q,
        );
    lemma_at_member(fs, i, q);
    assert(prefix.push(fs[i].0) + q =~= prefix + (seq![fs[i].0] + q));
    reveal(restored);
    assert(x == restored(v, keys, prefix, seq![fs[i].0] + q));
    assert(at(v, seq![fs[i].0] + q) is Some);
}

proof fn lemma_member_found(v: Json, keys: Seq<(Seq<char>, bool)>, prefix: Seq<Seq<char>>, p: Seq<Seq<char>>)
    requires
        prefix.len() < keys.len(),
        tidy(v, (keys.len() - prefix.len()) as nat),
        p.len() == keys.len() - prefix.len(),
        at(v, p) is Some,
        forall|i: int, q: Seq<Seq<char>>|
            0 <= i < v->Object_0.len() && q.len() == keys.len() - prefix.len() - 1 && (#[trigger] at(
                v->Object_0[i].1,
                q,
            )) is Some ==> found_in(
                restored(v->Object_0[i].1, keys, prefix.push(v->Object_0[i].0), q),
                gather(v, keys, prefix)->Ok_0,
            ),
    ensures
        found_in(restored(v, keys, prefix, p), gather(v, keys, prefix)->Ok_0),
{
    let fs = v->Object_0;
    lemma_field_pos(fs, p[0]);
    let i = field_pos(fs, p[0]);
    let q = p.drop_first();
    assert(p =~= seq![fs[i].0] + q);
    lemma_at_member(fs, i, q);
    assert(at(fs[i].1, q) is Some);
    assert(prefix.push(fs[i].0) + q =~= prefix + (seq![fs[i].0] + q));
    reveal(restored);
    assert(restored(fs[i].1, keys, prefix.push(fs[i].0), q) == restored(v, keys, prefix, p));
}

proof fn lemma_gather_fields_reads(
    fs: Seq<(Seq<char>, Json)>,
    keys: Seq<(Seq<char>, bool)>,
    prefix: Seq<Seq<char>>,
)
    requires
        prefix.len() < keys.len(),
        distinct_names(fs),
        forall|i: int|
            0 <= i < fs.len() ==> tidy(#[trigger] fs[i].1, (keys.len() - prefix.len() - 1) as nat),
        forall|i: int, q: Seq<Seq<char>>|
            0 <= i < fs.len() && q.len() == keys.len() - prefix.len() - 1 && (#[trigger] at(fs[i].1, q)) is Some
                ==> restore_keys(at(fs[i].1, q)->Some_0->Object_0, keys, prefix.push(fs[i].0) + q) is Ok,
    ensures
        gather_fields(fs, keys, prefix) is Ok,
        forall|j: int|
            0 <= j < gather_fields(fs, keys, prefix)->Ok_0.len() ==> from_fields(
                #[trigger] gather_fields(fs, keys, prefix)->Ok_0[j],
                fs,
                keys,
                prefix,
                (keys.len() - prefix.len() - 1) as nat,
            ),
        forall|i: int, q: Seq<Seq<char>>|
            0 <= i < fs.len() && q.len() == keys.len() - prefix.len() - 1 && (#[trigger] at(fs[i].1, q)) is Some
                ==> found_in(
                restored(fs[i].1, keys, prefix.push(fs[i].0), q),
                gather_fields(fs, keys, prefix)->Ok_0,
            ),
    decreases fs,
{
    let d = (keys.len() - prefix.len() - 1) as nat;
    if fs.len() > 0 {
        let f2 = fs.drop_last();
        let n = fs.len() - 1;
        let last = fs.last();
        assert forall|i: int| 0 <= i < f2.len() implies tidy(#[trigger] f2[i].1, d) by {
            assert(f2[i] == fs[i]);
        }
        assert forall|i: int, q: Seq<Seq<char>>|
            0 <= i < f2.len() && q.len() == d && (#[trigger] at(f2[i].1, q)) is Some implies restore_keys(
                at(f2[i].1, q)->Some_0->Object_0,
                keys,
                prefix.push(f2[i].0) + q,
            ) is Ok by {
            assert(f2[i] == fs[i]);
        }
        lemma_gather_fields_reads(f2, keys, prefix);
        let pre = prefix.push(last.0);
        assert(tidy(fs[n].1, d));
        assert forall|q: Seq<Seq<char>>| q.len() == d && (#[trigger] at(last.1, q)) is Some implies restore_keys(
            at(last.1, q)->Some_0->Object_0,
            keys,
            pre + q,
        ) is Ok by {
            assert(at(fs[n].1, q) is Some);
        }
        assert(restorable(last.1, keys, pre, d));
        lemma_gather_reads(last.1, keys, pre);
        lemma_fields_concat(fs, keys, prefix);
    }
}

proof fn lemma_fields_concat(fs: Seq<(Seq<char>, Json)>, keys: Seq<(Seq<char>, bool)>, prefix: Seq<Seq<char>>)
    requires
        fs.len() > 0,
        prefix.len() < keys.len(),
        gather_fields(fs.drop_last(), keys, prefix) is Ok,
        gather(fs.last().1, keys, prefix.push(fs.last().0)) is Ok,
        forall|j: int|
            0 <= j < gather_fields(fs.drop_last(), keys, prefix)->Ok_0.len() ==> from_fields(
                #[trigger] gather_fields(fs.drop_last(), keys, prefix)->Ok_0[j],
                fs.drop_last(),
                keys,
                prefix,
                (keys.len() - prefix.len() - 1) as nat,
            ),
        forall|i: int, q: Seq<Seq<char>>|
            0 <= i < fs.drop_last().len() && q.len() == keys.len() - prefix.len() - 1 && (#[trigger] at(fs.drop_last()[i].1, q)) is Some
                ==> found_in(
                restored(fs.drop_last()[i].1, keys, prefix.push(fs.drop_last()[i].0), q),
                gather_fields(fs.drop_last(), keys, prefix)->Ok_0,
            ),
        forall|j: int|
            0 <= j < gather(fs.last().1, keys, prefix.push(fs.last().0))->Ok_0.len() ==> from_value(
                #[trigger] gather(fs.last().1, keys, prefix.push(fs.last().0))->Ok_0[j],
                fs.last().1,
                keys,
                prefix.push(fs.last().0),
                (keys.len() - prefix.len() - 1) as nat,
            ),
        forall|p: Seq<Seq<char>>|
            p.len() == keys.len() - prefix.len() - 1 && (#[trigger] at(fs.last().1, p)) is Some ==> found_in(
                restored(fs.last().1, keys, prefix.push(fs.last().0), p),
                gather(fs.last().1, keys, prefix.push(fs.last().0))->Ok_0,
            ),
    ensures
        gather_fields(fs, keys, prefix) is Ok,
        forall|j: int|
            0 <= j < gather_fields(fs, keys, prefix)->Ok_0.len() ==> from_fields(
                #[trigger] gather_fields(fs, keys, prefix)->Ok_0[j],
                fs,
                keys,
                prefix,
                (keys.len() - prefix.len() - 1) as nat,
            ),
        forall|i: int, q: Seq<Seq<char>>|
            0 <= i < fs.len() && q.len() == keys.len() - prefix.len() - 1 && (#[trigger] at(fs[i].1, q)) is Some
                ==> found_in(
                restored(fs[i].1, keys, prefix.push(fs[i].0), q),
                gather_fields(fs, keys, prefix)->Ok_0,
            ),
{
    let d = (keys.len() - prefix.len() - 1) as nat;
    let f2 = fs.drop_last();
    let n = fs.len() - 1;
    let last = fs.last();
    let pre = prefix.push(last.0);
    let a = gather_fields(f2, keys, prefix)->Ok_0;
    let b = gather(last.1, keys, pre)->Ok_0;
    let s = gather_fields(fs, keys, prefix)->Ok_0;
    assert(s == a + b);
    assert forall|j: int| 0 <= j < s.len() implies from_fields(#[trigger] s[j], fs, keys, prefix, d) by {
        if j < a.len() {
            assert(s[j] == a[j]);
            assert(from_fields(a[j], f2, keys, prefix, d));
            let (i, q) = choose|i: int, q: Seq<Seq<char>>|
                0 <= i < f2.len() && q.len() == d && (#[trigger] at(f2[i].1, q)) is Some && a[j]
                    == restored(f2[i].1, keys, prefix.push(f2[i].0), q);
            assert(f2[i] == fs[i]);
            assert(at(fs[i].1, q) is Some);
        } else {
            assert(s[j] == b[j - a.len()]);
            assert(from_value(b[j - a.len()], last.1, keys, pre, d));
            let q = choose|q: Seq<Seq<char>>|
                q.len() == d && (#[trigger] at(last.1, q)) is Some && b[j - a.len()] == restored(
                    last.1,
                    keys,
                    pre,
                    q,
                );
            assert(fs[n] == last);
            assert(at(fs[n].1, q) is Some);
        }
    }
    assert forall|i: int, q: Seq<Seq<char>>|
        0 <= i < fs.len() && q.len() == d && (#[trigger] at(fs[i].1, q)) is Some implies found_in(
            restored(fs[i].1, keys, prefix.push(fs[i].0), q),
            s,
        ) by {
        if i < n {
            assert(f2[i] == fs[i]);
            assert(at(f2[i].1, q) is Some);
            assert(found_in(restored(f2[i].1, keys, prefix.push(f2[i].0), q), a));
            let j = choose|j: int| 0 <= j < a.len() && a[j] == restored(f2[i].1, keys, prefix.push(f2[i].0), q);
            assert(s[j] == a[j]);
        } else {
            assert(fs[i] == last);
            assert(at(last.1, q) is Some);
            assert(found_in(restored(last.1, keys, pre, q), b));
            let j = choose|j: int| 0 <= j < b.len() && b[j] == restored(last.1, keys, pre, q);
            assert(s[a.len() + j] == b[j]);
        }
    }
}


/// `a` and `b` are objects that find the same value under every name.
pub open spec fn same_record(a: Json, b: Json) -> bool {
    &&& a is Object
    &&& b is Object
    &&& forall|n: Seq<char>| get_field(a->Object_0, n) == get_field(b->Object_0, n)
}

/// Records `a` and `b` differ in some key field.
pub open spec fn differ_in_key(a: Json, b: Json, keys: Seq<(Seq<char>, bool)>) -> bool {
    exists|m: int|
        0 <= m < keys.len() && #[trigger] get_field(a->Object_0, keys[m].0) != get_field(
            b->Object_0,
            keys[m].0,
        )
}

/// No two records agree on every key field.
pub open spec fn distinct_records(items: Seq<Json>, keys: Seq<(Seq<char>, bool)>) -> bool {
    forall|i: int, j: int| 0 <= i < j < items.len() ==> #[trigger] differ_in_key(items[i], items[j], keys)
}

proof fn lemma_texts_distinct(items: Seq<Json>, keys: Seq<(Seq<char>, bool)>, i: int, j: int)
    requires
        distinct_key_names(keys),
        forall|i: int| 0 <= i < items.len() ==> valid_record(#[trigger] items[i], keys),
        distinct_records(items, keys),
        0 <= i < j < items.len(),
    ensures
        stripped(items[i], keys).0 != stripped(items[j], keys).0,
{
    assert(differ_in_key(items[i], items[j], keys));
    let m = choose|m: int|
        0 <= m < keys.len() && #[trigger] get_field(items[i]->Object_0, keys[m].0) != get_field(
            items[j]->Object_0,
            keys[m].0,
        );
    assert(valid_record(items[i], keys));
    assert(valid_record(items[j], keys));
    lemma_strip_valid(items[i]->Object_0, keys);
    lemma_strip_valid(items[j]->Object_0, keys);
    assert(key_fits(get_field(items[i]->Object_0, keys[m].0), keys[m].1));
    assert(key_fits(get_field(items[j]->Object_0, keys[m].0), keys[m].1));
    assert(stripped(items[i], keys).0[m] != stripped(items[j], keys).0[m]);
}

/// The record read back from a valid record's key texts is that record.
proof fn lemma_read_back_same(item: Json, keys: Seq<(Seq<char>, bool)>, m: Json, x: Json)
    requires
        distinct_key_names(keys),
        valid_record(item, keys),
        at(m, stripped(item, keys).0) == Some(Json::Object(stripped(item, keys).1)),
        x == restored(m, keys, Seq::empty(), stripped(item, keys).0),
    ensures
        same_record(x, item),
{
    let p = stripped(item, keys).0;
    assert(Seq::<Seq<char>>::empty() + p =~= p);
    lemma_strip_restore(item->Object_0, keys);
    reveal(restored);
}

/// What the round trip asks of a list's records, with key texts told apart.
pub open spec fn round_trip_ready(items: Seq<Json>, keys: Seq<(Seq<char>, bool)>) -> bool {
    &&& keys.len() > 0
    &&& distinct_key_names(keys)
    &&& forall|i: int| 0 <= i < items.len() ==> valid_record(#[trigger] items[i], keys)
    &&& forall|i: int, j: int|
        0 <= i < j < items.len() ==> stripped(items[i], keys).0 != stripped(items[j], keys).0
}

proof fn lemma_read_back_ok(items: Seq<Json>, keys: Seq<(Seq<char>, bool)>)
    requires
        round_trip_ready(items, keys),
    ensures
        records_to_map(items, key_names(keys)) is Ok,
        tidy(records_to_map(items, key_names(keys))->Ok_0, keys.len()),
        restorable(records_to_map(items, key_names(keys))->Ok_0, keys, Seq::empty(), keys.len()),
{
    lemma_records_hold(items, keys);
    let m = records_to_map(items, key_names(keys))->Ok_0;
    let e = Seq::<Seq<char>>::empty();
    assert forall|p: Seq<Seq<char>>| p.len() == keys.len() && (#[trigger] at(m, p)) is Some implies restore_keys(
        at(m, p)->Some_0->Object_0,
        keys,
        e + p,
    ) is Ok by {
        let i = choose|i: int|
            0 <= i < items.len() && p == stripped(items[i], keys).0 && at(m, p) == Some(
                Json::Object(stripped(items[i], keys).1),
            );
        assert(e + p =~= p);
        assert(valid_record(items[i], keys));
        lemma_strip_restore(items[i]->Object_0, keys);
    }
}

proof fn lemma_all_come_out(items: Seq<Json>, keys: Seq<(Seq<char>, bool)>)
    requires
        round_trip_ready(items, keys),
    ensures
        gather(records_to_map(items, key_names(keys))->Ok_0, keys, Seq::empty()) is Ok,
        forall|i: int|
            0 <= i < items.len() ==> exists|j: int|
                0 <= j < gather(records_to_map(items, key_names(keys))->Ok_0, keys, Seq::empty())->Ok_0.len()
                    && same_record(
                    gather(records_to_map(items, key_names(keys))->Ok_0, keys, Seq::empty())->Ok_0[j],
                    #[trigger] items[i],
                ),
{
    lemma_read_back_ok(items, keys);
    lemma_records_hold(items, keys);
    let m = records_to_map(items, key_names(keys))->Ok_0;
    let e = Seq::<Seq<char>>::empty();
    lemma_gather_reads(m, keys, e);
    let out = gather(m, keys, e)->Ok_0;
    assert forall|i: int| 0 <= i < items.len() implies exists|j: int|
        0 <= j < out.len() && same_record(out[j], #[trigger] items[i]) by {
        let p = stripped(items[i], keys).0;
        assert(at(m, p) == Some(Json::Object(stripped(items[i], keys).1)));
        assert(valid_record(items[i], keys));
        lemma_strip_valid(items[i]->Object_0, keys);
        assert(found_in(restored(m, keys, e, p), out));
        let j = choose|j: int| 0 <= j < out.len() && out[j] == restored(m, keys, e, p);
        lemma_read_back_same(items[i], keys, m, out[j]);
    }
}

proof fn lemma_all_went_in(items: Seq<Json>, keys: Seq<(Seq<char>, bool)>)
    requires
        round_trip_ready(items, keys),
    ensures
        gather(records_to_map(items, key_names(keys))->Ok_0, keys, Seq::empty()) is Ok,
        forall|j: int|
            0 <= j < gather(records_to_map(items, key_names(keys))->Ok_0, keys, Seq::empty())->Ok_0.len()
                ==> exists|i: int|
                0 <= i < items.len() && same_record(
                    #[trigger] gather(records_to_map(items, key_names(keys))->Ok_0, keys, Seq::empty())->Ok_0[j],
                    items[i],
                ),
{
    lemma_read_back_ok(items, keys);
    lemma_records_hold(items, keys);
    let m = records_to_map(items, key_names(keys))->Ok_0;
    let e = Seq::<Seq<char>>::empty();
    let k = keys.len();
    lemma_gather_reads(m, keys, e);
    let out = gather(m, keys, e)->Ok_0;
    assert forall|j: int| 0 <= j < out.len() implies exists|i: int|
        0 <= i < items.len() && same_record(#[trigger] out[j], items[i]) by {
        assert(from_value(out[j], m, keys, e, k));
        let p = choose|p: Seq<Seq<char>>| p.len() == k && (#[trigger] at(m, p)) is Some && out[j] == restored(m, keys, e, p);
        let i = choose|i: int|
            0 <= i < items.len() && p == stripped(items[i], keys).0 && at(m, p) == Some(
                Json::Object(stripped(items[i], keys).1),
            );
        assert(valid_record(items[i], keys));
        lemma_read_back_same(items[i], keys, m, out[j]);
    }
}

/// `a` and `b` hold the same records: each record of either is, fields
/// compared by name, a record of the other.
pub open spec fn same_records(a: Seq<Json>, b: Seq<Json>) -> bool {
    &&& forall|i: int| 0 <= i < b.len() ==> exists|j: int| 0 <= j < a.len() && same_record(a[j], #[trigger] b[i])
    &&& forall|j: int| 0 <= j < a.len() ==> exists|i: int| 0 <= i < b.len() && same_record(#[trigger] a[j], b[i])
}

proof fn lemma_read_back_records(items: Seq<Json>, keys: Seq<(Seq<char>, bool)>)
    requires
        round_trip_ready(items, keys),
    ensures
        records_to_map(items, key_names(keys)) is Ok,
        gather(records_to_map(items, key_names(keys))->Ok_0, keys, Seq::empty()) is Ok,
        same_records(gather(records_to_map(items, key_names(keys))->Ok_0, keys, Seq::empty())->Ok_0, items),
{
    lemma_read_back_ok(items, keys);
    lemma_all_come_out(items, keys);
    lemma_all_went_in(items, keys);
}

/// Converting list-style data to its map-style form and back gives the same
/// records, fields compared by name and the array's order aside: every
/// record that went in comes out, and every record that comes out went in.
/// The records are those of a list with at least one key field whose names
/// differ; each record holds every key field with a value that fits its
/// type (numbers in their canonical text), and no two records agree on all
/// key fields.
pub proof fn lemma_round_trip(items: Seq<Json>, keys: Seq<(Seq<char>, bool)>)
    requires
        keys.len() > 0,
        distinct_key_names(keys),
        forall|i: int| 0 <= i < items.len() ==> valid_record(#[trigger] items[i], keys),
        distinct_records(items, keys),
    ensures
        list_to_map(Json::Array(items), key_names(keys)) is Ok,
        map_to_list(list_to_map(Json::Array(items), key_names(keys))->Ok_0, keys) is Ok,
        same_records(
            map_to_list(list_to_map(Json::Array(items), key_names(keys))->Ok_0, keys)->Ok_0->Array_0,
            items,
        ),
{
    assert forall|i: int, j: int|
        0 <= i < j < items.len() implies stripped(items[i], keys).0 != stripped(items[j], keys).0 by {
        lemma_texts_distinct(items, keys, i, j);
    }
    assert(round_trip_ready(items, keys));
    lemma_read_back_records(items, keys);
    let m = records_to_map(items, key_names(keys))->Ok_0;
    let out = gather(m, keys, Seq::empty())->Ok_0;
    assert(list_to_map(Json::Array(items), key_names(keys)) == Ok::<Json, ReshapeError>(m));
    assert(map_to_list(m, keys) == Ok::<Json, ReshapeError>(Json::Array(out)));
}

} // verus!
