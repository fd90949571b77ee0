//! Two lists whose data lie in separate branches of the value tree can be
//! rewritten in either order.
use vstd::prelude::*;
use crate::json::{Json, field_pos, has_field, lemma_field_pos, lemma_field_pos_unique, first_field_at};
use crate::navigate::{PathStep, rewrite_at, rewrite_items, rewrite_members};
use crate::reshape::{Direction, ReshapeError};

verus! {

proof fn lemma_items_each(
    items: Seq<Json>,
    steps: Seq<PathStep>,
    dir: Direction,
    keys: Seq<(Seq<char>, bool)>,
)
    ensures
        rewrite_items(items, steps, dir, keys) is Ok <==> forall|i: int|
            0 <= i < items.len() ==> (#[trigger] rewrite_at(items[i], steps, dir, keys)) is Ok,
        rewrite_items(items, steps, dir, keys) is Ok ==> {
            let r = rewrite_items(items, steps, dir, keys)->Ok_0;
            &&& r.len() == items.len()
            &&& forall|i: int|
                0 <= i < items.len() ==> r[i] == (#[trigger] rewrite_at(items[i], steps, dir, keys))->Ok_0
        },
    decreases items.len(),
{
    if items.len() > 0 {
        let prev = items.drop_last();
        lemma_items_each(prev, steps, dir, keys);
        assert forall|i: int| 0 <= i < prev.len() implies prev[i] == items[i] by {}
        if !(rewrite_items(items, steps, dir, keys) is Ok) {
            if rewrite_items(prev, steps, dir, keys) is Ok {
                let n = items.len() - 1;
                assert(!(rewrite_at(items[n], steps, dir, keys) is Ok));
            } else {
                let i = choose|i: int| 0 <= i < prev.len() && !(#[trigger] rewrite_at(prev[i], steps, dir, keys) is Ok);
                assert(!(rewrite_at(items[i], steps, dir, keys) is Ok));
            }
        } else {
            assert forall|i: int| 0 <= i < items.len() implies (#[trigger] rewrite_at(items[i], steps, dir, keys)) is Ok by {
                if i < prev.len() {
                    assert(rewrite_at(prev[i], steps, dir, keys) is Ok);
                }
            }
        }
    }
}

proof fn lemma_members_each(
    fs: Seq<(Seq<char>, Json)>,
    steps: Seq<PathStep>,
    dir: Direction,
    keys: Seq<(Seq<char>, bool)>,
)
    ensures
        rewrite_members(fs, steps, dir, keys) is Ok <==> forall|i: int|
            0 <= i < fs.len() ==> (#[trigger] rewrite_at(fs[i].1, steps, dir, keys)) is Ok,
        rewrite_members(fs, steps, dir, keys) is Ok ==> {
            let r = rewrite_members(fs, steps, dir, keys)->Ok_0;
            &&& r.len() == fs.len()
            &&& forall|i: int|
                0 <= i < fs.len() ==> r[i] == (fs[i].0, (#[trigger] rewrite_at(fs[i].1, steps, dir, keys))->Ok_0)
        },
    decreases fs.len(),
{
    if fs.len() > 0 {
        let prev = fs.drop_last();
        lemma_members_each(prev, steps, dir, keys);
        assert forall|i: int| 0 <= i < prev.len() implies prev[i] == fs[i] by {}
        if !(rewrite_members(fs, steps, dir, keys) is Ok) {
            if rewrite_members(prev, steps, dir, keys) is Ok {
                let n = fs.len() - 1;
                assert(!(rewrite_at(fs[n].1, steps, dir, keys) is Ok));
            } else {
                let i = choose|i: int| 0 <= i < prev.len() && !(#[trigger] rewrite_at(prev[i].1, steps, dir, keys) is Ok);
                assert(!(rewrite_at(fs[i].1, steps, dir, keys) is Ok));
            }
        } else {
            assert forall|i: int| 0 <= i < fs.len() implies (#[trigger] rewrite_at(fs[i].1, steps, dir, keys)) is Ok by {
                if i < prev.len() {
                    assert(rewrite_at(prev[i].1, steps, dir, keys) is Ok);
                }
            }
        }
    }
}

/// Where two sequences of fields have the same names position by position,
/// a name is found at the same position in both.
proof fn lemma_same_names(fs: Seq<(Seq<char>, Json)>, gs: Seq<(Seq<char>, Json)>, n: Seq<char>)
    requires
        fs.len() == gs.len(),
        forall|i: int| 0 <= i < fs.len() ==> #[trigger] fs[i].0 == gs[i].0,
    ensures
        has_field(fs, n) == has_field(gs, n),
        has_field(fs, n) ==> field_pos(fs, n) == field_pos(gs, n),
{
    if has_field(fs, n) {
        lemma_field_pos(fs, n);
        let j = field_pos(fs, n);
        assert(gs[j].0 == n);
        assert forall|i: int| 0 <= i < j implies gs[i].0 != n by {
            assert(fs[i].0 == gs[i].0);
        }
        assert(first_field_at(gs, n, j));
        lemma_field_pos_unique(gs, n, j);
    } else if has_field(gs, n) {
        let j = choose|j: int| 0 <= j < gs.len() && gs[j].0 == n;
        assert(fs[j].0 == n);
    }
}


/// The paths to two lists' data part at a member: after the steps they
/// share, each goes into a member of another name.
pub open spec fn paths_part(p: Seq<PathStep>, q: Seq<PathStep>) -> bool
    decreases p.len(),
{
    p.len() > 0 && q.len() > 0 && ((p[0] == q[0] && paths_part(p.drop_first(), q.drop_first())) || (
    p[0] is Member && q[0] is Member && p[0] != q[0]))
}

/// The tree after one list's data and then another's have been rewritten.
pub open spec fn rewrite_both(
    v: Json,
    p: Seq<PathStep>,
    kp: Seq<(Seq<char>, bool)>,
    q: Seq<PathStep>,
    kq: Seq<(Seq<char>, bool)>,
    dir: Direction,
) -> Result<Json, ReshapeError> {
    match rewrite_at(v, p, dir, kp) {
        Ok(w) => rewrite_at(w, q, dir, kq),
        Err(e) => Err(e),
    }
}

proof fn lemma_items_both(
    items: Seq<Json>,
    p: Seq<PathStep>,
    kp: Seq<(Seq<char>, bool)>,
    q: Seq<PathStep>,
    kq: Seq<(Seq<char>, bool)>,
    dir: Direction,
)
    ensures
        ({
            let r = match rewrite_items(items, p, dir, kp) {
                Ok(s1) => rewrite_items(s1, q, dir, kq),
                Err(e) => Err(e),
            };
            &&& r is Ok <==> forall|i: int|
                0 <= i < items.len() ==> (#[trigger] rewrite_both(items[i], p, kp, q, kq, dir)) is Ok
            &&& r is Ok ==> r->Ok_0.len() == items.len() && forall|i: int|
                0 <= i < items.len() ==> r->Ok_0[i] == (#[trigger] rewrite_both(items[i], p, kp, q, kq, dir))->Ok_0
        }),
{
    lemma_items_each(items, p, dir, kp);
    if rewrite_items(items, p, dir, kp) is Ok {
        let s1 = rewrite_items(items, p, dir, kp)->Ok_0;
        lemma_items_each(s1, q, dir, kq);
        assert forall|i: int| 0 <= i < items.len() implies #[trigger] rewrite_both(items[i], p, kp, q, kq, dir)
            == rewrite_at(s1[i], q, dir, kq) by {
            assert(rewrite_at(items[i], p, dir, kp) is Ok);
        }
        if !(rewrite_items(s1, q, dir, kq) is Ok) {
            let i = choose|i: int| 0 <= i < s1.len() && !(#[trigger] rewrite_at(s1[i], q, dir, kq) is Ok);
            assert(!(rewrite_both(items[i], p, kp, q, kq, dir) is Ok));
        }
    } else {
        let i = choose|i: int| 0 <= i < items.len() && !(#[trigger] rewrite_at(items[i], p, dir, kp) is Ok);
        assert(!(rewrite_both(items[i], p, kp, q, kq, dir) is Ok));
    }
}

proof fn lemma_members_both(
    fs: Seq<(Seq<char>, Json)>,
    p: Seq<PathStep>,
    kp: Seq<(Seq<char>, bool)>,
    q: Seq<PathStep>,
    kq: Seq<(Seq<char>, bool)>,
    dir: Direction,
)
    ensures
        ({
            let r = match rewrite_members(fs, p, dir, kp) {
                Ok(s1) => rewrite_members(s1, q, dir, kq),
                Err(e) => Err(e),
            };
            &&& r is Ok <==> forall|i: int|
                0 <= i < fs.len() ==> (#[trigger] rewrite_both(fs[i].1, p, kp, q, kq, dir)) is Ok
            &&& r is Ok ==> r->Ok_0.len() == fs.len() && forall|i: int|
                0 <= i < fs.len() ==> r->Ok_0[i] == (fs[i].0, (#[trigger] rewrite_both(fs[i].1, p, kp, q, kq, dir))->Ok_0)
        }),
{
    lemma_members_each(fs, p, dir, kp);
    if rewrite_members(fs, p, dir, kp) is Ok {
        let s1 = rewrite_members(fs, p, dir, kp)->Ok_0;
        lemma_members_each(s1, q, dir, kq);
        assert forall|i: int| 0 <= i < fs.len() implies #[trigger] rewrite_both(fs[i].1, p, kp, q, kq, dir)
            == rewrite_at(s1[i].1, q, dir, kq) by {
            assert(rewrite_at(fs[i].1, p, dir, kp) is Ok);
        }
        if !(rewrite_members(s1, q, dir, kq) is Ok) {
            let i = choose|i: int| 0 <= i < s1.len() && !(#[trigger] rewrite_at(s1[i].1, q, dir, kq) is Ok);
            assert(!(rewrite_both(fs[i].1, p, kp, q, kq, dir) is Ok));
        }
    } else {
        let i = choose|i: int| 0 <= i < fs.len() && !(#[trigger] rewrite_at(fs[i].1, p, dir, kp) is Ok);
        assert(!(rewrite_both(fs[i].1, p, kp, q, kq, dir) is Ok));
    }
}


/// Both orders give the same outcome: both fail, or both give the same tree.
pub open spec fn same_outcome(a: Result<Json, ReshapeError>, b: Result<Json, ReshapeError>) -> bool {
    (a is Ok <==> b is Ok) && (a is Ok ==> a == b)
}

/// Rewriting within the member `k` of `v`, one list and then another.
proof fn lemma_member_both(
    v: Json,
    k: Seq<char>,
    p: Seq<PathStep>,
    kp: Seq<(Seq<char>, bool)>,
    q: Seq<PathStep>,
    kq: Seq<(Seq<char>, bool)>,
    dir: Direction,
)
    requires
        p.len() > 0,
        q.len() > 0,
        p[0] == PathStep::Member(k),
        q[0] == PathStep::Member(k),
        v is Object,
        has_field(v->Object_0, k),
    ensures
        ({
            let fs = v->Object_0;
            let j = field_pos(fs, k);
            match rewrite_both(fs[j].1, p.drop_first(), kp, q.drop_first(), kq, dir) {
                Ok(c) => rewrite_both(v, p, kp, q, kq, dir) == Ok::<Json, ReshapeError>(
                    Json::Object(fs.update(j, (k, c))),
                ),
                Err(_) => rewrite_both(v, p, kp, q, kq, dir) is Err,
            }
        }),
{
    let fs = v->Object_0;
    lemma_field_pos(fs, k);
    let j = field_pos(fs, k);
    if rewrite_at(fs[j].1, p.drop_first(), dir, kp) is Ok {
        let c1 = rewrite_at(fs[j].1, p.drop_first(), dir, kp)->Ok_0;
        let fs1 = fs.update(j, (k, c1));
        lemma_same_names(fs, fs1, k);
        assert(fs1[j].1 == c1);
        if rewrite_at(c1, q.drop_first(), dir, kq) is Ok {
            let c2 = rewrite_at(c1, q.drop_first(), dir, kq)->Ok_0;
            assert(fs1.update(j, (k, c2)) =~= fs.update(j, (k, c2)));
        }
    }
}

/// Rewriting within two members of other names of `v`, one list and then
/// another.
proof fn lemma_members_apart(
    v: Json,
    p: Seq<PathStep>,
    kp: Seq<(Seq<char>, bool)>,
    q: Seq<PathStep>,
    kq: Seq<(Seq<char>, bool)>,
    dir: Direction,
)
    requires
        p.len() > 0,
        q.len() > 0,
        p[0] is Member,
        q[0] is Member,
        p[0] != q[0],
    ensures
        same_outcome(rewrite_both(v, p, kp, q, kq, dir), rewrite_both(v, q, kq, p, kp, dir)),
{
    let a = p[0]->Member_0;
    let b = q[0]->Member_0;
    assert(a != b);
    match v {
        Json::Object(fs) => {
            let ha = has_field(fs, a);
            let hb = has_field(fs, b);
            if ha {
                lemma_field_pos(fs, a);
            }
            if hb {
                lemma_field_pos(fs, b);
            }
            let ja = field_pos(fs, a);
            let jb = field_pos(fs, b);
            let ra = rewrite_at(fs[ja].1, p.drop_first(), dir, kp);
            let rb = rewrite_at(fs[jb].1, q.drop_first(), dir, kq);
            if ha && ra is Ok {
                let fa = fs.update(ja, (a, ra->Ok_0));
                lemma_same_names(fs, fa, b);
                if hb {
                    assert(fa[jb] == fs[jb]);
                }
            }
            if hb && rb is Ok {
                let fb = fs.update(jb, (b, rb->Ok_0));
                lemma_same_names(fs, fb, a);
                if ha {
                    assert(fb[ja] == fs[ja]);
                }
            }
            if ha && hb && ra is Ok && rb is Ok {
                let fa = fs.update(ja, (a, ra->Ok_0));
                let fb = fs.update(jb, (b, rb->Ok_0));
                assert(fa.update(jb, (b, rb->Ok_0)) =~= fb.update(ja, (a, ra->Ok_0)));
            }
        },
        _ => {},
    }
}

/// Two lists whose data lie in separate branches of the tree, their paths
/// parting at members of different names, can be rewritten in either order:
/// both orders fail, or both give the same tree.
pub proof fn lemma_parted_lists_commute(
    v: Json,
    p: Seq<PathStep>,
    kp: Seq<(Seq<char>, bool)>,
    q: Seq<PathStep>,
    kq: Seq<(Seq<char>, bool)>,
    dir: Direction,
)
    requires
        paths_part(p, q),
    ensures
        same_outcome(rewrite_both(v, p, kp, q, kq, dir), rewrite_both(v, q, kq, p, kp, dir)),
    decreases p.len(),
{
    if p[0] is Member && q[0] is Member && p[0] != q[0] {
        lemma_members_apart(v, p, kp, q, kq, dir);
    } else {
        assert(p[0] == q[0] && paths_part(p.drop_first(), q.drop_first()));
        let p_rest = p.drop_first();
        let q_rest = q.drop_first();
        match p[0] {
            PathStep::Member(k) => {
                if v is Object && has_field(v->Object_0, k) {
                    let fs = v->Object_0;
                    let j = field_pos(fs, k);
                    lemma_parted_lists_commute(fs[j].1, p_rest, kp, q_rest, kq, dir);
                    lemma_member_both(v, k, p, kp, q, kq, dir);
                    lemma_member_both(v, k, q, kq, p, kp, dir);
                }
            },
            PathStep::Descend => {
                match v {
                    Json::Array(items) => {
                        assert forall|i: int| 0 <= i < items.len() implies same_outcome(
                            #[trigger] rewrite_both(items[i], p_rest, kp, q_rest, kq, dir),
                            rewrite_both(items[i], q_rest, kq, p_rest, kp, dir),
                        ) by {
                            lemma_parted_lists_commute(items[i], p_rest, kp, q_rest, kq, dir);
                        }
                        lemma_items_both(items, p_rest, kp, q_rest, kq, dir);
                        lemma_items_both(items, q_rest, kq, p_rest, kp, dir);
                        let r1 = match rewrite_items(items, p_rest, dir, kp) {
                            Ok(s1) => rewrite_items(s1, q_rest, dir, kq),
                            Err(e) => Err(e),
                        };
                        let r2 = match rewrite_items(items, q_rest, dir, kq) {
                            Ok(s1) => rewrite_items(s1, p_rest, dir, kp),
                            Err(e) => Err(e),
                        };
                        if r1 is Ok {
                            assert forall|i: int| 0 <= i < items.len() implies (#[trigger] rewrite_both(items[i], q_rest, kq, p_rest, kp, dir)) is Ok by {
                                assert(rewrite_both(items[i], p_rest, kp, q_rest, kq, dir) is Ok);
                            }
                            assert forall|i: int| 0 <= i < items.len() implies r1->Ok_0[i] == r2->Ok_0[i] by {
                                assert(same_outcome(
                                    rewrite_both(items[i], p_rest, kp, q_rest, kq, dir),
                                    rewrite_both(items[i], q_rest, kq, p_rest, kp, dir),
                                ));
                            }
                            assert(r1->Ok_0 =~= r2->Ok_0);
                        } else if r2 is Ok {
                            let i = choose|i: int| 0 <= i < items.len() && !(#[trigger] rewrite_both(items[i], p_rest, kp, q_rest, kq, dir) is Ok);
                            assert(rewrite_both(items[i], q_rest, kq, p_rest, kp, dir) is Ok);
                        }
                    },
                    Json::Object(fs) => {
                        assert forall|i: int| 0 <= i < fs.len() implies same_outcome(
                            #[trigger] rewrite_both(fs[i].1, p_rest, kp, q_rest, kq, dir),
                            rewrite_both(fs[i].1, q_rest, kq, p_rest, kp, dir),
                        ) by {
                            lemma_parted_lists_commute(fs[i].1, p_rest, kp, q_rest, kq, dir);
                        }
                        lemma_members_both(fs, p_rest, kp, q_rest, kq, dir);
                        lemma_members_both(fs, q_rest, kq, p_rest, kp, dir);
                        let r1 = match rewrite_members(fs, p_rest, dir, kp) {
                            Ok(s1) => rewrite_members(s1, q_rest, dir, kq),
                            Err(e) => Err(e),
                        };
                        let r2 = match rewrite_members(fs, q_rest, dir, kq) {
                            Ok(s1) => rewrite_members(s1, p_rest, dir, kp),
                            Err(e) => Err(e),
                        };
                        if r1 is Ok {
                            assert forall|i: int| 0 <= i < fs.len() implies (#[trigger] rewrite_both(fs[i].1, q_rest, kq, p_rest, kp, dir)) is Ok by {
                                assert(rewrite_both(fs[i].1, p_rest, kp, q_rest, kq, dir) is Ok);
                            }
                            assert forall|i: int| 0 <= i < fs.len() implies r1->Ok_0[i] == r2->Ok_0[i] by {
                                assert(same_outcome(
                                    rewrite_both(fs[i].1, p_rest, kp, q_rest, kq, dir),
                                    rewrite_both(fs[i].1, q_rest, kq, p_rest, kp, dir),
                                ));
                            }
                            assert(r1->Ok_0 =~= r2->Ok_0);
                        } else if r2 is Ok {
                            let i = choose|i: int| 0 <= i < fs.len() && !(#[trigger] rewrite_both(fs[i].1, p_rest, kp, q_rest, kq, dir) is Ok);
                            assert(rewrite_both(fs[i].1, q_rest, kq, p_rest, kp, dir) is Ok);
                        }
                    },
                    _ => {},
                }
            },
        }
    }
}

} // verus!
