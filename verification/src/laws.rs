use vstd::prelude::*;

use crate::apply::{add_number, apply_at, apply_last, apply_list, carried, route, Outcome};
use crate::json::{
    append_all, append_spec, check_all, compose_spec, invert_spec, run_operations, run_ops, transform2_spec, Run,
    TransformSide,
};
use crate::operation::{comp_check, merge_op, Comp, Op};
use crate::path::{lemma_common_len, Seg};
use crate::value::{
    json_wf, key_pos, lemma_array_wf, lemma_object_wf, keys_sorted, lemma_obj_insert, lemma_obj_remove, lemma_key_pos_bounds, obj_get,
    obj_has, obj_insert, obj_remove, Entries, Json, lemma_sorted_find, lemma_sorted_pos,
    lemma_key_pos_at, lemma_key_lt_asymmetric, lemma_key_lt_irreflexive, Number,
};

verus! {

/// Every value that an operator carries is well-formed.
pub open spec fn op_wf(op: Op) -> bool {
    match op {
        Op::AddNumber(v) => json_wf(v),
        Op::ListInsert(v) => json_wf(v),
        Op::ListDelete(v) => json_wf(v),
        Op::ListReplace(n, o) => json_wf(n) && json_wf(o),
        Op::ObjectInsert(v) => json_wf(v),
        Op::ObjectDelete(v) => json_wf(v),
        Op::ObjectReplace(n, o) => json_wf(n) && json_wf(o),
        _ => true,
    }
}

/// Setting a key to a well-formed value keeps an object well-formed.
proof fn lemma_insert_wf(e: Entries, k: Seq<char>, v: Json)
    requires
        json_wf(Json::Object(e)),
        json_wf(v),
    ensures
        json_wf(Json::Object(obj_insert(e, k, v))),
{
    lemma_obj_insert(e, k, v);
    lemma_key_pos_bounds(e, k);
    lemma_object_wf(e);
    let e2 = obj_insert(e, k, v);
    lemma_object_wf(e2);
    let p = key_pos(e, k) as int;
    assert forall|i: int| 0 <= i < e2.len() implies json_wf(#[trigger] e2[i].1) by {
        if obj_has(e, k) {
            if i != p {
                assert(e2[i] == e[i]);
            }
        } else {
            if i < p {
                assert(e2[i] == e[i]);
            } else if i > p {
                assert(e2[i] == e[i - 1]);
            }
        }
    }
}

/// Removing a key keeps an object well-formed.
proof fn lemma_remove_wf(e: Entries, k: Seq<char>)
    requires
        json_wf(Json::Object(e)),
    ensures
        json_wf(Json::Object(obj_remove(e, k))),
{
    lemma_obj_remove(e, k);
    lemma_object_wf(e);
    let e2 = obj_remove(e, k);
    lemma_object_wf(e2);
    let p = key_pos(e, k) as int;
    assert forall|i: int| 0 <= i < e2.len() implies json_wf(#[trigger] e2[i].1) by {
        if obj_has(e, k) {
            if i < p {
                assert(e2[i] == e[i]);
            } else {
                assert(e2[i] == e[i + 1]);
            }
        }
    }
}

/// Replacing the value of an entry by a well-formed one keeps an object well-formed.
proof fn lemma_update_value_wf(e: Entries, i: int, c: Json)
    requires
        json_wf(Json::Object(e)),
        0 <= i < e.len(),
        json_wf(c),
    ensures
        json_wf(Json::Object(e.update(i, (e[i].0, c)))),
{
    let e2 = e.update(i, (e[i].0, c));
    lemma_object_wf(e);
    lemma_object_wf(e2);
    assert forall|a: int, b: int| 0 <= a < b < e2.len() implies crate::value::key_lt(
        #[trigger] e2[a].0,
        #[trigger] e2[b].0,
    ) by {
        assert(e2[a].0 == e[a].0 && e2[b].0 == e[b].0);
    }
    assert forall|a: int| 0 <= a < e2.len() implies json_wf(#[trigger] e2[a].1) by {
        if a != i {
            assert(e2[a] == e[a]);
        }
    }
}

proof fn lemma_apply_list_wf(s: Seq<Json>, seg: Seg, op: Op)
    requires
        json_wf(Json::Array(s)),
        op_wf(op),
    ensures
        apply_list(s, seg, op) matches Outcome::Done(j2) ==> json_wf(j2),
{
    lemma_array_wf(s);
    if let Outcome::Done(j2) = apply_list(s, seg, op) {
        let i = seg->Index_0 as int;
        match op {
            Op::ListInsert(v) => {
                assert(json_wf(v));
                if i > s.len() {
                    assert forall|a: int| 0 <= a < s.push(v).len() implies json_wf(
                        #[trigger] s.push(v)[a],
                    ) by {
                        if a < s.len() {
                            assert(s.push(v)[a] == s[a]);
                            assert(json_wf(s[a]));
                        } else {
                            assert(s.push(v)[a] == v);
                        }
                    }
                } else {
                    assert forall|a: int| 0 <= a < s.insert(i, v).len() implies json_wf(
                        #[trigger] s.insert(i, v)[a],
                    ) by {
                        if a < i {
                            assert(s.insert(i, v)[a] == s[a]);
                            assert(json_wf(s[a]));
                        } else if a > i {
                            assert(s.insert(i, v)[a] == s[a - 1]);
                            assert(json_wf(s[a - 1]));
                        } else {
                            assert(s.insert(i, v)[a] == v);
                        }
                    }
                }
            },
            Op::ListDelete(d) => {
                if i < s.len() && s[i] == d {
                    assert forall|a: int| 0 <= a < s.remove(i).len() implies json_wf(
                        #[trigger] s.remove(i)[a],
                    ) by {
                        if a < i {
                            assert(s.remove(i)[a] == s[a]);
                        } else {
                            assert(s.remove(i)[a] == s[a + 1]);
                        }
                    }
                }
            },
            Op::ListReplace(n, o) => {
                if i < s.len() && s[i] == o {
                    assert forall|a: int| 0 <= a < s.update(i, n).len() implies json_wf(
                        #[trigger] s.update(i, n)[a],
                    ) by {
                        if a != i {
                            assert(s.update(i, n)[a] == s[a]);
                        }
                    }
                }
            },
            Op::ListMove(m) => {
                if i < s.len() && i != m {
                    let t = s.remove(i);
                    let u = t.insert(m as int, s[i]);
                    assert forall|a: int| 0 <= a < t.len() implies json_wf(#[trigger] t[a]) by {
                        if a < i {
                            assert(t[a] == s[a]);
                        } else {
                            assert(t[a] == s[a + 1]);
                        }
                    }
                    assert forall|a: int| 0 <= a < u.len() implies json_wf(#[trigger] u[a]) by {
                        if a < m {
                            assert(u[a] == t[a]);
                        } else if a > m {
                            assert(u[a] == t[a - 1]);
                        }
                    }
                }
            },
            Op::AddNumber(v) => {
                let x = match add_number(s[i]->Number_0, v) {
                    Outcome::Done(x) => x,
                    _ => Json::Null,
                };
                assert forall|a: int| 0 <= a < s.update(i, x).len() implies json_wf(
                    #[trigger] s.update(i, x)[a],
                ) by {
                    if a != i {
                        assert(s.update(i, x)[a] == s[a]);
                    }
                }
            },
            _ => {},
        }
        lemma_array_wf(j2->Array_0);
    }
}

proof fn lemma_apply_last_wf(j: Json, p: Seq<Seg>, op: Op)
    requires
        json_wf(j),
        op_wf(op),
    ensures
        apply_last(j, p, op) matches Outcome::Done(j2) ==> json_wf(j2),
    decreases j,
{
    match j {
        Json::Array(s) => {
            if p.len() > 0 {
                lemma_apply_list_wf(s, p[0], op);
            }
        },
        Json::Object(e) => {
            if p.len() > 0 && p[0] is Key {
                let k = p[0]->Key_0;
                match op {
                    Op::AddNumber(v) => {
                        if obj_has(e, k) {
                            let i = key_pos(e, k) as int;
                            lemma_object_wf(e);
                            lemma_apply_last_wf(e[i].1, p, op);
                            if let Outcome::Done(c) = apply_last(e[i].1, p, op) {
                                lemma_update_value_wf(e, i, c);
                            }
                        } else {
                            lemma_insert_wf(e, k, v);
                        }
                    },
                    Op::ObjectInsert(v) => lemma_insert_wf(e, k, v),
                    Op::ObjectDelete(_) => lemma_remove_wf(e, k),
                    Op::ObjectReplace(n, _) => lemma_insert_wf(e, k, n),
                    _ => {},
                }
            }
        },
        _ => {},
    }
}

/// Applying an operator whose values are well-formed to a well-formed value
/// gives a well-formed value: objects keep their keys sorted and unique.
pub proof fn lemma_apply_keeps_wf(j: Json, p: Seq<Seg>, op: Op)
    requires
        json_wf(j),
        op_wf(op),
    ensures
        apply_at(j, p, op) matches Outcome::Done(j2) ==> json_wf(j2),
    decreases p.len(),
{
    if p.len() > 1 {
        match j {
            Json::Array(s) => {
                if p[0] is Index && (p[0]->Index_0 as int) < s.len() {
                    let i = p[0]->Index_0 as int;
                    lemma_array_wf(s);
                    lemma_apply_keeps_wf(s[i], p.drop_first(), op);
                    if let Outcome::Done(c) = apply_at(s[i], p.drop_first(), op) {
                        assert forall|a: int| 0 <= a < s.update(i, c).len() implies json_wf(
                            #[trigger] s.update(i, c)[a],
                        ) by {
                            if a != i {
                                assert(s.update(i, c)[a] == s[a]);
                            }
                        }
                        lemma_array_wf(s.update(i, c));
                    }
                }
            },
            Json::Object(e) => {
                if p[0] is Key && obj_has(e, p[0]->Key_0) {
                    let i = key_pos(e, p[0]->Key_0) as int;
                    lemma_object_wf(e);
                    lemma_apply_keeps_wf(e[i].1, p.drop_first(), op);
                    if let Outcome::Done(c) = apply_at(e[i].1, p.drop_first(), op) {
                        lemma_update_value_wf(e, i, c);
                    }
                }
            },
            _ => {},
        }
    } else {
        lemma_apply_last_wf(j, p, op);
    }
}


/// The value that path `q` leads to through existing array elements and
/// object entries.
pub open spec fn at(j: Json, q: Seq<Seg>) -> Option<Json>
    decreases q.len(),
{
    if q.len() == 0 {
        Some(j)
    } else {
        match j {
            Json::Array(s) => if q[0] is Index && (q[0]->Index_0 as int) < s.len() {
                at(s[q[0]->Index_0 as int], q.drop_first())
            } else {
                None
            },
            Json::Object(e) => if q[0] is Key && obj_has(e, q[0]->Key_0) {
                at(e[key_pos(e, q[0]->Key_0) as int].1, q.drop_first())
            } else {
                None
            },
            _ => None,
        }
    }
}

/// Whether an operator's own step `seg` fits the container `c` so that the
/// operator changes it and its inverse changes it back: an insertion within
/// the array or at a key the object lacks, a removal or replacement of the
/// value that is there, a move between positions of the array.
pub open spec fn undoable_at(c: Json, seg: Seg, op: Op) -> bool {
    match c {
        Json::Array(s) => seg is Index && {
            let i = seg->Index_0 as int;
            match op {
                Op::ListInsert(_) => i <= s.len(),
                Op::ListDelete(d) => i < s.len() && s[i] == d,
                Op::ListReplace(_, o) => i < s.len() && s[i] == o,
                Op::ListMove(m) => i < s.len() && (m as int) < s.len(),
                _ => false,
            }
        },
        Json::Object(e) => seg is Key && {
            let k = seg->Key_0;
            match op {
                Op::ObjectInsert(_) => !obj_has(e, k),
                Op::ObjectDelete(d) => obj_get(e, k) == Some(d),
                Op::ObjectReplace(_, o) => obj_get(e, k) == Some(o),
                _ => false,
            }
        },
        _ => false,
    }
}

/// Whether component `c` fits `j` so that its inverse undoes it.
pub open spec fn undoable(j: Json, c: Comp) -> bool {
    c.path.len() > 0 && match at(j, c.path.drop_last()) {
        Some(cont) => undoable_at(cont, c.path.last(), c.op),
        None => false,
    }
}

/// Entries with the same keys in the same order find a key at the same place.
pub proof fn lemma_same_keys(e1: Entries, e2: Entries, k: Seq<char>)
    requires
        e1.len() == e2.len(),
        forall|i: int| 0 <= i < e1.len() ==> (#[trigger] e1[i]).0 == e2[i].0,
    ensures
        key_pos(e1, k) == key_pos(e2, k),
        obj_has(e1, k) == obj_has(e2, k),
    decreases e1.len(),
{
    if e1.len() > 0 {
        assert(e1[0].0 == e2[0].0);
        assert forall|i: int| 0 <= i < e1.drop_first().len() implies (
        #[trigger] e1.drop_first()[i]).0 == e2.drop_first()[i].0 by {
            assert(e1.drop_first()[i] == e1[i + 1]);
            assert(e2.drop_first()[i] == e2[i + 1]);
        }
        lemma_same_keys(e1.drop_first(), e2.drop_first(), k);
        lemma_key_pos_bounds(e1, k);
        if key_pos(e1, k) < e1.len() {
            assert(e1[key_pos(e1, k) as int].0 == e2[key_pos(e1, k) as int].0);
        }
    }
}

proof fn lemma_list_roundtrip(s: Seq<Json>, i: usize, op: Op, seg2: Seg, op2: Op)
    requires
        undoable_at(Json::Array(s), Seg::Index(i), op),
        op is ListMove ==> seg2 == Seg::Index(op->ListMove_0) && op2 == Op::ListMove(i),
        op is ListInsert ==> seg2 == Seg::Index(i) && op2 == Op::ListDelete(op->ListInsert_0),
        op is ListDelete ==> seg2 == Seg::Index(i) && op2 == Op::ListInsert(op->ListDelete_0),
        op is ListReplace ==> seg2 == Seg::Index(i) && op2 == Op::ListReplace(
            op->ListReplace_1,
            op->ListReplace_0,
        ),
    ensures
        apply_list(s, Seg::Index(i), op) matches Outcome::Done(j1) && j1 is Array && apply_list(
            j1->Array_0,
            seg2,
            op2,
        ) == Outcome::Done(Json::Array(s)),
{
    let ii = i as int;
    match op {
        Op::ListInsert(v) => {
            let s1 = s.insert(ii, v);
            assert(s1.remove(ii) =~= s);
        },
        Op::ListDelete(d) => {
            let s1 = s.remove(ii);
            assert(s1.insert(ii, d) =~= s);
        },
        Op::ListReplace(n, o) => {
            let s1 = s.update(ii, n);
            assert(s1.update(ii, o) =~= s);
        },
        Op::ListMove(m) => {
            if ii != m {
                let s1 = s.remove(ii).insert(m as int, s[ii]);
                assert(s1[m as int] == s[ii]);
                assert(s1.remove(m as int).insert(ii, s1[m as int]) =~= s);
            }
        },
        _ => {},
    }
}

proof fn lemma_object_insert_rt(e: Entries, k: Seq<char>, v: Json)
    requires
        keys_sorted(e),
        !obj_has(e, k),
    ensures
        obj_get(obj_insert(e, k, v), k) == Some(v),
        obj_remove(obj_insert(e, k, v), k) == e,
{
    lemma_key_pos_bounds(e, k);
    let kp = key_pos(e, k) as int;
    let e1 = obj_insert(e, k, v);
    lemma_obj_insert(e, k, v);
    assert(e1 == e.insert(kp, (k, v)));
    lemma_sorted_find(e1, k, kp);
    assert(obj_remove(e1, k) =~= e);
}

proof fn lemma_object_delete_rt(e: Entries, k: Seq<char>, d: Json)
    requires
        keys_sorted(e),
        obj_get(e, k) == Some(d),
    ensures
        !obj_has(obj_remove(e, k), k),
        key_pos(obj_remove(e, k), k) == key_pos(e, k),
        obj_insert(obj_remove(e, k), k, d) == e,
{
    lemma_key_pos_bounds(e, k);
    let kp = key_pos(e, k) as int;
    let e1 = e.remove(kp);
    assert(obj_remove(e, k) == e1);
    lemma_sorted_pos(e, k);
    lemma_obj_remove(e, k);
    assert forall|a: int| 0 <= a < kp implies crate::value::key_lt(#[trigger] e1[a].0, k) by {
        assert(e1[a] == e[a]);
    }
    if kp < e1.len() {
        assert(e1[kp] == e[kp + 1]);
        assert(crate::value::key_lt(e[kp].0, e[kp + 1].0));
        lemma_key_lt_asymmetric(k, e1[kp].0, 0);
    }
    lemma_key_pos_at(e1, k, kp);
    assert(obj_insert(e1, k, d) =~= e);
}

proof fn lemma_object_replace_rt(e: Entries, k: Seq<char>, n: Json, o: Json)
    requires
        obj_get(e, k) == Some(o),
    ensures
        obj_get(obj_insert(e, k, n), k) == Some(n),
        obj_insert(obj_insert(e, k, n), k, o) == e,
{
    lemma_key_pos_bounds(e, k);
    let kp = key_pos(e, k) as int;
    let e1 = e.update(kp, (k, n));
    assert forall|i: int| 0 <= i < e.len() implies (#[trigger] e[i]).0 == e1[i].0 by {}
    lemma_same_keys(e, e1, k);
    assert(obj_insert(e1, k, o) =~= e);
}

proof fn lemma_object_roundtrip(e: Entries, k: Seq<char>, op: Op, op2: Op)
    requires
        json_wf(Json::Object(e)),
        undoable_at(Json::Object(e), Seg::Key(k), op),
        op is ObjectInsert ==> op2 == Op::ObjectDelete(op->ObjectInsert_0),
        op is ObjectDelete ==> op2 == Op::ObjectInsert(op->ObjectDelete_0),
        op is ObjectReplace ==> op2 == Op::ObjectReplace(op->ObjectReplace_1, op->ObjectReplace_0),
    ensures
        apply_last(Json::Object(e), seq![Seg::Key(k)], op) matches Outcome::Done(j1)
            && apply_last(j1, seq![Seg::Key(k)], op2) == Outcome::Done(Json::Object(e)),
{
    lemma_object_wf(e);
    match op {
        Op::ObjectInsert(v) => lemma_object_insert_rt(e, k, v),
        Op::ObjectDelete(d) => lemma_object_delete_rt(e, k, d),
        Op::ObjectReplace(n, o) => lemma_object_replace_rt(e, k, n, o),
        _ => {},
    }
}


/// What a path leads to in a well-formed value is well-formed.
pub proof fn lemma_at_wf(j: Json, q: Seq<Seg>)
    requires
        json_wf(j),
    ensures
        at(j, q) matches Some(c) ==> json_wf(c),
    decreases q.len(),
{
    if q.len() > 0 {
        match j {
            Json::Array(s) => {
                lemma_array_wf(s);
                if q[0] is Index && (q[0]->Index_0 as int) < s.len() {
                    lemma_at_wf(s[q[0]->Index_0 as int], q.drop_first());
                }
            },
            Json::Object(e) => {
                lemma_object_wf(e);
                if q[0] is Key && obj_has(e, q[0]->Key_0) {
                    lemma_at_wf(e[key_pos(e, q[0]->Key_0) as int].1, q.drop_first());
                }
            },
            _ => {},
        }
    }
}

/// Where the last steps of two paths with the same other steps change the
/// container there and change it back, the whole paths change the value and
/// change it back.
proof fn lemma_descend_roundtrip(j: Json, p: Seq<Seg>, op: Op, p2: Seq<Seg>, op2: Op)
    requires
        p.len() >= 1,
        p2.len() == p.len(),
        p2.drop_last() == p.drop_last(),
        at(j, p.drop_last()) matches Some(cont) && (apply_last(cont, seq![p.last()], op) matches Outcome::Done(c1)
            && apply_last(c1, seq![p2.last()], op2) == Outcome::Done(cont)),
    ensures
        apply_at(j, p, op) matches Outcome::Done(j1) && apply_at(j1, p2, op2) == Outcome::Done(j),
    decreases p.len(),
{
    if p.len() == 1 {
        assert(p =~= seq![p.last()]);
        assert(p2 =~= seq![p2.last()]);
    } else {
        let q = p.drop_last();
        assert(q[0] == p[0]);
        assert(p2[0] == p2.drop_last()[0]);
        let pr = p.drop_first();
        let pr2 = p2.drop_first();
        assert(q.drop_first() =~= pr.drop_last());
        assert(pr2.drop_last() =~= p2.drop_last().drop_first());
        assert(pr.last() == p.last());
        assert(pr2.last() == p2.last());
        match j {
            Json::Array(s) => {
                let i = p[0]->Index_0 as int;
                lemma_descend_roundtrip(s[i], pr, op, pr2, op2);
                if let Outcome::Done(c1) = apply_at(s[i], pr, op) {
                    let s1 = s.update(i, c1);
                    assert(s1[i] == c1);
                    assert(s1.update(i, s[i]) =~= s);
                }
            },
            Json::Object(e) => {
                let k = p[0]->Key_0;
                let i = key_pos(e, k) as int;
                lemma_key_pos_bounds(e, k);
                lemma_descend_roundtrip(e[i].1, pr, op, pr2, op2);
                if let Outcome::Done(c1) = apply_at(e[i].1, pr, op) {
                    let e1 = e.update(i, (e[i].0, c1));
                    assert forall|a: int| 0 <= a < e.len() implies (#[trigger] e[a]).0 == e1[a].0 by {}
                    lemma_same_keys(e, e1, k);
                    assert(e1.update(i, (e1[i].0, e[i].1)) =~= e);
                }
            },
            _ => {},
        }
    }
}

/// Applying a component that fits the value so that it can be undone, and then
/// the component that `invert` gives for it, gives back the value.
pub proof fn lemma_invert_undoes(j: Json, c: Comp, c2: Comp)
    requires
        json_wf(j),
        undoable(j, c),
        invert_spec(c) == Outcome::Done(c2),
    ensures
        apply_at(j, c.path, c.op) matches Outcome::Done(j1) && apply_at(j1, c2.path, c2.op)
            == Outcome::Done(j),
{
    let q = c.path.drop_last();
    let cont = at(j, q)->0;
    lemma_at_wf(j, q);
    let seg = c.path.last();
    assert(c2.path.len() == c.path.len());
    assert(c2.path.drop_last() =~= q);
    let seg2 = c2.path.last();
    match cont {
        Json::Array(s) => {
            lemma_list_roundtrip(s, seg->Index_0, c.op, seg2, c2.op);
        },
        Json::Object(e) => {
            assert(seg2 == seg);
            lemma_object_roundtrip(e, seg->Key_0, c.op, c2.op);
        },
        _ => {},
    }
    lemma_descend_roundtrip(j, c.path, c.op, c2.path, c2.op);
}


/// The value that an operator writes at step `seg` of container `c`, where it
/// writes one: an insertion within an array or into an object, or a
/// replacement of the value that is there.
pub open spec fn written(c: Json, seg: Seg, op: Op) -> Option<Json> {
    match (c, op) {
        (Json::Array(s), Op::ListInsert(v)) => if seg is Index && (seg->Index_0 as int) <= s.len() {
            Some(v)
        } else {
            None
        },
        (Json::Array(s), Op::ListReplace(n, o)) => if seg is Index && (seg->Index_0 as int) < s.len()
            && s[seg->Index_0 as int] == o {
            Some(n)
        } else {
            None
        },
        (Json::Object(_), Op::ObjectInsert(v)) => if seg is Key {
            Some(v)
        } else {
            None
        },
        (Json::Object(e), Op::ObjectReplace(n, o)) => if seg is Key && obj_get(e, seg->Key_0) == Some(
            o,
        ) {
            Some(n)
        } else {
            None
        },
        _ => None,
    }
}

/// Sorted entries stay sorted when a value changes and the keys stay.
proof fn lemma_update_keeps_sorted(e: Entries, i: int, c: Json)
    requires
        keys_sorted(e),
        0 <= i < e.len(),
    ensures
        keys_sorted(e.update(i, (e[i].0, c))),
{
    let e1 = e.update(i, (e[i].0, c));
    assert forall|a: int, b: int| 0 <= a < b < e1.len() implies crate::value::key_lt(
        #[trigger] e1[a].0,
        #[trigger] e1[b].0,
    ) by {
        assert(e1[a].0 == e[a].0 && e1[b].0 == e[b].0);
    }
}

/// Where a component writes a value at a path that leads to an existing
/// container, reading the path afterwards gives the value written.
pub proof fn lemma_read_after_write(j: Json, p: Seq<Seg>, op: Op, v: Json)
    requires
        json_wf(j),
        p.len() >= 1,
        at(j, p.drop_last()) matches Some(cont) && written(cont, p.last(), op) == Some(v),
    ensures
        apply_at(j, p, op) matches Outcome::Done(j1) && route(j1, p) == Ok::<Option<Json>, crate::error::JsonErr>(Some(v)),
    decreases p.len(),
{
    if p.len() == 1 {
        assert(p =~= seq![p.last()]);
        match j {
            Json::Array(s) => {
                let i = p[0]->Index_0 as int;
                match op {
                    Op::ListInsert(_) => assert(s.insert(i, v)[i] == v),
                    _ => {},
                }
            },
            Json::Object(e) => {
                let k = p[0]->Key_0;
                lemma_object_wf(e);
                match op {
                    Op::ObjectInsert(_) => lemma_obj_insert(e, k, v),
                    Op::ObjectReplace(_, _) => lemma_obj_insert(e, k, v),
                    _ => {},
                }
            },
            _ => {},
        }
    } else {
        let q = p.drop_last();
        assert(q[0] == p[0]);
        let pr = p.drop_first();
        assert(q.drop_first() =~= pr.drop_last());
        assert(pr.last() == p.last());
        match j {
            Json::Array(s) => {
                let i = p[0]->Index_0 as int;
                lemma_array_wf(s);
                lemma_read_after_write(s[i], pr, op, v);
            },
            Json::Object(e) => {
                let k = p[0]->Key_0;
                let i = key_pos(e, k) as int;
                lemma_key_pos_bounds(e, k);
                lemma_object_wf(e);
                lemma_read_after_write(e[i].1, pr, op, v);
                if let Outcome::Done(c1) = apply_at(e[i].1, pr, op) {
                    let e1 = e.update(i, (e[i].0, c1));
                    lemma_update_keeps_sorted(e, i, c1);
                    lemma_sorted_find(e1, k, i);
                }
            },
            _ => {},
        }
    }
}

/// Running components whose values are well-formed keeps a well-formed
/// document well-formed, also where a component stops the run with an error.
pub proof fn lemma_run_keeps_wf(j: Json, ops: Seq<Comp>)
    requires
        json_wf(j),
        forall|i: int| 0 <= i < ops.len() ==> op_wf(#[trigger] ops[i].op),
    ensures
        run_ops(j, ops) matches Run::Finished(j2) ==> json_wf(j2),
        run_ops(j, ops) matches Run::Stopped(_, j2) ==> json_wf(j2),
    decreases ops.len(),
{
    if ops.len() > 0 {
        lemma_apply_keeps_wf(j, ops[0].path, ops[0].op);
        if let Outcome::Done(j2) = apply_at(j, ops[0].path, ops[0].op) {
            assert forall|i: int| 0 <= i < ops.drop_first().len() implies op_wf(
                #[trigger] ops.drop_first()[i].op,
            ) by {
                assert(ops.drop_first()[i] == ops[i + 1]);
            }
            lemma_run_keeps_wf(j2, ops.drop_first());
        }
    }
}

/// Applying operations whose values are well-formed, as `JSON::apply` does,
/// keeps a well-formed document well-formed.
pub proof fn lemma_operations_keep_wf(j: Json, ops: Seq<Seq<Comp>>)
    requires
        json_wf(j),
        forall|i: int, k: int|
            0 <= i < ops.len() && 0 <= k < ops[i].len() ==> op_wf(#[trigger] ops[i][k].op),
    ensures
        run_operations(j, ops) matches Run::Finished(j2) ==> json_wf(j2),
        run_operations(j, ops) matches Run::Stopped(_, j2) ==> json_wf(j2),
    decreases ops.len(),
{
    if ops.len() > 0 {
        assert forall|k: int| 0 <= k < ops[0].len() implies op_wf(#[trigger] ops[0][k].op) by {}
        lemma_run_keeps_wf(j, ops[0]);
        if let Run::Finished(j2) = run_ops(j, ops[0]) {
            assert forall|i: int, k: int|
                0 <= i < ops.drop_first().len() && 0 <= k < ops.drop_first()[i].len() implies op_wf(
                #[trigger] ops.drop_first()[i][k].op,
            ) by {
                assert(ops.drop_first()[i] == ops[i + 1]);
            }
            lemma_operations_keep_wf(j2, ops.drop_first());
        }
    }
}


pub open spec fn add_op(x: u64) -> Op {
    Op::AddNumber(Json::Number(Number::PosInt(x)))
}

/// Inserting a key puts it where `key_pos` finds it.
proof fn lemma_insert_finds(e: Entries, k: Seq<char>, v: Json)
    requires
        !obj_has(e, k),
    ensures
        obj_has(obj_insert(e, k, v), k),
        key_pos(obj_insert(e, k, v), k) == key_pos(e, k),
{
    lemma_key_pos_bounds(e, k);
    let kp = key_pos(e, k) as int;
    let e1 = obj_insert(e, k, v);
    assert forall|a: int| 0 <= a < kp implies crate::value::key_lt(#[trigger] e1[a].0, k) by {
        assert(e1[a] == e[a]);
    }
    lemma_key_lt_irreflexive(k, 0);
    lemma_key_pos_at(e1, k, kp);
}

spec fn add_agree_last(j: Json, p: Seq<Seg>, x: u64, y: u64) -> bool {
    match apply_last(j, p, add_op(x)) {
        Outcome::Done(j1) => apply_last(j1, p, add_op(y)) == apply_last(j, p, add_op((x + y) as u64))
            && !(apply_last(j, p, add_op((x + y) as u64)) is Fail),
        Outcome::Fail(e) => apply_last(j, p, add_op((x + y) as u64)) == Outcome::<Json>::Fail(e),
        Outcome::Panic => apply_last(j, p, add_op((x + y) as u64)) is Panic,
    }
}

proof fn lemma_add_last(j: Json, p: Seq<Seg>, x: u64, y: u64)
    requires
        p.len() <= 1,
        x + y <= u64::MAX,
    ensures
        match apply_last(j, p, add_op(x)) {
            Outcome::Done(j1) => apply_last(j1, p, add_op(y)) == apply_last(j, p, add_op((x + y) as u64))
                && !(apply_last(j, p, add_op((x + y) as u64)) is Fail),
            Outcome::Fail(e) => apply_last(j, p, add_op((x + y) as u64)) == Outcome::<Json>::Fail(e),
            Outcome::Panic => apply_last(j, p, add_op((x + y) as u64)) is Panic,
        },
    decreases j,
{
    let m = (x + y) as u64;
    match j {
        Json::Array(s) => {
            if p.len() == 1 && p[0] is Index {
                let i = p[0]->Index_0 as int;
                if i < s.len() {
                    match s[i] {
                        Json::Number(Number::PosInt(n)) => {
                            if n + x <= u64::MAX {
                                let nx = (n + x) as u64;
                                let s1 = s.update(i, Json::Number(Number::PosInt(nx)));
                                assert(apply_last(j, p, add_op(x)) == Outcome::Done(Json::Array(s1)));
                                assert(s1[i] == Json::Number(Number::PosInt(nx)));
                                assert(nx + y == n + m);
                                if nx + y <= u64::MAX {
                                    let s2 = s1.update(i, Json::Number(Number::PosInt((nx + y) as u64)));
                                    assert(apply_last(Json::Array(s1), p, add_op(y)) == Outcome::Done(
                                        Json::Array(s2),
                                    ));
                                    assert(s2 =~= s.update(i, Json::Number(Number::PosInt((n + m) as u64))));
                                    assert(apply_last(j, p, add_op(m)) == Outcome::Done(Json::Array(s2)));
                                } else {
                                    assert(apply_last(Json::Array(s1), p, add_op(y)) is Panic);
                                    assert(apply_last(j, p, add_op(m)) is Panic);
                                }
                            } else {
                                assert(apply_last(j, p, add_op(x)) is Panic);
                                assert(apply_last(j, p, add_op(m)) is Panic);
                            }
                        },
                        Json::Number(Number::NegInt(_)) => {
                            assert(apply_last(j, p, add_op(x)) is Panic);
                            assert(apply_last(j, p, add_op(m)) is Panic);
                        },
                        _ => {
                            assert(apply_last(j, p, add_op(x)) == Outcome::<Json>::Fail(
                                crate::error::JsonErr::BadPath,
                            ));
                            assert(apply_last(j, p, add_op(m)) == Outcome::<Json>::Fail(
                                crate::error::JsonErr::BadPath,
                            ));
                        },
                    }
                    assert(add_agree_last(j, p, x, y));
                } else {
                    assert(apply_last(j, p, add_op(x)) is Panic);
                    assert(apply_last(j, p, add_op(m)) is Panic);
                }
            } else if p.len() == 1 {
                assert(apply_last(j, p, add_op(x)) == Outcome::<Json>::Fail(crate::error::JsonErr::BadPath));
                assert(apply_last(j, p, add_op(m)) == Outcome::<Json>::Fail(crate::error::JsonErr::BadPath));
            }
            assert(add_agree_last(j, p, x, y));
        },
        Json::Object(e) => {
            if p.len() == 1 && p[0] is Key {
                let k = p[0]->Key_0;
                lemma_key_pos_bounds(e, k);
                let i = key_pos(e, k) as int;
                if obj_has(e, k) {
                    lemma_add_last(e[i].1, p, x, y);
                    match apply_last(e[i].1, p, add_op(x)) {
                        Outcome::Done(c1) => {
                            let e1 = e.update(i, (k, c1));
                            assert(apply_last(j, p, add_op(x)) == Outcome::Done(Json::Object(e1)));
                            assert forall|a: int| 0 <= a < e.len() implies (#[trigger] e[a]).0
                                == e1[a].0 by {}
                            lemma_same_keys(e, e1, k);
                            assert(e1[i].1 == c1);
                            match apply_last(c1, p, add_op(y)) {
                                Outcome::Done(c2) => {
                                    assert(e1.update(i, (k, c2)) =~= e.update(i, (k, c2)));
                                    assert(apply_last(Json::Object(e1), p, add_op(y)) == Outcome::Done(
                                        Json::Object(e.update(i, (k, c2))),
                                    ));
                                    assert(apply_last(j, p, add_op(m)) == Outcome::Done(
                                        Json::Object(e.update(i, (k, c2))),
                                    ));
                                },
                                Outcome::Fail(er) => {
                                    assert(apply_last(Json::Object(e1), p, add_op(y)) == Outcome::<
                                        Json,
                                    >::Fail(er));
                                },
                                Outcome::Panic => {
                                    assert(apply_last(Json::Object(e1), p, add_op(y)) is Panic);
                                    assert(apply_last(j, p, add_op(m)) is Panic);
                                },
                            }
                        },
                        Outcome::Fail(er) => {
                            assert(apply_last(j, p, add_op(x)) == Outcome::<Json>::Fail(er));
                            assert(apply_last(j, p, add_op(m)) == Outcome::<Json>::Fail(er));
                        },
                        Outcome::Panic => {
                            assert(apply_last(j, p, add_op(x)) is Panic);
                            assert(apply_last(j, p, add_op(m)) is Panic);
                        },
                    }
                } else {
                    let vx = Json::Number(Number::PosInt(x));
                    let e1 = obj_insert(e, k, vx);
                    lemma_insert_finds(e, k, vx);
                    assert(e1[i] == (k, vx));
                    assert(apply_last(j, p, add_op(x)) == Outcome::Done(Json::Object(e1)));
                    assert(apply_last(vx, p, add_op(y)) == Outcome::Done(Json::Number(Number::PosInt(m))));
                    assert(e1.update(i, (k, Json::Number(Number::PosInt(m)))) =~= obj_insert(
                        e,
                        k,
                        Json::Number(Number::PosInt(m)),
                    ));
                    assert(apply_last(Json::Object(e1), p, add_op(y)) == Outcome::Done(
                        Json::Object(obj_insert(e, k, Json::Number(Number::PosInt(m)))),
                    ));
                }
            } else if p.len() == 1 {
                assert(apply_last(j, p, add_op(x)) == Outcome::<Json>::Fail(crate::error::JsonErr::BadPath));
                assert(apply_last(j, p, add_op(m)) == Outcome::<Json>::Fail(crate::error::JsonErr::BadPath));
            }
            assert(add_agree_last(j, p, x, y));
        },
        Json::Number(Number::PosInt(n)) => {
            if n + x <= u64::MAX {
                let nx = (n + x) as u64;
                assert(apply_last(j, p, add_op(x)) == Outcome::Done(Json::Number(Number::PosInt(nx))));
                assert(nx + y == n + m);
                if nx + y <= u64::MAX {
                    assert(apply_last(Json::Number(Number::PosInt(nx)), p, add_op(y)) == Outcome::Done(
                        Json::Number(Number::PosInt((n + m) as u64)),
                    ));
                    assert(apply_last(j, p, add_op(m)) == Outcome::Done(
                        Json::Number(Number::PosInt((n + m) as u64)),
                    ));
                } else {
                    assert(apply_last(j, p, add_op(m)) is Panic);
                }
            } else {
                assert(apply_last(j, p, add_op(m)) is Panic);
            }
            assert(add_agree_last(j, p, x, y));
        },
        _ => {
            assert(add_agree_last(j, p, x, y));
        },
    }
}

proof fn lemma_add_at(j: Json, p: Seq<Seg>, x: u64, y: u64)
    requires
        x + y <= u64::MAX,
    ensures
        match apply_at(j, p, add_op(x)) {
            Outcome::Done(j1) => apply_at(j1, p, add_op(y)) == apply_at(j, p, add_op((x + y) as u64))
                && !(apply_at(j, p, add_op((x + y) as u64)) is Fail),
            Outcome::Fail(e) => apply_at(j, p, add_op((x + y) as u64)) == Outcome::<Json>::Fail(e),
            Outcome::Panic => apply_at(j, p, add_op((x + y) as u64)) is Panic,
        },
    decreases p.len(),
{
    if p.len() > 1 {
        let pr = p.drop_first();
        match j {
            Json::Array(s) => {
                if p[0] is Index && (p[0]->Index_0 as int) < s.len() {
                    let i = p[0]->Index_0 as int;
                    lemma_add_at(s[i], pr, x, y);
                    if let Outcome::Done(c1) = apply_at(s[i], pr, add_op(x)) {
                        let s1 = s.update(i, c1);
                        assert(s1[i] == c1);
                        if let Outcome::Done(c2) = apply_at(c1, pr, add_op(y)) {
                            assert(s1.update(i, c2) =~= s.update(i, c2));
                        }
                    }
                }
            },
            Json::Object(e) => {
                if p[0] is Key && obj_has(e, p[0]->Key_0) {
                    let k = p[0]->Key_0;
                    lemma_key_pos_bounds(e, k);
                    let i = key_pos(e, k) as int;
                    lemma_add_at(e[i].1, pr, x, y);
                    if let Outcome::Done(c1) = apply_at(e[i].1, pr, add_op(x)) {
                        let e1 = e.update(i, (e[i].0, c1));
                        assert forall|a: int| 0 <= a < e.len() implies (#[trigger] e[a]).0 == e1[a].0 by {}
                        lemma_same_keys(e, e1, k);
                        if let Outcome::Done(c2) = apply_at(c1, pr, add_op(y)) {
                            assert(e1.update(i, (e1[i].0, c2)) =~= e.update(i, (e[i].0, c2)));
                        }
                    }
                }
            },
            _ => {},
        }
    } else {
        lemma_add_last(j, p, x, y);
    }
}

/// Two additions at one path that `append` folds into one addition do, when
/// run, what the one addition does.
pub proof fn lemma_merged_additions(j: Json, p: Seq<Seg>, x: u64, y: u64)
    requires
        x + y <= u64::MAX,
    ensures
        merge_op(add_op(x), add_op(y)) == Some(add_op((x + y) as u64)),
        run_ops(j, seq![Comp { path: p, op: add_op(x) }, Comp { path: p, op: add_op(y) }])
            == run_ops(j, seq![Comp { path: p, op: add_op((x + y) as u64) }]),
{
    let c1 = Comp { path: p, op: add_op(x) };
    let c2 = Comp { path: p, op: add_op(y) };
    let cm = Comp { path: p, op: add_op((x + y) as u64) };
    lemma_add_at(j, p, x, y);
    let two = seq![c1, c2];
    let one = seq![cm];
    reveal_with_fuel(run_ops, 3);
    assert(two.drop_first() =~= seq![c2]);
    assert(seq![c2].drop_first() =~= Seq::<Comp>::empty());
    assert(one.drop_first() =~= Seq::<Comp>::empty());
}


/// `j` with the value at path `q` replaced by `c`.
pub open spec fn put_at(j: Json, q: Seq<Seg>, c: Json) -> Json
    decreases q.len(),
{
    if q.len() == 0 {
        c
    } else {
        match j {
            Json::Array(s) => if q[0] is Index && (q[0]->Index_0 as int) < s.len() {
                let i = q[0]->Index_0 as int;
                Json::Array(s.update(i, put_at(s[i], q.drop_first(), c)))
            } else {
                j
            },
            Json::Object(e) => if q[0] is Key && obj_has(e, q[0]->Key_0) {
                let i = key_pos(e, q[0]->Key_0) as int;
                Json::Object(e.update(i, (e[i].0, put_at(e[i].1, q.drop_first(), c))))
            } else {
                j
            },
            _ => j,
        }
    }
}

/// Applying at a path is applying at the container it leads to, put back.
proof fn lemma_apply_via_container(j: Json, q: Seq<Seg>, seg: Seg, op: Op)
    requires
        at(j, q) is Some,
    ensures
        apply_at(j, q.push(seg), op) == match apply_last(at(j, q)->0, seq![seg], op) {
            Outcome::Done(c1) => Outcome::Done(put_at(j, q, c1)),
            o => o,
        },
    decreases q.len(),
{
    let p = q.push(seg);
    if q.len() == 0 {
        assert(p =~= seq![seg]);
    } else {
        assert(p[0] == q[0]);
        assert(p.drop_first() =~= q.drop_first().push(seg));
        match j {
            Json::Array(s) => {
                let i = q[0]->Index_0 as int;
                lemma_apply_via_container(s[i], q.drop_first(), seg, op);
            },
            Json::Object(e) => {
                let i = key_pos(e, q[0]->Key_0) as int;
                lemma_apply_via_container(e[i].1, q.drop_first(), seg, op);
            },
            _ => {},
        }
    }
}

/// Putting a value at an existing path and reading it back gives the value;
/// putting twice keeps the second value.
proof fn lemma_put_at(j: Json, q: Seq<Seg>, c1: Json, c2: Json)
    requires
        at(j, q) is Some,
    ensures
        at(put_at(j, q, c1), q) == Some(c1),
        put_at(put_at(j, q, c1), q, c2) == put_at(j, q, c2),
    decreases q.len(),
{
    if q.len() > 0 {
        match j {
            Json::Array(s) => {
                let i = q[0]->Index_0 as int;
                lemma_put_at(s[i], q.drop_first(), c1, c2);
                let s1 = s.update(i, put_at(s[i], q.drop_first(), c1));
                assert(s1.update(i, put_at(s1[i], q.drop_first(), c2)) =~= s.update(
                    i,
                    put_at(s[i], q.drop_first(), c2),
                ));
            },
            Json::Object(e) => {
                let k = q[0]->Key_0;
                lemma_key_pos_bounds(e, k);
                let i = key_pos(e, k) as int;
                lemma_put_at(e[i].1, q.drop_first(), c1, c2);
                let e1 = e.update(i, (e[i].0, put_at(e[i].1, q.drop_first(), c1)));
                assert forall|a: int| 0 <= a < e.len() implies (#[trigger] e[a]).0 == e1[a].0 by {}
                lemma_same_keys(e, e1, k);
                assert(e1.update(i, (e1[i].0, put_at(e1[i].1, q.drop_first(), c2))) =~= e.update(
                    i,
                    (e[i].0, put_at(e[i].1, q.drop_first(), c2)),
                ));
            },
            _ => {},
        }
    }
}

/// Two insertions into one array, each made after the other one's transformed
/// form, give the same array.
proof fn lemma_two_inserts(s: Seq<Json>, i: int, k: int, x: Json, y: Json)
    requires
        0 <= i <= s.len(),
        0 <= k <= s.len(),
    ensures
        i < k ==> s.insert(i, x).insert(k + 1, y) == s.insert(k, y).insert(i, x),
        i > k ==> s.insert(i, x).insert(k, y) == s.insert(k, y).insert(i + 1, x),
        i == k ==> s.insert(i, x).insert(k + 1, y) == s.insert(k, y).insert(i, x),
{
    if i < k {
        assert(s.insert(i, x).insert(k + 1, y) =~= s.insert(k, y).insert(i, x));
    } else if i > k {
        assert(s.insert(i, x).insert(k, y) =~= s.insert(k, y).insert(i + 1, x));
    } else {
        assert(s.insert(i, x).insert(k + 1, y) =~= s.insert(k, y).insert(i, x));
    }
}

/// Concurrent insertions into one array below the document's top: applying
/// either one and then the other transformed against it (the first one on the
/// left side, the second on the right) gives the same document.
pub proof fn lemma_concurrent_inserts_converge(j: Json, q: Seq<Seg>, i: usize, k: usize, x: Json, y: Json)
    requires
        q.len() > 0,
        at(j, q) matches Some(Json::Array(s)) && i <= s.len() && k <= s.len(),
        i < usize::MAX,
        k < usize::MAX,
    ensures
        ({
            let a = Comp { path: q.push(Seg::Index(i)), op: Op::ListInsert(x) };
            let b = Comp { path: q.push(Seg::Index(k)), op: Op::ListInsert(y) };
            &&& transform2_spec(b, a, TransformSide::LEFT) matches Outcome::Done(a2)
            &&& transform2_spec(a, b, TransformSide::RIGHT) matches Outcome::Done(b2)
            &&& apply_at(j, a.path, a.op) matches Outcome::Done(ja)
            &&& apply_at(j, b.path, b.op) matches Outcome::Done(jb)
            &&& apply_at(ja, b2.path, b2.op) matches Outcome::Done(r)
            &&& apply_at(jb, a2.path, a2.op) == Outcome::Done(r)
        }),
{
    let s = at(j, q)->0->Array_0;
    let pa = q.push(Seg::Index(i));
    let pb = q.push(Seg::Index(k));
    let a = Comp { path: pa, op: Op::ListInsert(x) };
    let b = Comp { path: pb, op: Op::ListInsert(y) };
    let n = q.len() as int;
    assert(pa.take(n) =~= q);
    assert(pb.take(n) =~= q);
    assert(pa.drop_last() =~= q);
    assert(pb.drop_last() =~= q);
    if i == k {
        assert(pa =~= pb);
        assert(pa.take(n + 1) =~= pa);
        lemma_common_len(pa, pb, n + 1);
        lemma_common_len(pb, pa, n + 1);
    } else {
        lemma_common_len(pa, pb, n);
        lemma_common_len(pb, pa, n);
    }
    let pa1 = q.push(Seg::Index((i + 1) as usize));
    let pb1 = q.push(Seg::Index((k + 1) as usize));
    assert(pa.drop_last().push(Seg::Index((i + 1) as usize)) =~= pa1);
    assert(pb.drop_last().push(Seg::Index((k + 1) as usize)) =~= pb1);
    let a2_path = if k <= i && i != k { pa1 } else { pa };
    let b2_path = if i <= k { pb1 } else { pb };
    assert(transform2_spec(b, a, TransformSide::LEFT) == Outcome::Done(
        Comp { path: a2_path, op: Op::ListInsert(x) },
    ));
    assert(transform2_spec(a, b, TransformSide::RIGHT) == Outcome::Done(
        Comp { path: b2_path, op: Op::ListInsert(y) },
    ));
    let ii = i as int;
    let kk = k as int;
    let sa = s.insert(ii, x);
    let sb = s.insert(kk, y);
    lemma_apply_via_container(j, q, Seg::Index(i), a.op);
    lemma_apply_via_container(j, q, Seg::Index(k), b.op);
    let ja = put_at(j, q, Json::Array(sa));
    let jb = put_at(j, q, Json::Array(sb));
    lemma_put_at(j, q, Json::Array(sa), Json::Array(sa));
    lemma_put_at(j, q, Json::Array(sb), Json::Array(sb));
    assert(at(ja, q) is Some);
    assert(at(jb, q) is Some);
    let b2_seg = b2_path.last();
    let a2_seg = a2_path.last();
    assert(b2_path =~= q.push(b2_seg));
    assert(a2_path =~= q.push(a2_seg));
    lemma_apply_via_container(ja, q, b2_seg, b.op);
    lemma_apply_via_container(jb, q, a2_seg, a.op);
    lemma_two_inserts(s, ii, kk, x, y);
    let fin = if ii < kk || ii == kk {
        sa.insert(kk + 1, y)
    } else {
        sa.insert(kk, y)
    };
    lemma_put_at(j, q, Json::Array(sa), Json::Array(fin));
    lemma_put_at(j, q, Json::Array(sb), Json::Array(fin));
}


/// Composing a valid operation with nothing gives the operation back.
pub proof fn lemma_compose_nothing(a: Seq<Comp>)
    requires
        check_all(a) is Ok,
    ensures
        compose_spec(a, Seq::empty()) == Ok::<Seq<Comp>, crate::error::JsonErr>(a),
{
}

/// Appending a valid component to an empty operation gives the operation that
/// holds just that component, unless it moves an element to where it already is.
pub proof fn lemma_append_to_nothing(c: Comp)
    requires
        crate::operation::comp_check(c) is Ok,
        !(c.op is ListMove && c.path.last() == Seg::Index(c.op->ListMove_0)),
    ensures
        append_spec(Seq::empty(), c) == Ok::<Seq<Comp>, crate::error::JsonErr>(seq![c]),
{
}


/// Inverting the inverse of a component with well-formed values gives the
/// component back.
pub proof fn lemma_invert_twice(c: Comp, c2: Comp)
    requires
        op_wf(c.op),
        invert_spec(c) == Outcome::Done(c2),
    ensures
        invert_spec(c2) == Outcome::Done(c),
{
    match c.op {
        Op::ListMove(m) => {
            let n = c.path.len() - 1;
            assert(c2.path.last() == Seg::Index(m));
            assert(c2.path.update(n, c.path.last()) =~= c.path);
        },
        _ => {},
    }
}


/// Running the components of `a` and then those of `b` is running `a`, and,
/// where that finishes, running `b` on what it left.
pub proof fn lemma_run_concat(j: Json, a: Seq<Comp>, b: Seq<Comp>)
    ensures
        run_ops(j, a + b) == match run_ops(j, a) {
            Run::Finished(j1) => run_ops(j1, b),
            other => other,
        },
    decreases a.len(),
{
    if a.len() == 0 {
        assert(a + b =~= b);
    } else {
        assert((a + b)[0] == a[0]);
        assert((a + b).drop_first() =~= a.drop_first() + b);
        if let Outcome::Done(j2) = apply_at(j, a[0].path, a[0].op) {
            lemma_run_concat(j2, a.drop_first(), b);
        }
    }
}

/// Applying two operations in one call, applying their concatenation, and
/// applying the first and then, where it finishes, the second, all end alike:
/// with the same result and the same document.
pub proof fn lemma_operations_concat(j: Json, o1: Seq<Comp>, o2: Seq<Comp>)
    ensures
        run_operations(j, seq![o1, o2]) == run_operations(j, seq![o1 + o2]),
        run_operations(j, seq![o1, o2]) == match run_operations(j, seq![o1]) {
            Run::Finished(j1) => run_operations(j1, seq![o2]),
            other => other,
        },
{
    reveal_with_fuel(run_operations, 3);
    assert(seq![o1, o2].drop_first() =~= seq![o2]);
    assert(seq![o2].drop_first() =~= Seq::<Seq<Comp>>::empty());
    assert(seq![o1].drop_first() =~= Seq::<Seq<Comp>>::empty());
    assert(seq![o1 + o2].drop_first() =~= Seq::<Seq<Comp>>::empty());
    lemma_run_concat(j, o1, o2);
    if let Run::Finished(j1) = run_ops(j, o1) {
        assert(seq![o2][0] == o2);
    }
}

/// Putting back the value that a path leads to changes nothing.
proof fn lemma_put_at_self(j: Json, q: Seq<Seg>)
    requires
        at(j, q) is Some,
    ensures
        put_at(j, q, at(j, q)->0) == j,
    decreases q.len(),
{
    if q.len() > 0 {
        match j {
            Json::Array(s) => {
                let i = q[0]->Index_0 as int;
                lemma_put_at_self(s[i], q.drop_first());
                assert(s.update(i, s[i]) =~= s);
            },
            Json::Object(e) => {
                let i = key_pos(e, q[0]->Key_0) as int;
                lemma_put_at_self(e[i].1, q.drop_first());
                assert(e.update(i, (e[i].0, e[i].1)) =~= e);
            },
            _ => {},
        }
    }
}

/// Where a path does not lead to an existing value, applying any operator one
/// step below it fails with a bad path.
proof fn lemma_apply_unreached(j: Json, q: Seq<Seg>, seg: Seg, op: Op)
    requires
        at(j, q) is None,
    ensures
        apply_at(j, q.push(seg), op) == Outcome::<Json>::Fail(crate::error::JsonErr::BadPath),
    decreases q.len(),
{
    let p = q.push(seg);
    assert(p[0] == q[0]);
    assert(p.drop_first() =~= q.drop_first().push(seg));
    match j {
        Json::Array(s) => {
            if q[0] is Index && (q[0]->Index_0 as int) < s.len() {
                lemma_apply_unreached(s[q[0]->Index_0 as int], q.drop_first(), seg, op);
            }
        },
        Json::Object(e) => {
            if q[0] is Key && obj_has(e, q[0]->Key_0) {
                lemma_apply_unreached(e[key_pos(e, q[0]->Key_0) as int].1, q.drop_first(), seg, op);
            }
        },
        _ => {},
    }
}

/// Setting a key to the value it holds changes nothing.
proof fn lemma_obj_insert_same(e: Entries, k: Seq<char>, v: Json)
    requires
        obj_get(e, k) == Some(v),
    ensures
        obj_insert(e, k, v) == e,
{
    let kp = key_pos(e, k) as int;
    assert(e.update(kp, (k, v)) =~= e);
}

/// Setting a key twice is setting it to the second value.
proof fn lemma_obj_insert_twice(e: Entries, k: Seq<char>, v: Json, n: Json)
    ensures
        obj_insert(obj_insert(e, k, v), k, n) == obj_insert(e, k, n),
{
    lemma_key_pos_bounds(e, k);
    let kp = key_pos(e, k) as int;
    if obj_has(e, k) {
        let e1 = e.update(kp, (k, v));
        assert forall|a: int| 0 <= a < e.len() implies (#[trigger] e[a]).0 == e1[a].0 by {}
        lemma_same_keys(e, e1, k);
        assert(e1.update(kp, (k, n)) =~= e.update(kp, (k, n)));
    } else {
        lemma_insert_finds(e, k, v);
        assert(e.insert(kp, (k, v)).update(kp, (k, n)) =~= e.insert(kp, (k, n)));
    }
}

/// The condition on container `cont` under which the change `l` at step `seg`
/// followed by the change `c` there do what the operator that `merge_op` folds
/// them into does (for a fold into nothing: leave the container as it was).
/// Where the container is not of the kind the two changes work on, both
/// changes and their fold fail alike, so only a fold into nothing asks for
/// the right kind.
pub open spec fn fold_fits(cont: Json, seg: Seg, l: Op, c: Op) -> bool {
    match (l, c) {
        (Op::ListInsert(_), Op::ListDelete(_)) => match cont {
            Json::Array(s) => seg is Index && (seg->Index_0 as int) <= s.len(),
            _ => false,
        },
        (Op::ListReplace(n, o), Op::ListDelete(_)) => match cont {
            Json::Array(s) => seg is Index ==> {
                let i = seg->Index_0 as int;
                !(i < s.len() && s[i] != o && s[i] == n)
            },
            _ => true,
        },
        (Op::ObjectDelete(o), Op::ObjectInsert(n)) => match cont {
            Json::Object(e) => seg is Key ==> {
                let g = obj_get(e, seg->Key_0);
                g == Some(o) || g == Some(n)
            },
            _ => true,
        },
        (Op::ObjectInsert(v), Op::ObjectDelete(d)) => match cont {
            Json::Object(e) => seg is Key && if v == d {
                !obj_has(e, seg->Key_0)
            } else {
                obj_get(e, seg->Key_0) == Some(v)
            },
            _ => false,
        },
        (Op::ObjectInsert(v), Op::ObjectReplace(n, o)) => match cont {
            Json::Object(e) => seg is Key ==> (v == o || v == n),
            _ => true,
        },
        (Op::ObjectReplace(n1, o), Op::ObjectDelete(d)) => match cont {
            Json::Object(e) => seg is Key ==> {
                let g = obj_get(e, seg->Key_0);
                if g == Some(o) {
                    n1 == d
                } else {
                    g != Some(d)
                }
            },
            _ => true,
        },
        (Op::ObjectReplace(n1, o1), Op::ObjectReplace(n2, o2)) => match cont {
            Json::Object(e) => seg is Key ==> {
                let g = obj_get(e, seg->Key_0);
                if g == Some(o1) {
                    n1 == o2 || n1 == n2
                } else {
                    g != Some(o2) || o2 == n2
                }
            },
            _ => true,
        },
        _ => true,
    }
}

/// The condition of `fold_fits` for components `l` and then `c` at one path of
/// document `j0`. Where the path does not lead to an existing container, both
/// components and their fold fail alike; only a fold into nothing then differs.
pub open spec fn fold_fits_at(j0: Json, l: Comp, c: Comp) -> bool {
    match at(j0, l.path.drop_last()) {
        Some(cont) => fold_fits(cont, l.path.last(), l.op, c.op),
        None => merge_op(l.op, c.op) != Some(Op::Noop),
    }
}

/// Two changes at step `seg` of a container that `merge_op` folds, under
/// `fold_fits`: where the first succeeds the second does too and both do what
/// the fold does; where the first fails the fold fails alike.
proof fn lemma_fold_container(cont: Json, seg: Seg, l: Op, c: Op, m: Op)
    requires
        json_wf(cont),
        merge_op(l, c) == Some(m),
        !(l is AddNumber),
        fold_fits(cont, seg, l, c),
    ensures
        match apply_last(cont, seq![seg], l) {
            Outcome::Done(c1) => apply_last(c1, seq![seg], c) matches Outcome::Done(c2) && (if m is Noop {
                c2 == cont
            } else {
                apply_last(cont, seq![seg], m) == Outcome::Done(c2)
            }),
            Outcome::Fail(e) => !(m is Noop) && apply_last(cont, seq![seg], m) == Outcome::<Json>::Fail(e),
            Outcome::Panic => false,
        },
{
    match cont {
        Json::Array(s) => {
            if seg is Index {
                let i = seg->Index_0 as int;
                match (l, c) {
                    (Op::ListInsert(v), Op::ListDelete(_)) => {
                        assert(s.insert(i, v)[i] == v);
                        assert(s.insert(i, v).remove(i) =~= s);
                    },
                    (Op::ListReplace(n, o), Op::ListDelete(_)) => {
                        if i < s.len() && s[i] == o {
                            assert(s.update(i, n)[i] == n);
                            assert(s.update(i, n).remove(i) =~= s.remove(i));
                        }
                    },
                    _ => {},
                }
            }
        },
        Json::Object(e) => {
            if seg is Key {
                let k = seg->Key_0;
                lemma_object_wf(e);
                lemma_key_pos_bounds(e, k);
                let kp = key_pos(e, k) as int;
                match (l, c) {
                    (Op::ObjectDelete(o), Op::ObjectInsert(n)) => {
                        if obj_get(e, k) == Some(o) {
                            lemma_object_delete_rt(e, k, o);
                            assert(e.remove(kp).insert(kp, (k, n)) =~= e.update(kp, (k, n)));
                        } else {
                            lemma_obj_insert_same(e, k, n);
                        }
                    },
                    (Op::ObjectInsert(v), Op::ObjectDelete(d)) => {
                        lemma_obj_insert(e, k, v);
                        if v == d {
                            lemma_object_insert_rt(e, k, v);
                        } else {
                            lemma_obj_insert_same(e, k, v);
                        }
                    },
                    (Op::ObjectInsert(v), Op::ObjectReplace(n, o)) => {
                        lemma_obj_insert(e, k, v);
                        lemma_obj_insert_twice(e, k, v, n);
                    },
                    (Op::ObjectReplace(n1, o), Op::ObjectDelete(d)) => {
                        if obj_get(e, k) == Some(o) {
                            let e1 = e.update(kp, (k, n1));
                            assert forall|a: int| 0 <= a < e.len() implies (#[trigger] e[a]).0
                                == e1[a].0 by {}
                            lemma_same_keys(e, e1, k);
                            assert(e1.remove(kp) =~= e.remove(kp));
                        }
                    },
                    (Op::ObjectReplace(n1, o1), Op::ObjectReplace(n2, o2)) => {
                        if obj_get(e, k) == Some(o1) {
                            lemma_obj_insert(e, k, n1);
                            lemma_obj_insert_twice(e, k, n1, n2);
                        } else if obj_get(e, k) == Some(o2) {
                            lemma_obj_insert_same(e, k, n2);
                        }
                    },
                    _ => {},
                }
            }
        },
        _ => {},
    }
}

/// Two changes at step `seg` of a container that `merge_op` folds, where
/// `fold_fits` fails: they end otherwise than their fold does (for a fold into
/// nothing: the first fails, or the two leave the container changed).
proof fn lemma_fold_container_differs(cont: Json, seg: Seg, l: Op, c: Op, m: Op)
    requires
        json_wf(cont),
        merge_op(l, c) == Some(m),
        !(l is AddNumber),
        !fold_fits(cont, seg, l, c),
    ensures
        match apply_last(cont, seq![seg], l) {
            Outcome::Done(c1) => apply_last(c1, seq![seg], c) matches Outcome::Done(c2) && (if m is Noop {
                c2 != cont
            } else {
                apply_last(cont, seq![seg], m) matches Outcome::Done(c3) && c3 != c2
            }),
            Outcome::Fail(_) => m is Noop,
            Outcome::Panic => false,
        },
{
    match cont {
        Json::Array(s) => {
            if seg is Index {
                let i = seg->Index_0 as int;
                match (l, c) {
                    (Op::ListInsert(v), Op::ListDelete(_)) => {
                        assert(s.push(v).len() != s.len());
                    },
                    (Op::ListReplace(n, o), Op::ListDelete(_)) => {
                        assert(s.remove(i).len() != s.len());
                    },
                    _ => {},
                }
            }
        },
        Json::Object(e) => {
            if seg is Key {
                let k = seg->Key_0;
                lemma_object_wf(e);
                match (l, c) {
                    (Op::ObjectDelete(o), Op::ObjectInsert(n)) => {
                        lemma_obj_insert(e, k, n);
                    },
                    (Op::ObjectInsert(v), Op::ObjectDelete(d)) => {
                        lemma_obj_insert(e, k, v);
                        lemma_obj_remove(obj_insert(e, k, v), k);
                    },
                    (Op::ObjectInsert(v), Op::ObjectReplace(n, o)) => {
                        lemma_obj_insert(e, k, v);
                        lemma_obj_insert(e, k, n);
                    },
                    (Op::ObjectReplace(n1, o), Op::ObjectDelete(d)) => {
                        lemma_obj_insert(e, k, n1);
                        lemma_obj_remove(e, k);
                    },
                    (Op::ObjectReplace(n1, o1), Op::ObjectReplace(n2, o2)) => {
                        lemma_obj_insert(e, k, n1);
                        lemma_obj_insert(e, k, n2);
                    },
                    _ => {},
                }
            }
        },
        _ => {},
    }
}

/// Two components at one path that `merge_op` folds run as the folded
/// component runs, or as nothing where they fold into nothing, exactly where
/// `fold_fits_at` holds.
proof fn lemma_fold_pair(j0: Json, l: Comp, c: Comp, m: Op)
    requires
        json_wf(j0),
        l.path == c.path,
        !(l.op is AddNumber) ==> l.path.len() > 0,
        merge_op(l.op, c.op) == Some(m),
    ensures
        fold_fits_at(j0, l, c) <==> run_ops(j0, seq![l, c]) == if m is Noop {
            Run::Finished(j0)
        } else {
            run_ops(j0, seq![Comp { path: c.path, op: m }])
        },
{
    reveal_with_fuel(run_ops, 3);
    let cm = Comp { path: c.path, op: m };
    assert(seq![l, c].drop_first() =~= seq![c]);
    assert(seq![c].drop_first() =~= Seq::<Comp>::empty());
    assert(seq![cm].drop_first() =~= Seq::<Comp>::empty());
    match (l.op, c.op) {
        (
            Op::AddNumber(Json::Number(Number::PosInt(x))),
            Op::AddNumber(Json::Number(Number::PosInt(y))),
        ) => {
            lemma_merged_additions(j0, c.path, x, y);
            assert(l == Comp { path: c.path, op: add_op(x) });
            assert(c == Comp { path: c.path, op: add_op(y) });
        },
        _ => {
            let q = l.path.drop_last();
            let seg = l.path.last();
            assert(l.path =~= q.push(seg));
            if at(j0, q) is None {
                lemma_apply_unreached(j0, q, seg, l.op);
                lemma_apply_unreached(j0, q, seg, m);
            } else {
                let cont = at(j0, q)->0;
                lemma_at_wf(j0, q);
                lemma_apply_via_container(j0, q, seg, l.op);
                if fold_fits(cont, seg, l.op, c.op) {
                    lemma_fold_container(cont, seg, l.op, c.op, m);
                } else {
                    lemma_fold_container_differs(cont, seg, l.op, c.op, m);
                }
                if !(m is Noop) {
                    lemma_apply_via_container(j0, q, seg, m);
                }
                if let Outcome::Done(c1) = apply_last(cont, seq![seg], l.op) {
                    let c2 = apply_last(c1, seq![seg], c.op)->Done_0;
                    let j1 = put_at(j0, q, c1);
                    lemma_put_at(j0, q, c1, c2);
                    lemma_put_at(j0, q, c2, c2);
                    lemma_apply_via_container(j1, q, seg, c.op);
                    lemma_put_at_self(j0, q);
                    if !(m is Noop) {
                        if let Outcome::Done(c3) = apply_last(cont, seq![seg], m) {
                            lemma_put_at(j0, q, c3, c3);
                        }
                    }
                }
            }
        },
    }
}

/// The condition under which what `append` leaves means the operation and then
/// the new component. A move of an element to where it is, which `append`
/// drops, must meet an array, since applied elsewhere it fails. A fold of the
/// new component into the last one must meet `fold_fits_at` on the document
/// that the last one meets. Where `append` pushes the component, nothing is
/// asked.
pub open spec fn append_faithful(j: Json, ops: Seq<Comp>, c: Comp) -> bool {
    if c.op is ListMove && c.path.last() == Seg::Index(c.op->ListMove_0) {
        run_ops(j, ops) matches Run::Finished(j1) ==> at(j1, c.path.drop_last()) matches Some(
            Json::Array(_),
        )
    } else if ops.len() > 0 && ops.last().path == c.path && merge_op(ops.last().op, c.op) is Some {
        run_ops(j, ops.drop_last()) matches Run::Finished(j0) ==> fold_fits_at(j0, ops.last(), c)
    } else {
        true
    }
}

/// What `append` leaves means what the operation and then the new component
/// mean: running it gives the same outcome and document as running the
/// operation's components and then `c`, exactly where `append_faithful`
/// holds. Folded additions and pushed components ask for nothing.
pub proof fn lemma_append_keeps_meaning(j: Json, ops: Seq<Comp>, c: Comp, r: Seq<Comp>)
    requires
        json_wf(j),
        forall|i: int| 0 <= i < ops.len() ==> op_wf(#[trigger] ops[i].op),
        append_spec(ops, c) == Ok::<Seq<Comp>, crate::error::JsonErr>(r),
    ensures
        append_faithful(j, ops, c) <==> run_ops(j, r) == run_ops(j, ops.push(c)),
{
    let pc = ops.push(c);
    if c.op is ListMove && c.path.last() == Seg::Index(c.op->ListMove_0) {
        assert(pc =~= ops + seq![c]);
        lemma_run_concat(j, ops, seq![c]);
        if let Run::Finished(j1) = run_ops(j, ops) {
            let q = c.path.drop_last();
            let seg = c.path.last();
            assert(c.path =~= q.push(seg));
            if at(j1, q) is None {
                lemma_apply_unreached(j1, q, seg, c.op);
            } else {
                lemma_apply_via_container(j1, q, seg, c.op);
                lemma_put_at_self(j1, q);
            }
            reveal_with_fuel(run_ops, 2);
            assert(seq![c].drop_first() =~= Seq::<Comp>::empty());
        }
    } else if ops.len() == 0 {
        assert(pc =~= seq![c]);
    } else if ops.last().path == c.path && merge_op(ops.last().op, c.op) is Some {
        let pre = ops.drop_last();
        let l = ops.last();
        let m = merge_op(l.op, c.op)->0;
        let cm = Comp { path: c.path, op: m };
        assert(pc =~= pre + seq![l, c]);
        lemma_run_concat(j, pre, seq![l, c]);
        if m is Noop {
            assert(r =~= pre);
        } else {
            assert(r =~= pre + seq![cm]);
            lemma_run_concat(j, pre, seq![cm]);
        }
        if let Run::Finished(j0) = run_ops(j, pre) {
            assert forall|i: int| 0 <= i < pre.len() implies op_wf(#[trigger] pre[i].op) by {
                assert(pre[i] == ops[i]);
            }
            lemma_run_keeps_wf(j, pre);
            lemma_fold_pair(j0, l, c, m);
        }
    }
}

/// Applying at a path through an existing value is applying at the rest of
/// the path inside that value, put back.
proof fn lemma_apply_inside(j: Json, q: Seq<Seg>, rest: Seq<Seg>, op: Op)
    requires
        at(j, q) is Some,
        rest.len() > 0,
    ensures
        apply_at(j, q + rest, op) == match apply_at(at(j, q)->0, rest, op) {
            Outcome::Done(v2) => Outcome::Done(put_at(j, q, v2)),
            o => o,
        },
    decreases q.len(),
{
    let p = q + rest;
    if q.len() == 0 {
        assert(p =~= rest);
    } else {
        assert(p[0] == q[0]);
        assert(p.drop_first() =~= q.drop_first() + rest);
        match j {
            Json::Array(s) => {
                lemma_apply_inside(s[q[0]->Index_0 as int], q.drop_first(), rest, op);
            },
            Json::Object(e) => {
                lemma_apply_inside(e[key_pos(e, q[0]->Key_0) as int].1, q.drop_first(), rest, op);
            },
            _ => {},
        }
    }
}

/// Adding to a number that a path leads to changes just that number.
proof fn lemma_add_at_number(j: Json, q: Seq<Seg>, v: Json)
    requires
        q.len() >= 1,
        at(j, q) matches Some(Json::Number(_)),
    ensures
        apply_at(j, q, Op::AddNumber(v)) == match add_number(at(j, q)->0->Number_0, v) {
            Outcome::Done(x) => Outcome::Done(put_at(j, q, x)),
            o => o,
        },
    decreases q.len(),
{
    if q.len() > 1 {
        match j {
            Json::Array(s) => {
                lemma_add_at_number(s[q[0]->Index_0 as int], q.drop_first(), v);
            },
            Json::Object(e) => {
                lemma_add_at_number(e[key_pos(e, q[0]->Key_0) as int].1, q.drop_first(), v);
            },
            _ => {},
        }
    } else {
        let r = q.drop_first();
        assert(r.len() == 0);
        match j {
            Json::Array(s) => {
                let i = q[0]->Index_0 as int;
                assert(at(s[i], r) == Some(s[i]));
                if let Outcome::Done(x) = add_number(s[i]->Number_0, v) {
                    assert(put_at(s[i], r, x) == x);
                }
            },
            Json::Object(e) => {
                let i = key_pos(e, q[0]->Key_0) as int;
                assert(at(e[i].1, r) == Some(e[i].1));
                assert(put_at(e[i].1, r, e[i].1) == e[i].1);
                assert(apply_last(e[i].1, q, Op::AddNumber(v)) == add_number(e[i].1->Number_0, v));
                if let Outcome::Done(x) = add_number(e[i].1->Number_0, v) {
                    assert(put_at(e[i].1, r, x) == x);
                    assert(e[i].0 == q[0]->Key_0);
                }
            },
            _ => {},
        }
    }
}

/// Where `new` deletes or replaces the value it finds at its path, and `base`,
/// applied concurrently, changes something inside that value, or adds to that
/// value itself where it is a number, the transformed `new` keeps its path and
/// expects there just what `base` leaves.
pub proof fn lemma_transformed_expects_what_base_leaves(
    j: Json,
    base: Comp,
    new: Comp,
    rest: Seq<Seg>,
    side: TransformSide,
)
    requires
        new.path.len() > 0,
        rest.len() > 0 || (base.op is AddNumber && at(j, new.path) matches Some(Json::Number(_))),
        base.path == new.path + rest,
        carried(new.op) is Some,
        at(j, new.path) == carried(new.op),
        apply_at(j, base.path, base.op) is Done,
    ensures
        transform2_spec(base, new, side) matches Outcome::Done(new2) && new2.path == new.path
            && at(apply_at(j, base.path, base.op)->Done_0, new.path) == carried(new2.op),
{
    let n = new.path.len() as int;
    assert(base.path.take(n) =~= new.path.take(n));
    lemma_common_len(base.path, new.path, n);
    assert(base.path.skip(n) =~= rest);
    let v = carried(new.op)->0;
    if rest.len() > 0 {
        lemma_apply_inside(j, new.path, rest, base.op);
        if let Outcome::Done(v2) = apply_at(v, rest, base.op) {
            lemma_put_at(j, new.path, v2, v2);
        }
    } else {
        assert(base.path =~= new.path);
        lemma_add_at_number(j, new.path, base.op->AddNumber_0);
        if let Outcome::Done(x) = add_number(v->Number_0, base.op->AddNumber_0) {
            lemma_put_at(j, new.path, x, x);
        }
    }
}

/// A concurrent insertion at index `i` of an array below the document's top
/// moves a delete or replace at index `k >= i` of that array on to `k + 1`,
/// and leaves one at `k < i` where it is. Applying the insertion and then the
/// transformed change leaves the same document as applying the change and
/// then the insertion, for a delete at or after the insertion and for a
/// replace anywhere.
pub proof fn lemma_insert_shifts_later_change(
    j: Json,
    q: Seq<Seg>,
    i: usize,
    k: usize,
    x: Json,
    op: Op,
    side: TransformSide,
)
    requires
        q.len() > 0,
        op is ListDelete || op is ListReplace,
        k < usize::MAX,
    ensures
        ({
            let base = Comp { path: q.push(Seg::Index(i)), op: Op::ListInsert(x) };
            let new = Comp { path: q.push(Seg::Index(k)), op };
            &&& i <= k ==> transform2_spec(base, new, side) == Outcome::Done(
                Comp { path: q.push(Seg::Index((k + 1) as usize)), op },
            )
            &&& i > k ==> transform2_spec(base, new, side) == Outcome::Done(new)
            &&& (at(j, q) matches Some(Json::Array(s)) && i <= s.len() && k < s.len() && (i <= k
                || op is ListReplace)) ==> {
                &&& transform2_spec(base, new, side) matches Outcome::Done(new2)
                &&& apply_at(j, base.path, base.op) matches Outcome::Done(ja)
                &&& apply_at(ja, new2.path, new2.op) matches Outcome::Done(r)
                &&& apply_at(j, new.path, new.op) matches Outcome::Done(jb)
                &&& apply_at(jb, base.path, base.op) == Outcome::Done(r)
            }
        }),
{
    let pa = q.push(Seg::Index(i));
    let pb = q.push(Seg::Index(k));
    let base = Comp { path: pa, op: Op::ListInsert(x) };
    let new = Comp { path: pb, op };
    let n = q.len() as int;
    assert(pa.take(n) =~= q);
    assert(pb.take(n) =~= q);
    assert(pa.drop_last() =~= q);
    assert(pb.drop_last() =~= q);
    if i == k {
        assert(pa =~= pb);
        lemma_common_len(pa, pb, n + 1);
    } else {
        lemma_common_len(pa, pb, n);
    }
    let pb1 = q.push(Seg::Index((k + 1) as usize));
    assert(pb.drop_last().push(Seg::Index((k + 1) as usize)) =~= pb1);
    if let Some(Json::Array(s)) = at(j, q) {
        if i <= s.len() && k < s.len() && (i <= k || op is ListReplace) {
            let ii = i as int;
            let kk = k as int;
            let k2 = if i <= k { kk + 1 } else { kk };
            let seg2 = Seg::Index(if i <= k { (k + 1) as usize } else { k });
            let p2 = q.push(seg2);
            let sa = s.insert(ii, x);
            assert(sa[k2] == s[kk]);
            lemma_apply_via_container(j, q, Seg::Index(i), base.op);
            lemma_apply_via_container(j, q, Seg::Index(k), op);
            let ja = put_at(j, q, Json::Array(sa));
            lemma_put_at(j, q, Json::Array(sa), Json::Array(sa));
            lemma_apply_via_container(ja, q, seg2, op);
            let sb = match apply_list(s, Seg::Index(k), op) {
                Outcome::Done(Json::Array(t)) => t,
                _ => s,
            };
            let jb = put_at(j, q, Json::Array(sb));
            lemma_put_at(j, q, Json::Array(sb), Json::Array(sb));
            lemma_apply_via_container(jb, q, Seg::Index(i), base.op);
            let fin = match apply_list(sa, seg2, op) {
                Outcome::Done(Json::Array(t)) => t,
                _ => sa,
            };
            match op {
                Op::ListDelete(d) => {
                    if s[kk] == d {
                        assert(sa.remove(k2) =~= s.remove(kk).insert(ii, x));
                    }
                },
                Op::ListReplace(nv, o) => {
                    if s[kk] == o {
                        assert(sa.update(k2, nv) =~= s.update(kk, nv).insert(ii, x));
                    }
                },
                _ => {},
            }
            lemma_put_at(j, q, Json::Array(sa), Json::Array(fin));
            lemma_put_at(j, q, Json::Array(sb), Json::Array(fin));
        }
    }
}

/// Moving the element at index `i` of an array to index `m`, both within the
/// array and different, takes it out and puts it in at `m`: the array keeps
/// its length, holds the moved element at `m`, and the other elements keep
/// their order; the rest of the document stays.
pub proof fn lemma_move_takes_out_and_puts_in(j: Json, q: Seq<Seg>, i: usize, m: usize)
    requires
        at(j, q) matches Some(Json::Array(s)) && (i as int) < s.len() && (m as int) < s.len() && i != m,
    ensures
        ({
            let s = at(j, q)->0->Array_0;
            apply_at(j, q.push(Seg::Index(i)), Op::ListMove(m)) matches Outcome::Done(j1) && at(j1, q)
                matches Some(Json::Array(t)) && j1 == put_at(j, q, Json::Array(t)) && t.len() == s.len()
                && t[m as int] == s[i as int] && t.remove(m as int) == s.remove(i as int)
        }),
{
    let s = at(j, q)->0->Array_0;
    let t = s.remove(i as int).insert(m as int, s[i as int]);
    lemma_apply_via_container(j, q, Seg::Index(i), Op::ListMove(m));
    lemma_put_at(j, q, Json::Array(t), Json::Array(t));
    assert(t.remove(m as int) =~= s.remove(i as int));
}

/// Whether step `seg` finds nothing in `c`: an index past an array's end, or a
/// key that an object lacks.
pub open spec fn missing_step(c: Json, seg: Seg) -> bool {
    match c {
        Json::Array(s) => seg is Index && (seg->Index_0 as int) >= s.len(),
        Json::Object(e) => seg is Key && !obj_has(e, seg->Key_0),
        _ => false,
    }
}

/// Where following a path meets an index past an array's end or a key that
/// an object lacks, at any depth, reading the path finds nothing, however
/// long the rest of the path.
pub proof fn lemma_route_missing(j: Json, p: Seq<Seg>, d: int)
    requires
        0 <= d < p.len(),
        at(j, p.take(d)) matches Some(c) && missing_step(c, p[d]),
    ensures
        route(j, p) == Ok::<Option<Json>, crate::error::JsonErr>(None),
    decreases d,
{
    if d == 0 {
        assert(p.take(0) =~= Seq::<Seg>::empty());
    } else {
        let t = p.take(d);
        assert(t[0] == p[0]);
        assert(t.drop_first() =~= p.drop_first().take(d - 1));
        assert(p.drop_first()[d - 1] == p[d]);
        match j {
            Json::Array(s) => {
                lemma_route_missing(s[p[0]->Index_0 as int], p.drop_first(), d - 1);
            },
            Json::Object(e) => {
                lemma_route_missing(e[key_pos(e, p[0]->Key_0) as int].1, p.drop_first(), d - 1);
            },
            _ => {},
        }
    }
}

/// Reading a path that leads through existing elements and entries to a value
/// finds that value.
pub proof fn lemma_route_finds(j: Json, p: Seq<Seg>)
    requires
        p.len() > 0,
        at(j, p) is Some,
    ensures
        route(j, p) == Ok::<Option<Json>, crate::error::JsonErr>(Some(at(j, p)->0)),
    decreases p.len(),
{
    if p.len() > 1 {
        match j {
            Json::Array(s) => {
                lemma_route_finds(s[p[0]->Index_0 as int], p.drop_first());
            },
            Json::Object(e) => {
                lemma_route_finds(e[key_pos(e, p[0]->Key_0) as int].1, p.drop_first());
            },
            _ => {},
        }
    } else {
        let r = p.drop_first();
        assert(r.len() == 0);
        match j {
            Json::Array(s) => {
                assert(at(s[p[0]->Index_0 as int], r) == Some(s[p[0]->Index_0 as int]));
            },
            Json::Object(e) => {
                let i = key_pos(e, p[0]->Key_0) as int;
                assert(at(e[i].1, r) == Some(e[i].1));
            },
            _ => {},
        }
    }
}

proof fn lemma_append_all_first_error(ops: Seq<Comp>, b: Seq<Comp>, k: int)
    requires
        0 <= k < b.len(),
        comp_check(b[k]) is Err,
        forall|i: int| 0 <= i < k ==> #[trigger] comp_check(b[i]) is Ok,
    ensures
        append_all(ops, b) == Err::<Seq<Comp>, crate::error::JsonErr>(comp_check(b[k])->Err_0),
    decreases k,
{
    if k > 0 {
        assert(comp_check(b[0]) is Ok);
        let o2 = append_spec(ops, b[0])->Ok_0;
        assert forall|i: int| 0 <= i < k - 1 implies #[trigger] comp_check(b.drop_first()[i]) is Ok by {
            assert(b.drop_first()[i] == b[i + 1]);
            assert(comp_check(b[i + 1]) is Ok);
        }
        assert(b.drop_first()[k - 1] == b[k]);
        lemma_append_all_first_error(o2, b.drop_first(), k - 1);
    }
}

proof fn lemma_append_all_valid(ops: Seq<Comp>, b: Seq<Comp>)
    requires
        forall|i: int| 0 <= i < b.len() ==> #[trigger] comp_check(b[i]) is Ok,
    ensures
        append_all(ops, b) is Ok,
    decreases b.len(),
{
    if b.len() > 0 {
        assert(comp_check(b[0]) is Ok);
        let o2 = append_spec(ops, b[0])->Ok_0;
        assert forall|i: int| 0 <= i < b.drop_first().len() implies #[trigger] comp_check(
            b.drop_first()[i],
        ) is Ok by {
            assert(b.drop_first()[i] == b[i + 1]);
            assert(comp_check(b[i + 1]) is Ok);
        }
        lemma_append_all_valid(o2, b.drop_first());
    }
}

/// Composing fails with the first error of `a`'s validation; past that, with
/// the validation error of the first invalid component of `b`; and it succeeds
/// where every component of both is valid.
pub proof fn lemma_compose_checks_both(a: Seq<Comp>, b: Seq<Comp>, k: int)
    requires
        0 <= k <= b.len(),
        forall|i: int| 0 <= i < k ==> #[trigger] comp_check(b[i]) is Ok,
        k < b.len() ==> comp_check(b[k]) is Err,
    ensures
        check_all(a) is Err ==> compose_spec(a, b) == Err::<Seq<Comp>, crate::error::JsonErr>(
            check_all(a)->Err_0,
        ),
        check_all(a) is Ok && k < b.len() ==> compose_spec(a, b) == Err::<Seq<Comp>, crate::error::JsonErr>(
            comp_check(b[k])->Err_0,
        ),
        check_all(a) is Ok && k == b.len() ==> compose_spec(a, b) is Ok,
{
    if k < b.len() {
        lemma_append_all_first_error(a, b, k);
    } else {
        lemma_append_all_valid(a, b);
    }
}

} // verus!
