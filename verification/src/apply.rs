use vstd::prelude::*;

use crate::error::{JsonErr, JsonError};
use crate::operation::{Comp, Op, OperationComponent, Operator};
use crate::path::{Path, PathElement, Seg};
use crate::value::{
    elems_model, entries_model, key_pos, obj_get, obj_has, obj_insert, obj_remove, object_insert,
    object_position, object_remove, Json, JsonValue, Number,
};

verus! {

/// What following path `p` from `j` reaches: `Ok(None)` where an array index
/// or an object key is missing, or `null` is reached; an error where a step
/// does not fit the value it meets, or the path ends at an array or object
/// without a step into it.
pub open spec fn route(j: Json, p: Seq<Seg>) -> Result<Option<Json>, JsonErr>
    decreases p.len(),
{
    match j {
        Json::Array(s) => if p.len() > 0 && p[0] is Index {
            let i = p[0]->Index_0 as int;
            if i < s.len() {
                if p.len() == 1 {
                    Ok(Some(s[i]))
                } else {
                    route(s[i], p.drop_first())
                }
            } else {
                Ok(None)
            }
        } else {
            Err(JsonErr::BadPath)
        },
        Json::Object(e) => if p.len() > 0 && p[0] is Key {
            match obj_get(e, p[0]->Key_0) {
                Some(c) => if p.len() == 1 {
                    Ok(Some(c))
                } else {
                    route(c, p.drop_first())
                },
                None => Ok(None),
            }
        } else {
            Err(JsonErr::BadPath)
        },
        Json::Null => Ok(None),
        _ => if p.len() == 0 {
            Ok(Some(j))
        } else {
            Err(JsonErr::BadPath)
        },
    }
}

/// How applying an operator ends: with the new value, with an error and the
/// value unchanged, or in a panic.
pub enum Outcome<T> {
    Done(T),
    Fail(JsonErr),
    Panic,
}

pub open spec fn msg_number_target() -> Seq<char> {
    "Only AddNumber operation can apply to a Number JSON Value"@
}

pub open spec fn msg_container_target() -> Seq<char> {
    "Operation can only apply on array or object"@
}

/// Adding `v` to `n`: both must be non-negative integers and the sum must fit
/// a `u64`; anything else panics.
pub open spec fn add_number(n: Number, v: Json) -> Outcome<Json> {
    match (n, v) {
        (Number::PosInt(a), Json::Number(Number::PosInt(b))) => if a + b <= u64::MAX {
            Outcome::Done(Json::Number(Number::PosInt((a + b) as u64)))
        } else {
            Outcome::Panic
        },
        _ => Outcome::Panic,
    }
}

/// Applying a list operator at index step `seg` of array `s`.
pub open spec fn apply_list(s: Seq<Json>, seg: Seg, op: Op) -> Outcome<Json> {
    if !(seg is Index) {
        Outcome::Fail(JsonErr::BadPath)
    } else {
        let i = seg->Index_0 as int;
        match op {
            Op::AddNumber(v) => if i < s.len() {
                match s[i] {
                    Json::Number(n) => match add_number(n, v) {
                        Outcome::Done(x) => Outcome::Done(Json::Array(s.update(i, x))),
                        o => o,
                    },
                    _ => Outcome::Fail(JsonErr::BadPath),
                }
            } else {
                Outcome::Panic
            },
            Op::ListInsert(v) => if i > s.len() {
                Outcome::Done(Json::Array(s.push(v)))
            } else {
                Outcome::Done(Json::Array(s.insert(i, v)))
            },
            Op::ListDelete(d) => if i < s.len() && s[i] == d {
                Outcome::Done(Json::Array(s.remove(i)))
            } else {
                Outcome::Done(Json::Array(s))
            },
            Op::ListReplace(n, o) => if i < s.len() && s[i] == o {
                Outcome::Done(Json::Array(s.update(i, n)))
            } else {
                Outcome::Done(Json::Array(s))
            },
            Op::ListMove(m) => if i < s.len() && i != m {
                if m < s.len() {
                    Outcome::Done(Json::Array(s.remove(i).insert(m as int, s[i])))
                } else {
                    Outcome::Panic
                }
            } else {
                Outcome::Done(Json::Array(s))
            },
            _ => Outcome::Fail(JsonErr::BadPath),
        }
    }
}

/// Applying an operator to `j` itself, with a path of at most one step.
pub open spec fn apply_last(j: Json, p: Seq<Seg>, op: Op) -> Outcome<Json>
    decreases j,
{
    match j {
        Json::Array(s) => if p.len() == 0 {
            Outcome::Panic
        } else {
            apply_list(s, p[0], op)
        },
        Json::Object(e) => if p.len() == 0 {
            Outcome::Panic
        } else if !(p[0] is Key) {
            Outcome::Fail(JsonErr::BadPath)
        } else {
            let k = p[0]->Key_0;
            match op {
                Op::AddNumber(v) => if obj_has(e, k) {
                    let i = key_pos(e, k) as int;
                    match apply_last(e[i].1, p, op) {
                        Outcome::Done(c) => Outcome::Done(Json::Object(e.update(i, (k, c)))),
                        o => o,
                    }
                } else {
                    Outcome::Done(Json::Object(obj_insert(e, k, v)))
                },
                Op::ObjectInsert(v) => Outcome::Done(Json::Object(obj_insert(e, k, v))),
                Op::ObjectDelete(d) => if obj_get(e, k) == Some(d) {
                    Outcome::Done(Json::Object(obj_remove(e, k)))
                } else {
                    Outcome::Done(j)
                },
                Op::ObjectReplace(n, o) => if obj_get(e, k) == Some(o) {
                    Outcome::Done(Json::Object(obj_insert(e, k, n)))
                } else {
                    Outcome::Done(j)
                },
                _ => Outcome::Fail(JsonErr::BadPath),
            }
        },
        Json::Number(n) => match op {
            Op::AddNumber(v) => add_number(n, v),
            _ => Outcome::Fail(JsonErr::InvalidOperation(msg_number_target())),
        },
        _ => Outcome::Fail(JsonErr::InvalidOperation(msg_container_target())),
    }
}

/// Applying an operator at path `p` of `j`: every step but the last must lead
/// to an existing array element or object entry, and the last one is the
/// operator's own.
pub open spec fn apply_at(j: Json, p: Seq<Seg>, op: Op) -> Outcome<Json>
    decreases p.len(),
{
    if p.len() > 1 {
        match j {
            Json::Array(s) => if p[0] is Index && (p[0]->Index_0 as int) < s.len() {
                let i = p[0]->Index_0 as int;
                match apply_at(s[i], p.drop_first(), op) {
                    Outcome::Done(c) => Outcome::Done(Json::Array(s.update(i, c))),
                    o => o,
                }
            } else {
                Outcome::Fail(JsonErr::BadPath)
            },
            Json::Object(e) => if p[0] is Key && obj_has(e, p[0]->Key_0) {
                let i = key_pos(e, p[0]->Key_0) as int;
                match apply_at(e[i].1, p.drop_first(), op) {
                    Outcome::Done(c) => Outcome::Done(Json::Object(e.update(i, (e[i].0, c)))),
                    o => o,
                }
            } else {
                Outcome::Fail(JsonErr::BadPath)
            },
            _ => Outcome::Fail(JsonErr::BadPath),
        }
    } else {
        apply_last(j, p, op)
    }
}

/// What a call that applies an operator returns and leaves behind, against
/// the outcome that the specification gives.
pub open spec fn applied(outcome: Outcome<Json>, before: Json, after: Json, r: Result<(), JsonError>) -> bool {
    match outcome {
        Outcome::Done(j) => r is Ok && after == j,
        Outcome::Fail(e) => r is Err && r->Err_0@ == e && after == before,
        Outcome::Panic => false,
    }
}

fn add_number_value(n: &Number, v: &JsonValue) -> (r: JsonValue)
    requires
        !(add_number(*n, v@) is Panic),
    ensures
        add_number(*n, v@) == Outcome::Done(r@),
{
    match (n, v) {
        (Number::PosInt(a), JsonValue::Number(Number::PosInt(b))) => JsonValue::Number(
            Number::PosInt(*a + *b),
        ),
        _ => {
            assert(false);
            JsonValue::Null
        },
    }
}

fn apply_list_exec(a: &mut Vec<JsonValue>, seg: &PathElement, op: &Operator) -> (r: Result<
    (),
    JsonError,
>)
    requires
        !(apply_list(elems_model(old(a)@), seg@, op@) is Panic),
    ensures
        applied(
            apply_list(elems_model(old(a)@), seg@, op@),
            Json::Array(elems_model(old(a)@)),
            Json::Array(elems_model(final(a)@)),
            r,
        ),
{
    let ghost s = elems_model(a@);
    let i = match seg {
        PathElement::Index(i) => *i,
        PathElement::Key(_) => {
            return Err(JsonError::BadPath);
        },
    };
    match op {
        Operator::AddNumber(v) => {
            let x = match &a[i] {
                JsonValue::Number(n) => add_number_value(n, v),
                _ => {
                    return Err(JsonError::BadPath);
                },
            };
            a.set(i, x);
            assert(elems_model(a@) =~= s.update(i as int, x@));
            Ok(())
        },
        Operator::ListInsert(v) => {
            if i > a.len() {
                a.push(v.deep_clone());
                assert(elems_model(a@) =~= s.push(v@));
            } else {
                a.insert(i, v.deep_clone());
                assert(elems_model(a@) =~= s.insert(i as int, v@));
            }
            Ok(())
        },
        Operator::ListDelete(d) => {
            if i < a.len() && a[i].eq_value(d) {
                a.remove(i);
                assert(elems_model(a@) =~= s.remove(i as int));
            }
            Ok(())
        },
        Operator::ListReplace(n, o) => {
            if i < a.len() && a[i].eq_value(o) {
                a.set(i, n.deep_clone());
                assert(elems_model(a@) =~= s.update(i as int, n@));
            }
            Ok(())
        },
        Operator::ListMove(m) => {
            if i < a.len() && i != *m {
                let x = a.remove(i);
                a.insert(*m, x);
                assert(elems_model(a@) =~= s.remove(i as int).insert(*m as int, s[i as int]));
            }
            Ok(())
        },
        _ => Err(JsonError::BadPath),
    }
}

impl JsonValue {
    /// Applies an operator to the value itself, with a path of at most one step.
    fn apply_last_exec(&mut self, path: &Path, start: usize, op: &Operator) -> (r: Result<
        (),
        JsonError,
    >)
        requires
            start <= path@.len() <= start + 1,
            !(apply_last(old(self)@, path@.skip(start as int), op@) is Panic),
        ensures
            applied(apply_last(old(self)@, path@.skip(start as int), op@), old(self)@, final(self)@, r),
        decreases old(self)@,
    {
        let ghost p = path@.skip(start as int);
        let has_step = start < path.len();
        match self {
            JsonValue::Array(a) => {
                assert(has_step);
                assert(p[0] == path@[start as int]);
                apply_list_exec(a, &path.elements[start], op)
            },
            JsonValue::Object(entries) => {
                assert(has_step);
                assert(p[0] == path@[start as int]);
                let k = match &path.elements[start] {
                    PathElement::Key(k) => k,
                    PathElement::Index(_) => {
                        return Err(JsonError::BadPath);
                    },
                };
                let ghost e = entries_model(entries@);
                match op {
                    Operator::AddNumber(v) => {
                        let (i, found) = object_position(entries, k.as_str());
                        if found {
                            let entry = &mut entries[i];
                            let r = entry.1.apply_last_exec(path, start, op);
                            assert(entries_model(entries@) =~= e.update(i as int, (k@, entries@[i as int].1@)));
                            if r.is_err() {
                                assert(entries_model(entries@) =~= e);
                            }
                            r
                        } else {
                            object_insert(entries, k.clone(), v.deep_clone());
                            Ok(())
                        }
                    },
                    Operator::ObjectInsert(v) => {
                        object_insert(entries, k.clone(), v.deep_clone());
                        Ok(())
                    },
                    Operator::ObjectDelete(d) => {
                        let matches = match crate::value::object_get(entries, k.as_str()) {
                            Some(t) => t.eq_value(d),
                            None => false,
                        };
                        if matches {
                            object_remove(entries, k.as_str());
                        }
                        Ok(())
                    },
                    Operator::ObjectReplace(n, o) => {
                        let matches = match crate::value::object_get(entries, k.as_str()) {
                            Some(t) => t.eq_value(o),
                            None => false,
                        };
                        if matches {
                            object_insert(entries, k.clone(), n.deep_clone());
                        }
                        Ok(())
                    },
                    _ => Err(JsonError::BadPath),
                }
            },
            JsonValue::Number(n) => {
                match op {
                    Operator::AddNumber(v) => {
                        let nn: Number = *n;
                        let x = add_number_value(&nn, v);
                        *self = x;
                        Ok(())
                    },
                    _ => Err(
                        JsonError::InvalidOperation(
                            "Only AddNumber operation can apply to a Number JSON Value".to_owned(),
                        ),
                    ),
                }
            },
            _ => Err(
                JsonError::InvalidOperation(
                    "Operation can only apply on array or object".to_owned(),
                ),
            ),
        }
    }
}


/// What a routing call returns, against the result that `route` gives.
pub open spec fn routed(
    res: Result<Option<Json>, JsonErr>,
    r: Result<Option<&JsonValue>, JsonError>,
) -> bool {
    match r {
        Ok(Some(v)) => res == Ok::<Option<Json>, JsonErr>(Some(v@)),
        Ok(None) => res == Ok::<Option<Json>, JsonErr>(None),
        Err(e) => res == Err::<Option<Json>, JsonErr>(e@),
    }
}

impl JsonValue {
    fn route_from(&self, path: &Path, start: usize) -> (r: Result<Option<&JsonValue>, JsonError>)
        requires
            start <= path@.len(),
        ensures
            routed(route(self@, path@.skip(start as int)), r),
        decreases path@.len() - start,
    {
        let ghost p = path@.skip(start as int);
        let has_step = start < path.len();
        match self {
            JsonValue::Array(a) => {
                let i = if has_step {
                    match &path.elements[start] {
                        PathElement::Index(i) => *i,
                        PathElement::Key(_) => {
                            return Err(JsonError::BadPath);
                        },
                    }
                } else {
                    return Err(JsonError::BadPath);
                };
                if i < a.len() {
                    if start + 1 == path.len() {
                        Ok(Some(&a[i]))
                    } else {
                        assert(p.drop_first() =~= path@.skip(start + 1));
                        a[i].route_from(path, start + 1)
                    }
                } else {
                    Ok(None)
                }
            },
            JsonValue::Object(entries) => {
                let k = if has_step {
                    match &path.elements[start] {
                        PathElement::Key(k) => k,
                        PathElement::Index(_) => {
                            return Err(JsonError::BadPath);
                        },
                    }
                } else {
                    return Err(JsonError::BadPath);
                };
                match crate::value::object_get(entries, k.as_str()) {
                    Some(c) => {
                        if start + 1 == path.len() {
                            Ok(Some(c))
                        } else {
                            assert(p.drop_first() =~= path@.skip(start + 1));
                            c.route_from(path, start + 1)
                        }
                    },
                    None => Ok(None),
                }
            },
            JsonValue::Null => Ok(None),
            _ => {
                if has_step {
                    Err(JsonError::BadPath)
                } else {
                    Ok(Some(self))
                }
            },
        }
    }

    /// The value that `path` leads to.
    pub fn route_get(&self, path: &Path) -> (r: Result<Option<&JsonValue>, JsonError>)
        ensures
            routed(route(self@, path@), r),
    {
        assert(path@.skip(0) =~= path@);
        self.route_from(path, 0)
    }

    fn apply_from(&mut self, path: &Path, start: usize, op: &Operator) -> (r: Result<(), JsonError>)
        requires
            start <= path@.len(),
            !(apply_at(old(self)@, path@.skip(start as int), op@) is Panic),
        ensures
            applied(apply_at(old(self)@, path@.skip(start as int), op@), old(self)@, final(self)@, r),
        decreases path@.len() - start,
    {
        let ghost p = path@.skip(start as int);
        if path.len() - start > 1 {
            assert(p.drop_first() =~= path@.skip(start + 1));
            match self {
                JsonValue::Array(a) => {
                    let i = match &path.elements[start] {
                        PathElement::Index(i) => *i,
                        PathElement::Key(_) => {
                            return Err(JsonError::BadPath);
                        },
                    };
                    if i >= a.len() {
                        return Err(JsonError::BadPath);
                    }
                    let ghost s = elems_model(a@);
                    let child = &mut a[i];
                    let r = child.apply_from(path, start + 1, op);
                    assert(elems_model(a@) =~= s.update(i as int, a@[i as int]@));
                    if r.is_err() {
                        assert(elems_model(a@) =~= s);
                    }
                    r
                },
                JsonValue::Object(entries) => {
                    let k = match &path.elements[start] {
                        PathElement::Key(k) => k,
                        PathElement::Index(_) => {
                            return Err(JsonError::BadPath);
                        },
                    };
                    let (i, found) = object_position(entries, k.as_str());
                    if !found {
                        return Err(JsonError::BadPath);
                    }
                    let ghost e = entries_model(entries@);
                    let entry = &mut entries[i];
                    let r = entry.1.apply_from(path, start + 1, op);
                    assert(entries_model(entries@) =~= e.update(
                        i as int,
                        (e[i as int].0, entries@[i as int].1@),
                    ));
                    if r.is_err() {
                        assert(entries_model(entries@) =~= e);
                    }
                    r
                },
                _ => Err(JsonError::BadPath),
            }
        } else {
            self.apply_last_exec(path, start, op)
        }
    }

    /// Applies `op` at `path`: on success the value becomes what `apply_at`
    /// gives; on an error it stays as it was.
    pub fn apply(&mut self, path: &Path, op: &Operator) -> (r: Result<(), JsonError>)
        requires
            !(apply_at(old(self)@, path@, op@) is Panic),
        ensures
            applied(apply_at(old(self)@, path@, op@), old(self)@, final(self)@, r),
    {
        assert(path@.skip(0) =~= path@);
        self.apply_from(path, 0, op)
    }
}


fn add_number_panics(n: &Number, v: &JsonValue) -> (b: bool)
    ensures
        b == (add_number(*n, v@) is Panic),
{
    match (n, v) {
        (Number::PosInt(a), JsonValue::Number(Number::PosInt(x))) => *a > u64::MAX - *x,
        _ => true,
    }
}

fn list_panics(a: &Vec<JsonValue>, seg: &PathElement, op: &Operator) -> (b: bool)
    ensures
        b == (apply_list(elems_model(a@), seg@, op@) is Panic),
{
    let i = match seg {
        PathElement::Index(i) => *i,
        PathElement::Key(_) => {
            return false;
        },
    };
    match op {
        Operator::AddNumber(v) => {
            if i < a.len() {
                match &a[i] {
                    JsonValue::Number(n) => add_number_panics(n, v),
                    _ => false,
                }
            } else {
                true
            }
        },
        Operator::ListMove(m) => i < a.len() && i != *m && *m >= a.len(),
        _ => false,
    }
}

impl JsonValue {
    fn last_panics(&self, path: &Path, start: usize, op: &Operator) -> (b: bool)
        requires
            start <= path@.len() <= start + 1,
        ensures
            b == (apply_last(self@, path@.skip(start as int), op@) is Panic),
        decreases self@,
    {
        let ghost p = path@.skip(start as int);
        let has_step = start < path.len();
        match self {
            JsonValue::Array(a) => {
                if !has_step {
                    return true;
                }
                assert(p[0] == path@[start as int]);
                list_panics(a, &path.elements[start], op)
            },
            JsonValue::Object(entries) => {
                if !has_step {
                    return true;
                }
                assert(p[0] == path@[start as int]);
                match &path.elements[start] {
                    PathElement::Index(_) => false,
                    PathElement::Key(k) => match op {
                        Operator::AddNumber(_) => {
                            let (i, found) = object_position(entries, k.as_str());
                            if found {
                                entries[i].1.last_panics(path, start, op)
                            } else {
                                false
                            }
                        },
                        _ => false,
                    },
                }
            },
            JsonValue::Number(n) => match op {
                Operator::AddNumber(v) => add_number_panics(n, v),
                _ => false,
            },
            _ => false,
        }
    }

    fn panics_from(&self, path: &Path, start: usize, op: &Operator) -> (b: bool)
        requires
            start <= path@.len(),
        ensures
            b == (apply_at(self@, path@.skip(start as int), op@) is Panic),
        decreases path@.len() - start,
    {
        let ghost p = path@.skip(start as int);
        if path.len() - start > 1 {
            assert(p.drop_first() =~= path@.skip(start + 1));
            match self {
                JsonValue::Array(a) => {
                    let i = match &path.elements[start] {
                        PathElement::Index(i) => *i,
                        PathElement::Key(_) => {
                            return false;
                        },
                    };
                    if i >= a.len() {
                        return false;
                    }
                    a[i].panics_from(path, start + 1, op)
                },
                JsonValue::Object(entries) => {
                    let k = match &path.elements[start] {
                        PathElement::Key(k) => k,
                        PathElement::Index(_) => {
                            return false;
                        },
                    };
                    let (i, found) = object_position(entries, k.as_str());
                    if !found {
                        return false;
                    }
                    entries[i].1.panics_from(path, start + 1, op)
                },
                _ => false,
            }
        } else {
            self.last_panics(path, start, op)
        }
    }

    /// Whether applying `op` at `path` panics: an addition to what is not a
    /// non-negative integer, or whose sum does not fit; an addition or move
    /// at or to an index past an array's end; an operator at an array or an
    /// object without a step into it.
    pub fn panics_at(&self, path: &Path, op: &Operator) -> (b: bool)
        ensures
            b == (apply_at(self@, path@, op@) is Panic),
    {
        assert(path@.skip(0) =~= path@);
        self.panics_from(path, 0, op)
    }
}

/// The value that an operator takes away, where it takes one away.
pub open spec fn carried(op: Op) -> Option<Json> {
    match op {
        Op::ListDelete(v) => Some(v),
        Op::ListReplace(_, v) => Some(v),
        Op::ObjectDelete(v) => Some(v),
        Op::ObjectReplace(_, v) => Some(v),
        _ => None,
    }
}

/// The operator with the value it takes away replaced by `v`.
pub open spec fn with_carried(op: Op, v: Json) -> Op {
    match op {
        Op::ListDelete(_) => Op::ListDelete(v),
        Op::ListReplace(n, _) => Op::ListReplace(n, v),
        Op::ObjectDelete(_) => Op::ObjectDelete(v),
        Op::ObjectReplace(n, _) => Op::ObjectReplace(n, v),
        _ => op,
    }
}

/// Folding `base`, which acts inside the value that `c` takes away, into that
/// value; `n` is the length of the path that the two share.
pub open spec fn consume_spec(c: Comp, n: int, base: Comp) -> Outcome<Comp> {
    match carried(c.op) {
        None => Outcome::Done(c),
        Some(v) => match apply_at(v, base.path.skip(n), base.op) {
            Outcome::Done(v2) => Outcome::Done(Comp { path: c.path, op: with_carried(c.op, v2) }),
            Outcome::Fail(e) => Outcome::Fail(e),
            Outcome::Panic => Outcome::Panic,
        },
    }
}

impl OperationComponent {
    /// Applies `base`, whose path runs through the value that `self` takes
    /// away, to that value, so that `self` takes away what is there after `base`.
    pub fn consume(&mut self, common: &Path, base: &OperationComponent) -> (r: Result<(), JsonError>)
        requires
            common@.len() <= base@.path.len(),
            !(consume_spec(old(self)@, common@.len() as int, base@) is Panic),
        ensures
            match consume_spec(old(self)@, common@.len() as int, base@) {
                Outcome::Done(c) => r is Ok && final(self)@ == c,
                Outcome::Fail(e) => r is Err && r->Err_0@ == e && final(self)@ == old(self)@,
                Outcome::Panic => false,
            },
    {
        let (_, rest) = base.path.split_at(common.len());
        match &mut self.operator {
            Operator::ListDelete(v) => v.apply(&rest, &base.operator),
            Operator::ListReplace(_, v) => v.apply(&rest, &base.operator),
            Operator::ObjectDelete(v) => v.apply(&rest, &base.operator),
            Operator::ObjectReplace(_, v) => v.apply(&rest, &base.operator),
            _ => Ok(()),
        }
    }
}

} // verus!
