use vstd::prelude::*;

use crate::error::{JsonErr, JsonError};
use crate::path::{path_of, Path, PathElement, Seg};
use crate::value::{object_get, obj_get, Entries, Json, JsonValue, Number};

verus! {

/// What an operation component does at the end of its path.
#[derive(Debug)]
pub enum Operator {
    Noop,
    AddNumber(JsonValue),
    ListInsert(JsonValue),
    ListDelete(JsonValue),
    /// The new value, then the value it replaces.
    ListReplace(JsonValue, JsonValue),
    /// The position the element moves to.
    ListMove(usize),
    ObjectInsert(JsonValue),
    ObjectDelete(JsonValue),
    /// The new value, then the value it replaces.
    ObjectReplace(JsonValue, JsonValue),
}

/// The mathematical form of an `Operator`.
pub enum Op {
    Noop,
    AddNumber(Json),
    ListInsert(Json),
    ListDelete(Json),
    ListReplace(Json, Json),
    ListMove(usize),
    ObjectInsert(Json),
    ObjectDelete(Json),
    ObjectReplace(Json, Json),
}

impl View for Operator {
    type V = Op;

    open spec fn view(&self) -> Op {
        match self {
            Operator::Noop => Op::Noop,
            Operator::AddNumber(v) => Op::AddNumber(v@),
            Operator::ListInsert(v) => Op::ListInsert(v@),
            Operator::ListDelete(v) => Op::ListDelete(v@),
            Operator::ListReplace(n, o) => Op::ListReplace(n@, o@),
            Operator::ListMove(m) => Op::ListMove(*m),
            Operator::ObjectInsert(v) => Op::ObjectInsert(v@),
            Operator::ObjectDelete(v) => Op::ObjectDelete(v@),
            Operator::ObjectReplace(n, o) => Op::ObjectReplace(n@, o@),
        }
    }
}

/// One component of an operation: an operator and the path it acts at.
#[derive(Debug)]
pub struct OperationComponent {
    pub path: Path,
    pub operator: Operator,
}

/// The mathematical form of an `OperationComponent`.
pub struct Comp {
    pub path: Seq<Seg>,
    pub op: Op,
}

impl View for OperationComponent {
    type V = Comp;

    open spec fn view(&self) -> Comp {
        Comp { path: self.path@, op: self.operator@ }
    }
}

pub open spec fn comps_model(v: Seq<OperationComponent>) -> Seq<Comp> {
    Seq::new(v.len(), |i: int| v[i]@)
}

pub open spec fn msg_add_number_param() -> Seq<char> {
    "AddNumber needs a number"@
}

pub open spec fn msg_list_move_param() -> Seq<char> {
    "ListMove needs a non-negative integer"@
}

/// Whether an operator works on an array element.
pub open spec fn is_list_op(op: Op) -> bool {
    op is ListInsert || op is ListDelete || op is ListReplace || op is ListMove
}

/// Whether an operator works on an object entry.
pub open spec fn is_object_op(op: Op) -> bool {
    op is ObjectInsert || op is ObjectDelete || op is ObjectReplace
}

/// What validating a component reports: an added amount must be a number,
/// a list operator's path must end in an index, an object operator's in a key.
pub open spec fn comp_check(c: Comp) -> Result<(), JsonErr> {
    if c.op is AddNumber {
        if c.op->AddNumber_0 is Number {
            Ok(())
        } else {
            Err(JsonErr::InvalidParameter(msg_add_number_param()))
        }
    } else if is_list_op(c.op) {
        if c.path.len() > 0 && c.path.last() is Index {
            Ok(())
        } else {
            Err(JsonErr::BadPath)
        }
    } else if is_object_op(c.op) {
        if c.path.len() > 0 && c.path.last() is Key {
            Ok(())
        } else {
            Err(JsonErr::BadPath)
        }
    } else {
        Ok(())
    }
}

/// The single operator that does what `last` and then `next` do at one path,
/// where the two fold into one.
pub open spec fn merge_op(last: Op, next: Op) -> Option<Op> {
    match (last, next) {
        (Op::AddNumber(Json::Number(Number::PosInt(x))), Op::AddNumber(Json::Number(Number::PosInt(y)))) => {
            if x + y <= u64::MAX {
                Some(Op::AddNumber(Json::Number(Number::PosInt((x + y) as u64))))
            } else {
                None
            }
        },
        (Op::ListInsert(v), Op::ListDelete(d)) => if v == d {
            Some(Op::Noop)
        } else {
            None
        },
        (Op::ListReplace(n, o), Op::ListDelete(d)) => if n == d {
            Some(Op::ListDelete(o))
        } else {
            None
        },
        (Op::ObjectDelete(o), Op::ObjectInsert(n)) => Some(Op::ObjectReplace(n, o)),
        (Op::ObjectInsert(_), Op::ObjectDelete(_)) => Some(Op::Noop),
        (Op::ObjectInsert(_), Op::ObjectReplace(n, _)) => Some(Op::ObjectInsert(n)),
        (Op::ObjectReplace(_, o), Op::ObjectDelete(_)) => Some(Op::ObjectDelete(o)),
        (Op::ObjectReplace(_, o), Op::ObjectReplace(n, _)) => Some(Op::ObjectReplace(n, o)),
        _ => None,
    }
}

/// The path of the value that a component changes: the container of the
/// element it acts on, or, for `AddNumber`, the number itself.
pub open spec fn operate_path(c: Comp) -> Seq<Seg> {
    if c.op is AddNumber || c.path.len() == 0 {
        c.path
    } else {
        c.path.drop_last()
    }
}

/// The operator that an encoded component's fields stand for.
pub open spec fn op_of(e: Entries) -> Result<Op, JsonErr> {
    if obj_get(e, "na"@) is Some {
        Ok(Op::AddNumber(obj_get(e, "na"@)->0))
    } else if obj_get(e, "li"@) is Some {
        if obj_get(e, "ld"@) is Some {
            Ok(Op::ListReplace(obj_get(e, "li"@)->0, obj_get(e, "ld"@)->0))
        } else {
            Ok(Op::ListInsert(obj_get(e, "li"@)->0))
        }
    } else if obj_get(e, "ld"@) is Some {
        Ok(Op::ListDelete(obj_get(e, "ld"@)->0))
    } else if obj_get(e, "lm"@) is Some {
        match obj_get(e, "lm"@)->0 {
            Json::Number(Number::PosInt(m)) => if m <= usize::MAX {
                Ok(Op::ListMove(m as usize))
            } else {
                Err(JsonErr::InvalidParameter(msg_list_move_param()))
            },
            _ => Err(JsonErr::InvalidParameter(msg_list_move_param())),
        }
    } else if obj_get(e, "oi"@) is Some {
        if obj_get(e, "od"@) is Some {
            Ok(Op::ObjectReplace(obj_get(e, "oi"@)->0, obj_get(e, "od"@)->0))
        } else {
            Ok(Op::ObjectInsert(obj_get(e, "oi"@)->0))
        }
    } else if obj_get(e, "od"@) is Some {
        Ok(Op::ObjectDelete(obj_get(e, "od"@)->0))
    } else {
        Ok(Op::Noop)
    }
}

/// The component that a JSON object such as `{"p": ["a", 0], "li": 1}` stands for.
pub open spec fn comp_of(j: Json) -> Result<Comp, JsonErr> {
    match j {
        Json::Object(e) => match obj_get(e, "p"@) {
            Some(pj) => match path_of(pj) {
                Ok(p) => match op_of(e) {
                    Ok(op) => Ok(Comp { path: p, op }),
                    Err(x) => Err(x),
                },
                Err(x) => Err(x),
            },
            None => Err(JsonErr::BadPath),
        },
        _ => Err(JsonErr::BadPath),
    }
}

impl Operator {
    /// A copy of the operator.
    pub fn copy(&self) -> (r: Operator)
        ensures
            r@ == self@,
    {
        match self {
            Operator::Noop => Operator::Noop,
            Operator::AddNumber(v) => Operator::AddNumber(v.deep_clone()),
            Operator::ListInsert(v) => Operator::ListInsert(v.deep_clone()),
            Operator::ListDelete(v) => Operator::ListDelete(v.deep_clone()),
            Operator::ListReplace(n, o) => Operator::ListReplace(n.deep_clone(), o.deep_clone()),
            Operator::ListMove(m) => Operator::ListMove(*m),
            Operator::ObjectInsert(v) => Operator::ObjectInsert(v.deep_clone()),
            Operator::ObjectDelete(v) => Operator::ObjectDelete(v.deep_clone()),
            Operator::ObjectReplace(n, o) => Operator::ObjectReplace(
                n.deep_clone(),
                o.deep_clone(),
            ),
        }
    }

    /// Whether the operator is `Noop`.
    pub fn is_noop(&self) -> (r: bool)
        ensures
            r == (self@ is Noop),
    {
        match self {
            Operator::Noop => true,
            _ => false,
        }
    }
}

impl OperationComponent {
    pub fn new(path: Path, operator: Operator) -> (r: OperationComponent)
        ensures
            r.path == path,
            r.operator == operator,
    {
        OperationComponent { path, operator }
    }

    /// A copy of the component.
    pub fn copy(&self) -> (r: OperationComponent)
        ensures
            r@ == self@,
    {
        OperationComponent { path: self.path.copy(), operator: self.operator.copy() }
    }

    /// Checks that the operator's parameter and path fit it.
    pub fn validates(&self) -> (r: Result<(), JsonError>)
        ensures
            match r {
                Ok(_) => comp_check(self@) == Ok::<(), JsonErr>(()),
                Err(e) => comp_check(self@) == Err::<(), JsonErr>(e@),
            },
    {
        match &self.operator {
            Operator::AddNumber(v) => match v {
                JsonValue::Number(_) => Ok(()),
                _ => Err(JsonError::InvalidParameter("AddNumber needs a number".to_owned())),
            },
            Operator::ListInsert(_) | Operator::ListDelete(_) | Operator::ListReplace(_, _)
            | Operator::ListMove(_) => match self.path.last() {
                Some(PathElement::Index(_)) => Ok(()),
                _ => Err(JsonError::BadPath),
            },
            Operator::ObjectInsert(_) | Operator::ObjectDelete(_) | Operator::ObjectReplace(
                _,
                _,
            ) => match self.path.last() {
                Some(PathElement::Key(_)) => Ok(()),
                _ => Err(JsonError::BadPath),
            },
            Operator::Noop => Ok(()),
        }
    }

    /// Folds `other`, which acts at the same path after `self`, into `self`
    /// where the two make one operator; says whether they did.
    pub fn merge(&mut self, other: &OperationComponent) -> (r: bool)
        ensures
            r == (merge_op(old(self)@.op, other@.op) is Some),
            final(self)@.path == old(self)@.path,
            final(self)@.op == (if r {
                merge_op(old(self)@.op, other@.op)->0
            } else {
                old(self)@.op
            }),
    {
        let merged: Option<Operator> = match (&self.operator, &other.operator) {
            (
                Operator::AddNumber(JsonValue::Number(Number::PosInt(x))),
                Operator::AddNumber(JsonValue::Number(Number::PosInt(y))),
            ) => {
                if *x <= u64::MAX - *y {
                    Some(Operator::AddNumber(JsonValue::Number(Number::PosInt(*x + *y))))
                } else {
                    None
                }
            },
            (Operator::ListInsert(v), Operator::ListDelete(d)) => {
                if v.eq_value(d) {
                    Some(Operator::Noop)
                } else {
                    None
                }
            },
            (Operator::ListReplace(n, o), Operator::ListDelete(d)) => {
                if n.eq_value(d) {
                    Some(Operator::ListDelete(o.deep_clone()))
                } else {
                    None
                }
            },
            (Operator::ObjectDelete(o), Operator::ObjectInsert(n)) => Some(
                Operator::ObjectReplace(n.deep_clone(), o.deep_clone()),
            ),
            (Operator::ObjectInsert(_), Operator::ObjectDelete(_)) => Some(Operator::Noop),
            (Operator::ObjectInsert(_), Operator::ObjectReplace(n, _)) => Some(
                Operator::ObjectInsert(n.deep_clone()),
            ),
            (Operator::ObjectReplace(_, o), Operator::ObjectDelete(_)) => Some(
                Operator::ObjectDelete(o.deep_clone()),
            ),
            (Operator::ObjectReplace(_, o), Operator::ObjectReplace(n, _)) => Some(
                Operator::ObjectReplace(n.deep_clone(), o.deep_clone()),
            ),
            _ => None,
        };
        match merged {
            Some(m) => {
                self.operator = m;
                true
            },
            None => false,
        }
    }

    /// The path of the value that the component changes.
    pub fn operate_path(&self) -> (r: Path)
        ensures
            r@ == operate_path(self@),
    {
        let n = self.path.len();
        match &self.operator {
            Operator::AddNumber(_) => self.path.copy(),
            _ => {
                if n == 0 {
                    self.path.copy()
                } else {
                    let (left, _) = self.path.split_at(n - 1);
                    assert(left@ =~= self@.path.drop_last());
                    left
                }
            },
        }
    }

    /// The component that a JSON object such as `{"p": ["a", 0], "li": 1}`
    /// stands for: `p` holds the path, and `na`, `li`, `ld`, `lm`, `oi`, `od`
    /// the operator's parameters.
    pub fn from_value(v: &JsonValue) -> (r: Result<OperationComponent, JsonError>)
        ensures
            match r {
                Ok(c) => comp_of(v@) == Ok::<Comp, JsonErr>(c@),
                Err(e) => comp_of(v@) == Err::<Comp, JsonErr>(e@),
            },
    {
        match v {
            JsonValue::Object(entries) => {
                let pv = match object_get(entries, "p") {
                    Some(pv) => pv,
                    None => {
                        return Err(JsonError::BadPath);
                    },
                };
                let path = match Path::from_value(pv) {
                    Ok(p) => p,
                    Err(e) => {
                        return Err(e);
                    },
                };
                let operator = if let Some(n) = object_get(entries, "na") {
                    Operator::AddNumber(n.deep_clone())
                } else if let Some(li) = object_get(entries, "li") {
                    if let Some(ld) = object_get(entries, "ld") {
                        Operator::ListReplace(li.deep_clone(), ld.deep_clone())
                    } else {
                        Operator::ListInsert(li.deep_clone())
                    }
                } else if let Some(ld) = object_get(entries, "ld") {
                    Operator::ListDelete(ld.deep_clone())
                } else if let Some(lm) = object_get(entries, "lm") {
                    match lm {
                        JsonValue::Number(Number::PosInt(m)) => {
                            if *m <= usize::MAX as u64 {
                                Operator::ListMove(*m as usize)
                            } else {
                                return Err(
                                    JsonError::InvalidParameter(
                                        "ListMove needs a non-negative integer".to_owned(),
                                    ),
                                );
                            }
                        },
                        _ => {
                            return Err(
                                JsonError::InvalidParameter(
                                    "ListMove needs a non-negative integer".to_owned(),
                                ),
                            );
                        },
                    }
                } else if let Some(oi) = object_get(entries, "oi") {
                    if let Some(od) = object_get(entries, "od") {
                        Operator::ObjectReplace(oi.deep_clone(), od.deep_clone())
                    } else {
                        Operator::ObjectInsert(oi.deep_clone())
                    }
                } else if let Some(od) = object_get(entries, "od") {
                    Operator::ObjectDelete(od.deep_clone())
                } else {
                    Operator::Noop
                };
                Ok(OperationComponent { path, operator })
            },
            _ => Err(JsonError::BadPath),
        }
    }
}

} // verus!
