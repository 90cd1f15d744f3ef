use vstd::prelude::*;

use crate::apply::{apply_at, consume_spec, route, routed, Outcome};
use crate::error::{JsonErr, JsonError};
use crate::operation::{comp_check, comps_model, merge_op, operate_path, Comp, Op, OperationComponent, Operator};
use crate::path::{common_len, seg_le, Path, PathElement, Seg};
use crate::value::{Json, JsonValue, Number};

verus! {

/// An operation: components applied one after the other.
pub type Operation = Vec<OperationComponent>;

/// Which of two concurrent operations goes first where they tie.
#[allow(non_camel_case_types)]
#[derive(Clone, Copy, Debug, PartialEq, Eq, Structural)]
pub enum TransformSide {
    LEFT,
    RIGHT,
}

/// Composes, inverts and transforms operations.
pub struct Transformer {}

/// The first error that validating the components one by one meets.
pub open spec fn check_all(ops: Seq<Comp>) -> Result<(), JsonErr>
    decreases ops.len(),
{
    if ops.len() == 0 {
        Ok(())
    } else {
        match comp_check(ops[0]) {
            Err(e) => Err(e),
            Ok(_) => check_all(ops.drop_first()),
        }
    }
}

/// The operation after appending `c`: a move to where the element already is
/// adds nothing, a component at the path of the last one folds into it where
/// the two make one operator (and both go where that operator does nothing),
/// and any other component goes at the end.
pub open spec fn append_spec(ops: Seq<Comp>, c: Comp) -> Result<Seq<Comp>, JsonErr> {
    match comp_check(c) {
        Err(e) => Err(e),
        Ok(_) => if c.op is ListMove && c.path.last() == Seg::Index(c.op->ListMove_0) {
            Ok(ops)
        } else if ops.len() == 0 {
            Ok(seq![c])
        } else if ops.last().path == c.path && merge_op(ops.last().op, c.op) is Some {
            let m = merge_op(ops.last().op, c.op)->0;
            if m is Noop {
                Ok(ops.drop_last())
            } else {
                Ok(ops.drop_last().push(Comp { path: c.path, op: m }))
            }
        } else {
            Ok(ops.push(c))
        },
    }
}

/// Appending the components of `b` one after the other.
pub open spec fn append_all(ops: Seq<Comp>, b: Seq<Comp>) -> Result<Seq<Comp>, JsonErr>
    decreases b.len(),
{
    if b.len() == 0 {
        Ok(ops)
    } else {
        match append_spec(ops, b[0]) {
            Ok(o2) => append_all(o2, b.drop_first()),
            Err(e) => Err(e),
        }
    }
}

/// `a` followed by `b`, each component of `b` appended in turn.
pub open spec fn compose_spec(a: Seq<Comp>, b: Seq<Comp>) -> Result<Seq<Comp>, JsonErr> {
    match check_all(a) {
        Err(e) => Err(e),
        Ok(_) => append_all(a, b),
    }
}

/// The component that undoes `c`.
pub open spec fn invert_spec(c: Comp) -> Outcome<Comp> {
    match comp_check(c) {
        Err(e) => Outcome::Fail(e),
        Ok(_) => match c.op {
            Op::Noop => Outcome::Done(c),
            Op::AddNumber(Json::Number(n)) => match n.spec_as_i64() {
                Some(x) => if x == i64::MIN {
                    Outcome::Panic
                } else {
                    Outcome::Done(
                        Comp {
                            path: c.path,
                            op: Op::AddNumber(Json::Number(Number::spec_from_i64((-x) as i64))),
                        },
                    )
                },
                None => Outcome::Panic,
            },
            Op::AddNumber(_) => Outcome::Panic,
            Op::ListInsert(v) => Outcome::Done(Comp { path: c.path, op: Op::ListDelete(v) }),
            Op::ListDelete(v) => Outcome::Done(Comp { path: c.path, op: Op::ListInsert(v) }),
            Op::ListReplace(n, o) => Outcome::Done(Comp { path: c.path, op: Op::ListReplace(o, n) }),
            Op::ListMove(m) => Outcome::Done(
                Comp {
                    path: c.path.update(c.path.len() - 1, Seg::Index(m)),
                    op: Op::ListMove(c.path.last()->Index_0),
                },
            ),
            Op::ObjectInsert(v) => Outcome::Done(Comp { path: c.path, op: Op::ObjectDelete(v) }),
            Op::ObjectDelete(v) => Outcome::Done(Comp { path: c.path, op: Op::ObjectInsert(v) }),
            Op::ObjectReplace(n, o) => Outcome::Done(
                Comp { path: c.path, op: Op::ObjectReplace(o, n) },
            ),
        },
    }
}

/// The path length of a component, counting the number itself for `AddNumber`.
pub open spec fn op_len(c: Comp) -> int {
    c.path.len() + if c.op is AddNumber {
        1int
    } else {
        0int
    }
}

/// `Some(op_len(a))` where `a`'s path is a prefix of `b`'s, or where
/// `op_len(a)` is 0; otherwise `None`.
pub open spec fn operating_path(a: Comp, b: Comp) -> Option<usize> {
    if op_len(a) == 0 {
        Some(0)
    } else if op_len(b) == 0 {
        None
    } else if a.path.len() <= b.path.len() && b.path.take(a.path.len() as int) == a.path {
        Some(op_len(a) as usize)
    } else {
        None
    }
}

/// The inputs on which `transform_component` panics: those on which it reads
/// a step beyond the end of a path, or reaches a case it does not handle.
pub open spec fn transform_component_panics(base: Comp, new: Comp) -> bool {
    ||| operating_path(new, base) is Some && op_len(base) > op_len(new)
    ||| operating_path(base, new) is None
    ||| base.op is ListInsert && new.op is ListInsert
    ||| !(base.op is ListInsert || base.op is Noop || base.op is AddNumber)
}

/// The component with the index it ends in moved one place on.
pub open spec fn bump_last(c: Comp) -> Outcome<Comp> {
    if c.path.len() == 0 {
        Outcome::Fail(JsonErr::BadPath)
    } else {
        match c.path.last() {
            Seg::Index(i) => if i + 1 <= usize::MAX {
                Outcome::Done(
                    Comp { path: c.path.drop_last().push(Seg::Index((i + 1) as usize)), op: c.op },
                )
            } else {
                Outcome::Panic
            },
            Seg::Key(_) => Outcome::Fail(JsonErr::BadPath),
        }
    }
}

/// `new` transformed against `base`, which was applied concurrently.
pub open spec fn transform2_spec(base: Comp, new: Comp, side: TransformSide) -> Outcome<Comp> {
    let mcp = common_len(base.path, new.path);
    let nop = operate_path(new).len();
    let bop = operate_path(base).len();
    if mcp == 0 {
        Outcome::Done(new)
    } else if mcp < nop && mcp < bop {
        Outcome::Done(new)
    } else if bop > nop {
        if mcp == new.path.len() {
            consume_spec(new, mcp as int, base)
        } else {
            Outcome::Done(new)
        }
    } else {
        match base.op {
            Op::ListInsert(_) => match new.op {
                Op::ListInsert(_) => if nop == bop && mcp == new.path.len() {
                    if side == TransformSide::RIGHT {
                        bump_last(new)
                    } else {
                        Outcome::Done(new)
                    }
                } else if seg_le(base.path.last(), new.path.last()) {
                    bump_last(new)
                } else {
                    Outcome::Done(new)
                },
                Op::ListDelete(_) | Op::ListReplace(_, _) => if seg_le(
                    base.path.last(),
                    new.path.last(),
                ) {
                    bump_last(new)
                } else {
                    Outcome::Done(new)
                },
                Op::ListMove(_) => Outcome::Panic,
                _ => Outcome::Done(new),
            },
            Op::Noop | Op::AddNumber(_) => Outcome::Done(new),
            _ => Outcome::Panic,
        }
    }
}

/// What a call that returns a component gives, against the outcome that the
/// specification gives.
pub open spec fn gave(outcome: Outcome<Comp>, r: Result<OperationComponent, JsonError>) -> bool {
    match outcome {
        Outcome::Done(c) => r is Ok && r->Ok_0@ == c,
        Outcome::Fail(e) => r is Err && r->Err_0@ == e,
        Outcome::Panic => false,
    }
}

/// Validates every component of an operation, stopping at the first error.
pub fn validate_operation(ops: &Vec<OperationComponent>) -> (r: Result<(), JsonError>)
    ensures
        match r {
            Ok(_) => check_all(comps_model(ops@)) == Ok::<(), JsonErr>(()),
            Err(e) => check_all(comps_model(ops@)) == Err::<(), JsonErr>(e@),
        },
{
    let ghost all = comps_model(ops@);
    let mut i: usize = 0;
    assert(all.skip(0) =~= all);
    while i < ops.len()
        invariant
            i <= ops.len(),
            all == comps_model(ops@),
            check_all(all) == check_all(all.skip(i as int)),
        decreases ops.len() - i,
    {
        assert(all.skip(i as int)[0] == ops@[i as int]@);
        assert(all.skip(i as int).drop_first() =~= all.skip(i + 1));
        match ops[i].validates() {
            Ok(_) => {},
            Err(e) => {
                return Err(e);
            },
        }
        i = i + 1;
    }
    assert(all.skip(i as int) =~= Seq::<Comp>::empty());
    Ok(())
}

/// Bumps the index that a component's path ends in.
fn bump_last_exec(c: &mut OperationComponent) -> (r: Result<(), JsonError>)
    requires
        !(bump_last(old(c)@) is Panic),
    ensures
        match bump_last(old(c)@) {
            Outcome::Done(n) => r is Ok && final(c)@ == n,
            Outcome::Fail(e) => r is Err && r->Err_0@ == e,
            Outcome::Panic => false,
        },
{
    match c.path.pop() {
        Some(PathElement::Index(i)) => {
            c.path.push(PathElement::Index(i + 1));
            Ok(())
        },
        _ => Err(JsonError::BadPath),
    }
}

impl Transformer {
    /// `new_op` transformed against `base_op`: on the inputs that it handles
    /// without a panic it hands back `new_op` unchanged.
    pub fn transform_component(
        &self,
        base_op: &OperationComponent,
        new_op: &OperationComponent,
        side: TransformSide,
    ) -> (r: Result<OperationComponent, JsonError>)
        requires
            !transform_component_panics(base_op@, new_op@),
            base_op@.path.len() < usize::MAX,
            new_op@.path.len() < usize::MAX,
        ensures
            r is Ok && r->Ok_0@ == new_op@,
    {
        let mut new_op = new_op.copy();
        let base_op_new_op_common = self.transform_operating_path(base_op, &new_op);
        let new_op_base_op_common = self.transform_operating_path(&new_op, base_op);
        let mut new_op_len = new_op.path.len();
        let mut base_op_len = base_op.path.len();
        if let Operator::AddNumber(_) = new_op.operator {
            new_op_len += 1;
        }
        if let Operator::AddNumber(_) = base_op.operator {
            base_op_len += 1;
        }
        if let Some(c) = new_op_base_op_common {
            if base_op_len > new_op_len {
                // Both paths are read at position `c`, which lies beyond the
                // end of `new_op`'s path: the inputs that reach here panic.
                let b = match base_op.path.get(c) {
                    Some(b) => b,
                    None => unreached(),
                };
                let n = match new_op.path.get(c) {
                    Some(n) => n,
                    None => unreached(),
                };
                if b.eq_elem(n) {
                    let (_, p2) = base_op.path.split_at(new_op_len);
                    let applied = match &mut new_op.operator {
                        Operator::ListDelete(v) => v.apply(&p2, &base_op.operator),
                        Operator::ListReplace(_, v) => v.apply(&p2, &base_op.operator),
                        Operator::ObjectDelete(v) => v.apply(&p2, &base_op.operator),
                        Operator::ObjectReplace(_, v) => v.apply(&p2, &base_op.operator),
                        _ => Ok(()),
                    };
                    if let Err(e) = applied {
                        return Err(e);
                    }
                }
            }
        }
        if let Some(_common) = base_op_new_op_common {
            match base_op.operator {
                Operator::ListInsert(_) => match new_op.operator {
                    // Two insertions read both paths at position `_common`, the
                    // length of `base_op`'s path, which lies beyond the end of
                    // one of them: the inputs that reach here panic.
                    Operator::ListInsert(_) => unreached(),
                    _ => {
                        return Ok(new_op);
                    },
                },
                Operator::Noop | Operator::AddNumber(_) => {
                    return Ok(new_op);
                },
                // No other base operator is handled.
                _ => unreached(),
            }
        }
        // Components whose paths share no prefix are not handled.
        unreached()
    }

    /// `new_op` transformed against `base_op`, which was applied concurrently:
    /// an insertion at or before an index moves `new_op`'s index on, and an
    /// operation on a value inside what `new_op` removes is folded into it.
    pub fn transform_component2(
        &self,
        base_op: &OperationComponent,
        new_op: &OperationComponent,
        side: TransformSide,
    ) -> (r: Result<OperationComponent, JsonError>)
        requires
            !(transform2_spec(base_op@, new_op@, side) is Panic),
        ensures
            gave(transform2_spec(base_op@, new_op@, side), r),
    {
        let mut new_op = new_op.copy();
        let max_common_path = base_op.path.max_common_path(&new_op.path);
        if max_common_path.is_empty() {
            return Ok(new_op);
        }
        let new_operate_path = new_op.operate_path();
        let base_operate_path = base_op.operate_path();
        if max_common_path.len() < new_operate_path.len() && max_common_path.len()
            < base_operate_path.len() {
            return Ok(new_op);
        }
        if base_operate_path.len() > new_operate_path.len() {
            if max_common_path.len() == new_op.path.len() {
                match new_op.consume(&max_common_path, base_op) {
                    Ok(_) => {},
                    Err(e) => {
                        return Err(e);
                    },
                }
            }
            return Ok(new_op);
        }
        let same_operand = new_operate_path.len() == base_operate_path.len();
        let base_last = match base_op.path.last() {
            Some(b) => b,
            None => unreached(),
        };
        match base_op.operator {
            Operator::ListInsert(_) => match new_op.operator {
                Operator::ListInsert(_) => {
                    if same_operand && max_common_path.len() == new_op.path.len() {
                        if side == TransformSide::RIGHT {
                            return match bump_last_exec(&mut new_op) {
                                Ok(_) => Ok(new_op),
                                Err(e) => Err(e),
                            };
                        }
                    } else {
                        let new_last = match new_op.path.last() {
                            Some(n) => n,
                            None => unreached(),
                        };
                        if base_last.le(new_last) {
                            return match bump_last_exec(&mut new_op) {
                                Ok(_) => Ok(new_op),
                                Err(e) => Err(e),
                            };
                        }
                    }
                },
                Operator::ListDelete(_) | Operator::ListReplace(_, _) => {
                    let new_last = match new_op.path.last() {
                        Some(n) => n,
                        None => unreached(),
                    };
                    if base_last.le(new_last) {
                        return match bump_last_exec(&mut new_op) {
                            Ok(_) => Ok(new_op),
                            Err(e) => Err(e),
                        };
                    }
                },
                Operator::ListMove(_) => unreached(),
                _ => {
                    return Ok(new_op);
                },
            },
            Operator::Noop | Operator::AddNumber(_) => {
                return Ok(new_op);
            },
            _ => unreached(),
        }
        Ok(new_op)
    }

    /// Appends `op` to `operation`, folding it into the last component where
    /// the two make one operator.
    pub fn append(&self, operation: &mut Operation, op: &OperationComponent) -> (r: Result<
        (),
        JsonError,
    >)
        ensures
            match append_spec(comps_model(old(operation)@), op@) {
                Ok(ops) => r is Ok && comps_model(final(operation)@) == ops,
                Err(e) => r is Err && r->Err_0@ == e && final(operation)@ == old(operation)@,
            },
    {
        let ghost before = comps_model(operation@);
        match op.validates() {
            Ok(_) => {},
            Err(e) => {
                return Err(e);
            },
        }
        if let Operator::ListMove(m) = op.operator {
            let n = op.path.len();
            match op.path.get(n - 1) {
                Some(last) => {
                    if last.eq_elem(&PathElement::Index(m)) {
                        return Ok(());
                    }
                },
                None => unreached(),
            }
        }
        if operation.len() == 0 {
            operation.push(op.copy());
            assert(comps_model(operation@) =~= seq![op@]);
            return Ok(());
        }
        let mut last = operation.pop().unwrap();
        assert(comps_model(operation@) =~= before.drop_last());
        if last.path.eq_path(&op.path) && last.merge(op) {
            if !last.operator.is_noop() {
                operation.push(last);
                assert(comps_model(operation@) =~= before.drop_last().push(
                    Comp { path: op@.path, op: merge_op(before.last().op, op@.op)->0 },
                ));
            }
            return Ok(());
        }
        operation.push(last);
        operation.push(op.copy());
        assert(comps_model(operation@) =~= before.push(op@));
        Ok(())
    }

    /// The component that undoes `operation`.
    pub fn invert(&self, operation: &OperationComponent) -> (r: Result<OperationComponent, JsonError>)
        requires
            !(invert_spec(operation@) is Panic),
        ensures
            gave(invert_spec(operation@), r),
    {
        match operation.validates() {
            Ok(_) => {},
            Err(e) => {
                return Err(e);
            },
        }
        let mut path = operation.path.copy();
        let operator = match &operation.operator {
            Operator::Noop => Operator::Noop,
            Operator::AddNumber(n) => {
                let x = match n {
                    JsonValue::Number(num) => match num.as_i64() {
                        Some(x) => x,
                        None => unreached(),
                    },
                    _ => unreached(),
                };
                Operator::AddNumber(JsonValue::Number(Number::from_i64(-x)))
            },
            Operator::ListInsert(v) => Operator::ListDelete(v.deep_clone()),
            Operator::ListDelete(v) => Operator::ListInsert(v.deep_clone()),
            Operator::ListReplace(new_v, old_v) => Operator::ListReplace(
                old_v.deep_clone(),
                new_v.deep_clone(),
            ),
            Operator::ListMove(new) => {
                let n = path.len();
                let old_p = path.replace(n - 1, PathElement::Index(*new));
                match old_p {
                    Some(PathElement::Index(i)) => Operator::ListMove(i),
                    _ => {
                        return Err(JsonError::BadPath);
                    },
                }
            },
            Operator::ObjectInsert(v) => Operator::ObjectDelete(v.deep_clone()),
            Operator::ObjectDelete(v) => Operator::ObjectInsert(v.deep_clone()),
            Operator::ObjectReplace(new_v, old_v) => Operator::ObjectReplace(
                old_v.deep_clone(),
                new_v.deep_clone(),
            ),
        };
        Ok(OperationComponent::new(path, operator))
    }

    /// `a` followed by `b`.
    pub fn compose(&self, a: &Operation, b: &Operation) -> (r: Result<Operation, JsonError>)
        ensures
            match compose_spec(comps_model(a@), comps_model(b@)) {
                Ok(ops) => r is Ok && comps_model(r->Ok_0@) == ops,
                Err(e) => r is Err && r->Err_0@ == e,
            },
    {
        match validate_operation(a) {
            Ok(_) => {},
            Err(e) => {
                return Err(e);
            },
        }
        let mut ret: Operation = Vec::new();
        let mut i: usize = 0;
        while i < a.len()
            invariant
                i <= a.len(),
                ret.len() == i,
                forall|k: int| 0 <= k < i ==> ret@[k]@ == a@[k]@,
            decreases a.len() - i,
        {
            ret.push(a[i].copy());
            i = i + 1;
        }
        assert(comps_model(ret@) =~= comps_model(a@));
        let ghost bs = comps_model(b@);
        let mut j: usize = 0;
        assert(bs.skip(0) =~= bs);
        while j < b.len()
            invariant
                j <= b.len(),
                bs == comps_model(b@),
                check_all(comps_model(a@)) == Ok::<(), JsonErr>(()),
                append_all(comps_model(a@), bs) == append_all(comps_model(ret@), bs.skip(j as int)),
            decreases b.len() - j,
        {
            assert(bs.skip(j as int)[0] == b@[j as int]@);
            assert(bs.skip(j as int).drop_first() =~= bs.skip(j + 1));
            match self.append(&mut ret, &b[j]) {
                Ok(_) => {},
                Err(e) => {
                    assert(append_all(comps_model(a@), bs) == Err::<Seq<Comp>, JsonErr>(e@));
                    return Err(e);
                },
            }
            j = j + 1;
        }
        assert(bs.skip(j as int) =~= Seq::<Comp>::empty());
        Ok(ret)
    }

    /// `Some(op_len(a))` where `a`'s path is a prefix of `b`'s.
    fn transform_operating_path(&self, a: &OperationComponent, b: &OperationComponent) -> (r: Option<
        usize,
    >)
        requires
            a@.path.len() < usize::MAX,
            b@.path.len() < usize::MAX,
        ensures
            r == operating_path(a@, b@),
    {
        let mut alen = a.path.len();
        let mut blen = b.path.len();
        if let Operator::AddNumber(_) = a.operator {
            alen += 1;
        }
        if let Operator::AddNumber(_) = b.operator {
            blen += 1;
        }
        if alen == 0 {
            return Some(0);
        }
        if blen == 0 {
            return None;
        }
        let n = a.path.len();
        let mut i: usize = 0;
        while i < n
            invariant
                n == a@.path.len(),
                i <= n,
                i <= b@.path.len(),
                b@.path.take(i as int) == a@.path.take(i as int),
            decreases n - i,
        {
            match b.path.get(i) {
                Some(pb) => {
                    if !a.path.elements[i].eq_elem(pb) {
                        proof {
                            assert(a@.path[i as int] == a.path.elements@[i as int]@);
                            if a@.path.len() <= b@.path.len() {
                                assert(b@.path.take(a@.path.len() as int)[i as int] == b@.path[i as int]);
                            }
                        }
                        return None;
                    }
                },
                None => {
                    return None;
                },
            }
            assert(b@.path.take(i + 1) =~= b@.path.take(i as int).push(b@.path[i as int]));
            assert(a@.path.take(i + 1) =~= a@.path.take(i as int).push(a@.path[i as int]));
            i = i + 1;
        }
        assert(a@.path.take(n as int) =~= a@.path);
        Some(alen)
    }
}

/// A JSON document that operations are applied to.
pub struct JSON {
    value: JsonValue,
}

/// How running a sequence of components ends: with the final value, with an
/// error and the value that the components before it left, or in a panic.
pub enum Run {
    Finished(Json),
    Stopped(JsonErr, Json),
    Panicked,
}

/// Applying the components one after the other.
pub open spec fn run_ops(j: Json, ops: Seq<Comp>) -> Run
    decreases ops.len(),
{
    if ops.len() == 0 {
        Run::Finished(j)
    } else {
        match apply_at(j, ops[0].path, ops[0].op) {
            Outcome::Done(j2) => run_ops(j2, ops.drop_first()),
            Outcome::Fail(e) => Run::Stopped(e, j),
            Outcome::Panic => Run::Panicked,
        }
    }
}

/// Applying the operations one after the other.
pub open spec fn run_operations(j: Json, ops: Seq<Seq<Comp>>) -> Run
    decreases ops.len(),
{
    if ops.len() == 0 {
        Run::Finished(j)
    } else {
        match run_ops(j, ops[0]) {
            Run::Finished(j2) => run_operations(j2, ops.drop_first()),
            other => other,
        }
    }
}

pub open spec fn operations_model(v: Seq<Operation>) -> Seq<Seq<Comp>> {
    Seq::new(v.len(), |i: int| comps_model(v[i]@))
}

impl View for JSON {
    type V = Json;

    closed spec fn view(&self) -> Json {
        self.value@
    }
}

impl JSON {
    /// The document that holds `value`.
    pub fn from_value(value: JsonValue) -> (r: JSON)
        ensures
            r@ == value@,
    {
        JSON { value }
    }

    /// The document's value.
    pub fn value(&self) -> (r: &JsonValue)
        ensures
            r@ == self@,
    {
        &self.value
    }

    /// A copy of the document.
    pub fn copy(&self) -> (r: JSON)
        ensures
            r@ == self@,
    {
        JSON { value: self.value.deep_clone() }
    }

    fn apply_operation(&mut self, ops: &Operation) -> (r: Result<(), JsonError>)
        requires
            !(run_ops(old(self)@, comps_model(ops@)) is Panicked),
        ensures
            match run_ops(old(self)@, comps_model(ops@)) {
                Run::Finished(j) => r is Ok && final(self)@ == j,
                Run::Stopped(e, j) => r is Err && r->Err_0@ == e && final(self)@ == j,
                Run::Panicked => false,
            },
    {
        let ghost all = comps_model(ops@);
        let mut i: usize = 0;
        assert(all.skip(0) =~= all);
        while i < ops.len()
            invariant
                i <= ops.len(),
                all == comps_model(ops@),
                run_ops(old(self)@, all) == run_ops(self@, all.skip(i as int)),
                !(run_ops(old(self)@, all) is Panicked),
            decreases ops.len() - i,
        {
            assert(all.skip(i as int)[0] == ops@[i as int]@);
            assert(all.skip(i as int).drop_first() =~= all.skip(i + 1));
            match self.value.apply(&ops[i].path, &ops[i].operator) {
                Ok(_) => {},
                Err(e) => {
                    return Err(e);
                },
            }
            i = i + 1;
        }
        assert(all.skip(i as int) =~= Seq::<Comp>::empty());
        Ok(())
    }

    /// Applies the operations' components one after the other; at the first
    /// error it stops, with the components before it applied.
    pub fn apply(&mut self, operations: Vec<Operation>) -> (r: Result<(), JsonError>)
        requires
            !(run_operations(old(self)@, operations_model(operations@)) is Panicked),
        ensures
            match run_operations(old(self)@, operations_model(operations@)) {
                Run::Finished(j) => r is Ok && final(self)@ == j,
                Run::Stopped(e, j) => r is Err && r->Err_0@ == e && final(self)@ == j,
                Run::Panicked => false,
            },
    {
        let ghost all = operations_model(operations@);
        let mut i: usize = 0;
        assert(all.skip(0) =~= all);
        while i < operations.len()
            invariant
                i <= operations.len(),
                all == operations_model(operations@),
                run_operations(old(self)@, all) == run_operations(self@, all.skip(i as int)),
                !(run_operations(old(self)@, all) is Panicked),
            decreases operations.len() - i,
        {
            assert(all.skip(i as int)[0] == comps_model(operations@[i as int]@));
            assert(all.skip(i as int).drop_first() =~= all.skip(i + 1));
            match self.apply_operation(&operations[i]) {
                Ok(_) => {},
                Err(e) => {
                    return Err(e);
                },
            }
            i = i + 1;
        }
        assert(all.skip(i as int) =~= Seq::<Seq<Comp>>::empty());
        Ok(())
    }

    fn checked_operation(&mut self, ops: &Operation) -> (r: Option<Result<(), JsonError>>)
        ensures
            match run_ops(old(self)@, comps_model(ops@)) {
                Run::Finished(j) => r matches Some(Ok(_)) && final(self)@ == j,
                Run::Stopped(e, j) => r matches Some(Err(x)) && x@ == e && final(self)@ == j,
                Run::Panicked => r is None,
            },
    {
        let ghost all = comps_model(ops@);
        let mut i: usize = 0;
        assert(all.skip(0) =~= all);
        while i < ops.len()
            invariant
                i <= ops.len(),
                all == comps_model(ops@),
                run_ops(old(self)@, all) == run_ops(self@, all.skip(i as int)),
            decreases ops.len() - i,
        {
            assert(all.skip(i as int)[0] == ops@[i as int]@);
            assert(all.skip(i as int).drop_first() =~= all.skip(i + 1));
            if self.value.panics_at(&ops[i].path, &ops[i].operator) {
                return None;
            }
            match self.value.apply(&ops[i].path, &ops[i].operator) {
                Ok(_) => {},
                Err(e) => {
                    return Some(Err(e));
                },
            }
            i = i + 1;
        }
        assert(all.skip(i as int) =~= Seq::<Comp>::empty());
        Some(Ok(()))
    }

    /// Applies the operations as `apply` does, for every input: where `apply`
    /// would panic, it returns `None` and leaves the document as it was.
    pub fn checked_apply(&mut self, operations: Vec<Operation>) -> (r: Option<Result<(), JsonError>>)
        ensures
            match run_operations(old(self)@, operations_model(operations@)) {
                Run::Finished(j) => r matches Some(Ok(_)) && final(self)@ == j,
                Run::Stopped(e, j) => r matches Some(Err(x)) && x@ == e && final(self)@ == j,
                Run::Panicked => r is None && final(self)@ == old(self)@,
            },
    {
        let backup = self.value.deep_clone();
        let ghost all = operations_model(operations@);
        let mut i: usize = 0;
        assert(all.skip(0) =~= all);
        while i < operations.len()
            invariant
                i <= operations.len(),
                all == operations_model(operations@),
                backup@ == old(self)@,
                run_operations(old(self)@, all) == run_operations(self@, all.skip(i as int)),
            decreases operations.len() - i,
        {
            assert(all.skip(i as int)[0] == comps_model(operations@[i as int]@));
            assert(all.skip(i as int).drop_first() =~= all.skip(i + 1));
            match self.checked_operation(&operations[i]) {
                Some(Ok(_)) => {},
                Some(Err(e)) => {
                    return Some(Err(e));
                },
                None => {
                    self.value = backup;
                    return None;
                },
            }
            i = i + 1;
        }
        assert(all.skip(i as int) =~= Seq::<Seq<Comp>>::empty());
        Some(Ok(()))
    }

    /// The value that `paths` leads to.
    pub fn get(&self, paths: &Path) -> (r: Result<Option<&JsonValue>, JsonError>)
        ensures
            routed(route(self@, paths@), r),
    {
        self.value.route_get(paths)
    }
}

} // verus!
