use vstd::prelude::*;

use crate::error::{JsonErr, JsonError};
use crate::value::{key_lt, compare_keys, Json, JsonValue, KeyOrder, Number};

verus! {

/// One step of a path: a position in an array or a key in an object.
#[derive(Debug)]
pub enum PathElement {
    Index(usize),
    Key(String),
}

/// The mathematical form of a `PathElement`.
pub enum Seg {
    Index(usize),
    Key(Seq<char>),
}

impl View for PathElement {
    type V = Seg;

    open spec fn view(&self) -> Seg {
        match self {
            PathElement::Index(i) => Seg::Index(*i),
            PathElement::Key(k) => Seg::Key(k@),
        }
    }
}

/// Steps are ordered as `derive(PartialOrd)` orders them: every index before
/// every key, indices by value, keys by `key_lt`.
pub open spec fn seg_le(a: Seg, b: Seg) -> bool {
    match (a, b) {
        (Seg::Index(x), Seg::Index(y)) => x <= y,
        (Seg::Index(_), Seg::Key(_)) => true,
        (Seg::Key(_), Seg::Index(_)) => false,
        (Seg::Key(x), Seg::Key(y)) => x == y || key_lt(x, y),
    }
}

impl PathElement {
    /// A copy of the step.
    pub fn copy(&self) -> (r: PathElement)
        ensures
            r@ == self@,
    {
        match self {
            PathElement::Index(i) => PathElement::Index(*i),
            PathElement::Key(k) => PathElement::Key(k.clone()),
        }
    }

    /// Whether two steps are equal.
    pub fn eq_elem(&self, other: &PathElement) -> (r: bool)
        ensures
            r == (self@ == other@),
    {
        match (self, other) {
            (PathElement::Index(a), PathElement::Index(b)) => *a == *b,
            (PathElement::Key(a), PathElement::Key(b)) => *a == *b,
            _ => false,
        }
    }

    /// Whether `self` comes no later than `other` in the order `seg_le`.
    pub fn le(&self, other: &PathElement) -> (r: bool)
        ensures
            r == seg_le(self@, other@),
    {
        match (self, other) {
            (PathElement::Index(a), PathElement::Index(b)) => *a <= *b,
            (PathElement::Index(_), PathElement::Key(_)) => true,
            (PathElement::Key(_), PathElement::Index(_)) => false,
            (PathElement::Key(a), PathElement::Key(b)) => compare_keys(a.as_str(), b.as_str()) != KeyOrder::Greater,
        }
    }
}

/// A path into a JSON document.
#[derive(Debug)]
pub struct Path {
    pub elements: Vec<PathElement>,
}

pub open spec fn segs_model(v: Seq<PathElement>) -> Seq<Seg> {
    Seq::new(v.len(), |i: int| v[i]@)
}

impl View for Path {
    type V = Seq<Seg>;

    open spec fn view(&self) -> Seq<Seg> {
        segs_model(self.elements@)
    }
}

/// The step that a JSON value stands for in a path.
pub open spec fn seg_of(j: Json) -> Option<Seg> {
    match j {
        Json::Number(Number::PosInt(n)) => if n <= usize::MAX {
            Some(Seg::Index(n as usize))
        } else {
            None
        },
        Json::Str(s) => Some(Seg::Key(s)),
        _ => None,
    }
}

/// The path that a JSON value stands for: an array of indices and keys.
pub open spec fn path_of(j: Json) -> Result<Seq<Seg>, JsonErr> {
    match j {
        Json::Array(s) => if forall|i: int| 0 <= i < s.len() ==> (#[trigger] seg_of(s[i])) is Some {
            Ok(Seq::new(s.len(), |i: int| seg_of(s[i])->0))
        } else {
            Err(JsonErr::BadPath)
        },
        _ => Err(JsonErr::BadPath),
    }
}

/// The length of the longest common prefix of two paths.
pub open spec fn common_len(a: Seq<Seg>, b: Seq<Seg>) -> nat
    decreases a.len(),
{
    if a.len() == 0 || b.len() == 0 || a[0] != b[0] {
        0
    } else {
        1 + common_len(a.drop_first(), b.drop_first())
    }
}

pub proof fn lemma_common_len(a: Seq<Seg>, b: Seq<Seg>, n: int)
    requires
        0 <= n <= a.len(),
        n <= b.len(),
        a.take(n) == b.take(n),
        n == a.len() || n == b.len() || a[n] != b[n],
    ensures
        common_len(a, b) == n,
    decreases n,
{
    if n > 0 {
        assert(a[0] == a.take(n)[0]);
        assert(b[0] == b.take(n)[0]);
        assert(a.drop_first().take(n - 1) =~= a.take(n).drop_first());
        assert(b.drop_first().take(n - 1) =~= b.take(n).drop_first());
        if n < a.len() && n < b.len() {
            assert(a.drop_first()[n - 1] == a[n]);
            assert(b.drop_first()[n - 1] == b[n]);
        }
        lemma_common_len(a.drop_first(), b.drop_first(), n - 1);
    }
}

impl Path {
    pub fn new(elements: Vec<PathElement>) -> (r: Path)
        ensures
            r.elements == elements,
    {
        Path { elements }
    }

    pub fn len(&self) -> (r: usize)
        ensures
            r == self@.len(),
    {
        self.elements.len()
    }

    pub fn is_empty(&self) -> (r: bool)
        ensures
            r == (self@.len() == 0),
    {
        self.elements.len() == 0
    }

    pub fn get(&self, i: usize) -> (r: Option<&PathElement>)
        ensures
            match r {
                Some(e) => i < self@.len() && e@ == self@[i as int],
                None => i >= self@.len(),
            },
    {
        if i < self.elements.len() {
            Some(&self.elements[i])
        } else {
            None
        }
    }

    pub fn last(&self) -> (r: Option<&PathElement>)
        ensures
            match r {
                Some(e) => self@.len() > 0 && e@ == self@.last(),
                None => self@.len() == 0,
            },
    {
        let n = self.elements.len();
        if n > 0 {
            Some(&self.elements[n - 1])
        } else {
            None
        }
    }

    pub fn get_elements(&self) -> (r: &Vec<PathElement>)
        ensures
            r == self.elements,
    {
        &self.elements
    }

    /// The key that the path starts with, where it starts with one.
    pub fn first_key_path(&self) -> (r: Option<&String>)
        ensures
            match r {
                Some(k) => self@.len() > 0 && self@[0] == Seg::Key(k@),
                None => self@.len() == 0 || self@[0] is Index,
            },
    {
        if self.elements.len() > 0 {
            match &self.elements[0] {
                PathElement::Key(k) => Some(k),
                PathElement::Index(_) => None,
            }
        } else {
            None
        }
    }

    /// The index that the path starts with, where it starts with one.
    pub fn first_index_path(&self) -> (r: Option<usize>)
        ensures
            match r {
                Some(i) => self@.len() > 0 && self@[0] == Seg::Index(i),
                None => self@.len() == 0 || self@[0] is Key,
            },
    {
        if self.elements.len() > 0 {
            match &self.elements[0] {
                PathElement::Index(i) => Some(*i),
                PathElement::Key(_) => None,
            }
        } else {
            None
        }
    }

    /// The part of the path from position `start` on.
    pub fn sub_path(&self, start: usize, end: usize) -> (r: Path)
        requires
            start <= end <= self@.len(),
        ensures
            r@ == self@.subrange(start as int, end as int),
    {
        let mut out: Vec<PathElement> = Vec::new();
        let mut i = start;
        while i < end
            invariant
                start <= i <= end,
                end <= self.elements.len(),
                out.len() == i - start,
                forall|k: int| 0 <= k < out.len() ==> out@[k]@ == self@[start + k],
            decreases end - i,
        {
            out.push(self.elements[i].copy());
            i = i + 1;
        }
        let r = Path { elements: out };
        assert(r@ =~= self@.subrange(start as int, end as int));
        r
    }

    /// The path without its first step.
    pub fn next_level(&self) -> (r: Path)
        ensures
            r@ == (if self@.len() == 0 {
                self@
            } else {
                self@.drop_first()
            }),
    {
        let n = self.elements.len();
        if n == 0 {
            let r = Path { elements: Vec::new() };
            assert(r@ =~= self@);
            r
        } else {
            let r = self.sub_path(1, n);
            assert(r@ =~= self@.drop_first());
            r
        }
    }

    /// The path cut in two before position `mid`.
    pub fn split_at(&self, mid: usize) -> (r: (Path, Path))
        requires
            mid <= self@.len(),
        ensures
            r.0@ == self@.take(mid as int),
            r.1@ == self@.skip(mid as int),
    {
        let n = self.elements.len();
        let left = self.sub_path(0, mid);
        let right = self.sub_path(mid, n);
        assert(left@ =~= self@.take(mid as int));
        assert(right@ =~= self@.skip(mid as int));
        (left, right)
    }

    /// A copy of the path.
    pub fn copy(&self) -> (r: Path)
        ensures
            r@ == self@,
    {
        let r = self.sub_path(0, self.elements.len());
        assert(r@ =~= self@);
        r
    }

    /// Sets step `i` to `elem` and hands back the step it replaced; a path
    /// without step `i` stays as it is.
    pub fn replace(&mut self, i: usize, elem: PathElement) -> (r: Option<PathElement>)
        ensures
            match r {
                Some(old_elem) => i < old(self)@.len() && old_elem@ == old(self)@[i as int]
                    && final(self)@ == old(self)@.update(i as int, elem@),
                None => i >= old(self)@.len() && final(self)@ == old(self)@,
            },
    {
        if i < self.elements.len() {
            let old_elem = self.elements.remove(i);
            self.elements.insert(i, elem);
            assert(self@ =~= old(self)@.update(i as int, elem@));
            Some(old_elem)
        } else {
            None
        }
    }

    /// Adds a step at the end.
    pub fn push(&mut self, elem: PathElement)
        ensures
            final(self)@ == old(self)@.push(elem@),
    {
        self.elements.push(elem);
        assert(self@ =~= old(self)@.push(elem@));
    }

    /// Takes the last step off, where there is one.
    pub fn pop(&mut self) -> (r: Option<PathElement>)
        ensures
            match r {
                Some(e) => old(self)@.len() > 0 && e@ == old(self)@.last() && final(self)@
                    == old(self)@.drop_last(),
                None => old(self)@.len() == 0 && final(self)@ == old(self)@,
            },
    {
        let r = self.elements.pop();
        assert(self@ =~= (if old(self)@.len() > 0 {
            old(self)@.drop_last()
        } else {
            old(self)@
        }));
        r
    }

    /// Whether two paths are equal.
    pub fn eq_path(&self, other: &Path) -> (r: bool)
        ensures
            r == (self@ == other@),
    {
        let n = self.elements.len();
        if n != other.elements.len() {
            assert(self@.len() != other@.len());
            return false;
        }
        let mut i: usize = 0;
        while i < n
            invariant
                n == self.elements.len(),
                n == other.elements.len(),
                i <= n,
                forall|k: int| 0 <= k < i ==> self@[k] == other@[k],
            decreases n - i,
        {
            if !self.elements[i].eq_elem(&other.elements[i]) {
                assert(self@[i as int] != other@[i as int]);
                return false;
            }
            i = i + 1;
        }
        assert(self@ =~= other@);
        true
    }

    /// The longest path that both paths start with.
    pub fn max_common_path(&self, other: &Path) -> (r: Path)
        ensures
            r@ == self@.take(common_len(self@, other@) as int),
            common_len(self@, other@) <= self@.len(),
            common_len(self@, other@) <= other@.len(),
    {
        let n = self.elements.len();
        let m = other.elements.len();
        let mut i: usize = 0;
        while i < n && i < m && self.elements[i].eq_elem(&other.elements[i])
            invariant
                n == self@.len(),
                m == other@.len(),
                i <= n,
                i <= m,
                self@.take(i as int) == other@.take(i as int),
            decreases n - i,
        {
            assert(self@.take(i + 1) =~= self@.take(i as int).push(self@[i as int]));
            assert(other@.take(i + 1) =~= other@.take(i as int).push(other@[i as int]));
            i = i + 1;
        }
        proof {
            lemma_common_len(self@, other@, i as int);
        }
        let r = self.sub_path(0, i);
        assert(r@ =~= self@.take(i as int));
        r
    }

    /// The path that a JSON array of indices and keys stands for.
    pub fn from_value(v: &JsonValue) -> (r: Result<Path, JsonError>)
        ensures
            match r {
                Ok(p) => path_of(v@) == Ok::<Seq<Seg>, JsonErr>(p@),
                Err(e) => path_of(v@) == Err::<Seq<Seg>, JsonErr>(e@),
            },
    {
        match v {
            JsonValue::Array(a) => {
                let ghost s = crate::value::elems_model(a@);
                let mut out: Vec<PathElement> = Vec::new();
                let mut i: usize = 0;
                while i < a.len()
                    invariant
                        i <= a.len(),
                        s == crate::value::elems_model(a@),
                        v@ == Json::Array(s),
                        out.len() == i,
                        forall|k: int| 0 <= k < i ==> seg_of(s[k]) == Some(#[trigger] out@[k]@),
                    decreases a.len() - i,
                {
                    match &a[i] {
                        JsonValue::Number(Number::PosInt(n)) => {
                            if *n <= usize::MAX as u64 {
                                out.push(PathElement::Index(*n as usize));
                            } else {
                                assert(seg_of(s[i as int]) is None);
                                return Err(JsonError::BadPath);
                            }
                        },
                        JsonValue::String(k) => {
                            out.push(PathElement::Key(k.clone()));
                        },
                        _ => {
                            assert(seg_of(s[i as int]) is None);
                            return Err(JsonError::BadPath);
                        },
                    }
                    i = i + 1;
                }
                let r = Path { elements: out };
                assert forall|k: int| 0 <= k < s.len() implies (#[trigger] seg_of(s[k])) is Some by {
                    assert(seg_of(s[k]) == Some(out@[k]@));
                }
                assert(r@ =~= path_of(v@)->Ok_0);
                Ok(r)
            },
            _ => Err(JsonError::BadPath),
        }
    }
}

} // verus!
