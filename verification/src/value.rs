use vstd::prelude::*;

verus! {

/// A JSON number: a non-negative integer, or a negative one.
#[derive(Clone, Copy, Debug, PartialEq, Eq, Structural)]
pub enum Number {
    PosInt(u64),
    NegInt(i64),
}

/// A JSON value. Object entries are kept sorted by key, each key once.
#[derive(Debug)]
pub enum JsonValue {
    Null,
    Bool(bool),
    Number(Number),
    String(String),
    Array(Vec<JsonValue>),
    Object(Vec<(String, JsonValue)>),
}

/// The mathematical form of a JSON value.
pub enum Json {
    Null,
    Bool(bool),
    Number(Number),
    Str(Seq<char>),
    Array(Seq<Json>),
    Object(Seq<(Seq<char>, Json)>),
}

/// The mathematical form of an object's entries.
pub type Entries = Seq<(Seq<char>, Json)>;

pub open spec fn model(v: JsonValue) -> Json
    decreases v, 1nat,
{
    match v {
        JsonValue::Null => Json::Null,
        JsonValue::Bool(b) => Json::Bool(b),
        JsonValue::Number(n) => Json::Number(n),
        JsonValue::String(s) => Json::Str(s@),
        JsonValue::Array(a) => Json::Array(elems_model(a@)),
        JsonValue::Object(o) => Json::Object(entries_model(o@)),
    }
}

pub open spec fn elems_model(a: Seq<JsonValue>) -> Seq<Json>
    decreases a, 0nat,
{
    Seq::new(a.len(), |i: int| if 0 <= i < a.len() { model(a[i]) } else { Json::Null })
}

pub open spec fn entries_model(o: Seq<(String, JsonValue)>) -> Entries
    decreases o, 0nat,
{
    Seq::new(
        o.len(),
        |i: int|
            if 0 <= i < o.len() {
                (o[i].0@, model(o[i].1))
            } else {
                (Seq::empty(), Json::Null)
            },
    )
}

impl View for JsonValue {
    type V = Json;

    open spec fn view(&self) -> Json {
        model(*self)
    }
}

impl Number {
    pub open spec fn wf(self) -> bool {
        match self {
            Number::PosInt(_) => true,
            Number::NegInt(n) => n < 0,
        }
    }

    pub open spec fn spec_as_u64(self) -> Option<u64> {
        match self {
            Number::PosInt(n) => Some(n),
            Number::NegInt(_) => None,
        }
    }

    pub open spec fn spec_as_i64(self) -> Option<i64> {
        match self {
            Number::PosInt(n) => if n <= i64::MAX {
                Some(n as i64)
            } else {
                None
            },
            Number::NegInt(n) => Some(n),
        }
    }

    pub open spec fn spec_from_i64(n: i64) -> Number {
        if n < 0 {
            Number::NegInt(n)
        } else {
            Number::PosInt(n as u64)
        }
    }

    /// The number as a `u64`, where it is a non-negative integer.
    pub fn as_u64(&self) -> (r: Option<u64>)
        ensures
            r == self.spec_as_u64(),
    {
        match self {
            Number::PosInt(n) => Some(*n),
            Number::NegInt(_) => None,
        }
    }

    /// The number as an `i64`, where it fits.
    pub fn as_i64(&self) -> (r: Option<i64>)
        ensures
            r == self.spec_as_i64(),
    {
        match self {
            Number::PosInt(n) => if *n <= i64::MAX as u64 {
                Some(*n as i64)
            } else {
                None
            },
            Number::NegInt(n) => Some(*n),
        }
    }

    /// The number that an `i64` stands for.
    pub fn from_i64(n: i64) -> (r: Number)
        ensures
            r == Number::spec_from_i64(n),
            r.wf(),
    {
        if n < 0 {
            Number::NegInt(n)
        } else {
            Number::PosInt(n as u64)
        }
    }
}

/// Keys are ordered by their characters' code points, first difference first,
/// a proper prefix before the longer key. This is the order of Rust's `str`.
pub open spec fn key_lt(a: Seq<char>, b: Seq<char>) -> bool {
    key_lt_from(a, b, 0)
}

/// `key_lt` on the keys' parts from position `i` on.
pub open spec fn key_lt_from(a: Seq<char>, b: Seq<char>, i: int) -> bool
    decreases a.len() - i,
{
    if i < 0 || i >= a.len() {
        0 <= i < b.len()
    } else if i >= b.len() {
        false
    } else if a[i] != b[i] {
        (a[i] as int) < (b[i] as int)
    } else {
        key_lt_from(a, b, i + 1)
    }
}

pub proof fn lemma_key_lt_irreflexive(a: Seq<char>, i: int)
    requires
        0 <= i,
    ensures
        !key_lt_from(a, a, i),
    decreases a.len() - i,
{
    if i < a.len() {
        lemma_key_lt_irreflexive(a, i + 1);
    }
}

pub proof fn lemma_key_lt_transitive(a: Seq<char>, b: Seq<char>, c: Seq<char>, i: int)
    requires
        0 <= i,
        key_lt_from(a, b, i),
        key_lt_from(b, c, i),
    ensures
        key_lt_from(a, c, i),
    decreases a.len() - i,
{
    if i < a.len() && i < b.len() && i < c.len() && a[i] == b[i] && b[i] == c[i] {
        lemma_key_lt_transitive(a, b, c, i + 1);
    }
}

pub proof fn lemma_key_lt_asymmetric(a: Seq<char>, b: Seq<char>, i: int)
    requires
        0 <= i,
        key_lt_from(a, b, i),
    ensures
        !key_lt_from(b, a, i),
    decreases a.len() - i,
{
    if i < a.len() && i < b.len() && a[i] == b[i] {
        lemma_key_lt_asymmetric(a, b, i + 1);
    }
}

/// Two keys are equal where neither comes before the other.
pub proof fn lemma_key_lt_total(a: Seq<char>, b: Seq<char>, i: int)
    requires
        0 <= i <= a.len(),
        i <= b.len(),
        a.take(i) == b.take(i),
        !key_lt_from(a, b, i),
        !key_lt_from(b, a, i),
    ensures
        a == b,
    decreases a.len() - i,
{
    if i < a.len() {
        assert(i < b.len());
        assert(a[i] == b[i]) by {
            if a[i] != b[i] {
                assert((a[i] as int) != (b[i] as int));
            }
        }
        assert(a.take(i + 1) =~= a.take(i).push(a[i]));
        assert(b.take(i + 1) =~= b.take(i).push(b[i]));
        lemma_key_lt_total(a, b, i + 1);
    } else {
        assert(a =~= a.take(i));
        assert(b =~= b.take(i));
    }
}

/// Any two keys are equal or one comes before the other.
pub proof fn lemma_key_total(a: Seq<char>, b: Seq<char>)
    ensures
        a == b || key_lt(a, b) || key_lt(b, a),
{
    if !key_lt(a, b) && !key_lt(b, a) {
        assert(a.take(0) =~= b.take(0));
        lemma_key_lt_total(a, b, 0);
    }
}

/// The order of keys that `compare_keys` reports.
#[derive(Clone, Copy, Debug, PartialEq, Eq, Structural)]
pub enum KeyOrder {
    Less,
    Equal,
    Greater,
}

/// Compares two keys in the order `key_lt`.
pub fn compare_keys(a: &str, b: &str) -> (r: KeyOrder)
    ensures
        (r == KeyOrder::Less) == key_lt(a@, b@),
        (r == KeyOrder::Equal) == (a@ == b@),
        (r == KeyOrder::Greater) == key_lt(b@, a@),
{
    let sa = a;
    let sb = b;
    let la = sa.unicode_len();
    let lb = sb.unicode_len();
    let mut i: usize = 0;
    while i < la && i < lb
        invariant
            la == a@.len(),
            lb == b@.len(),
            sa@ == a@,
            sb@ == b@,
            i <= la,
            i <= lb,
            a@.take(i as int) == b@.take(i as int),
            key_lt(a@, b@) == key_lt_from(a@, b@, i as int),
            key_lt(b@, a@) == key_lt_from(b@, a@, i as int),
        decreases la - i,
    {
        let ca = sa.get_char(i);
        let cb = sb.get_char(i);
        if ca != cb {
            proof {
                assert(a@[i as int] != b@[i as int]);
            }
            if (ca as u32) < (cb as u32) {
                return KeyOrder::Less;
            } else {
                assert((ca as u32) != (cb as u32));
                return KeyOrder::Greater;
            }
        }
        assert(a@.take(i + 1) =~= a@.take(i as int).push(a@[i as int]));
        assert(b@.take(i + 1) =~= b@.take(i as int).push(b@[i as int]));
        i = i + 1;
    }
    if la == lb {
        assert(a@ =~= a@.take(i as int));
        assert(b@ =~= b@.take(i as int));
        proof {
            lemma_key_lt_irreflexive(a@, 0);
        }
        KeyOrder::Equal
    } else if i == la {
        KeyOrder::Less
    } else {
        KeyOrder::Greater
    }
}


/// Each key comes before the next.
pub open spec fn keys_sorted(e: Entries) -> bool {
    forall|i: int, j: int| 0 <= i < j < e.len() ==> key_lt(#[trigger] e[i].0, #[trigger] e[j].0)
}

/// A well-formed value: negative numbers are `NegInt`, and every object's keys
/// are strictly increasing.
pub open spec fn json_wf(j: Json) -> bool
    decreases j, 1nat,
{
    match j {
        Json::Number(n) => n.wf(),
        Json::Array(s) => elems_wf(s, s.len()),
        Json::Object(e) => keys_sorted(e) && values_wf(e, e.len()),
        _ => true,
    }
}

/// The first `n` elements are well-formed.
pub open spec fn elems_wf(s: Seq<Json>, n: nat) -> bool
    decreases s, n,
{
    if n == 0 || n > s.len() {
        n == 0
    } else {
        elems_wf(s, (n - 1) as nat) && json_wf(s[n - 1])
    }
}

/// The first `n` entries' values are well-formed.
pub open spec fn values_wf(e: Entries, n: nat) -> bool
    decreases e, n,
{
    if n == 0 || n > e.len() {
        n == 0
    } else {
        values_wf(e, (n - 1) as nat) && json_wf(e[n - 1].1)
    }
}

pub proof fn lemma_elems_wf(s: Seq<Json>, n: nat)
    requires
        n <= s.len(),
    ensures
        elems_wf(s, n) <==> forall|i: int| 0 <= i < n ==> #[trigger] json_wf(s[i]),
    decreases n,
{
    if n > 0 {
        lemma_elems_wf(s, (n - 1) as nat);
        assert(elems_wf(s, n) == (elems_wf(s, (n - 1) as nat) && json_wf(s[n - 1])));
        if elems_wf(s, n) {
            assert forall|i: int| 0 <= i < n implies #[trigger] json_wf(s[i]) by {
                if i < n - 1 {
                }
            }
        }
        if forall|i: int| 0 <= i < n ==> #[trigger] json_wf(s[i]) {
            assert(json_wf(s[n - 1]));
            assert forall|i: int| 0 <= i < n - 1 implies #[trigger] json_wf(s[i]) by {
            }
        }
    }
}

pub proof fn lemma_values_wf(e: Entries, n: nat)
    requires
        n <= e.len(),
    ensures
        values_wf(e, n) <==> forall|i: int| 0 <= i < n ==> #[trigger] json_wf(e[i].1),
    decreases n,
{
    if n > 0 {
        lemma_values_wf(e, (n - 1) as nat);
        assert(values_wf(e, n) == (values_wf(e, (n - 1) as nat) && json_wf(e[n - 1].1)));
        if values_wf(e, n) {
            assert forall|i: int| 0 <= i < n implies #[trigger] json_wf(e[i].1) by {
                if i < n - 1 {
                }
            }
        }
        if forall|i: int| 0 <= i < n ==> #[trigger] json_wf(e[i].1) {
            assert(json_wf(e[n - 1].1));
            assert forall|i: int| 0 <= i < n - 1 implies #[trigger] json_wf(e[i].1) by {
            }
        }
    }
}

/// An array is well-formed where each element is.
pub proof fn lemma_array_wf(s: Seq<Json>)
    ensures
        json_wf(Json::Array(s)) <==> forall|i: int| 0 <= i < s.len() ==> #[trigger] json_wf(s[i]),
{
    lemma_elems_wf(s, s.len());
}

/// An object is well-formed where its keys are sorted and each value is well-formed.
pub proof fn lemma_object_wf(e: Entries)
    ensures
        json_wf(Json::Object(e)) <==> keys_sorted(e) && forall|i: int|
            0 <= i < e.len() ==> #[trigger] json_wf(e[i].1),
{
    lemma_values_wf(e, e.len());
}

impl JsonValue {
    /// Whether two values are equal as JSON values.
    pub fn eq_value(&self, other: &JsonValue) -> (r: bool)
        ensures
            r == (self@ == other@),
        decreases self,
    {
        match (self, other) {
            (JsonValue::Null, JsonValue::Null) => true,
            (JsonValue::Bool(a), JsonValue::Bool(b)) => *a == *b,
            (JsonValue::Number(a), JsonValue::Number(b)) => *a == *b,
            (JsonValue::String(a), JsonValue::String(b)) => {
                *a == *b
            },
            (JsonValue::Array(a), JsonValue::Array(b)) => {
                if a.len() != b.len() {
                    proof {
                        assert(elems_model(a@).len() != elems_model(b@).len());
                    }
                    return false;
                }
                let mut i: usize = 0;
                while i < a.len()
                    invariant
                        a.len() == b.len(),
                        i <= a.len(),
                        forall|k: int| 0 <= k < i ==> model(a@[k]) == model(b@[k]),
                        self == JsonValue::Array(*a),
                        other == JsonValue::Array(*b),
                    decreases a.len() - i,
                {
                    proof {
                        vstd::std_specs::vec::axiom_vec_index_decreases(*a, i as int);
                        assert(decreases_to!(*self => self->Array_0));
                    }
                    if !a[i].eq_value(&b[i]) {
                        proof {
                            assert(elems_model(a@)[i as int] != elems_model(b@)[i as int]);
                        }
                        return false;
                    }
                    i = i + 1;
                }
                proof {
                    assert(elems_model(a@) =~= elems_model(b@));
                }
                true
            },
            (JsonValue::Object(a), JsonValue::Object(b)) => {
                if a.len() != b.len() {
                    proof {
                        assert(entries_model(a@).len() != entries_model(b@).len());
                    }
                    return false;
                }
                let mut i: usize = 0;
                while i < a.len()
                    invariant
                        a.len() == b.len(),
                        i <= a.len(),
                        forall|k: int|
                            0 <= k < i ==> a@[k].0@ == b@[k].0@ && model(a@[k].1) == model(
                                b@[k].1,
                            ),
                        self == JsonValue::Object(*a),
                        other == JsonValue::Object(*b),
                    decreases a.len() - i,
                {
                    proof {
                        vstd::std_specs::vec::axiom_vec_index_decreases(*a, i as int);
                        assert(decreases_to!(*self => self->Object_0));
                        assert(decreases_to!(a@[i as int] => a@[i as int].1));
                    }
                    if !(a[i].0 == b[i].0) || !a[i].1.eq_value(&b[i].1) {
                        proof {
                            assert(entries_model(a@)[i as int] != entries_model(b@)[i as int]);
                        }
                        return false;
                    }
                    i = i + 1;
                }
                proof {
                    assert(entries_model(a@) =~= entries_model(b@));
                }
                true
            },
            _ => false,
        }
    }

    /// A copy of the value.
    pub fn deep_clone(&self) -> (r: JsonValue)
        ensures
            r@ == self@,
        decreases self,
    {
        match self {
            JsonValue::Null => JsonValue::Null,
            JsonValue::Bool(b) => JsonValue::Bool(*b),
            JsonValue::Number(n) => JsonValue::Number(*n),
            JsonValue::String(s) => JsonValue::String(s.clone()),
            JsonValue::Array(a) => {
                let mut out: Vec<JsonValue> = Vec::new();
                let mut i: usize = 0;
                while i < a.len()
                    invariant
                        i <= a.len(),
                        out.len() == i,
                        forall|k: int| 0 <= k < i ==> model(out@[k]) == model(a@[k]),
                        self == JsonValue::Array(*a),
                    decreases a.len() - i,
                {
                    proof {
                        vstd::std_specs::vec::axiom_vec_index_decreases(*a, i as int);
                        assert(decreases_to!(*self => self->Array_0));
                    }
                    let c = a[i].deep_clone();
                    out.push(c);
                    i = i + 1;
                }
                proof {
                    assert(elems_model(out@) =~= elems_model(a@));
                }
                JsonValue::Array(out)
            },
            JsonValue::Object(a) => {
                let mut out: Vec<(String, JsonValue)> = Vec::new();
                let mut i: usize = 0;
                while i < a.len()
                    invariant
                        i <= a.len(),
                        out.len() == i,
                        forall|k: int|
                            0 <= k < i ==> out@[k].0@ == a@[k].0@ && model(out@[k].1) == model(
                                a@[k].1,
                            ),
                        self == JsonValue::Object(*a),
                    decreases a.len() - i,
                {
                    proof {
                        vstd::std_specs::vec::axiom_vec_index_decreases(*a, i as int);
                        assert(decreases_to!(*self => self->Object_0));
                        assert(decreases_to!(a@[i as int] => a@[i as int].1));
                    }
                    let c = a[i].1.deep_clone();
                    out.push((a[i].0.clone(), c));
                    i = i + 1;
                }
                proof {
                    assert(entries_model(out@) =~= entries_model(a@));
                }
                JsonValue::Object(out)
            },
        }
    }
}


/// The first position whose key does not come before `k`.
pub open spec fn key_pos(e: Entries, k: Seq<char>) -> nat
    decreases e.len(),
{
    if e.len() == 0 {
        0
    } else if key_lt(e[0].0, k) {
        1 + key_pos(e.drop_first(), k)
    } else {
        0
    }
}

/// Whether the entries hold key `k` where `key_pos` looks for it.
pub open spec fn obj_has(e: Entries, k: Seq<char>) -> bool {
    key_pos(e, k) < e.len() && e[key_pos(e, k) as int].0 == k
}

/// The value of key `k`.
pub open spec fn obj_get(e: Entries, k: Seq<char>) -> Option<Json> {
    if obj_has(e, k) {
        Some(e[key_pos(e, k) as int].1)
    } else {
        None
    }
}

/// The entries with key `k` set to `v`.
pub open spec fn obj_insert(e: Entries, k: Seq<char>, v: Json) -> Entries {
    if obj_has(e, k) {
        e.update(key_pos(e, k) as int, (k, v))
    } else {
        e.insert(key_pos(e, k) as int, (k, v))
    }
}

/// The entries without key `k`.
pub open spec fn obj_remove(e: Entries, k: Seq<char>) -> Entries {
    if obj_has(e, k) {
        e.remove(key_pos(e, k) as int)
    } else {
        e
    }
}

pub proof fn lemma_key_pos_bounds(e: Entries, k: Seq<char>)
    ensures
        key_pos(e, k) <= e.len(),
        forall|j: int| 0 <= j < key_pos(e, k) ==> key_lt(#[trigger] e[j].0, k),
        key_pos(e, k) < e.len() ==> !key_lt(e[key_pos(e, k) as int].0, k),
    decreases e.len(),
{
    if e.len() > 0 && key_lt(e[0].0, k) {
        lemma_key_pos_bounds(e.drop_first(), k);
        assert forall|j: int| 0 <= j < key_pos(e, k) implies key_lt(#[trigger] e[j].0, k) by {
            if j > 0 {
                assert(e[j] == e.drop_first()[j - 1]);
            }
        }
    }
}

/// `key_pos` is the first position whose key does not come before `k`.
pub proof fn lemma_key_pos_at(e: Entries, k: Seq<char>, i: int)
    requires
        0 <= i <= e.len(),
        forall|j: int| 0 <= j < i ==> key_lt(#[trigger] e[j].0, k),
        i == e.len() || !key_lt(e[i].0, k),
    ensures
        key_pos(e, k) == i,
    decreases i,
{
    if i > 0 {
        assert(key_lt(e[0].0, k));
        assert forall|j: int| 0 <= j < i - 1 implies key_lt(#[trigger] e.drop_first()[j].0, k) by {
            assert(e.drop_first()[j] == e[j + 1]);
        }
        if i < e.len() {
            assert(e.drop_first()[i - 1] == e[i]);
        }
        lemma_key_pos_at(e.drop_first(), k, i - 1);
    }
}

/// In sorted entries a key is found at the position that holds it.
pub proof fn lemma_sorted_find(e: Entries, k: Seq<char>, j: int)
    requires
        keys_sorted(e),
        0 <= j < e.len(),
        e[j].0 == k,
    ensures
        key_pos(e, k) == j,
        obj_has(e, k),
        obj_get(e, k) == Some(e[j].1),
{
    assert forall|i: int| 0 <= i < j implies key_lt(#[trigger] e[i].0, k) by {}
    lemma_key_lt_irreflexive(k, 0);
    lemma_key_pos_at(e, k, j);
}

/// In sorted entries the keys from `key_pos` on do not come before `k`,
/// and those after it come after `k`.
pub proof fn lemma_sorted_pos(e: Entries, k: Seq<char>)
    requires
        keys_sorted(e),
    ensures
        forall|j: int| key_pos(e, k) <= j < e.len() ==> !key_lt(#[trigger] e[j].0, k),
        !obj_has(e, k) ==> forall|j: int|
            key_pos(e, k) <= j < e.len() ==> key_lt(k, #[trigger] e[j].0),
        forall|j: int| 0 <= j < e.len() && e[j].0 == k ==> j == key_pos(e, k),
{
    lemma_key_pos_bounds(e, k);
    let p = key_pos(e, k) as int;
    assert forall|j: int| p <= j < e.len() implies !key_lt(#[trigger] e[j].0, k) by {
        if j > p && key_lt(e[j].0, k) {
            lemma_key_lt_transitive(e[p].0, e[j].0, k, 0);
        }
    }
    if !obj_has(e, k) {
        if p < e.len() {
            lemma_key_total(e[p].0, k);
        }
        assert forall|j: int| p <= j < e.len() implies key_lt(k, #[trigger] e[j].0) by {
            if j > p {
                lemma_key_lt_transitive(k, e[p].0, e[j].0, 0);
            }
        }
    }
    assert forall|j: int| 0 <= j < e.len() && e[j].0 == k implies j == key_pos(e, k) by {
        lemma_sorted_find(e, k, j);
    }
}

/// In sorted entries, `obj_get` finds the value that goes with a key.
pub proof fn lemma_sorted_get(e: Entries, k: Seq<char>)
    requires
        keys_sorted(e),
    ensures
        obj_get(e, k) is Some <==> exists|j: int| 0 <= j < e.len() && #[trigger] e[j].0 == k,
        forall|j: int| 0 <= j < e.len() && #[trigger] e[j].0 == k ==> obj_get(e, k) == Some(e[j].1),
{
    assert forall|j: int| 0 <= j < e.len() && #[trigger] e[j].0 == k implies obj_get(e, k) == Some(
        e[j].1,
    ) by {
        lemma_sorted_find(e, k, j);
    }
    if obj_get(e, k) is Some {
        assert(e[key_pos(e, k) as int].0 == k);
    }
}


/// Setting a key in sorted entries keeps them sorted, reading the key back
/// gives the value set, and every other key reads as before.
pub proof fn lemma_obj_insert(e: Entries, k: Seq<char>, v: Json)
    requires
        keys_sorted(e),
    ensures
        keys_sorted(obj_insert(e, k, v)),
        obj_get(obj_insert(e, k, v), k) == Some(v),
        forall|k2: Seq<char>| k2 != k ==> #[trigger] obj_get(obj_insert(e, k, v), k2) == obj_get(e, k2),
{
    let p = key_pos(e, k) as int;
    let e2 = obj_insert(e, k, v);
    lemma_key_pos_bounds(e, k);
    lemma_sorted_pos(e, k);
    if obj_has(e, k) {
        assert forall|i: int, j: int| 0 <= i < j < e2.len() implies key_lt(
            #[trigger] e2[i].0,
            #[trigger] e2[j].0,
        ) by {
            assert(e2[i].0 == e[i].0 && e2[j].0 == e[j].0);
        }
    } else {
        assert forall|i: int, j: int| 0 <= i < j < e2.len() implies key_lt(
            #[trigger] e2[i].0,
            #[trigger] e2[j].0,
        ) by {
            if j < p {
                assert(e2[i] == e[i] && e2[j] == e[j]);
            } else if j == p {
                assert(e2[i] == e[i]);
            } else if i < p {
                assert(e2[i] == e[i] && e2[j] == e[j - 1]);
                assert(key_lt(e[i].0, e[j - 1].0));
            } else if i == p {
                assert(e2[j] == e[j - 1]);
            } else {
                assert(e2[i] == e[i - 1] && e2[j] == e[j - 1]);
                assert(key_lt(e[i - 1].0, e[j - 1].0));
            }
        }
    }
    assert(e2[p] == (k, v));
    lemma_sorted_find(e2, k, p);
    assert forall|k2: Seq<char>| k2 != k implies #[trigger] obj_get(e2, k2) == obj_get(e, k2) by {
        if obj_get(e, k2) is Some {
            let j = key_pos(e, k2) as int;
            if obj_has(e, k) || j < p {
                assert(e2[j] == e[j]);
                lemma_sorted_find(e2, k2, j);
            } else {
                assert(e2[j + 1] == e[j]);
                lemma_sorted_find(e2, k2, j + 1);
            }
        } else if obj_get(e2, k2) is Some {
            let j = key_pos(e2, k2) as int;
            if obj_has(e, k) || j < p {
                assert(e2[j] == e[j]);
                lemma_sorted_find(e, k2, j);
            } else {
                assert(j != p);
                assert(e2[j] == e[j - 1]);
                lemma_sorted_find(e, k2, j - 1);
            }
        }
    }
}

/// Removing a key from sorted entries keeps them sorted, the key then reads
/// as absent, and every other key reads as before.
pub proof fn lemma_obj_remove(e: Entries, k: Seq<char>)
    requires
        keys_sorted(e),
    ensures
        keys_sorted(obj_remove(e, k)),
        obj_get(obj_remove(e, k), k) is None,
        forall|k2: Seq<char>| k2 != k ==> #[trigger] obj_get(obj_remove(e, k), k2) == obj_get(e, k2),
{
    let p = key_pos(e, k) as int;
    let e2 = obj_remove(e, k);
    lemma_key_pos_bounds(e, k);
    lemma_sorted_pos(e, k);
    if obj_has(e, k) {
        assert forall|i: int, j: int| 0 <= i < j < e2.len() implies key_lt(
            #[trigger] e2[i].0,
            #[trigger] e2[j].0,
        ) by {
            if j < p {
                assert(e2[i] == e[i] && e2[j] == e[j]);
            } else if i < p {
                assert(e2[i] == e[i] && e2[j] == e[j + 1]);
                assert(key_lt(e[i].0, e[j + 1].0));
            } else {
                assert(e2[i] == e[i + 1] && e2[j] == e[j + 1]);
                assert(key_lt(e[i + 1].0, e[j + 1].0));
            }
        }
    }
    if obj_get(e2, k) is Some {
        let j = key_pos(e2, k) as int;
        if j < p {
            assert(e2[j] == e[j]);
        } else {
            assert(e2[j] == e[j + 1]);
        }
    }
    assert forall|k2: Seq<char>| k2 != k implies #[trigger] obj_get(e2, k2) == obj_get(e, k2) by {
        if !obj_has(e, k) {
        } else if obj_get(e, k2) is Some {
            let j = key_pos(e, k2) as int;
            assert(j != p);
            if j < p {
                assert(e2[j] == e[j]);
                lemma_sorted_find(e2, k2, j);
            } else {
                assert(e2[j - 1] == e[j]);
                lemma_sorted_find(e2, k2, j - 1);
            }
        } else if obj_get(e2, k2) is Some {
            let j = key_pos(e2, k2) as int;
            if j < p {
                assert(e2[j] == e[j]);
                lemma_sorted_find(e, k2, j);
            } else {
                assert(e2[j] == e[j + 1]);
                lemma_sorted_find(e, k2, j + 1);
            }
        }
    }
}

/// Where `key` belongs among the entries, and whether it is there.
pub fn object_position(entries: &Vec<(String, JsonValue)>, key: &str) -> (r: (usize, bool))
    ensures
        r.0 == key_pos(entries_model(entries@), key@),
        r.1 == obj_has(entries_model(entries@), key@),
        r.0 <= entries@.len(),
{
    let ghost e = entries_model(entries@);
    proof {
        lemma_key_pos_bounds(e, key@);
    }
    let n = entries.len();
    let mut i: usize = 0;
    while i < n
        invariant
            n == entries.len(),
            e == entries_model(entries@),
            i <= n,
            forall|j: int| 0 <= j < i ==> key_lt(#[trigger] e[j].0, key@),
        decreases n - i,
    {
        let c = compare_keys(entries[i].0.as_str(), key);
        if c != KeyOrder::Less {
            proof {
                lemma_key_pos_at(e, key@, i as int);
            }
            return (i, c == KeyOrder::Equal);
        }
        i = i + 1;
    }
    proof {
        lemma_key_pos_at(e, key@, i as int);
    }
    (i, false)
}

/// The value of `key`, where the entries hold it.
pub fn object_get<'a>(entries: &'a Vec<(String, JsonValue)>, key: &str) -> (r: Option<
    &'a JsonValue,
>)
    ensures
        match r {
            Some(v) => obj_get(entries_model(entries@), key@) == Some(v@),
            None => obj_get(entries_model(entries@), key@) is None,
        },
{
    let (p, found) = object_position(entries, key);
    if found {
        Some(&entries[p].1)
    } else {
        None
    }
}

/// Sets `key` to `value`.
pub fn object_insert(entries: &mut Vec<(String, JsonValue)>, key: String, value: JsonValue)
    ensures
        entries_model(final(entries)@) == obj_insert(
            entries_model(old(entries)@),
            key@,
            value@,
        ),
{
    let (p, found) = object_position(entries, key.as_str());
    let ghost e = entries_model(old(entries)@);
    let ghost kv = (key@, value@);
    if found {
        entries.set(p, (key, value));
        assert(entries_model(entries@) =~= e.update(p as int, kv));
    } else {
        entries.insert(p, (key, value));
        assert(entries_model(entries@) =~= e.insert(p as int, kv));
    }
}

/// Removes `key`, where the entries hold it.
pub fn object_remove(entries: &mut Vec<(String, JsonValue)>, key: &str)
    ensures
        entries_model(final(entries)@) == obj_remove(entries_model(old(entries)@), key@),
{
    let (p, found) = object_position(entries, key);
    let ghost e = entries_model(old(entries)@);
    if found {
        entries.remove(p);
        assert(entries_model(entries@) =~= e.remove(p as int));
    }
}

} // verus!
