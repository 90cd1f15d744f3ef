use json_ot::error::JsonError;
use json_ot::json::{TransformSide, Transformer, JSON};
use json_ot::operation::{OperationComponent, Operator};
use json_ot::path::{Path, PathElement};
use json_ot::value::{compare_keys, object_insert, JsonValue, KeyOrder, Number};

fn from_serde(v: &serde_json::Value) -> JsonValue {
    match v {
        serde_json::Value::Null => JsonValue::Null,
        serde_json::Value::Bool(b) => JsonValue::Bool(*b),
        serde_json::Value::Number(n) => {
            if let Some(u) = n.as_u64() {
                JsonValue::Number(Number::PosInt(u))
            } else if let Some(i) = n.as_i64() {
                JsonValue::Number(Number::NegInt(i))
            } else {
                panic!("floating-point numbers are not supported")
            }
        }
        serde_json::Value::String(s) => JsonValue::String(s.clone()),
        serde_json::Value::Array(a) => JsonValue::Array(a.iter().map(from_serde).collect()),
        serde_json::Value::Object(m) => {
            let mut entries: Vec<(String, JsonValue)> = Vec::new();
            for (k, v) in m.iter() {
                object_insert(&mut entries, k.clone(), from_serde(v));
            }
            JsonValue::Object(entries)
        }
    }
}

fn to_serde(v: &JsonValue) -> serde_json::Value {
    match v {
        JsonValue::Null => serde_json::Value::Null,
        JsonValue::Bool(b) => serde_json::Value::Bool(*b),
        JsonValue::Number(Number::PosInt(u)) => serde_json::Value::from(*u),
        JsonValue::Number(Number::NegInt(i)) => serde_json::Value::from(*i),
        JsonValue::String(s) => serde_json::Value::String(s.clone()),
        JsonValue::Array(a) => serde_json::Value::Array(a.iter().map(to_serde).collect()),
        JsonValue::Object(entries) => {
            let mut m = serde_json::Map::new();
            for (k, v) in entries {
                m.insert(k.clone(), to_serde(v));
            }
            serde_json::Value::Object(m)
        }
    }
}

fn parse(input: &str) -> JsonValue {
    from_serde(&serde_json::from_str::<serde_json::Value>(input).unwrap())
}

fn render(v: &JsonValue) -> String {
    to_serde(v).to_string()
}

fn doc(input: &str) -> JSON {
    JSON::from_value(parse(input))
}

fn text(json: &JSON) -> String {
    render(json.value())
}

fn path(input: &str) -> Path {
    Path::from_value(&parse(input)).unwrap()
}

fn comp(input: &str) -> OperationComponent {
    OperationComponent::from_value(&parse(input)).unwrap()
}

fn comp_text(c: &OperationComponent) -> String {
    let mut m = serde_json::Map::new();
    let p: Vec<serde_json::Value> = c
        .path
        .elements
        .iter()
        .map(|e| match e {
            PathElement::Index(i) => serde_json::Value::from(*i as u64),
            PathElement::Key(k) => serde_json::Value::String(k.clone()),
        })
        .collect();
    m.insert("p".to_string(), serde_json::Value::Array(p));
    match &c.operator {
        Operator::Noop => {}
        Operator::AddNumber(v) => {
            m.insert("na".to_string(), to_serde(v));
        }
        Operator::ListInsert(v) => {
            m.insert("li".to_string(), to_serde(v));
        }
        Operator::ListDelete(v) => {
            m.insert("ld".to_string(), to_serde(v));
        }
        Operator::ListReplace(n, o) => {
            m.insert("li".to_string(), to_serde(n));
            m.insert("ld".to_string(), to_serde(o));
        }
        Operator::ListMove(i) => {
            m.insert("lm".to_string(), serde_json::Value::from(*i as u64));
        }
        Operator::ObjectInsert(v) => {
            m.insert("oi".to_string(), to_serde(v));
        }
        Operator::ObjectDelete(v) => {
            m.insert("od".to_string(), to_serde(v));
        }
        Operator::ObjectReplace(n, o) => {
            m.insert("oi".to_string(), to_serde(n));
            m.insert("od".to_string(), to_serde(o));
        }
    }
    serde_json::Value::Object(m).to_string()
}

fn apply_one(json: &mut JSON, c: &OperationComponent) -> Result<(), JsonError> {
    json.apply(vec![vec![c.copy()]])
}

fn roundtrip(start: &str, op: &str) {
    let t = Transformer {};
    let mut json = doc(start);
    let c = comp(op);
    apply_one(&mut json, &c).unwrap();
    let inv = t.invert(&c).unwrap();
    apply_one(&mut json, &inv).unwrap();
    assert_eq!(text(&json), text(&doc(start)));
}

#[test]
fn invert_undoes_list_insert() {
    roundtrip(r#"{"a":[1,2,3]}"#, r#"{"p":["a",1],"li":{"x":[4]}}"#);
}

#[test]
fn invert_undoes_list_delete() {
    roundtrip(r#"{"a":[1,[2],3]}"#, r#"{"p":["a",1],"ld":[2]}"#);
}

#[test]
fn invert_undoes_list_replace() {
    roundtrip(r#"{"a":[1,2,3]}"#, r#"{"p":["a",2],"li":"z","ld":3}"#);
}

#[test]
fn invert_undoes_list_move() {
    roundtrip(r#"{"a":[1,2,3,4]}"#, r#"{"p":["a",0],"lm":3}"#);
    roundtrip(r#"{"a":[1,2,3,4]}"#, r#"{"p":["a",3],"lm":1}"#);
}

#[test]
fn invert_undoes_object_insert() {
    roundtrip(r#"{"a":{"b":1}}"#, r#"{"p":["a","c"],"oi":[true,null]}"#);
}

#[test]
fn invert_undoes_object_delete() {
    roundtrip(r#"{"a":{"b":1,"c":{"d":-2}}}"#, r#"{"p":["a","c"],"od":{"d":-2}}"#);
}

#[test]
fn invert_undoes_object_replace() {
    roundtrip(r#"{"a":{"b":1}}"#, r#"{"p":["a","b"],"oi":"new","od":1}"#);
}

#[test]
fn invert_of_add_number_negates() {
    let t = Transformer {};
    let inv = t.invert(&comp(r#"{"p":["n"],"na":5}"#)).unwrap();
    assert_eq!(comp_text(&inv), r#"{"na":-5,"p":["n"]}"#);
    let inv = t.invert(&comp(r#"{"p":["n"],"na":-7}"#)).unwrap();
    assert_eq!(comp_text(&inv), r#"{"na":7,"p":["n"]}"#);
}

#[test]
fn invert_of_move_swaps_positions() {
    let t = Transformer {};
    let inv = t.invert(&comp(r#"{"p":["a",2],"lm":5}"#)).unwrap();
    assert_eq!(comp_text(&inv), r#"{"lm":2,"p":["a",5]}"#);
}

#[test]
fn invert_rejects_invalid_component() {
    let t = Transformer {};
    match t.invert(&comp(r#"{"p":["a","k"],"li":1}"#)) {
        Err(JsonError::BadPath) => {}
        _ => panic!("a list operator needs an index at the end of its path"),
    }
}

#[test]
fn read_after_object_insert() {
    let mut json = doc(r#"{"a":{"b":[1,{"c":2}]}}"#);
    apply_one(&mut json, &comp(r#"{"p":["a","b",1,"d"],"oi":"v"}"#)).unwrap();
    let got = json.get(&path(r#"["a","b",1,"d"]"#)).unwrap().unwrap();
    assert_eq!(render(got), r#""v""#);
}

#[test]
fn read_after_list_insert() {
    let mut json = doc(r#"{"a":[1,2]}"#);
    apply_one(&mut json, &comp(r#"{"p":["a",1],"li":[9]}"#)).unwrap();
    let got = json.get(&path(r#"["a",1]"#)).unwrap().unwrap();
    assert_eq!(render(got), r#"[9]"#);
}

#[test]
fn inserted_keys_stay_sorted() {
    let mut json = doc(r#"{}"#);
    apply_one(&mut json, &comp(r#"{"p":["m"],"oi":1}"#)).unwrap();
    apply_one(&mut json, &comp(r#"{"p":["b"],"oi":2}"#)).unwrap();
    apply_one(&mut json, &comp(r#"{"p":["z"],"oi":3}"#)).unwrap();
    apply_one(&mut json, &comp(r#"{"p":["m"],"oi":4}"#)).unwrap();
    match json.value() {
        JsonValue::Object(entries) => {
            let keys: Vec<&str> = entries.iter().map(|(k, _)| k.as_str()).collect();
            assert_eq!(keys, vec!["b", "m", "z"]);
        }
        _ => panic!("an object was expected"),
    }
    assert_eq!(text(&json), r#"{"b":2,"m":4,"z":3}"#);
}

#[test]
fn add_number_on_missing_key_inserts() {
    let mut json = doc(r#"{"a":1}"#);
    apply_one(&mut json, &comp(r#"{"p":["b"],"na":7}"#)).unwrap();
    assert_eq!(text(&json), r#"{"a":1,"b":7}"#);
}

#[test]
fn add_number_on_root_number() {
    let mut json = doc(r#"41"#);
    apply_one(&mut json, &comp(r#"{"p":[],"na":1}"#)).unwrap();
    assert_eq!(text(&json), "42");
}

#[test]
fn add_number_on_array_element() {
    let mut json = doc(r#"[1,2]"#);
    apply_one(&mut json, &comp(r#"{"p":[1],"na":10}"#)).unwrap();
    assert_eq!(text(&json), "[1,12]");
}

#[test]
fn add_number_on_non_number_element_is_bad_path() {
    let mut json = doc(r#"["x"]"#);
    match apply_one(&mut json, &comp(r#"{"p":[0],"na":1}"#)) {
        Err(JsonError::BadPath) => {}
        _ => panic!("BadPath was expected"),
    }
    assert_eq!(text(&json), r#"["x"]"#);
}

#[test]
fn operator_on_number_is_invalid_operation() {
    let mut json = doc(r#"5"#);
    match apply_one(&mut json, &comp(r#"{"p":[0],"li":1}"#)) {
        Err(JsonError::InvalidOperation(m)) => {
            assert_eq!(m, "Only AddNumber operation can apply to a Number JSON Value")
        }
        _ => panic!("InvalidOperation was expected"),
    }
}

#[test]
fn operator_on_string_is_invalid_operation() {
    let mut json = doc(r#""s""#);
    match apply_one(&mut json, &comp(r#"{"p":["k"],"oi":1}"#)) {
        Err(JsonError::InvalidOperation(m)) => {
            assert_eq!(m, "Operation can only apply on array or object")
        }
        _ => panic!("InvalidOperation was expected"),
    }
}

#[test]
fn list_operator_on_object_is_bad_path() {
    let mut json = doc(r#"{"a":{}}"#);
    match apply_one(&mut json, &comp(r#"{"p":["a",0],"li":1}"#)) {
        Err(JsonError::BadPath) => {}
        _ => panic!("BadPath was expected"),
    }
}

#[test]
fn missing_intermediate_is_bad_path_and_document_unchanged() {
    let mut json = doc(r#"{"a":[1]}"#);
    match apply_one(&mut json, &comp(r#"{"p":["a",3,"x"],"oi":1}"#)) {
        Err(JsonError::BadPath) => {}
        _ => panic!("BadPath was expected"),
    }
    assert_eq!(text(&json), r#"{"a":[1]}"#);
}

#[test]
fn apply_stops_at_first_error_keeping_earlier_components() {
    let mut json = doc(r#"{"a":[]}"#);
    let r = json.apply(vec![
        vec![comp(r#"{"p":["a",0],"li":1}"#)],
        vec![comp(r#"{"p":["zz",0,"q"],"li":2}"#), comp(r#"{"p":["a",0],"li":3}"#)],
    ]);
    match r {
        Err(JsonError::BadPath) => {}
        _ => panic!("BadPath was expected"),
    }
    assert_eq!(text(&json), r#"{"a":[1]}"#);
}

#[test]
fn delete_with_other_value_does_nothing() {
    let mut json = doc(r#"{"a":[1,2],"b":3}"#);
    apply_one(&mut json, &comp(r#"{"p":["a",0],"ld":2}"#)).unwrap();
    apply_one(&mut json, &comp(r#"{"p":["b"],"od":4}"#)).unwrap();
    apply_one(&mut json, &comp(r#"{"p":["b"],"oi":5,"od":4}"#)).unwrap();
    assert_eq!(text(&json), r#"{"a":[1,2],"b":3}"#);
}

#[test]
fn get_edge_cases() {
    let json = doc(r#"{"a":null,"b":[1],"c":"s"}"#);
    assert!(json.get(&path(r#"["a","x"]"#)).unwrap().is_none());
    assert!(json.get(&path(r#"["b",5]"#)).unwrap().is_none());
    match json.get(&path(r#"["c","x"]"#)) {
        Err(JsonError::BadPath) => {}
        _ => panic!("BadPath was expected"),
    }
    match json.get(&path(r#"[]"#)) {
        Err(JsonError::BadPath) => {}
        _ => panic!("BadPath was expected"),
    }
    match json.get(&path(r#"["b","k"]"#)) {
        Err(JsonError::BadPath) => {}
        _ => panic!("BadPath was expected"),
    }
    let scalar = doc(r#"3"#);
    assert_eq!(render(scalar.get(&path("[]")).unwrap().unwrap()), "3");
}

#[test]
fn compose_folds_additions() {
    let t = Transformer {};
    let a = vec![comp(r#"{"p":["n"],"na":2}"#)];
    let b = vec![comp(r#"{"p":["n"],"na":3}"#), comp(r#"{"p":["m"],"oi":1}"#)];
    let c = t.compose(&a, &b).unwrap();
    assert_eq!(c.len(), 2);
    assert_eq!(comp_text(&c[0]), r#"{"na":5,"p":["n"]}"#);
    assert_eq!(comp_text(&c[1]), r#"{"oi":1,"p":["m"]}"#);

    let mut one = doc(r#"{"n":10}"#);
    one.apply(vec![c]).unwrap();
    let mut two = doc(r#"{"n":10}"#);
    two.apply(vec![a, b]).unwrap();
    assert_eq!(text(&one), text(&two));
    assert_eq!(text(&one), r#"{"m":1,"n":15}"#);
}

#[test]
fn append_drops_insert_then_delete() {
    let t = Transformer {};
    let mut ops = vec![comp(r#"{"p":["a",0],"li":7}"#)];
    t.append(&mut ops, &comp(r#"{"p":["a",0],"ld":7}"#)).unwrap();
    assert!(ops.is_empty());
}

#[test]
fn append_folds_object_delete_then_insert() {
    let t = Transformer {};
    let mut ops = vec![comp(r#"{"p":["k"],"od":1}"#)];
    t.append(&mut ops, &comp(r#"{"p":["k"],"oi":2}"#)).unwrap();
    assert_eq!(ops.len(), 1);
    assert_eq!(comp_text(&ops[0]), r#"{"od":1,"oi":2,"p":["k"]}"#);
}

#[test]
fn append_ignores_move_to_same_place() {
    let t = Transformer {};
    let mut ops = vec![comp(r#"{"p":["a",0],"li":7}"#)];
    t.append(&mut ops, &comp(r#"{"p":["a",2],"lm":2}"#)).unwrap();
    assert_eq!(ops.len(), 1);
}

#[test]
fn append_keeps_unrelated_components() {
    let t = Transformer {};
    let mut ops = vec![];
    t.append(&mut ops, &comp(r#"{"p":["a",0],"li":7}"#)).unwrap();
    t.append(&mut ops, &comp(r#"{"p":["a",1],"li":8}"#)).unwrap();
    assert_eq!(ops.len(), 2);
    assert_eq!(comp_text(&ops[1]), r#"{"li":8,"p":["a",1]}"#);
}

#[test]
fn append_rejects_invalid_component() {
    let t = Transformer {};
    let mut ops = vec![comp(r#"{"p":["a",0],"li":7}"#)];
    match t.append(&mut ops, &comp(r#"{"p":["n"],"na":"x"}"#)) {
        Err(JsonError::InvalidParameter(m)) => assert_eq!(m, "AddNumber needs a number"),
        _ => panic!("InvalidParameter was expected"),
    }
    assert_eq!(ops.len(), 1);
}

#[test]
fn compose_rejects_invalid_first_operation() {
    let t = Transformer {};
    let a = vec![comp(r#"{"p":[],"oi":1}"#)];
    match t.compose(&a, &vec![]) {
        Err(JsonError::BadPath) => {}
        _ => panic!("BadPath was expected"),
    }
}

#[test]
fn compose_with_nothing_keeps_operation() {
    let t = Transformer {};
    let a = vec![comp(r#"{"p":["a",0],"li":7}"#), comp(r#"{"p":["b"],"oi":1}"#)];
    let c = t.compose(&a, &vec![]).unwrap();
    assert_eq!(c.len(), 2);
    assert_eq!(comp_text(&c[0]), comp_text(&a[0]));
    assert_eq!(comp_text(&c[1]), comp_text(&a[1]));
}

#[test]
fn concurrent_inserts_converge() {
    let t = Transformer {};
    for (i, k) in [(0usize, 2usize), (2, 0), (1, 1)] {
        let a = comp(&format!(r#"{{"p":["a",{}],"li":"x"}}"#, i));
        let b = comp(&format!(r#"{{"p":["a",{}],"li":"y"}}"#, k));
        let a2 = t.transform_component2(&b, &a, TransformSide::LEFT).unwrap();
        let b2 = t.transform_component2(&a, &b, TransformSide::RIGHT).unwrap();
        let mut left = doc(r#"{"a":[1,2,3]}"#);
        apply_one(&mut left, &a).unwrap();
        apply_one(&mut left, &b2).unwrap();
        let mut right = doc(r#"{"a":[1,2,3]}"#);
        apply_one(&mut right, &b).unwrap();
        apply_one(&mut right, &a2).unwrap();
        assert_eq!(text(&left), text(&right));
    }
}

#[test]
fn transform2_moves_later_index_on() {
    let t = Transformer {};
    let base = comp(r#"{"p":["a",1],"li":0}"#);
    let new = comp(r#"{"p":["a",3],"ld":9}"#);
    let r = t.transform_component2(&base, &new, TransformSide::LEFT).unwrap();
    assert_eq!(comp_text(&r), r#"{"ld":9,"p":["a",4]}"#);
    let new = comp(r#"{"p":["a",0],"ld":9}"#);
    let r = t.transform_component2(&base, &new, TransformSide::LEFT).unwrap();
    assert_eq!(comp_text(&r), r#"{"ld":9,"p":["a",0]}"#);
}

#[test]
fn transform2_folds_change_inside_deleted_value() {
    let t = Transformer {};
    let base = comp(r#"{"p":["a",1,"k"],"oi":5}"#);
    let new = comp(r#"{"p":["a",1],"ld":{}}"#);
    let r = t.transform_component2(&base, &new, TransformSide::LEFT).unwrap();
    assert_eq!(comp_text(&r), r#"{"ld":{"k":5},"p":["a",1]}"#);
}

#[test]
fn transform2_leaves_unrelated_paths() {
    let t = Transformer {};
    let base = comp(r#"{"p":["a",1],"li":0}"#);
    let new = comp(r#"{"p":["b",1],"li":0}"#);
    let r = t.transform_component2(&base, &new, TransformSide::RIGHT).unwrap();
    assert_eq!(comp_text(&r), r#"{"li":0,"p":["b",1]}"#);
}

#[test]
fn transform_component_keeps_new_op() {
    let t = Transformer {};
    let base = comp(r#"{"p":["a"],"oi":0}"#);
    let base = OperationComponent::new(base.path.copy(), Operator::Noop);
    let new = comp(r#"{"p":["a",1],"ld":0}"#);
    let r = t.transform_component(&base, &new, TransformSide::LEFT).unwrap();
    assert_eq!(comp_text(&r), comp_text(&new));
}

#[test]
fn from_value_reads_every_operator() {
    assert_eq!(comp_text(&comp(r#"{"p":["a"]}"#)), r#"{"p":["a"]}"#);
    assert_eq!(comp_text(&comp(r#"{"p":[0],"lm":3}"#)), r#"{"lm":3,"p":[0]}"#);
    assert_eq!(comp_text(&comp(r#"{"p":[0],"ld":3}"#)), r#"{"ld":3,"p":[0]}"#);
    assert_eq!(comp_text(&comp(r#"{"p":["k"],"od":3}"#)), r#"{"od":3,"p":["k"]}"#);
    match OperationComponent::from_value(&parse(r#"{"p":[0],"lm":-1}"#)) {
        Err(JsonError::InvalidParameter(m)) => {
            assert_eq!(m, "ListMove needs a non-negative integer")
        }
        _ => panic!("InvalidParameter was expected"),
    }
    match OperationComponent::from_value(&parse(r#"{"li":3}"#)) {
        Err(JsonError::BadPath) => {}
        _ => panic!("BadPath was expected"),
    }
    match OperationComponent::from_value(&parse(r#"{"p":[true],"li":3}"#)) {
        Err(JsonError::BadPath) => {}
        _ => panic!("BadPath was expected"),
    }
}

#[test]
fn path_operations() {
    let p = path(r#"["a",1,"b",2]"#);
    let q = path(r#"["a",1,"c"]"#);
    let m = p.max_common_path(&q);
    assert_eq!(m.len(), 2);
    let (l, r) = p.split_at(1);
    assert_eq!(l.len(), 1);
    assert_eq!(r.len(), 3);
    assert_eq!(r.first_index_path(), Some(1));
    assert_eq!(p.first_key_path().map(|k| k.as_str()), Some("a"));
    assert!(p.next_level().eq_path(&path(r#"[1,"b",2]"#)));
    let mut p2 = p.copy();
    match p2.replace(3, PathElement::Index(9)) {
        Some(PathElement::Index(2)) => {}
        _ => panic!("the old step was expected"),
    }
    assert!(p2.eq_path(&path(r#"["a",1,"b",9]"#)));
    assert!(p2.replace(4, PathElement::Index(0)).is_none());
    assert!(PathElement::Index(7).le(&PathElement::Key("a".to_string())));
    assert!(!PathElement::Key("b".to_string()).le(&PathElement::Key("a".to_string())));
}

#[test]
fn key_order() {
    let a = "abc".to_string();
    let b = "abd".to_string();
    let c = "ab".to_string();
    assert_eq!(compare_keys(&a, &b), KeyOrder::Less);
    assert_eq!(compare_keys(&b, &a), KeyOrder::Greater);
    assert_eq!(compare_keys(&c, &a), KeyOrder::Less);
    assert_eq!(compare_keys(&a, &a), KeyOrder::Equal);
    assert_eq!(compare_keys("é", "z"), KeyOrder::Greater);
}

#[test]
fn values_compare_and_copy() {
    let v = parse(r#"{"a":[1,-2,"x",null,true],"b":{}}"#);
    let w = v.deep_clone();
    assert!(v.eq_value(&w));
    assert!(!v.eq_value(&parse(r#"{"a":[1,-2,"x",null,false],"b":{}}"#)));
    assert_eq!(render(&w), render(&v));
}

#[test]
fn numbers() {
    assert_eq!(Number::from_i64(-3), Number::NegInt(-3));
    assert_eq!(Number::from_i64(3), Number::PosInt(3));
    assert_eq!(Number::PosInt(u64::MAX).as_i64(), None);
    assert_eq!(Number::NegInt(-1).as_u64(), None);
    assert_eq!(Number::PosInt(5).as_i64(), Some(5));
}


#[test]
fn invert_twice_gives_back_component() {
    let t = Transformer {};
    for text in [
        r#"{"p":["a",1],"li":[1]}"#,
        r#"{"p":["a",1],"ld":2}"#,
        r#"{"p":["a",1],"li":3,"ld":4}"#,
        r#"{"p":["a",1],"lm":4}"#,
        r#"{"p":["a","k"],"oi":{"x":1}}"#,
        r#"{"p":["a","k"],"od":null}"#,
        r#"{"p":["a","k"],"oi":1,"od":2}"#,
        r#"{"p":["n"],"na":-9}"#,
        r#"{"p":["n"]}"#,
    ] {
        let c = comp(text);
        let back = t.invert(&t.invert(&c).unwrap()).unwrap();
        assert_eq!(comp_text(&back), comp_text(&c));
    }
}

#[test]
fn additions_that_overflow_are_not_folded() {
    let t = Transformer {};
    let mut ops = vec![comp(&format!(r#"{{"p":["n"],"na":{}}}"#, u64::MAX))];
    t.append(&mut ops, &comp(r#"{"p":["n"],"na":1}"#)).unwrap();
    assert_eq!(ops.len(), 2);
}

fn append_means_both(start: &str, first: &str, second: &str, folded_len: usize) {
    let t = Transformer {};
    let mut ops = vec![comp(first)];
    t.append(&mut ops, &comp(second)).unwrap();
    assert_eq!(ops.len(), folded_len);
    let mut folded = doc(start);
    folded.apply(vec![ops]).unwrap();
    let mut both = doc(start);
    both.apply(vec![vec![comp(first), comp(second)]]).unwrap();
    assert_eq!(text(&folded), text(&both));
}

#[test]
fn append_fold_of_list_insert_and_delete_means_both() {
    append_means_both(r#"{"a":[1,2]}"#, r#"{"p":["a",1],"li":7}"#, r#"{"p":["a",1],"ld":7}"#, 0);
}

#[test]
fn append_fold_of_list_replace_and_delete_means_both() {
    append_means_both(r#"{"a":[1,2]}"#, r#"{"p":["a",1],"li":7,"ld":2}"#, r#"{"p":["a",1],"ld":7}"#, 1);
}

#[test]
fn append_fold_of_object_delete_and_insert_means_both() {
    append_means_both(r#"{"k":1,"z":0}"#, r#"{"p":["k"],"od":1}"#, r#"{"p":["k"],"oi":2}"#, 1);
}

#[test]
fn append_fold_of_object_insert_and_delete_means_both() {
    append_means_both(r#"{"z":0}"#, r#"{"p":["k"],"oi":2}"#, r#"{"p":["k"],"od":2}"#, 0);
}

#[test]
fn append_fold_of_object_insert_and_replace_means_both() {
    append_means_both(r#"{"z":0}"#, r#"{"p":["k"],"oi":2}"#, r#"{"p":["k"],"oi":3,"od":2}"#, 1);
}

#[test]
fn append_fold_of_object_replace_and_delete_means_both() {
    append_means_both(r#"{"k":1}"#, r#"{"p":["k"],"oi":2,"od":1}"#, r#"{"p":["k"],"od":2}"#, 1);
}

#[test]
fn append_fold_of_two_object_replaces_means_both() {
    append_means_both(r#"{"k":1}"#, r#"{"p":["k"],"oi":2,"od":1}"#, r#"{"p":["k"],"oi":3,"od":2}"#, 1);
}

#[test]
fn append_fold_of_additions_means_both() {
    append_means_both(r#"{"n":4}"#, r#"{"p":["n"],"na":2}"#, r#"{"p":["n"],"na":5}"#, 1);
}

#[test]
fn append_dropped_move_means_both() {
    append_means_both(r#"{"a":[1,2,3]}"#, r#"{"p":["a",0],"li":7}"#, r#"{"p":["a",2],"lm":2}"#, 1);
}

#[test]
fn append_fold_of_insert_over_existing_key_differs() {
    // The insertion finds the key already there, so it does not take effect as
    // an insertion, and the fold into nothing no longer means both components.
    let t = Transformer {};
    let mut ops = vec![comp(r#"{"p":["k"],"oi":2}"#)];
    t.append(&mut ops, &comp(r#"{"p":["k"],"od":2}"#)).unwrap();
    assert!(ops.is_empty());
    let mut folded = doc(r#"{"k":1}"#);
    folded.apply(vec![ops]).unwrap();
    assert_eq!(text(&folded), r#"{"k":1}"#);
    let mut both = doc(r#"{"k":1}"#);
    both.apply(vec![vec![comp(r#"{"p":["k"],"oi":2}"#), comp(r#"{"p":["k"],"od":2}"#)]]).unwrap();
    assert_eq!(text(&both), r#"{}"#);
}

#[test]
fn two_operations_apply_as_their_concatenation() {
    let a = vec![comp(r#"{"p":["a",0],"li":7}"#), comp(r#"{"p":["n"],"na":2}"#)];
    let b = vec![comp(r#"{"p":["a",1],"ld":1}"#), comp(r#"{"p":["k"],"oi":true}"#)];
    let start = r#"{"a":[1],"n":1}"#;
    let mut together = doc(start);
    together.apply(vec![a.iter().map(|c| c.copy()).collect(), b.iter().map(|c| c.copy()).collect()]).unwrap();
    let mut joined = doc(start);
    let mut ab: Vec<OperationComponent> = a.iter().map(|c| c.copy()).collect();
    ab.extend(b.iter().map(|c| c.copy()));
    joined.apply(vec![ab]).unwrap();
    let mut one_after_other = doc(start);
    one_after_other.apply(vec![a]).unwrap();
    one_after_other.apply(vec![b]).unwrap();
    assert_eq!(text(&together), r#"{"a":[7],"k":true,"n":3}"#);
    assert_eq!(text(&joined), text(&together));
    assert_eq!(text(&one_after_other), text(&together));
}

#[test]
fn two_operations_stop_alike_at_an_error() {
    let a = vec![comp(r#"{"p":["a",0],"li":7}"#)];
    let b = vec![comp(r#"{"p":["x","y"],"oi":1}"#), comp(r#"{"p":["k"],"oi":1}"#)];
    let start = r#"{"a":[1]}"#;
    let mut together = doc(start);
    let r1 = together.apply(vec![a.iter().map(|c| c.copy()).collect(), b.iter().map(|c| c.copy()).collect()]);
    let mut joined = doc(start);
    let mut ab: Vec<OperationComponent> = a.iter().map(|c| c.copy()).collect();
    ab.extend(b.iter().map(|c| c.copy()));
    let r2 = joined.apply(vec![ab]);
    assert!(matches!(r1, Err(JsonError::BadPath)));
    assert!(matches!(r2, Err(JsonError::BadPath)));
    assert_eq!(text(&together), r#"{"a":[7,1]}"#);
    assert_eq!(text(&joined), text(&together));
}

#[test]
fn append_fold_of_insert_past_end_and_delete_differs() {
    // The insertion lands at the array's end, not at index 5, so the delete at
    // 5 finds nothing, while the fold into nothing drops both.
    let t = Transformer {};
    let mut ops = vec![comp(r#"{"p":["a",5],"li":1}"#)];
    t.append(&mut ops, &comp(r#"{"p":["a",5],"ld":1}"#)).unwrap();
    assert!(ops.is_empty());
    let mut folded = doc(r#"{"a":[]}"#);
    folded.apply(vec![ops]).unwrap();
    assert_eq!(text(&folded), r#"{"a":[]}"#);
    let mut both = doc(r#"{"a":[]}"#);
    both.apply(vec![vec![comp(r#"{"p":["a",5],"li":1}"#), comp(r#"{"p":["a",5],"ld":1}"#)]]).unwrap();
    assert_eq!(text(&both), r#"{"a":[1]}"#);
}

#[test]
fn append_dropped_move_past_end_means_both() {
    append_means_both(r#"{"a":[1,2]}"#, r#"{"p":["a",0],"li":7}"#, r#"{"p":["a",9],"lm":9}"#, 1);
}

#[test]
fn append_dropped_move_on_object_differs() {
    let t = Transformer {};
    let mut ops = vec![comp(r#"{"p":["b"],"oi":1}"#)];
    t.append(&mut ops, &comp(r#"{"p":["a",0],"lm":0}"#)).unwrap();
    assert_eq!(ops.len(), 1);
    let mut folded = doc(r#"{"a":{}}"#);
    assert!(folded.apply(vec![ops]).is_ok());
    let mut both = doc(r#"{"a":{}}"#);
    let r = both.apply(vec![vec![comp(r#"{"p":["b"],"oi":1}"#), comp(r#"{"p":["a",0],"lm":0}"#)]]);
    assert!(matches!(r, Err(JsonError::BadPath)));
    assert_eq!(text(&both), text(&folded));
}

#[test]
fn append_fold_of_replace_that_finds_other_value_means_both() {
    // The replacement does not take effect, and the delete does not find its
    // value either, so the fold still means both.
    append_means_both(r#"{"a":[1,2]}"#, r#"{"p":["a",1],"li":7,"ld":5}"#, r#"{"p":["a",1],"ld":7}"#, 1);
}

#[test]
fn checked_apply_reports_panicking_operations() {
    let mut json = doc(r#"{"n":-1,"m":1}"#);
    let r = json.checked_apply(vec![vec![comp(r#"{"p":["m"],"na":2}"#), comp(r#"{"p":["n"],"na":1}"#)]]);
    assert!(r.is_none());
    assert_eq!(text(&json), r#"{"m":1,"n":-1}"#);
}

#[test]
fn checked_apply_agrees_with_apply() {
    let mut json = doc(r#"{"m":1}"#);
    let r = json.checked_apply(vec![vec![comp(r#"{"p":["m"],"na":2}"#)]]);
    assert!(matches!(r, Some(Ok(()))));
    assert_eq!(text(&json), r#"{"m":3}"#);
    let r = json.checked_apply(vec![vec![comp(r#"{"p":["x","y"],"oi":1}"#)]]);
    assert!(matches!(r, Some(Err(JsonError::BadPath))));
    assert_eq!(text(&json), r#"{"m":3}"#);
}

#[test]
fn panics_at_finds_panicking_operators() {
    let v = parse(r#"{"a":[1,2],"n":-1,"m":1}"#);
    assert!(v.panics_at(&path(r#"["n"]"#), &Operator::AddNumber(parse("1"))));
    assert!(!v.panics_at(&path(r#"["m"]"#), &Operator::AddNumber(parse("1"))));
    assert!(v.panics_at(&path(r#"["a",5]"#), &Operator::AddNumber(parse("1"))));
    assert!(v.panics_at(&path(r#"["a",0]"#), &Operator::ListMove(5)));
    assert!(!v.panics_at(&path(r#"["a",0]"#), &Operator::ListMove(1)));
    assert!(v.panics_at(&path(r#"["a"]"#), &Operator::ListMove(0)) == false);
    assert!(!v.panics_at(&path(r#"["x","y"]"#), &Operator::AddNumber(parse("1"))));
}

#[test]
fn transformed_delete_removes_what_base_leaves() {
    let t = Transformer {};
    let start = r#"{"a":[0,{"k":1}]}"#;
    let base = comp(r#"{"p":["a",1,"k"],"na":4}"#);
    let new = comp(r#"{"p":["a",1],"ld":{"k":1}}"#);
    let r = t.transform_component2(&base, &new, TransformSide::LEFT).unwrap();
    assert_eq!(comp_text(&r), r#"{"ld":{"k":5},"p":["a",1]}"#);
    let mut json = doc(start);
    apply_one(&mut json, &base).unwrap();
    apply_one(&mut json, &r).unwrap();
    assert_eq!(text(&json), r#"{"a":[0]}"#);
}
