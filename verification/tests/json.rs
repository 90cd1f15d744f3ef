use json_ot::json::JSON;
use json_ot::operation::OperationComponent;
use json_ot::path::Path;
use json_ot::value::{object_insert, JsonValue, Number};

fn from_serde(v: &serde_json::Value) -> JsonValue {
    match v {
        serde_json::Value::Null => JsonValue::Null,
        serde_json::Value::Bool(b) => JsonValue::Bool(*b),
        serde_json::Value::Number(n) => {
            if let Some(u) = n.as_u64() {
                JsonValue::Number(Number::PosInt(u))
            } else if let Some(i) = n.as_i64() {
                JsonValue::Number(Number::NegInt(i))
            } else {
                panic!("floating-point numbers are not supported")
            }
        }
        serde_json::Value::String(s) => JsonValue::String(s.clone()),
        serde_json::Value::Array(a) => JsonValue::Array(a.iter().map(from_serde).collect()),
        serde_json::Value::Object(m) => {
            let mut entries: Vec<(String, JsonValue)> = Vec::new();
            for (k, v) in m.iter() {
                object_insert(&mut entries, k.clone(), from_serde(v));
            }
            JsonValue::Object(entries)
        }
    }
}

fn to_serde(v: &JsonValue) -> serde_json::Value {
    match v {
        JsonValue::Null => serde_json::Value::Null,
        JsonValue::Bool(b) => serde_json::Value::Bool(*b),
        JsonValue::Number(Number::PosInt(u)) => serde_json::Value::from(*u),
        JsonValue::Number(Number::NegInt(i)) => serde_json::Value::from(*i),
        JsonValue::String(s) => serde_json::Value::String(s.clone()),
        JsonValue::Array(a) => serde_json::Value::Array(a.iter().map(to_serde).collect()),
        JsonValue::Object(entries) => {
            let mut m = serde_json::Map::new();
            for (k, v) in entries {
                m.insert(k.clone(), to_serde(v));
            }
            serde_json::Value::Object(m)
        }
    }
}

fn parse(input: &str) -> JsonValue {
    from_serde(&serde_json::from_str::<serde_json::Value>(input).unwrap())
}

fn render(v: &JsonValue) -> String {
    to_serde(v).to_string()
}

fn json_from_str(input: &str) -> JSON {
    JSON::from_value(parse(input))
}

fn json_to_string(json: &JSON) -> String {
    render(json.value())
}

fn path_from_str(input: &str) -> Path {
    Path::from_value(&parse(input)).unwrap()
}

fn comp_from_str(input: &str) -> OperationComponent {
    OperationComponent::from_value(&parse(input)).unwrap()
}

#[test]
fn test_route_get_by_path_only_has_object() {
    let json = json_from_str(r#"{"level1":"world", "level12":{"level2":"world2"}}"#);

    // simple path with only object
    let paths = path_from_str(r#"["level1"]"#);
    assert_eq!(render(json.get(&paths).unwrap().unwrap()), r#""world""#);
    let paths = path_from_str(r#"["level12", "level2"]"#);
    assert_eq!(render(json.get(&paths).unwrap().unwrap()), r#""world2""#);
    let paths = path_from_str(r#"["level3"]"#);
    assert!(json.get(&paths).unwrap().is_none());

    // complex path with array
    let json = json_from_str(r#"{"level1":[1,{"hello":[1,[7,8]]}], "level12":"world"}"#);
    let paths = path_from_str(r#"["level1", 1, "hello"]"#);

    assert_eq!(render(json.get(&paths).unwrap().unwrap()), r#"[1,[7,8]]"#);
}

#[test]
fn test_route_get_by_path_has_array() {
    let json = json_from_str(r#"{"level1":["a","b"], "level12":[123, {"level2":["c","d"]}]}"#);
    // simple path
    let paths = path_from_str(r#"["level1", 1]"#);
    assert_eq!(render(json.get(&paths).unwrap().unwrap()), r#""b""#);
    let paths = path_from_str(r#"["level12", 0]"#);

    // complex path
    assert_eq!(render(json.get(&paths).unwrap().unwrap()), r#"123"#);
    let paths = path_from_str(r#"["level12", 1, "level2"]"#);
    assert_eq!(render(json.get(&paths).unwrap().unwrap()), r#"["c","d"]"#);
    let json = json_from_str(r#"{"level1":[1,{"hello":[1,[7,8]]}], "level12":"world"}"#);
    let paths = path_from_str(r#"["level1", 1, "hello", 1]"#);

    assert_eq!(render(json.get(&paths).unwrap().unwrap()), r#"[7,8]"#);
}

#[test]
fn test_apply_add_number() {
    let mut json = json_from_str("{\"level1\": 10}");
    let operation_comp = comp_from_str("{\"p\":[\"level1\"], \"na\":100}");
    json.apply(vec![vec![operation_comp.copy()]]).unwrap();

    assert_eq!(json_to_string(&json), r#"{"level1":110}"#);
}

#[test]
fn test_object_insert() {
    let mut json = json_from_str(r#"{}"#);
    // insert to empty object
    let operation_comp = comp_from_str(r#"{"p":["level1"], "oi":{"level2":{}}}"#);
    json.apply(vec![vec![operation_comp]]).unwrap();
    assert_eq!(json_to_string(&json), r#"{"level1":{"level2":{}}}"#);

    // insert to inner object
    let operation_comp =
        comp_from_str(r#"{"p":["level1", "level2"], "oi":{"level3":[1, {"level4":{}}]}}"#);
    json.apply(vec![vec![operation_comp]]).unwrap();
    assert_eq!(
        json_to_string(&json),
        r#"{"level1":{"level2":{"level3":[1,{"level4":{}}]}}}"#
    );

    // insert to deep inner object with number index in path
    let operation_comp = comp_from_str(
        r#"{"p":["level1", "level2", "level3", 1, "level4"], "oi":{"level5":[1, 2]}}"#,
    );
    json.apply(vec![vec![operation_comp]]).unwrap();
    assert_eq!(
        json_to_string(&json),
        r#"{"level1":{"level2":{"level3":[1,{"level4":{"level5":[1,2]}}]}}}"#
    );

    // replace key without compare
    let operation_comp =
        comp_from_str(r#"{"p":["level1", "level2", "level3", 1, "level4"], "oi":[3,4]}"#);
    json.apply(vec![vec![operation_comp]]).unwrap();
    assert_eq!(
        json_to_string(&json),
        r#"{"level1":{"level2":{"level3":[1,{"level4":[3,4]}]}}}"#
    );
}

#[test]
fn test_object_delete() {
    let origin_json =
        json_from_str(r#"{"level1":{"level2":{"level3":[1,{"level41":[1,2], "level42":[3,4]}]}}}"#);

    // delete to deep inner object with number index in path
    let mut json = origin_json.copy();
    let operation_comp =
        comp_from_str(r#"{"p":["level1", "level2", "level3", 1, "level41"], "od":[1, 2]}"#);
    json.apply(vec![vec![operation_comp]]).unwrap();
    assert_eq!(
        json_to_string(&json),
        r#"{"level1":{"level2":{"level3":[1,{"level42":[3,4]}]}}}"#
    );

    // delete to inner object
    let mut json = origin_json.copy();
    let operation_comp = comp_from_str(
        r#"{"p":["level1", "level2", "level3"], "od":[1,{"level41":[1,2], "level42":[3,4]}]}"#,
    );
    json.apply(vec![vec![operation_comp]]).unwrap();
    assert_eq!(json_to_string(&json), r#"{"level1":{"level2":{}}}"#);
}

#[test]
fn test_object_replace() {
    let origin_json =
        json_from_str(r#"{"level1":{"level2":{"level3":[1,{"level41":[1,2], "level42":[3,4]}]}}}"#);

    // replace deep inner object with number index in path
    let mut json = origin_json.copy();
    let operation_comp = comp_from_str(
        r#"{"p":["level1", "level2", "level3", 1, "level41"], "oi":{"5":"6"}, "od":[1, 2]}"#,
    );
    json.apply(vec![vec![operation_comp]]).unwrap();
    assert_eq!(
        json_to_string(&json),
        r#"{"level1":{"level2":{"level3":[1,{"level41":{"5":"6"},"level42":[3,4]}]}}}"#
    );

    // replace to inner object
    let mut json = origin_json.copy();
    let operation_comp = comp_from_str(
        r#"{"p":["level1", "level2"], "oi":"hello", "od":{"level3":[1,{"level41":[1,2], "level42":[3,4]}]}}"#,
    );
    json.apply(vec![vec![operation_comp]]).unwrap();
    assert_eq!(json_to_string(&json), r#"{"level1":{"level2":"hello"}}"#);
}

#[test]
fn test_list_insert() {
    let mut json = json_from_str(r#"{"level1": []}"#);

    // insert to empty array
    let operation_comp = comp_from_str(r#"{"p":["level1", 0], "li":{"hello":[1]}}"#);
    json.apply(vec![vec![operation_comp]]).unwrap();
    assert_eq!(json_to_string(&json), r#"{"level1":[{"hello":[1]}]}"#);

    // insert to array
    let operation_comp = comp_from_str(r#"{"p":["level1", 0], "li":1}"#);
    json.apply(vec![vec![operation_comp]]).unwrap();
    assert_eq!(json_to_string(&json), r#"{"level1":[1,{"hello":[1]}]}"#);

    // insert to inner array
    let operation_comp = comp_from_str(r#"{"p":["level1", 1, "hello",1], "li":[7,8]}"#);
    json.apply(vec![vec![operation_comp]]).unwrap();
    assert_eq!(json_to_string(&json), r#"{"level1":[1,{"hello":[1,[7,8]]}]}"#);

    // append
    let operation_comp = comp_from_str(r#"{"p":["level1", 10], "li":[2,3]}"#);
    json.apply(vec![vec![operation_comp]]).unwrap();
    assert_eq!(
        json_to_string(&json),
        r#"{"level1":[1,{"hello":[1,[7,8]]},[2,3]]}"#
    );
}

#[test]
fn test_list_delete() {
    let origin_json = json_from_str(r#"{"level1":[1,{"hello":[1,[7,8]]}]}"#);

    // delete from innser array
    let mut json = origin_json.copy();
    let operation_comp = comp_from_str(r#"{"p":["level1", 1, "hello", 1], "ld":[7,8]}"#);
    json.apply(vec![vec![operation_comp]]).unwrap();
    assert_eq!(json_to_string(&json), r#"{"level1":[1,{"hello":[1]}]}"#);

    // delete from inner object
    let mut json = origin_json.copy();
    let operation_comp = comp_from_str(r#"{"p":["level1", 1], "ld":{"hello":[1,[7,8]]}}"#);
    json.apply(vec![vec![operation_comp]]).unwrap();
    assert_eq!(json_to_string(&json), r#"{"level1":[1]}"#);
}

#[test]
fn test_list_replace() {
    let origin_json = json_from_str(r#"{"level1":[1,{"hello":[1,[7,8]]}]}"#);

    // replace from innser array
    let mut json = origin_json.copy();
    let operation_comp = comp_from_str(
        r#"{"p":["level1", 1, "hello", 1], "li":{"hello":"world"}, "ld":[7,8]}"#,
    );
    json.apply(vec![vec![operation_comp]]).unwrap();
    assert_eq!(
        json_to_string(&json),
        r#"{"level1":[1,{"hello":[1,{"hello":"world"}]}]}"#
    );

    // replace from inner object
    let mut json = origin_json.copy();
    let operation_comp = comp_from_str(
        r#"{"p":["level1", 1], "li": {"hello":"world"}, "ld":{"hello":[1,[7,8]]}}"#,
    );
    json.apply(vec![vec![operation_comp]]).unwrap();
    assert_eq!(json_to_string(&json), r#"{"level1":[1,{"hello":"world"}]}"#);
}

#[test]
fn test_list_move() {
    let origin_json = json_from_str(r#"{"level1":[1,{"hello":[1,[7,8], 9, 10]}]}"#);

    // move left
    let mut json = origin_json.copy();
    let operation_comp = comp_from_str(r#"{"p":["level1", 1, "hello", 2], "lm":1}"#);
    json.apply(vec![vec![operation_comp]]).unwrap();
    assert_eq!(
        json_to_string(&json),
        r#"{"level1":[1,{"hello":[1,9,[7,8],10]}]}"#
    );

    // move right
    let mut json = origin_json.copy();
    let operation_comp = comp_from_str(r#"{"p":["level1", 1, "hello", 1], "lm":2}"#);
    json.apply(vec![vec![operation_comp]]).unwrap();
    assert_eq!(
        json_to_string(&json),
        r#"{"level1":[1,{"hello":[1,9,[7,8],10]}]}"#
    );

    // stay put
    let mut json = origin_json.copy();
    let operation_comp = comp_from_str(r#"{"p":["level1", 1, "hello", 1], "lm":1}"#);
    json.apply(vec![vec![operation_comp]]).unwrap();
    assert_eq!(
        json_to_string(&json),
        r#"{"level1":[1,{"hello":[1,[7,8],9,10]}]}"#
    );
}
