use serde_filter::{filter, Error, Filter, Flatten, Flattener, Ignore, Match, Matchable};
use serde_filter::{Number, ObjectMap, Value};

fn text(s: &str) -> Value {
    Value::String(s.to_string())
}

fn uint(n: u64) -> Value {
    Value::Number(Number::from_u64(n))
}

fn signed(n: i64) -> Value {
    Value::Number(Number::from_i64(n))
}

fn obj(entries: Vec<(&str, Value)>) -> Value {
    let mut m = ObjectMap::new();
    for (k, v) in entries {
        m.insert(k.to_string(), v);
    }
    Value::Object(m)
}

fn arr(items: Vec<Value>) -> Value {
    Value::Array(items)
}

fn apod_record(explanation: &str) -> Value {
    obj(vec![
        ("explanation", text(explanation)),
        ("media_type", text("test")),
        ("hdurl", text("test")),
        ("service_version", text("test")),
        ("code", uint(200)),
        ("msg", text("test")),
    ])
}

#[test]
fn test_flatten() {
    let json = obj(vec![
        ("a", obj(vec![("b", obj(vec![("c", obj(vec![("d", text("value"))]))]))])),
        ("e", text("value")),
    ]);
    let expected = obj(vec![("a.b.c.d", text("value")), ("e", text("value"))]);

    let result = filter::<Flatten>(json, &Flatten::default()).unwrap();
    println!("{:?}", result);
    assert_eq!(result, expected);
}

#[test]
fn test_ignore() {
    let json = apod_record("test");
    let values = filter::<Ignore>(json, &Ignore::new(vec!["explanation", "media_type"]));
    if let Ok(trimmed) = values {
        println!("TRIMMED: {:#?}", trimmed);
        assert!(trimmed.get("explanation").is_none());
        assert!(trimmed.get("media_type").is_none());
        assert!(trimmed.get("hdurl").is_some());
    } else {
        panic!();
    }

    let inner_record = obj(vec![("Object", apod_record("test_3")), ("explanation", text("test_2"))]);
    let json = obj(vec![
        ("2020-01-01", apod_record("test_1")),
        ("Object", obj(vec![("2023-01-11", inner_record)])),
        ("explanation", text("test_0")),
    ]);

    let ignore = Ignore::new(vec!["explanation"]);
    let trimmed = filter::<Ignore>(json, &ignore).unwrap();
    println!("TRIMMED: {:#?}", trimmed);
    assert!(trimmed.get("2020-01-01").unwrap().get("explanation").is_none(), "test_1");
    assert!(
        trimmed
            .get("Object")
            .unwrap()
            .get("2023-01-11")
            .unwrap()
            .get("Object")
            .unwrap()
            .get("explanation")
            .is_none(),
        "test_3"
    );
    assert!(
        trimmed.get("Object").unwrap().get("2023-01-11").unwrap().get("explanation").is_none(),
        "test_2"
    );
    assert!(trimmed.get("explanation").is_none(), "test_0");
}

#[test]
fn test_match() {
    let json = obj(vec![
        ("explanation", text("test")),
        ("date", text("2020-01-01")),
        ("title", text("test")),
        ("url", text("test")),
        ("media_type", text("test")),
        ("hdurl", text("test")),
        ("service_version", text("test")),
        ("code", uint(200)),
        ("msg", text("test")),
    ]);
    let values = filter::<Match<String>>(json.clone(), &Match::new("explanation")).unwrap();
    assert_eq!(values, vec!["test".to_string()]);

    let json = obj(vec![
        ("Object", obj(vec![("explanation", text("test")), ("activeRegionNum", uint(1))])),
        (
            "2022",
            obj(vec![(
                "Object",
                obj(vec![("explanation", text("test")), ("activeRegionNum", uint(2))]),
            )]),
        ),
    ]);
    let values = filter::<Match<u64>>(json, &Match::new("activeRegionNum"));
    if let Ok(nums) = values {
        assert_eq!(nums, vec![1, 2]);
    } else {
        panic!("Failed to match");
    }
}

#[test]
fn flatten_single_chain_joins_all_keys() {
    let json = obj(vec![("x", obj(vec![("y", obj(vec![("z", uint(7))]))]))]);
    let result = Flattener::new('.').filter(json).unwrap();
    assert_eq!(result, obj(vec![("x.y.z", uint(7))]));
}

#[test]
fn flatten_array_indices_are_path_segments() {
    let json = obj(vec![("a", arr(vec![obj(vec![("b", uint(1))]), obj(vec![("b", uint(2))])]))]);
    let result = filter::<Flatten>(json, &Flatten::default()).unwrap();
    assert_eq!(result, obj(vec![("a.0.b", uint(1)), ("a.1.b", uint(2))]));
}

#[test]
fn flatten_multi_digit_index() {
    let items: Vec<Value> = (0..12).map(uint).collect();
    let json = obj(vec![("k", arr(items))]);
    let result = Flattener::new('.').filter(json).unwrap();
    assert_eq!(result.get("k.10"), Some(&uint(10)));
    assert_eq!(result.get("k.11"), Some(&uint(11)));
    assert_eq!(result.get("k.9"), Some(&uint(9)));
    if let Value::Object(m) = &result {
        assert_eq!(m.len(), 12);
    } else {
        panic!("flatten must give an object");
    }
}

#[test]
fn flatten_custom_delimiter() {
    let json = obj(vec![("a", obj(vec![("b", text("v"))])), ("c", arr(vec![Value::Bool(true)]))]);
    let result = Flattener::new('/').filter(json).unwrap();
    assert_eq!(result, obj(vec![("a/b", text("v")), ("c/0", Value::Bool(true))]));
}

#[test]
fn flatten_array_root_keys_start_with_delimiter() {
    let json = arr(vec![uint(5), obj(vec![("q", Value::Null)])]);
    let result = Flattener::new('.').filter(json).unwrap();
    assert_eq!(result, obj(vec![(".0", uint(5)), (".1.q", Value::Null)]));
}

#[test]
fn flatten_rejects_scalars() {
    assert_eq!(Flattener::new('.').filter(text("x")), Err(Error::UnsupportedInputShape));
    assert_eq!(Flattener::new('.').filter(uint(3)), Err(Error::UnsupportedInputShape));
    assert_eq!(Flattener::new('.').filter(Value::Null), Err(Error::UnsupportedInputShape));
    assert_eq!(
        Error::UnsupportedInputShape.message(),
        "Flatten can only be used on objects or arrays"
    );
}

#[test]
fn flatten_empty_containers() {
    let result = Flattener::new('.').filter(obj(vec![])).unwrap();
    assert_eq!(result, obj(vec![]));
    let result = Flattener::new('.').filter(obj(vec![("a", obj(vec![])), ("b", arr(vec![]))])).unwrap();
    assert_eq!(result, obj(vec![]));
}

#[test]
fn flatten_collision_later_entry_wins() {
    let json = obj(vec![("a.b", uint(1)), ("a", obj(vec![("b", uint(2))]))]);
    let result = Flattener::new('.').filter(json).unwrap();
    assert_eq!(result, obj(vec![("a.b", uint(2))]));
}

#[test]
fn ignore_removes_at_every_depth() {
    let json = obj(vec![(
        "2020-01-01",
        obj(vec![("explanation", text("x")), ("hdurl", text("y"))]),
    )]);
    let trimmed = Ignore::new(vec!["explanation"]).filter(json).unwrap();
    assert_eq!(trimmed, obj(vec![("2020-01-01", obj(vec![("hdurl", text("y"))]))]));
}

#[test]
fn ignore_depths_zero_one_and_three() {
    let json = obj(vec![
        ("explanation", uint(0)),
        ("a", obj(vec![("explanation", uint(1)), ("keep", uint(1))])),
        (
            "b",
            obj(vec![("c", obj(vec![("d", obj(vec![("explanation", uint(3)), ("keep", uint(3))]))]))]),
        ),
    ]);
    let trimmed = Ignore::new(vec!["explanation"]).filter(json).unwrap();
    let expected = obj(vec![
        ("a", obj(vec![("keep", uint(1))])),
        ("b", obj(vec![("c", obj(vec![("d", obj(vec![("keep", uint(3))]))]))])),
    ]);
    assert_eq!(trimmed, expected);
}

#[test]
fn ignore_preserves_untouched_branches() {
    let branch = obj(vec![("x", arr(vec![uint(1), text("two"), obj(vec![("y", Value::Bool(false))])]))]);
    let json = obj(vec![("keep", branch.clone()), ("drop", uint(1))]);
    let trimmed = Ignore::new(vec!["drop"]).filter(json).unwrap();
    assert_eq!(trimmed, obj(vec![("keep", branch.clone())]));
    let same = Ignore::new(vec!["drop"]).filter(branch.clone()).unwrap();
    assert_eq!(same, branch);
}

#[test]
fn ignore_drops_null_values_and_keeps_emptied_containers() {
    let json = obj(vec![
        ("n", Value::Null),
        ("a", arr(vec![Value::Null, uint(1), obj(vec![("k", uint(2))])])),
    ]);
    let trimmed = Ignore::new(vec!["k"]).filter(json).unwrap();
    assert_eq!(trimmed, obj(vec![("a", arr(vec![uint(1), obj(vec![])]))]));
}

#[test]
fn ignore_scalar_root_passes_through() {
    assert_eq!(Ignore::new(vec!["a"]).filter(text("s")).unwrap(), text("s"));
    assert_eq!(Ignore::new(vec!["a"]).filter(Value::Null).unwrap(), Value::Null);
    assert_eq!(Ignore::new(vec![]).filter(signed(-4)).unwrap(), signed(-4));
}

#[test]
fn ignore_is_idempotent() {
    let json = obj(vec![
        ("explanation", text("x")),
        ("list", arr(vec![Value::Null, obj(vec![("explanation", Value::Null), ("z", uint(1))])])),
        ("n", Value::Null),
    ]);
    let ignore = Ignore::new(vec!["explanation"]);
    let once = ignore.filter(json).unwrap();
    let twice = ignore.filter(once.clone()).unwrap();
    assert_eq!(once, twice);
    assert_eq!(once, obj(vec![("list", arr(vec![obj(vec![("z", uint(1))])]))]));
}

#[test]
fn ignore_sift_with_key_list() {
    let json = obj(vec![("a", uint(1)), ("b", uint(2))]);
    let keys = vec!["b".to_string()];
    assert_eq!(Ignore::sift(&json, &keys), obj(vec![("a", uint(1))]));
}

#[test]
fn match_collects_all_occurrences() {
    let json = obj(vec![
        ("Object", obj(vec![("explanation", text("test explanation")), ("activeRegionNum", uint(23))])),
        (
            "2022-01-11",
            obj(vec![(
                "Object2",
                obj(vec![("explanation", text("none")), ("activeRegionNum", uint(98))]),
            )]),
        ),
    ]);
    let mut nums = filter::<Match<u64>>(json, &Match::new("activeRegionNum")).unwrap();
    nums.sort();
    assert_eq!(nums, vec![23, 98]);
}

#[test]
fn match_empty_result_is_not_an_error() {
    let json = obj(vec![("a", arr(vec![obj(vec![("b", uint(1))])]))]);
    let found = Match::<u64>::new("missing").filter(json).unwrap();
    assert!(found.is_empty());
    let found = Match::<String>::new("k").filter(uint(1)).unwrap();
    assert!(found.is_empty());
}

#[test]
fn match_conversion_failure_is_an_error() {
    let json = obj(vec![("n", text("not a number"))]);
    let r = Match::<u64>::new("n").filter(json);
    assert_eq!(r, Err(Error::ConversionMismatch));
    assert_eq!(
        Error::ConversionMismatch.message(),
        "Match found a value that does not convert to the requested type"
    );
}

#[test]
fn match_skips_null_and_stops_below_a_match() {
    let json = arr(vec![
        obj(vec![("k", Value::Null)]),
        obj(vec![("k", text("outer")), ("x", obj(vec![("k", text("deep"))]))]),
    ]);
    let found = Match::<String>::new("k").filter(json).unwrap();
    assert_eq!(found, vec!["outer".to_string(), "deep".to_string()]);
    let nested = obj(vec![("k", obj(vec![("k", text("inner"))]))]);
    let r = Match::<String>::new("k").filter(nested);
    assert_eq!(r, Err(Error::ConversionMismatch));
}

#[test]
fn matchable_integer_conversions() {
    assert_eq!(i64::from_json(signed(-5)), Some(-5));
    assert_eq!(i64::from_json(uint(u64::MAX)), None);
    assert_eq!(u64::from_json(signed(-5)), None);
    assert_eq!(u64::from_json(uint(u64::MAX)), Some(u64::MAX));
    assert_eq!(i32::from_json(signed(-7)), Some(-7));
    assert_eq!(i32::from_json(uint(1 << 32)), Some(0));
    assert_eq!(i16::from_json(uint(70000)), Some(4464));
    assert_eq!(u32::from_json(uint((1 << 32) + 3)), Some(3));
    assert_eq!(u16::from_json(uint(65537)), Some(1));
    assert_eq!(u16::from_json(text("1")), None);
    assert_eq!(u64::from_json(Value::Number(Number::Float(0))), None);
}

#[test]
fn matchable_other_conversions() {
    assert_eq!(bool::from_json(Value::Bool(true)), Some(true));
    assert_eq!(bool::from_json(uint(1)), None);
    assert_eq!(String::from_json(text("s")), Some("s".to_string()));
    assert_eq!(String::from_json(Value::Null), None);
    let pair = obj(vec![("key", text("k1")), ("value", text("v1")), ("other", uint(3))]);
    assert_eq!(
        <(String, String)>::from_json(pair),
        Some(("k1".to_string(), "v1".to_string()))
    );
    let bad = obj(vec![("key", text("k1")), ("value", uint(2))]);
    assert_eq!(<(String, String)>::from_json(bad), None);
    assert_eq!(<(String, String)>::from_json(text("key")), None);
}

#[test]
fn match_pairs_from_records() {
    let json = obj(vec![(
        "tags",
        arr(vec![
            obj(vec![("pair", obj(vec![("key", text("a")), ("value", text("1"))]))]),
            obj(vec![("pair", obj(vec![("key", text("b")), ("value", text("2"))]))]),
        ]),
    )]);
    let pairs = filter::<Match<(String, String)>>(json, &Match::new("pair")).unwrap();
    assert_eq!(
        pairs,
        vec![("a".to_string(), "1".to_string()), ("b".to_string(), "2".to_string())]
    );
}

#[test]
fn object_map_insert_replaces_in_place() {
    let mut m = ObjectMap::new();
    assert!(m.is_empty());
    assert_eq!(m.insert("a".to_string(), uint(1)), None);
    assert_eq!(m.insert("b".to_string(), uint(2)), None);
    assert_eq!(m.insert("a".to_string(), uint(3)), Some(uint(1)));
    assert_eq!(m.len(), 2);
    assert_eq!(m.key_at(0), "a");
    assert_eq!(m.value_at(0), &uint(3));
    assert_eq!(m.get("b"), Some(&uint(2)));
    assert!(m.contains_key("b"));
    assert!(!m.contains_key("c"));
}

#[test]
fn number_readings() {
    assert_eq!(Number::from_i64(5), Number::PosInt(5));
    assert_eq!(Number::from_i64(-5), Number::NegInt(-5));
    assert_eq!(Number::PosInt(9).as_i64(), Some(9));
    assert_eq!(Number::NegInt(-9).as_u64(), None);
    assert_eq!(signed(3).as_u64(), Some(3));
    assert_eq!(text("3").as_i64(), None);
    assert_eq!(text("abc").as_str().map(|s| s.as_str()), Some("abc"));
    assert!(Value::Null.is_null());
}

#[test]
fn filters_clone_and_compare() {
    let ignore = Ignore::new(vec!["a", "b"]);
    let copy = ignore.clone();
    assert_eq!(copy, ignore);
    assert_ne!(copy, Ignore::new(vec!["a"]));
    let json = obj(vec![("a", uint(1)), ("c", uint(2))]);
    assert_eq!(copy.filter(json).unwrap(), obj(vec![("c", uint(2))]));
    assert!(format!("{:?}", ignore).contains("Ignore"));

    let m = Match::<u64>::new("c");
    let m2 = m.clone();
    assert_eq!(m2, m);
    assert_eq!(m2.filter(obj(vec![("c", uint(2))])).unwrap(), vec![2]);
    assert!(format!("{:?}", m).contains("Match"));
}
