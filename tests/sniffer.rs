use json_stat::parser::{parse_document, JsonValue};
use json_stat::profile::JsonType;
use json_stat::sniffer::JsonComplexTypeStats;

fn doc(text: &str) -> JsonValue {
    parse_document(text.to_string()).unwrap()
}

fn sorted(mut v: Vec<String>) -> Vec<String> {
    v.sort();
    v
}

fn has_type(stats: &JsonComplexTypeStats, t: JsonType) -> bool {
    stats.value_types().contains(&t)
}

#[test]
fn merging_objects_flags_recurring_keys() {
    let stats = JsonComplexTypeStats::from_json(doc("{\"a\":1}"));
    let stats = stats.merge_stats(doc("{\"a\":2,\"b\":3}"));
    assert!(stats.is_object_type());
    assert!(has_type(&stats, JsonType::NUMBER));
    let prims = stats.primitive_keys().unwrap();
    let a = prims.iter().find(|(k, _)| k == "a").unwrap();
    assert_eq!(a.1, vec![JsonType::NUMBER]);
    assert_eq!(stats.nonobligatory().unwrap(), &vec!["a".to_string()]);
    assert_eq!(stats.mandatory_keys(), vec!["b".to_string()]);
    assert_eq!(stats.number_literals(), &vec!["1".to_string(), "2".to_string(), "3".to_string()]);
}

#[test]
fn a_fresh_object_profile_has_no_nonobligatory_keys() {
    let stats = JsonComplexTypeStats::from_json(doc("{\"x\":\"s\",\"y\":[1],\"z\":null}"));
    assert!(stats.nonobligatory().unwrap().is_empty());
    assert_eq!(
        sorted(stats.mandatory_keys()),
        vec!["x".to_string(), "y".to_string(), "z".to_string()]
    );
    assert_eq!(stats.strings(), &vec!["s".to_string()]);
    let complex = stats.complex_keys().unwrap();
    assert_eq!(complex.len(), 1);
    assert_eq!(complex[0].0, "y");
    assert!(complex[0].1.is_array_type());
    assert_eq!(complex[0].1.number_literals(), &vec!["1".to_string()]);
}

#[test]
fn array_elements_are_profiled_by_shape() {
    let stats = JsonComplexTypeStats::from_json(doc("[1, \"s\", \"s\", [2, [3]], {\"k\": true}, [4]]"));
    assert!(stats.is_array_type());
    for t in [JsonType::NUMBER, JsonType::STRING, JsonType::ARRAY, JsonType::OBJECT] {
        assert!(has_type(&stats, t));
    }
    assert_eq!(stats.value_types().len(), 4);
    assert_eq!(stats.strings(), &vec!["s".to_string()]);
    assert_eq!(stats.number_literals(), &vec!["1".to_string()]);
    let arrays = stats.inner_arrays().unwrap();
    assert_eq!(arrays.number_literals(), &vec!["2".to_string(), "4".to_string()]);
    assert_eq!(arrays.inner_arrays().unwrap().number_literals(), &vec!["3".to_string()]);
    let objects = stats.inner_objects().unwrap();
    assert!(objects.is_object_type());
    assert!(has_type(objects, JsonType::TRUE));
    assert!(stats.primitive_keys().is_none());
    assert!(objects.inner_arrays().is_none());
}

#[test]
fn a_primitive_document_makes_an_array_profile() {
    let stats = JsonComplexTypeStats::from_json(doc("42"));
    assert!(stats.is_array_type());
    assert_eq!(stats.value_types(), &vec![JsonType::NUMBER]);
    assert_eq!(stats.number_literals(), &vec!["42".to_string()]);
    let stats = stats.merge_stats(doc("\"x\""));
    assert_eq!(stats.strings(), &vec!["x".to_string()]);
    assert!(has_type(&stats, JsonType::STRING));
}

#[test]
fn a_value_of_the_other_shape_is_only_noted_by_kind() {
    let stats = JsonComplexTypeStats::from_json(doc("[1]"));
    let stats = stats.merge_stats(doc("{\"a\": 2}"));
    assert!(stats.is_array_type());
    assert!(has_type(&stats, JsonType::OBJECT));
    assert_eq!(stats.number_literals(), &vec!["1".to_string()]);
    assert!(stats.inner_objects().is_none());
}

#[test]
fn nested_profiles_under_a_key_merge() {
    let stats = JsonComplexTypeStats::from_json(doc("{\"p\": {\"q\": 1}}"));
    let stats = stats.merge_stats(doc("{\"p\": {\"q\": 2, \"r\": 3}}"));
    assert_eq!(stats.nonobligatory().unwrap(), &vec!["p".to_string()]);
    assert!(stats.mandatory_keys().is_empty());
    let inner = &stats.complex_keys().unwrap()[0].1;
    assert_eq!(inner.nonobligatory().unwrap(), &vec!["q".to_string()]);
    assert_eq!(inner.mandatory_keys(), vec!["r".to_string()]);
}

#[test]
fn empty_profiles() {
    let array = JsonComplexTypeStats::array();
    assert!(array.is_array_type() && !array.is_object_type());
    assert!(array.value_types().is_empty() && array.inner_arrays().is_none());
    assert!(array.mandatory_keys().is_empty());
    let object = JsonComplexTypeStats::object();
    assert!(object.is_object_type() && !object.is_array_type());
    assert!(object.primitive_keys().unwrap().is_empty());
}

#[test]
fn from_object_and_from_array_profile_their_contents() {
    let stats = JsonComplexTypeStats::from_object(vec![
        ("n".to_string(), JsonValue::NUMBER("5".to_string())),
        ("f".to_string(), JsonValue::FALSE),
    ]);
    assert_eq!(stats.number_literals(), &vec!["5".to_string()]);
    assert!(has_type(&stats, JsonType::FALSE));
    let stats = JsonComplexTypeStats::from_array(vec![JsonValue::NULL, JsonValue::STRING("t".to_string())]);
    assert!(has_type(&stats, JsonType::NULL));
    assert_eq!(stats.strings(), &vec!["t".to_string()]);
}

#[test]
fn a_key_seen_before_with_another_kind_of_value_is_flagged() {
    let stats = JsonComplexTypeStats::from_json(doc("{\"a\": [1], \"c\": true}"));
    let stats = stats.merge_stats(doc("{\"a\": \"x\", \"b\": null}"));
    assert_eq!(stats.nonobligatory().unwrap(), &vec!["a".to_string()]);
    assert_eq!(
        sorted(stats.mandatory_keys()),
        vec!["b".to_string(), "c".to_string()]
    );
    let stats = stats.merge_stats(doc("{\"c\": false}"));
    assert_eq!(
        sorted(stats.nonobligatory().unwrap().clone()),
        vec!["a".to_string(), "c".to_string()]
    );
    assert_eq!(stats.mandatory_keys(), vec!["b".to_string()]);
}
