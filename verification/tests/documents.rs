use cepler::coverage::Coverage;
use cepler::document::{Document, LeafValue};
use cepler::error::SchemaError;
use serde_yaml::{Mapping, Number, Value};

fn parse(text: &str) -> Value {
    serde_yaml::from_str(text).unwrap()
}

fn names(files: &[&str]) -> Vec<String> {
    files.iter().map(|f| f.to_string()).collect()
}

#[test]
fn from_yaml_reads_mappings_and_leaves() {
    let document = Document::from_yaml("f", parse("a: {b: 1}\nc: [x, {y: 2}]")).unwrap();
    match document {
        Document::Mapping(entries) => {
            assert_eq!(entries.len(), 2);
            assert_eq!(entries[0].0, "a");
            match &entries[0].1 {
                Document::Mapping(inner) => {
                    assert_eq!(inner.len(), 1);
                    assert_eq!(inner[0].0, "b");
                    match &inner[0].1 {
                        Document::Leaf(leaf) => assert_eq!(leaf.to_yaml(), parse("1")),
                        Document::Mapping(_) => panic!("a leaf was expected"),
                    }
                },
                Document::Leaf(_) => panic!("a mapping was expected"),
            }
            assert_eq!(entries[1].0, "c");
            match &entries[1].1 {
                Document::Leaf(leaf) => assert_eq!(leaf.to_yaml(), parse("[x, {y: 2}]")),
                Document::Mapping(_) => panic!("a leaf was expected"),
            }
        },
        Document::Leaf(_) => panic!("a mapping was expected"),
    }
}

#[test]
fn from_yaml_reads_a_scalar_as_a_leaf() {
    match Document::from_yaml("f", parse("true")).unwrap() {
        Document::Leaf(leaf) => assert_eq!(leaf.to_yaml(), Value::Bool(true)),
        Document::Mapping(_) => panic!("a leaf was expected"),
    }
}

#[test]
fn from_yaml_rejects_a_key_that_is_no_string() {
    let error = Document::from_yaml("bad.yml", parse("1: x")).err().unwrap();
    assert_eq!(error, SchemaError::MalformedKey { file: "bad.yml".to_string() });
    let error = Document::from_yaml("deep.yml", parse("a: {b: {[1, 2]: x}}")).err().unwrap();
    assert_eq!(error, SchemaError::MalformedKey { file: "deep.yml".to_string() });
    let error = Document::from_yaml("null.yml", parse("a: 1\n~: 2")).err().unwrap();
    assert_eq!(error, SchemaError::MalformedKey { file: "null.yml".to_string() });
}

#[test]
fn from_yaml_does_not_look_into_sequences() {
    let value = parse("a: [{1: x}]");
    let document = Document::from_yaml("f", value.clone()).unwrap();
    assert_eq!(document.to_yaml(), value);
}

#[test]
fn to_yaml_gives_back_what_from_yaml_read() {
    for text in [
        "a: {b: 1, c: 2}",
        "{}",
        "a: {}",
        "plain",
        "- 1\n- 2",
        "z: 1\ny: {x: [1, 2.5, .nan], w: ~}\nv: 'text'",
    ] {
        let value = parse(text);
        let document = Document::from_yaml("f", value.clone()).unwrap();
        assert_eq!(document.to_yaml(), value);
    }
}

#[test]
fn to_yaml_keeps_the_order_of_the_entries() {
    let document = Document::Mapping(vec![
        ("z".to_string(), Document::Leaf(LeafValue::new(parse("1")).unwrap())),
        ("a".to_string(), Document::Mapping(vec![])),
        ("m".to_string(), Document::Leaf(LeafValue::new(parse("text")).unwrap())),
    ]);
    let mut expected = Mapping::new();
    expected.insert(Value::String("z".to_string()), Value::Number(Number::from(1)));
    expected.insert(Value::String("a".to_string()), Value::Mapping(Mapping::new()));
    expected.insert(Value::String("m".to_string()), Value::String("text".to_string()));
    let value = document.to_yaml();
    assert_eq!(value, Value::Mapping(expected));
    let keys: Vec<&str> = value.as_mapping().unwrap().iter().map(|(k, _)| k.as_str().unwrap()).collect();
    assert_eq!(keys, vec!["z", "a", "m"]);
}

#[test]
fn leaf_value_is_never_a_mapping() {
    assert!(LeafValue::new(parse("a: 1")).is_none());
    assert!(LeafValue::new(parse("{}")).is_none());
    assert!(LeafValue::new(parse("[a, b]")).is_some());
    assert!(LeafValue::new(parse("~")).is_some());
    assert_eq!(LeafValue::new(parse("7")).unwrap().to_yaml(), parse("7"));
}

#[test]
fn leaf_values_compare_by_deep_equality() {
    let leaf = |text: &str| LeafValue::new(parse(text)).unwrap();
    assert!(leaf("1").equals(&leaf("1")));
    assert!(!leaf("1").equals(&leaf("2")));
    assert!(!leaf("1").equals(&leaf("'1'")));
    assert!(!leaf("1").equals(&leaf("1.0")));
    assert!(leaf("[1, {a: [2]}]").equals(&leaf("[1, {a: [2]}]")));
    assert!(!leaf("[1, {a: [2]}]").equals(&leaf("[1, {a: [3]}]")));
    assert!(leaf(".nan").equals(&leaf(".nan")));
    assert!(leaf("~").equals(&leaf("null")));
    let copy = leaf("[1, 2]").clone();
    assert!(copy.equals(&leaf("[1, 2]")));
    assert_eq!(copy.to_yaml(), parse("[1, 2]"));
}

#[test]
fn coverage_is_a_set() {
    let mut coverage = Coverage::new();
    assert_eq!(coverage.len(), 0);
    assert!(!coverage.contains(&"A".to_string()));
    coverage.insert(&"A".to_string());
    coverage.insert(&"B".to_string());
    coverage.insert(&"A".to_string());
    assert_eq!(coverage.len(), 2);
    assert!(coverage.contains(&"A".to_string()));
    assert!(coverage.contains(&"B".to_string()));
    assert!(!coverage.contains(&"C".to_string()));
    assert_eq!(coverage.files(), &names(&["A", "B"]));
}

#[test]
fn coverage_single_and_from_files() {
    let single = Coverage::single(&"A".to_string());
    assert_eq!(single.len(), 1);
    assert!(single.contains(&"A".to_string()));
    let several = Coverage::from_files(&names(&["B", "A", "B", "C", "A"]));
    assert_eq!(several.len(), 3);
    assert_eq!(several.files(), &names(&["B", "A", "C"]));
    assert_eq!(Coverage::from_files(&names(&[])).len(), 0);
}

#[test]
fn coverage_superset_and_equality() {
    let ab = Coverage::from_files(&names(&["A", "B"]));
    let ba = Coverage::from_files(&names(&["B", "A"]));
    let a = Coverage::from_files(&names(&["A"]));
    let c = Coverage::from_files(&names(&["C"]));
    let none = Coverage::new();
    assert!(ab.is_superset(&a));
    assert!(ab.is_superset(&ab));
    assert!(ab.is_superset(&ba));
    assert!(ab.is_superset(&none));
    assert!(!a.is_superset(&ab));
    assert!(!ab.is_superset(&c));
    assert!(none.is_superset(&none));
    assert!(ab.same_as(&ba));
    assert!(!ab.same_as(&a));
    assert!(!a.same_as(&ab));
    assert!(!a.same_as(&c));
    assert!(none.same_as(&Coverage::new()));
    let copy = ab.clone();
    assert!(copy.same_as(&ab));
    assert_eq!(copy.len(), 2);
}

#[test]
fn combinations_of_orders_by_size_and_first_occurrence() {
    let found = vec![
        Coverage::from_files(&names(&["A"])),
        Coverage::from_files(&names(&["B", "C"])),
        Coverage::from_files(&names(&["B"])),
        Coverage::from_files(&names(&["A"])),
        Coverage::from_files(&names(&["C", "B"])),
        Coverage::from_files(&names(&["A", "B", "C"])),
        Coverage::from_files(&names(&["A", "C"])),
    ];
    let combos = cepler::combos::combinations_of(&found);
    let expected = [
        names(&["A", "B", "C"]),
        names(&["B", "C"]),
        names(&["A", "C"]),
        names(&["A"]),
        names(&["B"]),
    ];
    assert_eq!(combos.len(), expected.len());
    for (combo, files) in combos.iter().zip(expected.iter()) {
        assert!(combo.same_as(&Coverage::from_files(files)));
    }
    assert_eq!(cepler::combos::combinations_of(&vec![]).len(), 0);
}
