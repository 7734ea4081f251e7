use cepler::coverage::Coverage;
use cepler::document::Document;
use cepler::error::SchemaError;
use cepler::tree::{Branch, MergeTree};
use serde_yaml::Value;

fn yaml(text: &str) -> Value {
    serde_yaml::from_str(text).unwrap()
}

fn document(file: &str, text: &str) -> Document {
    Document::from_yaml(file, yaml(text)).unwrap()
}

fn combo(files: &[&str]) -> Coverage {
    let names: Vec<String> = files.iter().map(|f| f.to_string()).collect();
    Coverage::from_files(&names)
}

fn two_files() -> MergeTree {
    let tree = MergeTree::new();
    let tree = tree.ingest("A", &document("A", "a: {b: 1, c: 2}")).unwrap();
    tree.ingest("B", &document("B", "a: {b: 1, c: 3}")).unwrap()
}

fn view(tree: &MergeTree, files: &[&str]) -> Option<Value> {
    tree.build_view(&combo(files)).map(|document| document.to_yaml())
}

fn child<'a>(branch: &'a Branch, key: &str) -> &'a cepler::tree::Intermediate {
    branch.children().iter().find(|c| c.key() == key).unwrap()
}

#[test]
fn round_trip_ingestion_merges_equal_leaves() {
    let tree = two_files();
    let a = child(tree.root(), "a");
    assert!(a.present_in().same_as(&combo(&["A", "B"])));
    let b = child(a.node(), "b");
    assert_eq!(b.node().values().len(), 1);
    assert_eq!(b.node().values()[0].leaf_value().to_yaml(), yaml("1"));
    assert!(b.node().values()[0].present_in().same_as(&combo(&["A", "B"])));
    let c = child(a.node(), "c");
    assert_eq!(c.node().values().len(), 2);
    assert_eq!(c.node().values()[0].leaf_value().to_yaml(), yaml("2"));
    assert!(c.node().values()[0].present_in().same_as(&combo(&["A"])));
    assert_eq!(c.node().values()[1].leaf_value().to_yaml(), yaml("3"));
    assert!(c.node().values()[1].present_in().same_as(&combo(&["B"])));
}

#[test]
fn round_trip_combinations_are_largest_first() {
    let tree = two_files();
    let combos = tree.combinations();
    assert_eq!(combos.len(), 3);
    assert!(combos[0].same_as(&combo(&["A", "B"])));
    assert!(combos[1].same_as(&combo(&["A"])));
    assert!(combos[2].same_as(&combo(&["B"])));
}

#[test]
fn round_trip_views() {
    let tree = two_files();
    assert_eq!(view(&tree, &["A", "B"]), Some(yaml("a: {b: 1}")));
    assert_eq!(view(&tree, &["A"]), Some(yaml("a: {c: 2}")));
    assert_eq!(view(&tree, &["B"]), Some(yaml("a: {c: 3}")));
}

#[test]
fn round_trip_views_in_order() {
    let tree = two_files();
    let views = tree.views();
    assert_eq!(views.len(), 3);
    assert!(views[0].0.same_as(&combo(&["A", "B"])));
    assert_eq!(views[0].1.to_yaml(), yaml("a: {b: 1}"));
    assert!(views[1].0.same_as(&combo(&["A"])));
    assert_eq!(views[1].1.to_yaml(), yaml("a: {c: 2}"));
    assert!(views[2].0.same_as(&combo(&["B"])));
    assert_eq!(views[2].1.to_yaml(), yaml("a: {c: 3}"));
}

#[test]
fn single_file_has_one_combination_and_its_view_is_the_document() {
    let text = "name: app\nsize: 8080\nlimits: {cpu: 1.5, tags: [x, y], on: true, none: null}\n";
    let tree = MergeTree::new().ingest("only.yml", &document("only.yml", text)).unwrap();
    let combos = tree.combinations();
    assert_eq!(combos.len(), 1);
    assert!(combos[0].same_as(&combo(&["only.yml"])));
    assert_eq!(combos[0].len(), 1);
    assert_eq!(view(&tree, &["only.yml"]), Some(yaml(text)));
    let rebuilt = tree.build_view(&combos[0]).unwrap().to_yaml();
    let keys: Vec<Value> = rebuilt.as_mapping().unwrap().iter().map(|(k, _)| k.clone()).collect();
    assert_eq!(keys, vec![yaml("name"), yaml("size"), yaml("limits")]);
}

#[test]
fn empty_mapping_contributes_no_combination() {
    let tree = MergeTree::new().ingest("A", &document("A", "a: {}")).unwrap();
    assert_eq!(tree.combinations().len(), 0);
    assert_eq!(view(&tree, &["A"]), None);
    assert!(child(tree.root(), "a").present_in().same_as(&combo(&["A"])));

    let tree = tree.ingest("B", &document("B", "a: {x: 1}")).unwrap();
    let combos = tree.combinations();
    assert_eq!(combos.len(), 1);
    assert!(combos[0].same_as(&combo(&["B"])));
    assert_eq!(view(&tree, &["B"]), Some(yaml("a: {x: 1}")));
    assert_eq!(view(&tree, &["A"]), None);
    assert_eq!(view(&tree, &["A", "B"]), None);
    assert!(child(tree.root(), "a").present_in().same_as(&combo(&["A", "B"])));
}

#[test]
fn empty_document_leaves_the_tree_empty() {
    let tree = MergeTree::new().ingest("A", &document("A", "{}")).unwrap();
    assert_eq!(tree.root().children().len(), 0);
    assert_eq!(tree.root().values().len(), 0);
    assert_eq!(tree.combinations().len(), 0);
    assert_eq!(tree.views().len(), 0);
}

#[test]
fn ingesting_the_same_document_twice_changes_nothing() {
    let once = MergeTree::new().ingest("A", &document("A", "a: {b: 1}\nc: [1, 2]")).unwrap();
    let twice = MergeTree::new()
        .ingest("A", &document("A", "a: {b: 1}\nc: [1, 2]"))
        .unwrap()
        .ingest("A", &document("A", "a: {b: 1}\nc: [1, 2]"))
        .unwrap();
    assert_eq!(twice.root().children().len(), once.root().children().len());
    let b = child(child(twice.root(), "a").node(), "b");
    assert_eq!(b.node().values().len(), 1);
    assert_eq!(b.node().values()[0].present_in().len(), 1);
    assert_eq!(b.node().values()[0].present_in().files(), &vec!["A".to_string()]);
    let c = child(twice.root(), "c");
    assert_eq!(c.node().values().len(), 1);
    assert_eq!(c.present_in().len(), 1);
    assert_eq!(twice.combinations().len(), 1);
    assert_eq!(view(&twice, &["A"]), view(&once, &["A"]));
}

#[test]
fn add_leaf_node_merges_equal_values() {
    let mut branch = Branch::new();
    let one = || cepler::document::LeafValue::new(yaml("1")).unwrap();
    let two = || cepler::document::LeafValue::new(yaml("2")).unwrap();
    assert_eq!(branch.add_leaf_node(&"A".to_string(), one()), Some(0));
    assert_eq!(branch.add_leaf_node(&"B".to_string(), two()), Some(1));
    assert_eq!(branch.add_leaf_node(&"B".to_string(), one()), None);
    assert_eq!(branch.add_leaf_node(&"B".to_string(), one()), None);
    assert_eq!(branch.values().len(), 2);
    assert!(branch.values()[0].present_in().same_as(&combo(&["A", "B"])));
    assert!(branch.values()[1].present_in().same_as(&combo(&["B"])));
}

#[test]
fn add_intermediate_node_finds_or_creates_the_child() {
    let mut branch = Branch::new();
    assert_eq!(branch.add_intermediate_node(&"A".to_string(), &"x".to_string()), 0);
    assert_eq!(branch.add_intermediate_node(&"A".to_string(), &"y".to_string()), 1);
    assert_eq!(branch.add_intermediate_node(&"B".to_string(), &"x".to_string()), 0);
    assert_eq!(branch.children().len(), 2);
    assert_eq!(branch.children()[0].key(), "x");
    assert!(branch.children()[0].present_in().same_as(&combo(&["A", "B"])));
    assert_eq!(branch.children()[1].key(), "y");
    assert!(branch.children()[1].present_in().same_as(&combo(&["A"])));
    assert_eq!(branch.children()[1].node().children().len(), 0);
    assert_eq!(branch.children()[1].node().values().len(), 0);
}

fn assert_covered(branch: &Branch, cover: &Coverage) {
    for leaf in branch.values() {
        assert!(leaf.present_in().len() > 0);
        assert!(cover.is_superset(leaf.present_in()));
    }
    for node in branch.children() {
        assert!(cover.is_superset(node.present_in()));
        assert_covered(node.node(), node.present_in());
        assert_covered(node.node(), cover);
    }
}

#[test]
fn coverage_of_a_node_encloses_the_coverage_of_its_leaves() {
    let tree = MergeTree::new()
        .ingest("A", &document("A", "a: {b: {c: 1, d: 2}, e: 3}"))
        .unwrap()
        .ingest("B", &document("B", "a: {b: {c: 1, d: 4}}\nf: 5"))
        .unwrap()
        .ingest("C", &document("C", "a: {e: 3}\nf: 6"))
        .unwrap();
    assert_covered(tree.root(), &combo(&["A", "B", "C"]));
    assert!(child(tree.root(), "a").present_in().same_as(&combo(&["A", "B", "C"])));
    let b = child(child(tree.root(), "a").node(), "b");
    assert!(b.present_in().same_as(&combo(&["A", "B"])));
}

fn leaf_coverages(branch: &Branch) -> Vec<Coverage> {
    let mut found = Vec::new();
    branch.leaf_coverages(&mut found);
    found
}

#[test]
fn every_leaf_coverage_is_a_combination_with_a_view() {
    let tree = MergeTree::new()
        .ingest("A", &document("A", "a: {b: {c: 1, d: 2}, e: 3}"))
        .unwrap()
        .ingest("B", &document("B", "a: {b: {c: 1, d: 4}}\nf: 5"))
        .unwrap()
        .ingest("C", &document("C", "a: {e: 3}\nf: 6"))
        .unwrap();
    let found = leaf_coverages(tree.root());
    assert_eq!(found.len(), 6);
    let combos = tree.combinations();
    for set in &found {
        assert_eq!(combos.iter().filter(|c| c.same_as(set)).count(), 1);
    }
    for c in &combos {
        assert!(found.iter().any(|set| set.same_as(c)));
        assert!(tree.build_view(c).is_some());
    }
    assert_eq!(combos.len(), 5);
    assert!(combos[0].same_as(&combo(&["A", "B"])));
    assert!(combos[1].same_as(&combo(&["A", "C"])));
    assert!(combos[2].same_as(&combo(&["A"])));
    assert!(combos[3].same_as(&combo(&["B"])));
    assert!(combos[4].same_as(&combo(&["C"])));
    assert_eq!(view(&tree, &["A", "B"]), Some(yaml("a: {b: {c: 1}}")));
    assert_eq!(view(&tree, &["A", "C"]), Some(yaml("a: {e: 3}")));
    assert_eq!(view(&tree, &["A"]), Some(yaml("a: {b: {d: 2}}")));
    assert_eq!(view(&tree, &["B"]), Some(yaml("a: {b: {d: 4}}\nf: 5")));
    assert_eq!(view(&tree, &["C"]), Some(yaml("f: 6")));
}

#[test]
fn leaf_coverages_walks_own_leaves_before_children() {
    let tree = two_files();
    let found = leaf_coverages(tree.root());
    assert_eq!(found.len(), 3);
    assert!(found[0].same_as(&combo(&["A", "B"])));
    assert!(found[1].same_as(&combo(&["A"])));
    assert!(found[2].same_as(&combo(&["B"])));
    let mut more = vec![combo(&["Z"])];
    child(tree.root(), "a").node().leaf_coverages(&mut more);
    assert_eq!(more.len(), 4);
    assert!(more[0].same_as(&combo(&["Z"])));
    assert!(more[1].same_as(&combo(&["A", "B"])));
}

#[test]
fn a_leaf_matches_its_exact_coverage_only() {
    let tree = two_files();
    let b = child(child(tree.root(), "a").node(), "b");
    let leaf = &b.node().values()[0];
    assert_eq!(leaf.build_combo(&combo(&["A", "B"])).map(|d| d.to_yaml()), Some(yaml("1")));
    assert_eq!(leaf.build_combo(&combo(&["B", "A"])).map(|d| d.to_yaml()), Some(yaml("1")));
    assert!(leaf.build_combo(&combo(&["A"])).is_none());
    assert!(leaf.build_combo(&combo(&["B"])).is_none());
    assert!(leaf.build_combo(&combo(&["A", "B", "C"])).is_none());
    assert!(leaf.build_combo(&combo(&[])).is_none());
    assert!(b.node().build_combo(&combo(&["A"])).is_none());
    assert!(b.node().build_combo(&combo(&["A", "B", "C"])).is_none());
}

#[test]
fn a_child_is_skipped_unless_its_coverage_encloses_the_combination() {
    let tree = MergeTree::new()
        .ingest("A", &document("A", "x: {p: 1}\ny: {q: 2}"))
        .unwrap()
        .ingest("B", &document("B", "y: {q: 2}"))
        .unwrap();
    assert_eq!(view(&tree, &["A"]), Some(yaml("x: {p: 1}")));
    assert_eq!(view(&tree, &["A", "B"]), Some(yaml("y: {q: 2}")));
    assert_eq!(view(&tree, &["B"]), None);
    assert_eq!(view(&tree, &["C"]), None);
    assert_eq!(view(&tree, &[]), None);
}

#[test]
fn a_top_level_scalar_is_a_leaf_of_the_root() {
    let tree = MergeTree::new().ingest("A", &document("A", "42")).unwrap();
    let tree = tree.ingest("B", &document("B", "42")).unwrap();
    let tree = tree.ingest("C", &document("C", "[1, 2]")).unwrap();
    assert_eq!(tree.root().values().len(), 2);
    let combos = tree.combinations();
    assert_eq!(combos.len(), 2);
    assert!(combos[0].same_as(&combo(&["A", "B"])));
    assert!(combos[1].same_as(&combo(&["C"])));
    assert_eq!(view(&tree, &["A", "B"]), Some(yaml("42")));
    assert_eq!(view(&tree, &["C"]), Some(yaml("[1, 2]")));
}

#[test]
fn combinations_of_one_size_keep_the_order_of_discovery() {
    let tree = MergeTree::new()
        .ingest("C", &document("C", "k: 3"))
        .unwrap()
        .ingest("A", &document("A", "k: 1"))
        .unwrap()
        .ingest("B", &document("B", "k: 2\nm: 0"))
        .unwrap()
        .ingest("A", &document("A", "m: 0"))
        .unwrap();
    let combos = tree.combinations();
    assert_eq!(combos.len(), 4);
    assert!(combos[0].same_as(&combo(&["A", "B"])));
    assert!(combos[1].same_as(&combo(&["C"])));
    assert!(combos[2].same_as(&combo(&["A"])));
    assert!(combos[3].same_as(&combo(&["B"])));
}

#[test]
fn equal_coverage_sets_collapse_to_one_combination() {
    let tree = MergeTree::new()
        .ingest("A", &document("A", "p: 1\nq: 2\nr: 3"))
        .unwrap()
        .ingest("B", &document("B", "q: 5"))
        .unwrap()
        .ingest("A", &document("A", "s: 4"))
        .unwrap();
    let combos = tree.combinations();
    assert_eq!(combos.len(), 2);
    assert!(combos[0].same_as(&combo(&["A"])));
    assert!(combos[1].same_as(&combo(&["B"])));
    assert_eq!(view(&tree, &["A"]), Some(yaml("p: 1\nq: 2\nr: 3\ns: 4")));
}

#[test]
fn a_leaf_where_a_mapping_was_is_a_type_conflict() {
    let tree = MergeTree::new().ingest("A", &document("A", "a: {b: {c: 1}}")).unwrap();
    let error = tree.ingest("B", &document("B", "a: {b: 7}")).err().unwrap();
    assert_eq!(
        error,
        SchemaError::TypeConflict {
            file: "B".to_string(),
            path: vec!["a".to_string(), "b".to_string()],
        }
    );
}

#[test]
fn a_mapping_where_a_leaf_was_is_a_type_conflict() {
    let tree = MergeTree::new().ingest("A", &document("A", "x: 0\na: {b: 7}")).unwrap();
    let error = tree.ingest("B", &document("B", "x: 0\na: {b: {c: 1}}")).err().unwrap();
    assert_eq!(
        error,
        SchemaError::TypeConflict {
            file: "B".to_string(),
            path: vec!["a".to_string(), "b".to_string()],
        }
    );
}

#[test]
fn a_type_conflict_at_the_root_has_the_empty_path() {
    let tree = MergeTree::new().ingest("A", &document("A", "a: 1")).unwrap();
    let error = tree.ingest("B", &document("B", "just text")).err().unwrap();
    assert_eq!(error, SchemaError::TypeConflict { file: "B".to_string(), path: vec![] });

    let tree = MergeTree::new().ingest("A", &document("A", "just text")).unwrap();
    let error = tree.ingest("B", &document("B", "a: 1")).err().unwrap();
    assert_eq!(error, SchemaError::TypeConflict { file: "B".to_string(), path: vec![] });
}

#[test]
fn an_empty_mapping_conflicts_with_nothing() {
    let tree = MergeTree::new().ingest("A", &document("A", "a: 1")).unwrap();
    let tree = tree.ingest("B", &document("B", "a: {}")).unwrap();
    let tree = tree.ingest("C", &document("C", "{}")).unwrap();
    assert_eq!(view(&tree, &["A"]), Some(yaml("a: 1")));
    assert!(child(tree.root(), "a").present_in().same_as(&combo(&["A", "B"])));

    let tree = MergeTree::new().ingest("A", &document("A", "a: {}")).unwrap();
    let tree = tree.ingest("B", &document("B", "a: 1")).unwrap();
    assert_eq!(view(&tree, &["B"]), Some(yaml("a: 1")));
}

#[test]
fn collect_ingests_below_each_key() {
    let mut branch = Branch::new();
    let file = "A".to_string();
    assert_eq!(branch.collect(&file, &document("A", "a: {b: 1}\nc: 2")), Ok(()));
    assert_eq!(branch.collect(&file, &document("A", "a: {d: 3}")), Ok(()));
    assert_eq!(branch.children().len(), 2);
    let a = child(&branch, "a");
    assert_eq!(a.node().children().len(), 2);
    assert_eq!(child(a.node(), "b").node().values()[0].leaf_value().to_yaml(), yaml("1"));
    assert_eq!(child(a.node(), "d").node().values()[0].leaf_value().to_yaml(), yaml("3"));
    assert_eq!(child(&branch, "c").node().values()[0].leaf_value().to_yaml(), yaml("2"));
}

#[test]
fn collect_stops_at_the_first_conflict() {
    let mut branch = Branch::new();
    assert_eq!(branch.collect(&"A".to_string(), &document("A", "a: 1")), Ok(()));
    let rejected = document("B", "b: 2\na: {c: 3}\nd: 4");
    assert_eq!(branch.collect(&"B".to_string(), &rejected), Err(vec!["a".to_string()]));
    assert_eq!(branch.children().len(), 2);
    let a = child(&branch, "a");
    assert!(a.present_in().same_as(&combo(&["A", "B"])));
    assert_eq!(a.node().children().len(), 0);
    assert_eq!(a.node().values().len(), 1);
    assert!(a.node().values()[0].present_in().same_as(&combo(&["A"])));
    let b = child(&branch, "b");
    assert!(b.present_in().same_as(&combo(&["B"])));
    assert_eq!(b.node().values()[0].leaf_value().to_yaml(), yaml("2"));
    assert!(branch.children().iter().all(|c| c.key() != "d"));
}
