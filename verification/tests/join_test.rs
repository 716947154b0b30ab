use rustdb::dtype::DataType;
use rustdb::errors::RelationErrors;
use rustdb::interface::ColumnStoreRelation;

fn create_test_relation(name: &str, columns: Vec<(&str, Vec<DataType>)>) -> ColumnStoreRelation {
    let mut relation = ColumnStoreRelation::new();
    relation.name = name.to_string();
    for (col_name, data) in columns {
        relation.columns.insert(col_name.to_string(), data);
        relation.fields.insert(col_name.to_string(), DataType::String(String::new()));
        relation.select_columns.push(col_name.to_string());
    }
    relation
}

fn assert_relation_eq(rel1: &ColumnStoreRelation, rel2: &ColumnStoreRelation) {
    assert_eq!(rel1.fields, rel2.fields);
    assert_eq!(rel1.select_columns, rel2.select_columns);
    assert_eq!(rel1.columns.len(), rel2.columns.len());
    for i in 0..rel1.columns.len() {
        let key = rel1.columns.name_at(i);
        assert_eq!(rel1.columns.value_at(i), rel2.columns.get(key).unwrap());
    }
}

fn text(s: &str) -> DataType {
    DataType::String(s.to_string())
}

fn left_relation() -> ColumnStoreRelation {
    create_test_relation(
        "relation1",
        vec![
            ("id", vec![DataType::Int(1), DataType::Int(2), DataType::Int(3)]),
            ("value1", vec![text("A"), text("B"), text("C")]),
        ],
    )
}

fn right_relation() -> ColumnStoreRelation {
    create_test_relation(
        "relation2",
        vec![
            ("id", vec![DataType::Int(2), DataType::Int(3), DataType::Int(4)]),
            ("value2", vec![text("X"), text("Y"), text("Z")]),
        ],
    )
}

fn expected_join(name: &str) -> ColumnStoreRelation {
    create_test_relation(
        name,
        vec![
            ("id", vec![DataType::Int(2), DataType::Int(3)]),
            ("value1", vec![text("B"), text("C")]),
            ("value2", vec![text("X"), text("Y")]),
        ],
    )
}

#[test]
fn test_nested_loop_join() {
    let relation1 = left_relation();
    let relation2 = right_relation();
    let result_relation = relation1.nested_loop_join(&relation2, "id", "id", |a, b| a == b).unwrap();
    let expected_relation = expected_join("relation1_relation2_join");
    assert_relation_eq(&result_relation, &expected_relation);
}

#[test]
fn test_merge_join() {
    let relation1 = left_relation();
    let relation2 = right_relation();
    let result_relation = relation1.merge_join(&relation2, "id", "id", |a, b| a == b).unwrap();
    println!("{}", result_relation.render());
    let expected_relation = expected_join("relation1");
    assert_relation_eq(&result_relation, &expected_relation);
}

#[test]
fn test_hash_join() {
    let relation1 = left_relation();
    let relation2 = right_relation();
    let result_relation = relation1.hash_join(&relation2, "id", "id", |a, b| a == b).unwrap();
    let expected_relation = expected_join("relation1");
    assert_relation_eq(&result_relation, &expected_relation);
}

#[test]
fn join_names_the_result_after_both_relations() {
    let joined = left_relation().hash_join(&right_relation(), "id", "id", |a, b| a == b).unwrap();
    assert_eq!(joined.name, "relation1_relation2_join");
    assert_eq!(joined.indices.len(), 0);
}

#[test]
fn join_reports_the_missing_column() {
    let left = left_relation();
    let right = right_relation();
    match left.nested_loop_join(&right, "nope", "id", |a, b| a == b) {
        Err(RelationErrors::ColumnNotFound(name)) => assert_eq!(name, "nope"),
        other => panic!("unexpected {:?}", other.map(|r| r.name)),
    }
    match left.hash_join(&right, "id", "other", |a, b| a == b) {
        Err(RelationErrors::ColumnNotFound(name)) => assert_eq!(name, "other"),
        other => panic!("unexpected {:?}", other.map(|r| r.name)),
    }
    match left.merge_join(&right, "missing", "other", |a, b| a == b) {
        Err(RelationErrors::ColumnNotFound(name)) => assert_eq!(name, "missing"),
        other => panic!("unexpected {:?}", other.map(|r| r.name)),
    }
}

#[test]
fn merge_join_refuses_unsorted_input() {
    let left = create_test_relation(
        "l",
        vec![("id", vec![DataType::Int(2), DataType::Int(1)])],
    );
    let right = right_relation();
    assert!(matches!(
        left.merge_join(&right, "id", "id", |a, b| a == b),
        Err(RelationErrors::UnsortedInputError)
    ));
    assert!(matches!(
        right.merge_join(&left, "id", "id", |a, b| a == b),
        Err(RelationErrors::UnsortedInputError)
    ));
}

fn rows_of(rel: &ColumnStoreRelation, columns: &[&str]) -> Vec<Vec<DataType>> {
    let height = rel.columns.get(columns[0]).unwrap().len();
    let mut rows: Vec<Vec<DataType>> = Vec::new();
    for r in 0..height {
        let mut row = Vec::new();
        for c in columns {
            row.push(rel.columns.get(c).unwrap()[r].clone());
        }
        rows.push(row);
    }
    rows
}

fn same_rows(a: &Vec<Vec<DataType>>, b: &Vec<Vec<DataType>>) -> bool {
    if a.len() != b.len() {
        return false;
    }
    let mut used = vec![false; b.len()];
    for row in a {
        let mut found = false;
        for (i, other) in b.iter().enumerate() {
            if !used[i] && row == other {
                used[i] = true;
                found = true;
                break;
            }
        }
        if !found {
            return false;
        }
    }
    true
}

#[test]
fn the_three_joins_match_the_same_rows() {
    let left = create_test_relation(
        "l",
        vec![
            (
                "k",
                vec![
                    DataType::Int(1),
                    DataType::Int(2),
                    DataType::Int(2),
                    DataType::Int(5),
                    DataType::Int(7),
                ],
            ),
            ("a", vec![text("a0"), text("a1"), text("a2"), text("a3"), text("a4")]),
        ],
    );
    let right = create_test_relation(
        "r",
        vec![
            (
                "k",
                vec![
                    DataType::Int(0),
                    DataType::Int(2),
                    DataType::Int(2),
                    DataType::Int(2),
                    DataType::Int(7),
                    DataType::Int(9),
                ],
            ),
            ("b", vec![text("b0"), text("b1"), text("b2"), text("b3"), text("b4"), text("b5")]),
        ],
    );
    let nested = left.nested_loop_join(&right, "k", "k", |a, b| a == b).unwrap();
    let merged = left.merge_join(&right, "k", "k", |a, b| a == b).unwrap();
    let hashed = left.hash_join(&right, "k", "k", |a, b| a == b).unwrap();
    let columns = ["k", "a", "b"];
    let n = rows_of(&nested, &columns);
    assert_eq!(n.len(), 7);
    assert!(same_rows(&n, &rows_of(&merged, &columns)));
    assert!(same_rows(&n, &rows_of(&hashed, &columns)));
    assert_eq!(
        nested.columns.get("b").unwrap(),
        &vec![text("b1"), text("b2"), text("b3"), text("b1"), text("b2"), text("b3"), text("b4")]
    );
    assert_eq!(
        hashed.columns.get("a").unwrap(),
        &vec![text("a1"), text("a2"), text("a1"), text("a2"), text("a1"), text("a2"), text("a4")]
    );
}

#[test]
fn hash_join_asks_the_predicate_about_equal_values_only() {
    let left = left_relation();
    let right = right_relation();
    let nothing = left.hash_join(&right, "id", "id", |_, _| false).unwrap();
    assert_eq!(nothing.columns.get("id").unwrap().len(), 0);
    let all = left.hash_join(&right, "id", "id", |_, _| true).unwrap();
    assert_eq!(all.columns.get("id").unwrap(), &vec![DataType::Int(2), DataType::Int(3)]);
    let cross = left.nested_loop_join(&right, "id", "id", |_, _| true).unwrap();
    assert_eq!(cross.columns.get("id").unwrap().len(), 9);
}

#[test]
fn join_of_texts_and_doubles() {
    let left = create_test_relation(
        "l",
        vec![
            ("k", vec![text("ant"), text("bee"), DataType::Float(1.5f64.to_bits())]),
            ("n", vec![DataType::Int(1), DataType::Int(2), DataType::Int(3)]),
        ],
    );
    let right = create_test_relation(
        "r",
        vec![
            ("key", vec![text("bee"), DataType::Float(1.5f64.to_bits()), DataType::Float(2.5f64.to_bits())]),
            ("m", vec![DataType::Int(10), DataType::Int(20), DataType::Int(30)]),
        ],
    );
    for which in 0..3 {
        let joined = match which {
            0 => left.nested_loop_join(&right, "k", "key", |a, b| a == b),
            1 => left.merge_join(&right, "k", "key", |a, b| a == b),
            _ => left.hash_join(&right, "k", "key", |a, b| a == b),
        }
        .unwrap();
        assert_eq!(joined.select_columns, vec!["k", "n", "m"]);
        assert_eq!(joined.columns.get("n").unwrap(), &vec![DataType::Int(2), DataType::Int(3)]);
        assert_eq!(joined.columns.get("m").unwrap(), &vec![DataType::Int(10), DataType::Int(20)]);
        assert!(joined.columns.get("key").is_none());
    }
}

fn float(x: f64) -> DataType {
    DataType::Float(x.to_bits())
}

#[test]
fn a_column_with_both_zeros_is_joined_in_full_or_refused() {
    let right = create_test_relation("r", vec![("k", vec![float(0.0)])]);
    let mixed = create_test_relation(
        "l",
        vec![
            ("k", vec![float(0.0), float(-0.0), float(0.0)]),
            ("at", vec![DataType::Int(0), DataType::Int(1), DataType::Int(2)]),
        ],
    );
    let nested = mixed.nested_loop_join(&right, "k", "k", |a, b| a == b).unwrap();
    assert_eq!(nested.columns.get("at").unwrap(), &vec![DataType::Int(0), DataType::Int(2)]);
    let hashed = mixed.hash_join(&right, "k", "k", |a, b| a == b).unwrap();
    assert_eq!(hashed.columns.get("at").unwrap(), &vec![DataType::Int(0), DataType::Int(2)]);
    assert!(matches!(
        mixed.merge_join(&right, "k", "k", |a, b| a == b),
        Err(RelationErrors::UnsortedInputError)
    ));
    let sorted = create_test_relation(
        "l",
        vec![
            ("k", vec![float(-0.0), float(0.0), float(0.0)]),
            ("at", vec![DataType::Int(1), DataType::Int(0), DataType::Int(2)]),
        ],
    );
    let merged = sorted.merge_join(&right, "k", "k", |a, b| a == b).unwrap();
    assert_eq!(merged.columns.get("at").unwrap(), &vec![DataType::Int(0), DataType::Int(2)]);
    let nested = sorted.nested_loop_join(&right, "k", "k", |a, b| a == b).unwrap();
    assert_eq!(nested.columns.get("at").unwrap(), merged.columns.get("at").unwrap());
    let both = create_test_relation("r", vec![("k", vec![float(-0.0), float(-0.0), float(0.0)])]);
    let merged = sorted.merge_join(&both, "k", "k", |a, b| a == b).unwrap();
    let nested = sorted.nested_loop_join(&both, "k", "k", |a, b| a == b).unwrap();
    assert_eq!(merged.columns.get("at").unwrap().len(), 4);
    assert!(same_rows(&rows_of(&merged, &["k", "at"]), &rows_of(&nested, &["k", "at"])));
}

#[test]
fn a_sorted_column_is_one_that_merge_join_takes() {
    let mut left = create_test_relation(
        "l",
        vec![
            (
                "k",
                vec![
                    float(0.0),
                    float(f64::NAN),
                    float(-0.0),
                    float(1.5),
                    float(0.0),
                    float(f64::NEG_INFINITY),
                    float(-0.0),
                ],
            ),
            ("at", (0..7).map(DataType::Int).collect()),
        ],
    );
    let mut right = create_test_relation(
        "r",
        vec![("k", vec![float(f64::NAN), float(0.0), float(-0.0), float(2.0), float(0.0)])],
    );
    left.sort("k", rustdb::interface::Order::Asc).unwrap();
    right.sort("k", rustdb::interface::Order::Asc).unwrap();
    let merged = left.merge_join(&right, "k", "k", |a, b| a == b).unwrap();
    let nested = left.nested_loop_join(&right, "k", "k", |a, b| a == b).unwrap();
    let hashed = left.hash_join(&right, "k", "k", |a, b| a == b).unwrap();
    assert_eq!(nested.columns.get("k").unwrap().len(), 2 * 2 + 2 * 1 + 1);
    assert!(same_rows(&rows_of(&merged, &["k", "at"]), &rows_of(&nested, &["k", "at"])));
    assert!(same_rows(&rows_of(&hashed, &["k", "at"]), &rows_of(&nested, &["k", "at"])));
}

#[test]
fn a_column_that_is_not_shown_may_be_short() {
    let mut left = left_relation();
    left.columns.insert("aside".to_string(), vec![DataType::Int(9)]);
    let mut right = right_relation();
    right.columns.insert("spare".to_string(), vec![]);
    for which in 0..3 {
        let joined = match which {
            0 => left.nested_loop_join(&right, "id", "id", |a, b| a == b),
            1 => left.merge_join(&right, "id", "id", |a, b| a == b),
            _ => left.hash_join(&right, "id", "id", |a, b| a == b),
        }
        .unwrap();
        assert_relation_eq(&joined, &expected_join("j"));
        assert!(joined.columns.get("aside").is_none());
        assert!(joined.columns.get("spare").is_none());
    }
}
