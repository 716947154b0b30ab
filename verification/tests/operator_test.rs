use rustdb::dtype::DataType;
use rustdb::errors::RelationErrors;
use rustdb::interface::{Aggregation, ColumnStoreRelation, Order, Relation};

fn parse_float(s: &str) -> Option<u64> {
    s.parse::<f64>().ok().map(f64::to_bits)
}

fn plus(a: u64, b: u64) -> u64 {
    (f64::from_bits(a) + f64::from_bits(b)).to_bits()
}

fn divide(a: u64, n: usize) -> u64 {
    (f64::from_bits(a) / n as f64).to_bits()
}

fn float(x: f64) -> DataType {
    DataType::Float(x.to_bits())
}

fn text(s: &str) -> DataType {
    DataType::String(s.to_string())
}

fn generate_random_data() -> (Vec<DataType>, Vec<DataType>, Vec<DataType>) {
    let ids: Vec<DataType> = (1..=100).map(DataType::Int).collect();
    let names: Vec<DataType> = (0..100)
        .map(|i| {
            let name = format!("name{}", i);
            DataType::String(name)
        })
        .collect();
    let ages: Vec<DataType> = (0..100).map(|i| DataType::Int(18 + (i % 52))).collect();
    (ids, names, ages)
}

fn people() -> ColumnStoreRelation {
    let mut relation = ColumnStoreRelation::new();
    relation.columns.insert(
        "id".to_string(),
        vec![DataType::Int(1), DataType::Int(2), DataType::Int(3), DataType::Int(4)],
    );
    relation.columns.insert(
        "name".to_string(),
        vec![text("Alice"), text("Bob"), text("Charlie"), text("David")],
    );
    relation.columns.insert(
        "age".to_string(),
        vec![DataType::Int(30), DataType::Int(25), DataType::Int(35), DataType::Int(40)],
    );
    relation
}

#[test]
fn test_select() {
    let mut relation = people();
    let predicate = |datum: &DataType| {
        if let DataType::Int(age) = datum {
            *age > 30
        } else {
            false
        }
    };
    let result = relation.select("age", predicate);
    assert!(result.is_ok());
    let selected_relation = result.unwrap();
    assert_eq!(
        selected_relation.get_columns().get("id").unwrap(),
        &vec![DataType::Int(3), DataType::Int(4)]
    );
    assert_eq!(
        selected_relation.get_columns().get("name").unwrap(),
        &vec![text("Charlie"), text("David")]
    );
    assert_eq!(
        selected_relation.get_columns().get("age").unwrap(),
        &vec![DataType::Int(35), DataType::Int(40)]
    );
}

#[test]
fn test_select_with_random_data() {
    let (ids, names, ages) = generate_random_data();
    let mut relation = ColumnStoreRelation::new();
    relation.columns.insert("id".to_string(), ids);
    relation.columns.insert("name".to_string(), names);
    relation.columns.insert("age".to_string(), ages);
    let predicate = |datum: &DataType| {
        if let DataType::Int(age) = datum {
            *age > 30
        } else {
            false
        }
    };
    let result = relation.select("age", predicate);
    assert!(result.is_ok());
    let selected_relation = result.unwrap();
    let selected_ages = selected_relation.get_columns().get("age").unwrap();
    for age in selected_ages {
        if let DataType::Int(age_value) = age {
            assert!(*age_value > 30);
        } else {
            panic!("Non-integer value found in age column");
        }
    }
    let selected_ids = selected_relation.get_columns().get("id").unwrap();
    let selected_names = selected_relation.get_columns().get("name").unwrap();
    assert_eq!(selected_ids.len(), selected_names.len());
    assert_eq!(selected_ids.len(), selected_ages.len());
}

#[test]
fn test_project() {
    let mut relation = people();
    relation.select_columns = vec!["id".to_string(), "name".to_string(), "age".to_string()];
    let columns_to_keep = vec!["id", "name"];
    let result = relation.project(columns_to_keep);
    assert!(result.is_ok());
    let projected_relation = result.unwrap();
    let expected_ids = vec![DataType::Int(1), DataType::Int(2), DataType::Int(3), DataType::Int(4)];
    let expected_names = vec![text("Alice"), text("Bob"), text("Charlie"), text("David")];
    assert_eq!(projected_relation.get_columns().get("id").unwrap(), &expected_ids);
    assert_eq!(projected_relation.get_columns().get("name").unwrap(), &expected_names);
    assert!(projected_relation.get_columns().get("age").is_none());
    assert_eq!(
        projected_relation.get_select_columns(),
        &vec!["id".to_string(), "name".to_string()]
    );
}

fn unsorted_people() -> ColumnStoreRelation {
    let mut relation = ColumnStoreRelation::new();
    relation.columns.insert(
        "id".to_string(),
        vec![DataType::Int(4), DataType::Int(2), DataType::Int(3), DataType::Int(1)],
    );
    relation.columns.insert(
        "name".to_string(),
        vec![text("David"), text("Bob"), text("Charlie"), text("Alice")],
    );
    relation.columns.insert(
        "age".to_string(),
        vec![DataType::Int(40), DataType::Int(25), DataType::Int(35), DataType::Int(30)],
    );
    relation.select_columns = vec!["id".to_string(), "name".to_string(), "age".to_string()];
    relation
}

#[test]
fn test_sort_ascending() {
    let mut relation = unsorted_people();
    let result = relation.sort("id", Order::Asc);
    assert!(result.is_ok());
    let expected_ids = vec![DataType::Int(1), DataType::Int(2), DataType::Int(3), DataType::Int(4)];
    let expected_names = vec![text("Alice"), text("Bob"), text("Charlie"), text("David")];
    let expected_ages = vec![DataType::Int(30), DataType::Int(25), DataType::Int(35), DataType::Int(40)];
    assert_eq!(relation.get_columns().get("id").unwrap(), &expected_ids);
    assert_eq!(relation.get_columns().get("name").unwrap(), &expected_names);
    assert_eq!(relation.get_columns().get("age").unwrap(), &expected_ages);
}

#[test]
fn test_sort_descending() {
    let mut relation = unsorted_people();
    let result = relation.sort("id", Order::Desc);
    assert!(result.is_ok());
    let expected_ids = vec![DataType::Int(4), DataType::Int(3), DataType::Int(2), DataType::Int(1)];
    let expected_names = vec![text("David"), text("Charlie"), text("Bob"), text("Alice")];
    let expected_ages = vec![DataType::Int(40), DataType::Int(35), DataType::Int(25), DataType::Int(30)];
    assert_eq!(relation.get_columns().get("id").unwrap(), &expected_ids);
    assert_eq!(relation.get_columns().get("name").unwrap(), &expected_names);
    assert_eq!(relation.get_columns().get("age").unwrap(), &expected_ages);
}

fn ages() -> ColumnStoreRelation {
    let mut relation = ColumnStoreRelation::new();
    relation.columns.insert(
        "age".to_string(),
        vec![DataType::Int(30), DataType::Int(25), DataType::Int(35), DataType::Int(40)],
    );
    relation
}

#[test]
fn test_aggr_count() {
    let relation = ages();
    let result = relation.aggr("age", Aggregation::Count, plus, divide);
    assert!(result.is_ok());
    assert_eq!(result.unwrap(), DataType::Int(4));
}

#[test]
fn test_aggr_sum() {
    let relation = ages();
    let result = relation.aggr("age", Aggregation::Sum, plus, divide);
    assert!(result.is_ok());
    assert_eq!(result.unwrap(), float(130.0));
}

#[test]
fn test_aggr_min() {
    let relation = ages();
    let result = relation.aggr("age", Aggregation::Min, plus, divide);
    assert!(result.is_ok());
    assert_eq!(result.unwrap(), float(25.0));
}

#[test]
fn test_aggr_max() {
    let relation = ages();
    let result = relation.aggr("age", Aggregation::Max, plus, divide);
    assert!(result.is_ok());
    assert_eq!(result.unwrap(), float(40.0));
}

#[test]
fn test_aggr_average() {
    let relation = ages();
    let result = relation.aggr("age", Aggregation::Average, plus, divide);
    assert!(result.is_ok());
    assert_eq!(result.unwrap(), float(32.5));
}

fn indexed_pairs() -> ColumnStoreRelation {
    let mut relation = ColumnStoreRelation::new();
    relation.columns.insert(
        "column1".to_string(),
        vec![DataType::Int(1), DataType::Int(2), DataType::Int(2), DataType::Int(3)],
    );
    relation.columns.insert(
        "column2".to_string(),
        vec![text("a"), text("b"), text("b"), text("c")],
    );
    relation.select_columns = vec!["column1".to_string(), "column2".to_string()];
    relation
}

#[test]
fn test_create_index() {
    let mut relation = indexed_pairs();
    relation.create_index("column1").expect("Failed to create index on column1");
    let index = relation.indices.get("column1").expect("Index not found");
    assert_eq!(index.get("1").unwrap(), &vec![0]);
    assert_eq!(index.get("2").unwrap(), &vec![1, 2]);
    assert_eq!(index.get("3").unwrap(), &vec![3]);
}

#[test]
fn test_index_select() {
    let mut relation = indexed_pairs();
    relation.create_index("column1").expect("Failed to create index on column1");
    let result = relation
        .index_select(
            "column1",
            |d| {
                if let DataType::Int(val) = d {
                    *val == 2
                } else {
                    false
                }
            },
            parse_float,
        )
        .expect("Failed to select using index");
    assert_eq!(result.columns.get("column1").unwrap(), &vec![DataType::Int(2), DataType::Int(2)]);
    assert_eq!(result.columns.get("column2").unwrap(), &vec![text("b"), text("b")]);
}

#[test]
fn select_of_ids_above_one() {
    let mut relation = ColumnStoreRelation::new();
    relation.columns.insert(
        "id".to_string(),
        vec![DataType::Int(1), DataType::Int(2), DataType::Int(3)],
    );
    relation.columns.insert("name".to_string(), vec![text("A"), text("B"), text("C")]);
    let out = relation.select("id", |v| matches!(v, DataType::Int(i) if *i > 1)).unwrap();
    assert_eq!(out.columns.get("id").unwrap(), &vec![DataType::Int(2), DataType::Int(3)]);
    assert_eq!(out.columns.get("name").unwrap(), &vec![text("B"), text("C")]);
}

#[test]
fn selecting_twice_is_selecting_once() {
    let mut relation = people();
    relation.select_columns = vec!["name".to_string()];
    relation.fields.insert("name".to_string(), text(""));
    relation.create_index("age").unwrap();
    relation.create_index("name").unwrap();
    let predicate = |v: &DataType| matches!(v, DataType::Int(a) if *a >= 30);
    let mut once = relation.select("age", predicate).unwrap();
    let twice = once.select("age", predicate).unwrap();
    assert_eq!(once.columns, twice.columns);
    assert_eq!(once.indices, twice.indices);
    assert_eq!(once.fields, twice.fields);
    assert_eq!(once.select_columns, twice.select_columns);
    assert_eq!(once.name, twice.name);
    assert_eq!(once.indices.get("age").unwrap().get("35").unwrap(), &vec![1]);
    assert_eq!(once.indices.get("age").unwrap().get("40").unwrap(), &vec![2]);
    assert!(once.indices.get("age").unwrap().get("25").is_none());
    assert_eq!(once.indices.get("name").unwrap().get("Alice").unwrap(), &vec![0]);
}

#[test]
fn rows_stay_whole() {
    let n = 60;
    let mut relation = ColumnStoreRelation::new();
    relation.columns.insert("rowid".to_string(), (0..n).map(DataType::Int).collect());
    relation.columns.insert("key".to_string(), (0..n).map(|i| DataType::Int((i * 37) % 11)).collect());
    relation.columns.insert(
        "tag".to_string(),
        (0..n).map(|i| text(&format!("t{}", (i * 37) % 11))).collect(),
    );
    let check = |rel: &ColumnStoreRelation| {
        let ids = rel.columns.get("rowid").unwrap();
        let keys = rel.columns.get("key").unwrap();
        let tags = rel.columns.get("tag").unwrap();
        assert_eq!(ids.len(), keys.len());
        assert_eq!(ids.len(), tags.len());
        for r in 0..ids.len() {
            let id = match ids[r] {
                DataType::Int(i) => i,
                _ => panic!("row id lost"),
            };
            assert_eq!(keys[r], DataType::Int((id * 37) % 11));
            assert_eq!(tags[r], text(&format!("t{}", (id * 37) % 11)));
        }
    };
    relation.sort("key", Order::Desc).unwrap();
    check(&relation);
    let keys = relation.columns.get("key").unwrap().clone();
    for r in 1..keys.len() {
        assert!(!keys[r - 1].before(&keys[r]));
    }
    let ids = relation.columns.get("rowid").unwrap().clone();
    for r in 1..keys.len() {
        if keys[r - 1] == keys[r] {
            assert!(ids[r - 1].before(&ids[r]));
        }
    }
    let mut kept = relation.select("key", |v| matches!(v, DataType::Int(k) if k % 2 == 0)).unwrap();
    check(&kept);
    let deleted = kept.delete_tuple("tag", |v| matches!(v, DataType::String(s) if s == "t4")).unwrap();
    assert!(deleted > 0);
    check(&kept);
    kept.sort("tag", Order::Asc).unwrap();
    check(&kept);
}

#[test]
fn index_select_finds_what_select_finds() {
    let mut relation = ColumnStoreRelation::new();
    relation.columns.insert(
        "n".to_string(),
        vec![
            DataType::Int(5),
            DataType::Int(-3),
            DataType::Int(5),
            DataType::Int(0),
            DataType::Int(i32::MIN),
            DataType::Int(12),
            DataType::Int(-3),
        ],
    );
    relation.columns.insert(
        "w".to_string(),
        vec![text("e"), text("b"), text("e"), text("a"), text("zz"), text("k"), text("b")],
    );
    relation.create_index("n").unwrap();
    relation.create_index("w").unwrap();
    let by_number = |v: &DataType| matches!(v, DataType::Int(i) if *i < 5);
    let looked_up = relation.index_select("n", by_number, parse_float).unwrap();
    let selected = relation.select("n", by_number).unwrap();
    assert_eq!(looked_up.columns, selected.columns);
    assert_eq!(looked_up.columns.get("n").unwrap().len(), 4);
    let by_word = |v: &DataType| matches!(v, DataType::String(s) if s.as_str() >= "e");
    let looked_up = relation.index_select("w", by_word, parse_float).unwrap();
    let selected = relation.select("w", by_word).unwrap();
    assert_eq!(looked_up.columns, selected.columns);
    assert_eq!(looked_up.indices.len(), 0);
    match relation.index_select("nope", by_word, parse_float) {
        Err(RelationErrors::ColumnNotFound(name)) => assert_eq!(name, "nope"),
        other => panic!("unexpected {:?}", other.map(|r| r.name)),
    }
}

#[test]
fn an_index_keeps_its_keys_in_order() {
    let mut relation = ColumnStoreRelation::new();
    relation.columns.insert(
        "v".to_string(),
        vec![float(2.5), text("b"), DataType::Int(10), float(2.5), DataType::Int(9), text("a")],
    );
    relation.create_index("v").unwrap();
    let index = relation.indices.get("v").unwrap();
    let keys: Vec<&str> = (0..index.len()).map(|i| index.name_at(i)).collect();
    assert_eq!(keys, vec!["10", "2.500000", "9", "a", "b"]);
    assert_eq!(index.get("2.500000").unwrap(), &vec![0, 3]);
    match relation.create_index("gone") {
        Err(RelationErrors::ColumnNotFound(name)) => assert_eq!(name, "gone"),
        other => panic!("unexpected {:?}", other),
    }
    relation.columns.insert("v".to_string(), vec![DataType::Int(1)]);
    relation.create_index("v").unwrap();
    assert_eq!(relation.indices.get("v").unwrap().len(), 1);
}

#[test]
fn sort_is_stable_and_takes_other_kinds_as_ties() {
    let mut relation = ColumnStoreRelation::new();
    relation.columns.insert(
        "k".to_string(),
        vec![DataType::Int(2), DataType::Int(1), DataType::Int(2), DataType::Int(1)],
    );
    relation.columns.insert("p".to_string(), vec![text("a"), text("b"), text("c"), text("d")]);
    relation.sort("k", Order::Desc).unwrap();
    assert_eq!(relation.columns.get("p").unwrap(), &vec![text("a"), text("c"), text("b"), text("d")]);
    relation.sort("p", Order::Asc).unwrap();
    assert_eq!(
        relation.columns.get("k").unwrap(),
        &vec![DataType::Int(2), DataType::Int(1), DataType::Int(2), DataType::Int(1)]
    );
    let mut floats = ColumnStoreRelation::new();
    floats.columns.insert(
        "f".to_string(),
        vec![float(1.5), float(-0.0), float(f64::NEG_INFINITY), float(0.0), float(-2.0)],
    );
    floats.sort("f", Order::Asc).unwrap();
    assert_eq!(
        floats.columns.get("f").unwrap(),
        &vec![float(f64::NEG_INFINITY), float(-2.0), float(-0.0), float(0.0), float(1.5)]
    );
    let mut zeros = ColumnStoreRelation::new();
    zeros.columns.insert(
        "f".to_string(),
        vec![float(0.0), float(f64::NAN), float(-0.0), float(0.0), float(f64::INFINITY), float(-0.0)],
    );
    zeros.columns.insert("at".to_string(), (0..6).map(DataType::Int).collect());
    zeros.sort("f", Order::Asc).unwrap();
    assert_eq!(
        zeros.columns.get("f").unwrap(),
        &vec![float(-0.0), float(-0.0), float(0.0), float(0.0), float(f64::INFINITY), float(f64::NAN)]
    );
    assert_eq!(
        zeros.columns.get("at").unwrap(),
        &vec![
            DataType::Int(2),
            DataType::Int(5),
            DataType::Int(0),
            DataType::Int(3),
            DataType::Int(4),
            DataType::Int(1)
        ]
    );
    match floats.sort("x", Order::Asc) {
        Err(RelationErrors::ColumnNotFound(name)) => assert_eq!(name, "x"),
        other => panic!("unexpected {:?}", other),
    }
}

#[test]
fn project_fails_as_a_whole() {
    let relation = people();
    match relation.project(vec!["id", "nope", "gone"]) {
        Err(RelationErrors::ColumnNotFound(name)) => assert_eq!(name, "nope"),
        other => panic!("unexpected {:?}", other.map(|r| r.name)),
    }
    let mut relation = people();
    match relation.select("nope", |_| true) {
        Err(RelationErrors::ColumnNotFound(name)) => assert_eq!(name, "nope"),
        other => panic!("unexpected {:?}", other.map(|r| r.name)),
    }
}

#[test]
fn scan_cuts_each_column_down_on_its_own() {
    let mut relation = people();
    let out = relation.scan(vec!["age", "name", "id"], |v| matches!(v, DataType::Int(i) if *i > 3)).unwrap();
    assert_eq!(out.select_columns, vec!["age", "name", "id"]);
    assert_eq!(out.columns.get("id").unwrap(), &vec![DataType::Int(4)]);
    assert_eq!(out.columns.get("age").unwrap().len(), 4);
    assert!(out.columns.get("name").is_none());
    match relation.scan(vec!["age", "nope"], |_| true) {
        Err(RelationErrors::ColumnNotFound(name)) => assert_eq!(name, "nope"),
        other => panic!("unexpected {:?}", other.map(|r| r.name)),
    }
}

#[test]
fn aggregates_go_over_the_numeric_values() {
    let mut relation = ColumnStoreRelation::new();
    relation.columns.insert(
        "mixed".to_string(),
        vec![text("x"), DataType::Int(-4), float(2.5), text("y"), float(f64::NAN), DataType::Int(7)],
    );
    relation.columns.insert("words".to_string(), vec![text("x"), text("y")]);
    relation.columns.insert("none".to_string(), vec![]);
    assert_eq!(relation.aggr("mixed", Aggregation::Count, plus, divide).unwrap(), DataType::Int(6));
    assert_eq!(relation.aggr("mixed", Aggregation::Min, plus, divide).unwrap(), float(-4.0));
    assert_eq!(relation.aggr("mixed", Aggregation::Max, plus, divide).unwrap(), float(7.0));
    assert_eq!(relation.aggr("words", Aggregation::Count, plus, divide).unwrap(), DataType::Int(2));
    assert_eq!(relation.aggr("none", Aggregation::Count, plus, divide).unwrap(), DataType::Int(0));
    for kind in [Aggregation::Sum, Aggregation::Min, Aggregation::Max, Aggregation::Average] {
        assert!(matches!(
            relation.aggr("words", kind, plus, divide),
            Err(RelationErrors::AggregationError(_))
        ));
        assert!(matches!(
            relation.aggr("none", kind, plus, divide),
            Err(RelationErrors::AggregationError(_))
        ));
        match relation.aggr("gone", kind, plus, divide) {
            Err(RelationErrors::ColumnNotFound(name)) => assert_eq!(name, "gone"),
            other => panic!("unexpected {:?}", other),
        }
    }
    let mut numbers = ColumnStoreRelation::new();
    numbers.columns.insert(
        "n".to_string(),
        vec![float(0.1), DataType::Int(2), text("skip"), float(0.2)],
    );
    assert_eq!(numbers.aggr("n", Aggregation::Sum, plus, divide).unwrap(), float(((0.0 + 0.1) + 2.0) + 0.2));
    assert_eq!(
        numbers.aggr("n", Aggregation::Average, plus, divide).unwrap(),
        float((((0.0 + 0.1) + 2.0) + 0.2) / 3.0)
    );
}

fn rows_through<R: Relation>(relation: &R) -> usize {
    relation.num_tuples().unwrap()
}

#[test]
fn a_column_store_is_a_relation() {
    let mut relation = people();
    assert_eq!(rows_through(&relation), 4);
    assert_eq!(Relation::get_table_name(&relation), "");
    let kept = Relation::select(&mut relation, "id", |v| matches!(v, DataType::Int(i) if *i != 2)).unwrap();
    assert_eq!(Relation::num_tuples(&kept).unwrap(), 3);
    assert_eq!(
        Relation::aggr(&kept, "age", Aggregation::Min, plus, divide).unwrap(),
        float(30.0)
    );
    assert!(Relation::pretty_print(&kept).starts_with("┌"));
}

#[test]
fn values_stand_in_one_order() {
    assert!(text("z") < DataType::Int(i32::MIN));
    assert!(DataType::Int(i32::MAX) < float(f64::NEG_INFINITY));
    assert!(DataType::Int(3) < DataType::Int(4));
    assert!(text("ab") < text("b"));
    assert!(float(-1.0) < float(0.5));
    assert!(float(1.0) >= float(1.0));
    assert!(float(f64::NAN) > float(f64::INFINITY));
    assert!(float(-f64::NAN) < float(f64::NEG_INFINITY));
    assert_eq!(float(f64::NAN).partial_cmp(&float(1.0)), Some(std::cmp::Ordering::Greater));
    assert_eq!(float(-0.0).partial_cmp(&float(0.0)), Some(std::cmp::Ordering::Less));
    assert_eq!(float(0.0).partial_cmp(&float(-0.0)), Some(std::cmp::Ordering::Greater));
    assert_eq!(DataType::Int(1).partial_cmp(&DataType::Int(1)), Some(std::cmp::Ordering::Equal));
}
