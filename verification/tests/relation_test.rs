use rustdb::dtype::{deserialize_data_types, serialize_data_types, DataType};
use rustdb::errors::RelationErrors;
use rustdb::interface::ColumnStoreRelation;
use rustdb::textmap::TextMap;

const TEST_CSV: &str = "Number,Name,Grade\n0,Name1,1.5\n1,Name2,2.5\n3,Name3,3.33\n";

fn parse_float(s: &str) -> Option<u64> {
    s.parse::<f64>().ok().map(f64::to_bits)
}

fn float(x: f64) -> DataType {
    DataType::Float(x.to_bits())
}

fn check_loaded(tbl: &ColumnStoreRelation, tbl_name: &str) {
    let tpls = tbl.num_tuples().expect("Error obtaining number of tuples.");
    let name = tbl.get_table_name().clone();
    assert_eq!(tpls, 3);
    assert_eq!(tbl_name, name);
    let grade_rel = tbl.columns.get("Grade").unwrap();
    let name_rel = tbl.columns.get("Name").unwrap();
    let number_rel = tbl.columns.get("Number").unwrap();
    let names = ["Name1", "Name2", "Name3"];
    let grades = [1.5, 2.5, 3.33];
    let numbers = [0, 1, 3];
    let mut i = 0;
    for t in name_rel.iter() {
        assert_eq!(DataType::String(names[i].to_string()), t.clone());
        i += 1;
    }
    assert_eq!(i, 3);
    let mut i = 0;
    for t in grade_rel.iter() {
        assert_eq!(float(grades[i]), t.clone());
        i += 1;
    }
    assert_eq!(i, 3);
    i = 0;
    for t in number_rel.iter() {
        assert_eq!(DataType::Int(numbers[i]), t.clone());
        i += 1;
    }
    assert_eq!(i, 3);
}

#[test]
fn load_csv() {
    let mut tbl = ColumnStoreRelation::new();
    let tbl_name = "students";
    match tbl.load_csv(TEST_CSV.as_bytes(), tbl_name, ",", vec!["Number", "Name", "Grade"], parse_float) {
        Ok(()) => assert!(true),
        Err(_) => assert!(false),
    }
    check_loaded(&tbl, tbl_name);
}

#[test]
fn test_serialize_deserialize_data_types() {
    let data_types = vec![DataType::String("Test".to_string()), DataType::Int(42), float(3.14)];
    let serialized = serialize_data_types(&data_types).expect("Serialization failed");
    let deserialized = deserialize_data_types(&serialized).expect("Deserialization failed");
    for i in 0..2 {
        assert_eq!(data_types[i], deserialized[i], "Deserialized data does not match original");
    }
}

#[test]
fn select_test() {
    let mut tbl = ColumnStoreRelation::new();
    let tbl_name = "students";
    match tbl.load_csv(TEST_CSV.as_bytes(), tbl_name, ",", vec!["Number", "Name", "Grade"], parse_float) {
        Ok(()) => assert!(true),
        Err(_) => assert!(false),
    }
    let predicate = |data: &DataType| match data {
        DataType::Float(value) => f64::from_bits(*value) < 5.0,
        _ => false,
    };
    let selected = tbl.select("Grade", predicate).expect("Error selecting tuples");
    assert_eq!(selected.columns.get("Grade").unwrap().len(), 3);
}

#[test]
fn load_csv2() {
    let mut tbl = ColumnStoreRelation::new();
    let tbl_name = "students";
    match tbl.load_csv(TEST_CSV.as_bytes(), tbl_name, ",", vec!["Number", "Name", "Grade"], parse_float) {
        Ok(()) => assert!(true),
        Err(_) => assert!(false),
    }
    check_loaded(&tbl, tbl_name);
}

#[test]
fn test_serialize_deserialize_data_types2() {
    let data_types = vec![DataType::String("Test".to_string()), DataType::Int(42), float(3.14)];
    let serialized = serialize_data_types(&data_types).expect("Serialization failed");
    let deserialized = deserialize_data_types(&serialized).expect("Deserialization failed");
    for i in 0..2 {
        assert_eq!(data_types[i], deserialized[i], "Deserialized data does not match original");
    }
}

fn setup_relation() -> ColumnStoreRelation {
    let mut relation = ColumnStoreRelation {
        name: "TestRelation".to_string(),
        fields: TextMap::new(),
        columns: TextMap::new(),
        select_columns: vec!["id".to_string(), "name".to_string(), "age".to_string()],
        indices: TextMap::new(),
    };
    relation.fields.insert("id".to_string(), DataType::Int(0));
    relation.fields.insert("name".to_string(), DataType::String(String::new()));
    relation.fields.insert("age".to_string(), DataType::Int(0));
    relation.columns.insert("id".to_string(), vec![DataType::Int(1), DataType::Int(2)]);
    relation.columns.insert(
        "name".to_string(),
        vec![DataType::String("Alice".to_string()), DataType::String("Bob".to_string())],
    );
    relation.columns.insert("age".to_string(), vec![DataType::Int(30), DataType::Int(25)]);
    relation
}

#[test]
fn test_add_tuple() {
    let mut relation = setup_relation();
    let new_tuple = vec![DataType::Int(3), DataType::String("Charlie".to_string()), DataType::Int(35)];
    assert!(relation.add_tuple(new_tuple).is_ok());
    assert_eq!(relation.columns.get("id").unwrap().len(), 3);
    assert_eq!(relation.columns.get("name").unwrap()[2], DataType::String("Charlie".to_string()));
    assert_eq!(relation.columns.get("age").unwrap()[2], DataType::Int(35));
}

#[test]
fn test_update_tuple() {
    let mut relation = setup_relation();
    let update_count = relation
        .update_tuple(
            "age",
            "name",
            |value| matches!(value, DataType::String(name) if name == "Alice"),
            |old_value| {
                if let DataType::Int(age) = old_value {
                    DataType::Int(*age + 5)
                } else {
                    old_value.clone()
                }
            },
        )
        .unwrap();
    assert_eq!(update_count, 1);
    assert_eq!(relation.columns.get("age").unwrap()[0], DataType::Int(35));
}

#[test]
fn test_update_tuple2() {
    let mut relation = ColumnStoreRelation::new();
    relation.select_columns = vec!["id".to_string(), "name".to_string(), "age".to_string()];
    relation.columns.insert(
        "id".to_string(),
        vec![DataType::Int(1), DataType::Int(2), DataType::Int(3)],
    );
    relation.columns.insert(
        "name".to_string(),
        vec![
            DataType::String("Alice".to_string()),
            DataType::String("Bob".to_string()),
            DataType::String("Charlie".to_string()),
        ],
    );
    relation.columns.insert(
        "age".to_string(),
        vec![DataType::Int(25), DataType::Int(30), DataType::Int(35)],
    );
    let predicate = |datum: &DataType| {
        if let DataType::String(name) = datum {
            name == "Bob"
        } else {
            false
        }
    };
    let update_func = |datum: &DataType| {
        if let DataType::Int(age) = datum {
            DataType::Int(age + 5)
        } else {
            datum.clone()
        }
    };
    let result = relation.update_tuple("age", "name", predicate, update_func);
    assert!(result.is_ok());
    assert_eq!(result.unwrap(), 1);
    let updated_age_column = relation.columns.get("age").unwrap();
    assert_eq!(updated_age_column[0], DataType::Int(25));
    assert_eq!(updated_age_column[1], DataType::Int(35));
    assert_eq!(updated_age_column[2], DataType::Int(35));
}

#[test]
fn test_delete_tuple() {
    let mut relation = setup_relation();
    let delete_count = relation
        .delete_tuple("name", |value| matches!(value, DataType::String(name) if name == "Bob"))
        .unwrap();
    assert_eq!(delete_count, 1);
    assert_eq!(relation.columns.get("id").unwrap().len(), 1);
    assert_eq!(relation.columns.get("name").unwrap()[0], DataType::String("Alice".to_string()));
}

#[test]
fn test_csv_load_save_cycle() {
    let mut relation = ColumnStoreRelation::new();
    relation
        .load_csv(TEST_CSV.as_bytes(), "my_table", ",", vec!["Number", "Name", "Grade"], parse_float)
        .unwrap();
    let saved = relation.save().unwrap();
    let mut rdr = csv::Reader::from_reader(&saved[..]);
    let headers = rdr.headers().unwrap().clone();
    assert_eq!(headers, vec!["Number", "Name", "Grade"]);
    let mut results = Vec::new();
    for result in rdr.records() {
        let record = result.unwrap();
        results.push(record.iter().map(|s| s.to_string()).collect::<Vec<String>>());
    }
    assert_eq!(results.len(), 3);
    assert_eq!(results[0], vec!["0", "Name1", "1.500000"]);
    assert_eq!(results[1], vec!["1", "Name2", "2.500000"]);
    assert_eq!(results[2], vec!["3", "Name3", "3.330000"]);
}

#[test]
fn add_tuple_checks_the_tuple_before_it_changes_anything() {
    let mut relation = setup_relation();
    match relation.add_tuple(vec![DataType::Int(3)]) {
        Err(RelationErrors::InvalidInput(reason)) => {
            assert_eq!(reason, "Tuple does not match relation schema")
        },
        other => panic!("unexpected {:?}", other),
    }
    relation.select_columns = vec!["id".to_string(), "gone".to_string(), "age".to_string()];
    match relation.add_tuple(vec![DataType::Int(3), DataType::Int(4), DataType::Int(5)]) {
        Err(RelationErrors::ColumnNotFound(name)) => assert_eq!(name, "gone"),
        other => panic!("unexpected {:?}", other),
    }
    assert_eq!(relation.columns.get("id").unwrap().len(), 2);
    assert_eq!(relation.columns.get("age").unwrap().len(), 2);
}

#[test]
fn a_column_displayed_twice_takes_both_values() {
    let mut relation = ColumnStoreRelation::new();
    relation.columns.insert("x".to_string(), vec![]);
    relation.select_columns = vec!["x".to_string(), "x".to_string()];
    relation.add_tuple(vec![DataType::Int(1), DataType::Int(2)]).unwrap();
    assert_eq!(relation.columns.get("x").unwrap(), &vec![DataType::Int(1), DataType::Int(2)]);
}

#[test]
fn delete_and_update_report_a_missing_column() {
    let mut relation = setup_relation();
    match relation.delete_tuple("nope", |_| true) {
        Err(RelationErrors::ColumnNotFound(name)) => assert_eq!(name, "nope"),
        other => panic!("unexpected {:?}", other),
    }
    match relation.update_tuple("age", "nope", |_| true, |v| v.clone()) {
        Err(RelationErrors::ColumnNotFound(name)) => assert_eq!(name, "age or nope not found"),
        other => panic!("unexpected {:?}", other),
    }
    match relation.update_tuple("nope", "age", |_| true, |v| v.clone()) {
        Err(RelationErrors::ColumnNotFound(name)) => assert_eq!(name, "nope or age not found"),
        other => panic!("unexpected {:?}", other),
    }
    assert_eq!(relation.delete_tuple("age", |_| false).unwrap(), 0);
    assert_eq!(relation.columns.get("age").unwrap().len(), 2);
    assert_eq!(relation.delete_tuple("age", |_| true).unwrap(), 2);
    assert_eq!(relation.columns.get("name").unwrap().len(), 0);
}

#[test]
fn update_of_the_column_that_is_filtered_by() {
    let mut relation = setup_relation();
    let count = relation
        .update_tuple(
            "age",
            "age",
            |v| matches!(v, DataType::Int(a) if *a < 30),
            |v| match v {
                DataType::Int(a) => DataType::Int(a + 10),
                other => other.clone(),
            },
        )
        .unwrap();
    assert_eq!(count, 1);
    assert_eq!(relation.columns.get("age").unwrap(), &vec![DataType::Int(30), DataType::Int(35)]);
}

#[test]
fn load_keeps_the_retained_columns_only() {
    let mut relation = ColumnStoreRelation::new();
    relation
        .load_csv(
            b"a,b,c\n1,x,0.5\n2,\" y \",\n",
            "t",
            ";",
            vec!["c", "a", "zzz"],
            parse_float,
        )
        .unwrap();
    assert_eq!(relation.name, "t");
    assert_eq!(relation.select_columns, vec!["c", "a", "zzz"]);
    assert_eq!(relation.columns.len(), 2);
    assert_eq!(relation.columns.get("a").unwrap(), &vec![DataType::Int(1), DataType::Int(2)]);
    assert_eq!(
        relation.columns.get("c").unwrap(),
        &vec![float(0.5), DataType::String(String::new())]
    );
    assert!(relation.columns.get("b").is_none());
}

#[test]
fn load_of_text_that_cannot_be_read_changes_nothing() {
    let mut relation = setup_relation();
    match relation.load_csv(b"a,b\n1,2,3\n", "t", ",", vec!["a"], parse_float) {
        Err(RelationErrors::ReadError(reason)) => assert_eq!(reason, "Error reading csv"),
        other => panic!("unexpected {:?}", other),
    }
    assert_eq!(relation.name, "TestRelation");
    assert_eq!(relation.columns.len(), 3);
    match relation.load_csv(&[b'a', b'\n', 0xff, b'\n'], "t", ",", vec!["a"], parse_float) {
        Err(RelationErrors::ReadError(_)) => {},
        other => panic!("unexpected {:?}", other),
    }
}

#[test]
fn load_records_takes_what_stands_under_the_header() {
    let header: Vec<String> = ["k", "v", "k"].iter().map(|s| s.to_string()).collect();
    let records: Vec<Vec<String>> = vec![
        ["1", "a", "2"].iter().map(|s| s.to_string()).collect(),
        ["3"].iter().map(|s| s.to_string()).collect(),
        ["4", "b", "5", "beyond"].iter().map(|s| s.to_string()).collect(),
    ];
    let mut relation = ColumnStoreRelation::new();
    relation.load_records("pairs", &header, &records, vec!["k"], &parse_float);
    assert_eq!(
        relation.columns.get("k").unwrap(),
        &vec![DataType::Int(1), DataType::Int(2), DataType::Int(3), DataType::Int(4), DataType::Int(5)]
    );
    assert_eq!(relation.columns.len(), 1);
}

#[test]
fn records_show_what_is_displayed() {
    let mut relation = setup_relation();
    relation.columns.insert("id".to_string(), vec![DataType::Int(1)]);
    relation.select_columns = vec!["name".to_string(), "id".to_string(), "gone".to_string()];
    let records = relation.to_records();
    assert_eq!(
        records,
        vec![
            vec!["name".to_string(), "id".to_string(), "gone".to_string()],
            vec!["Alice".to_string(), "1".to_string(), String::new()],
            vec!["Bob".to_string(), String::new(), String::new()],
        ]
    );
    let saved = String::from_utf8(relation.save().unwrap()).unwrap();
    assert_eq!(saved, "name,id,gone\nAlice,1,\nBob,,\n");
    let mut bare = ColumnStoreRelation::new();
    bare.columns.insert("x".to_string(), vec![DataType::Int(1)]);
    assert_eq!(bare.to_records(), vec![Vec::<String>::new()]);
}

#[test]
fn num_tuples_of_an_empty_relation_is_zero() {
    let relation = ColumnStoreRelation::new();
    assert_eq!(relation.num_tuples().unwrap(), 0);
    assert_eq!(relation.get_table_name(), "");
    assert!(relation.get_select_columns().is_empty());
    assert_eq!(relation.get_columns().len(), 0);
    assert_eq!(setup_relation().num_tuples().unwrap(), 2);
}

#[test]
fn a_copy_is_a_relation_of_its_own() {
    let mut relation = setup_relation();
    relation.create_index("age").unwrap();
    let copy = relation.clone();
    relation.delete_tuple("age", |_| true).unwrap();
    assert_eq!(copy.columns.get("age").unwrap().len(), 2);
    assert_eq!(copy.name, "TestRelation");
    assert_eq!(copy.fields, setup_relation().fields);
    assert_eq!(copy.indices.get("age").unwrap().get("25").unwrap(), &vec![1]);
}
