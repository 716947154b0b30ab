use rustdb::database::{parse_sql, parse_tokens, Database, SqlCommand};
use rustdb::dtype::DataType;
use rustdb::errors::RelationErrors;
use rustdb::interface::{Aggregation, ColumnStoreRelation, JoinType, Order};

fn parse_float(s: &str) -> Option<u64> {
    s.parse::<f64>().ok().map(f64::to_bits)
}

fn plus(a: u64, b: u64) -> u64 {
    (f64::from_bits(a) + f64::from_bits(b)).to_bits()
}

fn divide(a: u64, n: usize) -> u64 {
    (f64::from_bits(a) / n as f64).to_bits()
}

fn sample_relation() -> ColumnStoreRelation {
    let mut relation = ColumnStoreRelation::new();
    relation.columns.insert(
        "column1".to_string(),
        vec![DataType::Int(1), DataType::Int(42), DataType::Int(3)],
    );
    relation.columns.insert(
        "column2".to_string(),
        vec![
            DataType::String("a".to_string()),
            DataType::String("b".to_string()),
            DataType::String("c".to_string()),
        ],
    );
    relation
}

#[test]
fn test_execute_sql() {
    let mut db = Database::new("test_db").unwrap();
    let relation = sample_relation();
    db.add_relation("table".to_string(), relation);
    let query = "SELECT column1, column2 FROM table WHERE column1 42";
    match db.execute_sql(query) {
        Ok(result) => {
            println!("{}", result.render());
            assert_eq!(result.columns.get("column1").unwrap(), &vec![DataType::Int(42)]);
            assert_eq!(
                result.columns.get("column2").unwrap(),
                &vec![DataType::String("b".to_string())]
            );
        },
        Err(e) => panic!("Test failed with error: {}", e),
    }
}

#[test]
fn execute_sql_without_a_condition_and_in_lower_case() {
    let mut db = Database::new("db").unwrap();
    db.add_relation("t".to_string(), sample_relation());
    let result = db.execute_sql("select column2 from t").unwrap();
    assert_eq!(result.select_columns, vec!["column2"]);
    assert_eq!(result.columns.len(), 1);
    assert_eq!(result.columns.get("column2").unwrap().len(), 3);
}

#[test]
fn execute_sql_reports_what_is_wrong() {
    let mut db = Database::new("db").unwrap();
    db.add_relation("t".to_string(), sample_relation());
    assert_eq!(db.execute_sql("").unwrap_err(), "Empty query");
    assert_eq!(db.execute_sql("   \t ").unwrap_err(), "Empty query");
    assert_eq!(db.execute_sql("DELETE x FROM t").unwrap_err(), "Only SELECT queries are supported");
    assert_eq!(db.execute_sql("SELECT FROM t").unwrap_err(), "Expected columns in SELECT clause");
    assert_eq!(db.execute_sql("SELECT").unwrap_err(), "Expected columns in SELECT clause");
    assert_eq!(db.execute_sql("SELECT a, b").unwrap_err(), "Expected table name");
    assert_eq!(db.execute_sql("SELECT a FROM").unwrap_err(), "Expected table name");
    assert_eq!(db.execute_sql("SELECT a FROM t WHERE a").unwrap_err(), "Invalid WHERE clause");
    assert_eq!(db.execute_sql("SELECT a FROM t ORDER").unwrap_err(), "Unexpected token in query");
    assert_eq!(db.execute_sql("SELECT column1 FROM nowhere").unwrap_err(), "Table not found");
    assert_eq!(
        db.execute_sql("SELECT nope FROM t").unwrap_err(),
        format!("{:?}", RelationErrors::ColumnNotFound("nope".to_string()))
    );
    assert_eq!(
        db.execute_sql("SELECT column1 FROM t WHERE nope 1").unwrap_err(),
        "ColumnNotFound(\"nope\")"
    );
}

#[test]
fn parse_sql_reads_a_statement() {
    match parse_sql("  select   a,  b,, FrOm  people  where age 30 ").unwrap() {
        SqlCommand::Select { columns, table, where_clause } => {
            assert_eq!(columns, vec!["a", "b"]);
            assert_eq!(table, "people");
            assert_eq!(where_clause, Some(("age".to_string(), "30".to_string())));
        },
    }
    match parse_sql("SELECT x FROM y").unwrap() {
        SqlCommand::Select { columns, table, where_clause } => {
            assert_eq!(columns, vec!["x"]);
            assert_eq!(table, "y");
            assert_eq!(where_clause, None);
        },
    }
}

#[test]
fn a_statement_has_one_condition_at_most() {
    assert_eq!(
        parse_sql("SELECT a FROM t WHERE x 1 WHERE y 2").unwrap_err(),
        "Unexpected token in query"
    );
    assert_eq!(parse_sql("SELECT a FROM t WHERE x 1 2").unwrap_err(), "Unexpected token in query");
    assert_eq!(parse_sql("SELECT a FROM t WHERE x 1 WHERE").unwrap_err(), "Unexpected token in query");
    assert_eq!(parse_sql("SELECT a FROM t WHERE WHERE 1 2").unwrap_err(), "Unexpected token in query");
    assert_eq!(parse_sql("SELECT a FROM t u").unwrap_err(), "Unexpected token in query");
    assert_eq!(parse_sql("SELECT a FROM t WHERE x").unwrap_err(), "Invalid WHERE clause");
    assert_eq!(parse_sql("SELECT a FROM t WHERE").unwrap_err(), "Invalid WHERE clause");
    assert!(parse_sql("SELECT a FROM t WHERE where 1").is_ok());
    let mut db = Database::new("db").unwrap();
    db.add_relation("t".to_string(), sample_relation());
    assert_eq!(
        db.execute_sql("SELECT column1 FROM t WHERE column1 1 WHERE column1 42").unwrap_err(),
        "Unexpected token in query"
    );
}

#[test]
fn a_join_of_a_relation_that_is_not_there_is_refused() {
    let mut db = Database::new("db").unwrap();
    for jt in [JoinType::NestedLoop, JoinType::MergeJoin, JoinType::HashJoin] {
        assert!(matches!(
            db.join("a", "id", "b", "id", |_, _| panic!("asked"), jt),
            Err(RelationErrors::RelationNotFound)
        ));
    }
    db.add_relation("a".to_string(), sample_relation());
    for jt in [JoinType::NestedLoop, JoinType::MergeJoin, JoinType::HashJoin] {
        assert!(matches!(
            db.join("a", "column1", "b", "id", |_, _| panic!("asked"), jt),
            Err(RelationErrors::RelationNotFound)
        ));
        assert!(matches!(
            db.join("b", "id", "a", "column1", |_, _| panic!("asked"), jt),
            Err(RelationErrors::RelationNotFound)
        ));
        match db.join("a", "nope", "a", "column1", |_, _| panic!("asked"), jt) {
            Err(RelationErrors::ColumnNotFound(name)) => assert_eq!(name, "nope"),
            other => panic!("unexpected {:?}", other.map(|r| r.name)),
        }
    }
    assert!(db.get_relation("a").is_some());
    assert!(db.get_relation("b").is_none());
}

#[test]
fn parse_tokens_goes_by_the_upper_case_it_is_given() {
    let tokens: Vec<String> = ["pick", "a", "of", "t"].iter().map(|s| s.to_string()).collect();
    let upper: Vec<String> = ["SELECT", "A", "FROM", "T"].iter().map(|s| s.to_string()).collect();
    match parse_tokens(&tokens, &upper).unwrap() {
        SqlCommand::Select { columns, table, where_clause } => {
            assert_eq!(columns, vec!["a"]);
            assert_eq!(table, "t");
            assert_eq!(where_clause, None);
        },
    }
    let same: Vec<String> = tokens.clone();
    assert_eq!(parse_tokens(&tokens, &same).unwrap_err(), "Only SELECT queries are supported");
}

#[test]
fn relations_are_created_once() {
    let mut db = Database::new("db").unwrap();
    assert_eq!(db.get_name(), "db");
    assert!(db.create_relation("Students").is_ok());
    assert!(matches!(
        db.create_relation("Students"),
        Err(RelationErrors::RelationAlreadyExists)
    ));
    assert!(matches!(
        db.select_from_relation("Nobody", "id", |_| true),
        Err(RelationErrors::RelationNotFound)
    ));
    assert!(matches!(
        db.project_relation("Nobody", vec!["id"]),
        Err(RelationErrors::RelationNotFound)
    ));
    assert!(matches!(
        db.aggregate("Nobody", "id", Aggregation::Count, plus, divide),
        Err(RelationErrors::RelationNotFound)
    ));
    assert!(matches!(
        db.sort_relation("Nobody", "id", Order::Asc),
        Err(RelationErrors::RelationNotFound)
    ));
    assert!(matches!(db.create_index("Nobody", "id"), Err(RelationErrors::RelationNotFound)));
    assert!(matches!(db.pretty_print_relation("Nobody"), Err(RelationErrors::RelationNotFound)));
    assert!(matches!(
        db.load_from_csv("Nobody", b"a\n1\n", ",", vec!["a"], parse_float),
        Err(RelationErrors::RelationNotFound)
    ));
}

#[test]
fn the_database_hands_work_on_to_its_relations() {
    let mut db = Database::new("db").unwrap();
    db.create_relation("people").unwrap();
    db.load_from_csv(
        "people",
        b"id,name,age\n3,Cy,41\n1,Al,30\n2,Bo,25\n",
        ",",
        vec!["id", "name", "age"],
        parse_float,
    )
    .unwrap();
    db.sort_relation("people", "id", Order::Asc).unwrap();
    let all = db.project_relation("people", vec!["name"]).unwrap();
    assert_eq!(
        all.columns.get("name").unwrap(),
        &vec![
            DataType::String("Al".to_string()),
            DataType::String("Bo".to_string()),
            DataType::String("Cy".to_string())
        ]
    );
    let older = db
        .select_from_relation("people", "age", |v| matches!(v, DataType::Int(a) if *a >= 30))
        .unwrap();
    assert_eq!(older.columns.get("id").unwrap(), &vec![DataType::Int(1), DataType::Int(3)]);
    assert_eq!(
        db.aggregate("people", "age", Aggregation::Max, plus, divide).unwrap(),
        DataType::Float(41.0f64.to_bits())
    );
    db.create_index("people", "age").unwrap();
    db.add_relation("other".to_string(), older);
    for jt in [JoinType::NestedLoop, JoinType::MergeJoin, JoinType::HashJoin] {
        let joined = db.join("people", "id", "other", "id", |a, b| a == b, jt).unwrap();
        assert_eq!(joined.columns.get("id").unwrap(), &vec![DataType::Int(1), DataType::Int(3)]);
    }
    let shown = db.pretty_print_relation("people").unwrap();
    assert!(shown.starts_with("db.people\n┌"));
    assert!(shown.contains("│ Al   │"));
    assert!(shown.ends_with("┘\n"));
}
