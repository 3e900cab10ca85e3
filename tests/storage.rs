use squirrel::error::{DbError, MismatchReason};
use squirrel::meta::InMemoryMetaService;
use squirrel::row::Row;
use squirrel::schema::{ColumnDef, TableSchema};
use squirrel::storage::InMemoryStorage;
use squirrel::tokenize::tokenize;
use squirrel::value::{ColumnType, DecimalValue, Value};

fn col(name: &str, data_type: ColumnType, is_nullable: bool, is_primary: bool, is_indexed: bool) -> ColumnDef {
    ColumnDef { name: name.to_string(), data_type, is_nullable, is_primary, is_indexed }
}

fn users_schema() -> TableSchema {
    TableSchema {
        name: "users".to_string(),
        columns: vec![
            col("id", ColumnType::Int, false, true, false),
            col("name", ColumnType::String, false, false, false),
        ],
    }
}

fn docs_schema() -> TableSchema {
    TableSchema {
        name: "docs".to_string(),
        columns: vec![
            col("id", ColumnType::Int, false, true, false),
            col("body", ColumnType::Text, true, false, true),
            col("note", ColumnType::Text, true, false, false),
        ],
    }
}

fn codes(s: &str) -> Vec<u32> {
    s.chars().map(|c| c as u32).collect()
}

#[test]
fn create_table() {
    let mut meta_service = InMemoryMetaService::new();
    let schema = TableSchema {
        name: "users".to_string(),
        columns: vec![
            ColumnDef {
                name: "id".to_string(),
                data_type: ColumnType::Int,
                is_nullable: false,
                is_primary: true,
                is_indexed: false,
            },
            ColumnDef {
                name: "name".to_string(),
                data_type: ColumnType::String,
                is_nullable: false,
                is_primary: false,
                is_indexed: false,
            },
            ColumnDef {
                name: "passwd".to_string(),
                data_type: ColumnType::String,
                is_nullable: false,
                is_primary: false,
                is_indexed: false,
            },
        ],
    };
    meta_service.create_table(schema).unwrap();
    let tale_info = meta_service.get_table("users");
    println!("{:?}", tale_info);
    assert_eq!(tale_info.unwrap().columns.len(), 3);
}

#[test]
fn test_insert_and_scan() {
    let mut engine = InMemoryStorage::new();
    engine.create_table(users_schema()).unwrap();

    let mut row = Row::new();
    row.insert("id".to_string(), Value::Int(1));
    row.insert("name".to_string(), Value::String("wgl".to_string()));

    engine.insert_row("users", row.clone()).unwrap();

    let result = engine.scan_table("users").unwrap();
    println!("{:?}", result);

    assert_eq!(result.len(), 1);
    assert_eq!(result[0].get("id"), Some(&Value::Int(1)));
    assert_eq!(result[0].get("name"), Some(&Value::String("wgl".to_string())));
}

#[test]
fn round_trip_keeps_every_type() {
    let mut engine = InMemoryStorage::new();
    let schema = TableSchema {
        name: "all".to_string(),
        columns: vec![
            col("i", ColumnType::Int, false, true, false),
            col("f", ColumnType::Float, false, false, false),
            col("b", ColumnType::Bool, false, false, false),
            col("t", ColumnType::Timestamp, false, false, false),
            col("d", ColumnType::Decimal, false, false, false),
            col("j", ColumnType::Json, false, false, false),
            col("opt", ColumnType::String, true, false, false),
        ],
    };
    engine.create_table(schema).unwrap();
    let mut row = Row::new();
    row.insert("i".to_string(), Value::Int(-7));
    row.insert("f".to_string(), Value::Float(1.5f64.to_bits()));
    row.insert("b".to_string(), Value::Bool(true));
    row.insert("t".to_string(), Value::Timestamp(1_744_034_400_123));
    row.insert("d".to_string(), Value::Decimal(DecimalValue { mantissa: 12300, scale: 4 }));
    row.insert("j".to_string(), Value::Json("{\"a\":[1,2]}".to_string()));
    let id = engine.insert_row("all", row).unwrap();
    assert_eq!(id, 0);
    let rows = engine.scan_table("all").unwrap();
    assert_eq!(rows.len(), 1);
    let r = &rows[0];
    assert_eq!(r.cells.len(), 7);
    assert_eq!(r.get("i"), Some(&Value::Int(-7)));
    assert_eq!(r.get("f"), Some(&Value::Float(1.5f64.to_bits())));
    assert_eq!(r.get("b"), Some(&Value::Bool(true)));
    assert_eq!(r.get("t"), Some(&Value::Timestamp(1_744_034_400_123)));
    assert_eq!(r.get("d"), Some(&Value::Decimal(DecimalValue { mantissa: 12300, scale: 4 })));
    assert_eq!(r.get("j"), Some(&Value::Json("{\"a\":[1,2]}".to_string())));
    assert_eq!(r.get("opt"), Some(&Value::Null));
    assert_eq!(r.cells[0].column, "i");
    assert_eq!(r.cells[6].column, "opt");
}

#[test]
fn missing_required_column_is_refused() {
    let mut engine = InMemoryStorage::new();
    engine.create_table(users_schema()).unwrap();
    let mut row = Row::new();
    row.insert("id".to_string(), Value::Int(1));
    let err = engine.insert_row("users", row).unwrap_err();
    assert_eq!(
        err,
        DbError::SchemaMismatch { column: "name".to_string(), reason: MismatchReason::MissingColumn }
    );
    assert_eq!(engine.scan_table("users").unwrap().len(), 0);
}

#[test]
fn type_mismatch_is_refused() {
    let mut engine = InMemoryStorage::new();
    engine.create_table(users_schema()).unwrap();
    let mut row = Row::new();
    row.insert("id".to_string(), Value::String("1".to_string()));
    row.insert("name".to_string(), Value::Int(3));
    let err = engine.insert_row("users", row).unwrap_err();
    assert_eq!(
        err,
        DbError::SchemaMismatch { column: "id".to_string(), reason: MismatchReason::TypeMismatch }
    );
    assert_eq!(engine.scan_table("users").unwrap().len(), 0);
}

#[test]
fn explicit_null_in_required_column_is_refused() {
    let mut engine = InMemoryStorage::new();
    engine.create_table(users_schema()).unwrap();
    let mut row = Row::new();
    row.insert("id".to_string(), Value::Null);
    row.insert("name".to_string(), Value::String("a".to_string()));
    let err = engine.insert_row("users", row).unwrap_err();
    assert_eq!(
        err,
        DbError::SchemaMismatch { column: "id".to_string(), reason: MismatchReason::NullViolation }
    );
}

#[test]
fn unknown_column_is_refused() {
    let mut engine = InMemoryStorage::new();
    engine.create_table(users_schema()).unwrap();
    let mut row = Row::new();
    row.insert("id".to_string(), Value::Int(1));
    row.insert("name".to_string(), Value::String("a".to_string()));
    row.insert("age".to_string(), Value::Int(30));
    let err = engine.insert_row("users", row).unwrap_err();
    assert_eq!(
        err,
        DbError::SchemaMismatch { column: "age".to_string(), reason: MismatchReason::UnknownColumn }
    );
    assert_eq!(engine.scan_table("users").unwrap().len(), 0);
}

#[test]
fn insert_into_missing_table_fails() {
    let mut engine = InMemoryStorage::new();
    assert_eq!(engine.insert_row("nope", Row::new()), Err(DbError::TableNotFound));
}

#[test]
fn later_binding_replaces_earlier() {
    let mut row = Row::new();
    row.insert("a".to_string(), Value::Int(1));
    row.insert("a".to_string(), Value::Int(2));
    assert_eq!(row.get("a"), Some(&Value::Int(2)));
    assert_eq!(row.get("b"), None);
}

#[test]
fn duplicate_table_keeps_first_schema() {
    let mut engine = InMemoryStorage::new();
    engine.create_table(users_schema()).unwrap();
    let other = TableSchema { name: "users".to_string(), columns: vec![col("x", ColumnType::Bool, true, false, false)] };
    assert_eq!(engine.create_table(other), Err(DbError::DuplicateTable));
    let s = engine.get_table("users").unwrap();
    assert_eq!(s.columns.len(), 2);
    assert_eq!(s.columns[1].name, "name");
}

#[test]
fn identifiers_are_distinct_and_ordered() {
    let mut engine = InMemoryStorage::new();
    engine.create_table(users_schema()).unwrap();
    let mut ids = Vec::new();
    for k in 0..20i64 {
        let mut row = Row::new();
        row.insert("id".to_string(), Value::Int(k));
        row.insert("name".to_string(), Value::String(format!("u{}", k)));
        ids.push(engine.insert_row("users", row).unwrap());
    }
    assert_eq!(ids, (0..20u64).collect::<Vec<u64>>());
    let rows = engine.scan_table("users").unwrap();
    assert_eq!(rows.len(), 20);
    assert_eq!(rows[5].get("id"), Some(&Value::Int(5)));
}

#[test]
fn identifier_space_exhausted() {
    let mut engine = InMemoryStorage::new();
    engine.create_table(users_schema()).unwrap();
    engine.data[0].next_id = u64::MAX;
    let mut row = Row::new();
    row.insert("id".to_string(), Value::Int(1));
    row.insert("name".to_string(), Value::String("a".to_string()));
    assert_eq!(engine.insert_row("users", row), Err(DbError::StorageFailure));
    assert_eq!(engine.scan_table("users").unwrap().len(), 0);
}

#[test]
fn search_finds_indexed_keyword() {
    let mut engine = InMemoryStorage::new();
    engine.create_table(docs_schema()).unwrap();
    let mut row = Row::new();
    row.insert("id".to_string(), Value::Int(1));
    row.insert("body".to_string(), Value::Text("the quick fox".to_string()));
    let id = engine.insert_row("docs", row).unwrap();
    assert_eq!(engine.search("docs", "quick"), vec![id]);
    assert_eq!(engine.search("docs", "slow"), Vec::<u64>::new());
}

#[test]
fn search_folds_case_and_skips_unindexed() {
    let mut engine = InMemoryStorage::new();
    engine.create_table(docs_schema()).unwrap();
    let mut a = Row::new();
    a.insert("id".to_string(), Value::Int(1));
    a.insert("body".to_string(), Value::Text("Hello, World! hello".to_string()));
    a.insert("note".to_string(), Value::Text("secretword".to_string()));
    let ida = engine.insert_row("docs", a).unwrap();
    let mut b = Row::new();
    b.insert("id".to_string(), Value::Int(2));
    b.insert("body".to_string(), Value::Text("world-peace".to_string()));
    let idb = engine.insert_row("docs", b).unwrap();
    assert_eq!(engine.search("docs", "HELLO"), vec![ida]);
    assert_eq!(engine.search("docs", "world"), vec![ida, idb]);
    assert_eq!(engine.search("docs", "secretword"), Vec::<u64>::new());
    assert_eq!(engine.search("missing", "world"), Vec::<u64>::new());
}

#[test]
fn tokenize_splits_and_folds() {
    let toks = tokenize("  Quick,brown\tFOX. ");
    assert_eq!(toks, vec![codes("quick"), codes("brown"), codes("fox")]);
    assert!(tokenize("").is_empty());
    assert!(tokenize(" ,;. ").is_empty());
}

#[test]
fn alter_adds_nullable_column() {
    let mut engine = InMemoryStorage::new();
    engine.create_table(users_schema()).unwrap();
    let mut row = Row::new();
    row.insert("id".to_string(), Value::Int(1));
    row.insert("name".to_string(), Value::String("a".to_string()));
    engine.insert_row("users", row).unwrap();

    let mut altered = users_schema();
    altered.columns.push(col("email", ColumnType::String, true, false, false));
    engine.alter_table("users", altered).unwrap();

    let rows = engine.scan_table("users").unwrap();
    assert_eq!(rows[0].get("email"), Some(&Value::Null));

    let mut row2 = Row::new();
    row2.insert("id".to_string(), Value::Int(2));
    row2.insert("name".to_string(), Value::String("b".to_string()));
    row2.insert("email".to_string(), Value::String("b@x".to_string()));
    engine.insert_row("users", row2).unwrap();
    let rows = engine.scan_table("users").unwrap();
    assert_eq!(rows.len(), 2);
    assert_eq!(rows[1].get("email"), Some(&Value::String("b@x".to_string())));
}

#[test]
fn alter_removes_column_and_widens_nullability() {
    let mut engine = InMemoryStorage::new();
    engine.create_table(users_schema()).unwrap();
    let mut row = Row::new();
    row.insert("id".to_string(), Value::Int(1));
    row.insert("name".to_string(), Value::String("a".to_string()));
    engine.insert_row("users", row).unwrap();

    let narrowed = TableSchema { name: "users".to_string(), columns: vec![col("id", ColumnType::Int, false, true, false)] };
    engine.alter_table("users", narrowed).unwrap();
    let rows = engine.scan_table("users").unwrap();
    assert_eq!(rows[0].cells.len(), 1);
    assert_eq!(rows[0].get("name"), None);

    let widened = TableSchema {
        name: "users".to_string(),
        columns: vec![col("id", ColumnType::Int, false, true, false), col("x", ColumnType::Int, true, false, false)],
    };
    engine.alter_table("users", widened).unwrap();
    let rows = engine.scan_table("users").unwrap();
    assert_eq!(rows[0].get("x"), Some(&Value::Null));
}

#[test]
fn unsupported_alterations_are_refused() {
    let mut engine = InMemoryStorage::new();
    engine.create_table(users_schema()).unwrap();

    let mut retyped = users_schema();
    retyped.columns[1].data_type = ColumnType::Text;
    assert_eq!(engine.alter_table("users", retyped), Err(DbError::UnsupportedAlteration));

    let mut required = users_schema();
    required.columns.push(col("age", ColumnType::Int, false, false, false));
    assert_eq!(engine.alter_table("users", required), Err(DbError::UnsupportedAlteration));

    let no_key = TableSchema { name: "users".to_string(), columns: vec![col("name", ColumnType::String, false, false, false)] };
    assert_eq!(engine.alter_table("users", no_key), Err(DbError::UnsupportedAlteration));

    let renamed = TableSchema { name: "people".to_string(), columns: users_schema().columns };
    assert_eq!(engine.alter_table("users", renamed), Err(DbError::UnsupportedAlteration));

    assert_eq!(engine.alter_table("ghost", users_schema()), Err(DbError::TableNotFound));
    assert_eq!(engine.get_table("users").unwrap().columns.len(), 2);
}

#[test]
fn nullable_widening_is_accepted() {
    let mut meta = InMemoryMetaService::new();
    meta.create_table(users_schema()).unwrap();
    let mut wider = users_schema();
    wider.columns[1].is_nullable = true;
    assert_eq!(meta.alter_table("users", wider), Ok(()));
    assert!(meta.get_table("users").unwrap().columns[1].is_nullable);
}

#[test]
fn drop_hides_everything() {
    let mut engine = InMemoryStorage::new();
    engine.create_table(docs_schema()).unwrap();
    engine.create_table(users_schema()).unwrap();
    let mut row = Row::new();
    row.insert("id".to_string(), Value::Int(1));
    row.insert("body".to_string(), Value::Text("the quick fox".to_string()));
    engine.insert_row("docs", row).unwrap();

    engine.drop_table("docs").unwrap();
    assert_eq!(engine.get_table("docs").err(), Some(DbError::TableNotFound));
    assert_eq!(engine.scan_table("docs").err(), Some(DbError::TableNotFound));
    assert_eq!(engine.search("docs", "quick"), Vec::<u64>::new());
    assert_eq!(engine.drop_table("docs"), Err(DbError::TableNotFound));
    assert!(engine.get_table("users").is_ok());

    engine.create_table(docs_schema()).unwrap();
    assert_eq!(engine.scan_table("docs").unwrap().len(), 0);
    assert_eq!(engine.search("docs", "quick"), Vec::<u64>::new());
}

#[test]
fn registry_drop_frees_the_name() {
    let mut meta = InMemoryMetaService::new();
    assert_eq!(meta.drop_table("users"), Err(DbError::TableNotFound));
    meta.create_table(users_schema()).unwrap();
    assert_eq!(meta.drop_table("users"), Ok(0));
    assert!(meta.get_table("users").is_none());
    assert_eq!(meta.create_table(users_schema()), Ok(()));
}

#[test]
fn index_row_files_tokens_under_given_id() {
    let mut engine = InMemoryStorage::new();
    engine.create_table(docs_schema()).unwrap();
    let mut row = Row::new();
    row.insert("id".to_string(), Value::Int(9));
    row.insert("body".to_string(), Value::Text("Red fox; red FOX".to_string()));
    engine.index_row("docs", 42, &row).unwrap();
    assert_eq!(engine.search("docs", "fox"), vec![42]);
    assert_eq!(engine.search("docs", "red"), vec![42]);
    assert_eq!(engine.search("docs", "blue"), Vec::<u64>::new());
    assert_eq!(engine.scan_table("docs").unwrap().len(), 0);
    assert_eq!(engine.index_row("nope", 1, &row), Err(DbError::TableNotFound));
}

#[test]
fn readded_column_reads_null_on_both_backends() {
    let narrow = TableSchema { name: "users".to_string(), columns: vec![col("id", ColumnType::Int, false, true, false)] };
    let mut readded = users_schema();
    readded.columns[1].is_nullable = true;
    let mut row = Row::new();
    row.insert("id".to_string(), Value::Int(1));
    row.insert("name".to_string(), Value::String("old".to_string()));

    let mut mem = InMemoryStorage::new();
    mem.create_table(users_schema()).unwrap();
    mem.insert_row("users", row.clone()).unwrap();
    mem.alter_table("users", narrow.clone()).unwrap();
    mem.alter_table("users", readded.clone()).unwrap();
    let a = mem.scan_table("users").unwrap();
    assert_eq!(a[0].get("name"), Some(&Value::Null));

    let mut colf = squirrel::column_engine::ColumnFileStorage::new();
    colf.create_table(users_schema()).unwrap();
    colf.insert_row("users", row).unwrap();
    colf.alter_table("users", narrow).unwrap();
    colf.alter_table("users", readded).unwrap();
    let b = colf.scan_table("users").unwrap();
    assert_eq!(a, b);
}

#[test]
fn schema_rules_are_enforced() {
    let mut engine = InMemoryStorage::new();
    let repeated = TableSchema {
        name: "t".to_string(),
        columns: vec![col("a", ColumnType::Int, false, true, false), col("a", ColumnType::Bool, true, false, false)],
    };
    assert_eq!(engine.create_table(repeated), Err(DbError::InvalidSchema));
    let two_keys = TableSchema {
        name: "t".to_string(),
        columns: vec![col("a", ColumnType::Int, false, true, false), col("b", ColumnType::Int, false, true, false)],
    };
    assert_eq!(engine.create_table(two_keys), Err(DbError::InvalidSchema));
    assert!(engine.get_table("t").is_err());

    engine.create_table(users_schema()).unwrap();
    let mut dup = users_schema();
    dup.columns.push(col("name", ColumnType::String, true, false, false));
    assert_eq!(engine.alter_table("users", dup), Err(DbError::UnsupportedAlteration));
}

#[test]
fn decimal_out_of_range_is_refused() {
    let mut engine = InMemoryStorage::new();
    let schema = TableSchema {
        name: "money".to_string(),
        columns: vec![col("amount", ColumnType::Decimal, false, false, false)],
    };
    engine.create_table(schema).unwrap();
    let mut big = Row::new();
    big.insert("amount".to_string(), Value::Decimal(DecimalValue { mantissa: 1i128 << 96, scale: 0 }));
    assert_eq!(
        engine.insert_row("money", big),
        Err(DbError::SchemaMismatch { column: "amount".to_string(), reason: MismatchReason::TypeMismatch })
    );
    let mut deep = Row::new();
    deep.insert("amount".to_string(), Value::Decimal(DecimalValue { mantissa: 1, scale: 29 }));
    assert!(engine.insert_row("money", deep).is_err());
    let mut ok = Row::new();
    ok.insert("amount".to_string(), Value::Decimal(DecimalValue { mantissa: (1i128 << 96) - 1, scale: 28 }));
    assert_eq!(engine.insert_row("money", ok), Ok(0));
}
