use squirrel::column_engine::ColumnFileStorage;
use squirrel::columnar::{decode_value, encode_into, type_of_tag, type_tag, ColumnFileTable, ColumnStore};
use squirrel::error::{DbError, MismatchReason};
use squirrel::row::Row;
use squirrel::schema::{ColumnDef, TableSchema};
use squirrel::value::{ColumnType, DecimalValue, Value};

fn col(name: &str, data_type: ColumnType, is_nullable: bool, is_primary: bool) -> ColumnDef {
    ColumnDef { name: name.to_string(), data_type, is_nullable, is_primary, is_indexed: false }
}

fn round_trip(t: ColumnType, v: Value, width: usize) {
    let mut bytes = vec![0xAAu8];
    encode_into(&v, &mut bytes);
    assert_eq!(bytes.len(), 1 + width);
    assert_eq!(decode_value(t, &bytes, 1), Some((v, 1 + width)));
}

#[test]
fn fixed_width_encodings() {
    let mut bytes = Vec::new();
    encode_into(&Value::Int(-2), &mut bytes);
    assert_eq!(bytes, vec![0xFE, 0xFF, 0xFF, 0xFF, 0xFF, 0xFF, 0xFF, 0xFF]);
    let mut b = Vec::new();
    encode_into(&Value::Bool(true), &mut b);
    assert_eq!(b, vec![1]);
    let mut d = Vec::new();
    encode_into(&Value::Decimal(DecimalValue { mantissa: 258, scale: 2 }), &mut d);
    assert_eq!(d.len(), 20);
    assert_eq!(&d[0..2], &[2, 1]);
    assert_eq!(&d[16..20], &[2, 0, 0, 0]);
    let mut s = Vec::new();
    encode_into(&Value::Text("hé".to_string()), &mut s);
    assert_eq!(s, vec![3, 0, 0, 0, 0, 0, 0, 0, b'h', 0xC3, 0xA9]);
    let mut n = Vec::new();
    encode_into(&Value::Null, &mut n);
    assert!(n.is_empty());
}

#[test]
fn every_type_round_trips() {
    round_trip(ColumnType::Int, Value::Int(i64::MIN), 8);
    round_trip(ColumnType::Float, Value::Float((-0.25f64).to_bits()), 8);
    round_trip(ColumnType::Timestamp, Value::Timestamp(1_744_034_400_123), 8);
    round_trip(ColumnType::Bool, Value::Bool(false), 1);
    round_trip(ColumnType::Decimal, Value::Decimal(DecimalValue { mantissa: -123_456_789, scale: 28 }), 20);
    round_trip(ColumnType::String, Value::String("wgl".to_string()), 11);
    round_trip(ColumnType::Text, Value::Text(String::new()), 8);
    round_trip(ColumnType::Json, Value::Json("{\"k\":[true,null]}".to_string()), 8 + 17);
}

#[test]
fn malformed_bytes_are_rejected() {
    assert_eq!(decode_value(ColumnType::Int, &vec![1, 2, 3], 0), None);
    assert_eq!(decode_value(ColumnType::Bool, &vec![7], 0), None);
    let mut truncated = vec![10, 0, 0, 0, 0, 0, 0, 0];
    truncated.extend_from_slice(b"abc");
    assert_eq!(decode_value(ColumnType::String, &truncated, 0), None);
    let bad_utf8 = vec![2, 0, 0, 0, 0, 0, 0, 0, 0xC3, 0x28];
    assert_eq!(decode_value(ColumnType::Text, &bad_utf8, 0), None);
}

#[test]
fn column_store_reads_back_with_nulls() {
    let mut store = ColumnStore::new();
    store.push_value(&Value::Text("a".to_string()));
    store.push_value(&Value::Null);
    store.push_value(&Value::Text("bc".to_string()));
    assert_eq!(store.present, vec![true, false, true]);
    assert_eq!(
        store.read_all(ColumnType::Text),
        Some(vec![Value::Text("a".to_string()), Value::Null, Value::Text("bc".to_string())])
    );
    store.bytes.pop();
    assert_eq!(store.read_all(ColumnType::Text), None);
}

#[test]
fn column_file_table_round_trip() {
    let cols = vec![
        col("id", ColumnType::Int, false, true),
        col("price", ColumnType::Decimal, true, false),
        col("doc", ColumnType::Json, true, false),
    ];
    let mut table = ColumnFileTable::new(&cols);
    let mut r0 = Row::new();
    r0.insert("id".to_string(), Value::Int(1));
    r0.insert("price".to_string(), Value::Decimal(DecimalValue { mantissa: 1050, scale: 2 }));
    let mut r1 = Row::new();
    r1.insert("id".to_string(), Value::Int(2));
    r1.insert("doc".to_string(), Value::Json("[1,2]".to_string()));
    assert_eq!(table.append_row(&cols, &r0), Ok(0));
    assert_eq!(table.append_row(&cols, &r1), Ok(1));
    let rows = table.scan(&cols).unwrap();
    assert_eq!(rows.len(), 2);
    assert_eq!(rows[0].get("price"), Some(&Value::Decimal(DecimalValue { mantissa: 1050, scale: 2 })));
    assert_eq!(rows[0].get("doc"), Some(&Value::Null));
    assert_eq!(rows[1].get("id"), Some(&Value::Int(2)));
    assert_eq!(rows[1].get("price"), Some(&Value::Null));
    assert_eq!(rows[1].get("doc"), Some(&Value::Json("[1,2]".to_string())));
}

#[test]
fn column_file_table_validates() {
    let cols = vec![col("id", ColumnType::Int, false, true)];
    let mut table = ColumnFileTable::new(&cols);
    let mut bad = Row::new();
    bad.insert("id".to_string(), Value::Bool(true));
    assert_eq!(
        table.append_row(&cols, &bad),
        Err(DbError::SchemaMismatch { column: "id".to_string(), reason: MismatchReason::TypeMismatch })
    );
    assert_eq!(table.row_count, 0);
    assert_eq!(table.scan(&cols).unwrap().len(), 0);
}

#[test]
fn corrupt_column_file_fails_scan() {
    let cols = vec![col("id", ColumnType::Int, false, true)];
    let mut table = ColumnFileTable::new(&cols);
    let mut r = Row::new();
    r.insert("id".to_string(), Value::Int(5));
    table.append_row(&cols, &r).unwrap();
    table.columns[0].bytes.truncate(4);
    assert_eq!(table.scan(&cols).err(), Some(DbError::StorageFailure));
}

fn people() -> TableSchema {
    TableSchema {
        name: "people".to_string(),
        columns: vec![col("id", ColumnType::Int, false, true), col("name", ColumnType::String, false, false)],
    }
}

fn person(id: i64, name: &str) -> Row {
    let mut r = Row::new();
    r.insert("id".to_string(), Value::Int(id));
    r.insert("name".to_string(), Value::String(name.to_string()));
    r
}

#[test]
fn column_engine_insert_and_scan() {
    let mut engine = ColumnFileStorage::new();
    engine.create_table(people()).unwrap();
    assert_eq!(engine.create_table(people()), Err(DbError::DuplicateTable));
    assert_eq!(engine.insert_row("people", person(1, "wgl")), Ok(0));
    assert_eq!(engine.insert_row("people", person(2, "ann")), Ok(1));
    let rows = engine.scan_table("people").unwrap();
    assert_eq!(rows.len(), 2);
    assert_eq!(rows[0].get("id"), Some(&Value::Int(1)));
    assert_eq!(rows[1].get("name"), Some(&Value::String("ann".to_string())));
    assert_eq!(engine.insert_row("nope", person(3, "x")), Err(DbError::TableNotFound));
    let mut bad = Row::new();
    bad.insert("id".to_string(), Value::Int(3));
    assert_eq!(
        engine.insert_row("people", bad),
        Err(DbError::SchemaMismatch { column: "name".to_string(), reason: MismatchReason::MissingColumn })
    );
    assert_eq!(engine.scan_table("people").unwrap().len(), 2);
}

#[test]
fn column_engine_alter_and_drop() {
    let mut engine = ColumnFileStorage::new();
    engine.create_table(people()).unwrap();
    engine.insert_row("people", person(1, "wgl")).unwrap();

    let mut wider = people();
    wider.columns.push(col("score", ColumnType::Decimal, true, false));
    engine.alter_table("people", wider).unwrap();
    let rows = engine.scan_table("people").unwrap();
    assert_eq!(rows[0].get("score"), Some(&Value::Null));
    assert_eq!(rows[0].get("name"), Some(&Value::String("wgl".to_string())));

    let mut r = person(2, "ann");
    r.insert("score".to_string(), Value::Decimal(DecimalValue { mantissa: 95, scale: 1 }));
    engine.insert_row("people", r).unwrap();
    let rows = engine.scan_table("people").unwrap();
    assert_eq!(rows[1].get("score"), Some(&Value::Decimal(DecimalValue { mantissa: 95, scale: 1 })));

    let narrow = TableSchema { name: "people".to_string(), columns: vec![col("id", ColumnType::Int, false, true)] };
    engine.alter_table("people", narrow).unwrap();
    let rows = engine.scan_table("people").unwrap();
    assert_eq!(rows.len(), 2);
    assert_eq!(rows[1].cells.len(), 1);

    let mut retyped = people();
    retyped.columns[0].data_type = ColumnType::Text;
    assert_eq!(engine.alter_table("people", retyped), Err(DbError::UnsupportedAlteration));
    assert_eq!(engine.alter_table("ghost", people()), Err(DbError::TableNotFound));

    engine.drop_table("people").unwrap();
    assert_eq!(engine.scan_table("people").err(), Some(DbError::TableNotFound));
    assert_eq!(engine.get_table("people").err(), Some(DbError::TableNotFound));
    assert_eq!(engine.drop_table("people"), Err(DbError::TableNotFound));
}

fn load<E: squirrel::engine::StorageEngine>(engine: &mut E) -> Vec<Row> {
    let mut ids = Vec::new();
    ids.push(squirrel::engine::StorageEngine::insert_row(engine, "people", person(1, "wgl")).unwrap());
    ids.push(squirrel::engine::StorageEngine::insert_row(engine, "people", person(2, "ann")).unwrap());
    let mut bad = Row::new();
    bad.insert("id".to_string(), Value::String("x".to_string()));
    assert!(squirrel::engine::StorageEngine::insert_row(engine, "people", bad).is_err());
    assert_eq!(ids, vec![0, 1]);
    squirrel::engine::StorageEngine::scan_table(engine, "people").unwrap()
}

#[test]
fn both_backends_agree() {
    let mut memory = squirrel::storage::InMemoryStorage::new();
    memory.create_table(people()).unwrap();
    let mut columns = ColumnFileStorage::new();
    columns.create_table(people()).unwrap();
    let a = load(&mut memory);
    let b = load(&mut columns);
    assert_eq!(a, b);
    assert_eq!(a.len(), 2);
}

#[test]
fn both_backends_search_alike() {
    let docs = TableSchema {
        name: "docs".to_string(),
        columns: vec![
            col("id", ColumnType::Int, false, true),
            ColumnDef { name: "body".to_string(), data_type: ColumnType::Text, is_nullable: true, is_primary: false, is_indexed: true },
        ],
    };
    let mut mem = squirrel::storage::InMemoryStorage::new();
    mem.create_table(docs.clone()).unwrap();
    let mut colf = ColumnFileStorage::new();
    colf.create_table(docs).unwrap();
    let mut row = Row::new();
    row.insert("id".to_string(), Value::Int(1));
    row.insert("body".to_string(), Value::Text("the quick fox".to_string()));
    let a = squirrel::engine::StorageEngine::insert_row(&mut mem, "docs", row.clone()).unwrap();
    let b = squirrel::engine::StorageEngine::insert_row(&mut colf, "docs", row).unwrap();
    assert_eq!(a, b);
    assert_eq!(squirrel::engine::StorageEngine::search(&mem, "docs", "QUICK"), vec![a]);
    assert_eq!(squirrel::engine::StorageEngine::search(&colf, "docs", "QUICK"), vec![b]);
    assert_eq!(colf.search("docs", "slow"), Vec::<u64>::new());
    colf.drop_table("docs").unwrap();
    assert_eq!(colf.search("docs", "quick"), Vec::<u64>::new());
}

#[test]
fn type_tags_round_trip() {
    for t in [ColumnType::Int, ColumnType::Float, ColumnType::String, ColumnType::Bool,
              ColumnType::Timestamp, ColumnType::Decimal, ColumnType::Text, ColumnType::Json] {
        assert_eq!(type_of_tag(type_tag(t)), Some(t));
    }
    assert_eq!(type_tag(ColumnType::Decimal), 6);
    assert_eq!(type_of_tag(0), None);
    assert_eq!(type_of_tag(9), None);
}
