use sqlite_reader::{
    count_table_rows, get_records_from_table, get_table_name_to_schema_map, get_tables,
    page_size_from_header, parse_create_table, parse_records, parse_select_statement, read_page,
    read_varint, run_select, scan_table, DbError, QueryResult, RecordField, Selector, SqliteSchema,
};

const PAGE: usize = 512;

fn varint(v: u64) -> Vec<u8> {
    if v > 0x00ff_ffff_ffff_ffff {
        let mut out = Vec::new();
        let top = v >> 8;
        for k in (0..8).rev() {
            out.push((((top >> (7 * k)) & 0x7f) as u8) | 0x80);
        }
        out.push((v & 0xff) as u8);
        return out;
    }
    let mut groups = vec![(v & 0x7f) as u8];
    let mut rest = v >> 7;
    while rest > 0 {
        groups.push(((rest & 0x7f) as u8) | 0x80);
        rest >>= 7;
    }
    groups.reverse();
    groups
}

enum Val<'a> {
    Int(i64),
    Text(&'a str),
}

fn record(vals: &[Val]) -> Vec<u8> {
    let mut types = Vec::new();
    let mut body = Vec::new();
    for v in vals {
        match v {
            Val::Int(x) => {
                if *x >= -128 && *x <= 127 {
                    types.extend(varint(1));
                    body.push(*x as i8 as u8);
                } else {
                    types.extend(varint(2));
                    body.extend((*x as i16).to_be_bytes());
                }
            }
            Val::Text(s) => {
                types.extend(varint(13 + 2 * s.len() as u64));
                body.extend(s.as_bytes());
            }
        }
    }
    let mut out = varint(types.len() as u64 + 1);
    out.extend(types);
    out.extend(body);
    out
}

fn put16(p: &mut [u8], at: usize, v: usize) {
    p[at] = (v >> 8) as u8;
    p[at + 1] = v as u8;
}

fn put32(p: &mut [u8], at: usize, v: u32) {
    p[at..at + 4].copy_from_slice(&v.to_be_bytes());
}

/// A leaf table page whose header starts at `h`, holding `(row id, payload)` cells.
fn leaf_page(h: usize, cells: &[(u64, Vec<u8>)]) -> Vec<u8> {
    let mut p = vec![0u8; PAGE];
    p[h] = 0x0D;
    put16(&mut p, h + 3, cells.len());
    let mut end = PAGE;
    for (k, (rowid, payload)) in cells.iter().enumerate() {
        let mut cell = varint(payload.len() as u64);
        cell.extend(varint(*rowid));
        cell.extend(payload);
        end -= cell.len();
        p[end..end + cell.len()].copy_from_slice(&cell);
        put16(&mut p, h + 8 + 2 * k, end);
    }
    put16(&mut p, h + 5, end);
    p
}

/// An interior table page (header at offset 0) with `(left child, key)` cells.
fn interior_page(cells: &[(u32, u64)], right: u32) -> Vec<u8> {
    let mut p = vec![0u8; PAGE];
    p[0] = 0x05;
    put16(&mut p, 3, cells.len());
    put32(&mut p, 8, right);
    let mut end = PAGE;
    for (k, (child, key)) in cells.iter().enumerate() {
        let mut cell = child.to_be_bytes().to_vec();
        cell.extend(varint(*key));
        end -= cell.len();
        p[end..end + cell.len()].copy_from_slice(&cell);
        put16(&mut p, 12 + 2 * k, end);
    }
    put16(&mut p, 5, end);
    p
}

fn schema_row(name: &str, root: i64, sql: &str) -> Vec<u8> {
    record(&[Val::Text("table"), Val::Text(name), Val::Text(name), Val::Int(root), Val::Text(sql)])
}

/// A file image: page 1 holds the catalog rows, the other pages follow.
fn image(catalog: &[Vec<u8>], pages: Vec<Vec<u8>>) -> Vec<u8> {
    let cells: Vec<(u64, Vec<u8>)> =
        catalog.iter().enumerate().map(|(i, r)| (i as u64 + 1, r.clone())).collect();
    let mut first = leaf_page(100, &cells);
    first[..16].copy_from_slice(b"SQLite format 3\0");
    put16(&mut first, 16, PAGE);
    let mut db = first;
    for p in pages {
        db.extend(p);
    }
    db
}

const STUDENTS_SQL: &str = "CREATE TABLE students(id integer primary key, name text)";
const GRADES_SQL: &str = "CREATE TABLE grades(student_id integer, score integer)";
const FRUITS_SQL: &str = "CREATE TABLE fruits(id integer, name text)";

/// students at page 2, grades at page 3, fruits at page 4.
fn school() -> Vec<u8> {
    let students = leaf_page(
        0,
        &[
            (1, record(&[Val::Int(1), Val::Text("ada")])),
            (2, record(&[Val::Int(2), Val::Text("bob")])),
        ],
    );
    let grades = leaf_page(0, &[(1, record(&[Val::Int(1), Val::Int(300)]))]);
    let fruits = leaf_page(
        0,
        &[
            (1, record(&[Val::Int(1), Val::Text("apple")])),
            (2, record(&[Val::Int(2), Val::Text("banana")])),
        ],
    );
    image(
        &[
            schema_row("students", 2, STUDENTS_SQL),
            schema_row("grades", 3, GRADES_SQL),
            schema_row("fruits", 4, FRUITS_SQL),
        ],
        vec![students, grades, fruits],
    )
}

/// A table `big` whose rows 1..=n lie on two leaves (pages 3 and 4) under an interior root (page 2).
fn two_level(n: u64) -> Vec<u8> {
    let half = n / 2;
    let left: Vec<(u64, Vec<u8>)> = (1..=half)
        .map(|i| (i, record(&[Val::Int(i as i64), Val::Text("l")])))
        .collect();
    let right: Vec<(u64, Vec<u8>)> = (half + 1..=n)
        .map(|i| (i, record(&[Val::Int(i as i64), Val::Text("r")])))
        .collect();
    let root = interior_page(&[(3, half)], 4);
    image(
        &[schema_row("big", 2, "CREATE TABLE big(id integer, side text)")],
        vec![root, leaf_page(0, &left), leaf_page(0, &right)],
    )
}

fn texts(rows: &[Vec<RecordField>]) -> Vec<String> {
    rows.iter()
        .map(|r| match &r[0] {
            RecordField::Text(s) => s.clone(),
            RecordField::Int8(x) => x.to_string(),
            other => format!("{:?}", other),
        })
        .collect()
}

fn columns(names: &[&str]) -> Vec<String> {
    names.iter().map(|s| s.to_string()).collect()
}

#[test]
fn test_varint_from_bytes() {
    let x: [u8; 3] = [0xAC, 0x02, 0xAA];
    let varint = read_varint(&x).unwrap().0;

    assert_eq!(varint, 5634);
}

#[test]
fn varint_reports_bytes_consumed() {
    assert_eq!(read_varint(&[0x7F]), Ok((127, 1)));
    assert_eq!(read_varint(&[0x81, 0x00, 0xFF]), Ok((128, 2)));
}

#[test]
fn varint_nine_bytes_take_all_bits_of_the_last() {
    let bytes = [0xFF; 9];
    assert_eq!(read_varint(&bytes), Ok((u64::MAX, 9)));
    let tail = [0x80, 0x80, 0x80, 0x80, 0x80, 0x80, 0x80, 0x80, 0x80, 0x05];
    assert_eq!(read_varint(&tail), Ok((0x80, 9)));
}

#[test]
fn varint_round_trip_on_samples() {
    for v in [0u64, 1, 127, 128, 16383, 16384, 0xFFFF_FFFF, 1 << 56, u64::MAX - 1, u64::MAX] {
        let e = varint(v);
        assert_eq!(read_varint(&e), Ok((v, e.len())));
    }
}

#[test]
fn varint_truncated_fails() {
    assert_eq!(read_varint(&[]), Err(DbError::Format));
    assert_eq!(read_varint(&[0x81, 0x80]), Err(DbError::Format));
    let e = varint(1 << 40);
    assert_eq!(read_varint(&e[..e.len() - 1]), Err(DbError::Format));
}

#[test]
fn record_decodes_each_serial_type() {
    let mut header = vec![];
    for t in [0u64, 1, 2, 3, 4, 5, 6, 7, 8, 9, 12 + 2 * 2, 13 + 2 * 2] {
        header.extend(varint(t));
    }
    let mut payload = varint(header.len() as u64 + 1);
    payload.extend(header);
    payload.push(0xFE); // 1: -2
    payload.extend([0x01, 0x00]); // 2: 256
    payload.extend([0xFF, 0xFF, 0xFD]); // 3: -3
    payload.extend([0x00, 0x01, 0x00, 0x00]); // 4: 65536
    payload.extend([0x80, 0, 0, 0, 0, 0]); // 5: -2^47
    payload.extend(7i64.to_be_bytes()); // 6: 7
    payload.extend(1.5f64.to_be_bytes()); // 7
    payload.extend([0xAB, 0xCD]); // blob
    payload.extend(b"hi"); // text
    let fields = parse_records(&payload).unwrap();
    assert_eq!(
        fields,
        vec![
            RecordField::Null,
            RecordField::Int8(-2),
            RecordField::Int16(256),
            RecordField::Int24(-3),
            RecordField::Int32(65536),
            RecordField::Int48(-(1i64 << 47)),
            RecordField::Int64(7),
            RecordField::Float64(1.5f64.to_bits()),
            RecordField::Zero,
            RecordField::One,
            RecordField::Blob(vec![0xAB, 0xCD]),
            RecordField::Text("hi".to_string()),
        ]
    );
}

#[test]
fn record_with_reserved_type_decodes_internal() {
    let payload = vec![3, 10, 11];
    assert_eq!(parse_records(&payload), Ok(vec![RecordField::Internal, RecordField::Internal]));
}

#[test]
fn record_field_parse_reports_width() {
    assert_eq!(RecordField::parse_from_bytes(5, &[0, 0, 0, 0, 1, 0, 9]), Ok((RecordField::Int48(256), 6)));
    assert_eq!(RecordField::parse_from_bytes(2, &[1]), Err(DbError::Format));
}

#[test]
fn record_rejects_bad_text_and_short_body() {
    assert_eq!(parse_records(&[2, 15, 0xFF]), Err(DbError::Format));
    assert_eq!(parse_records(&[2, 17, b'a']), Err(DbError::Format));
    // leftover body bytes break the width invariant
    assert_eq!(parse_records(&[2, 1, 5, 6]), Err(DbError::Format));
}

#[test]
fn page_size_header() {
    let mut h = vec![0u8; 100];
    h[16] = 0x10;
    assert_eq!(page_size_from_header(&h), Ok(4096));
    h[16] = 0;
    h[17] = 1;
    assert_eq!(page_size_from_header(&h), Ok(65536));
    h[17] = 0;
    h[16] = 0x03;
    assert_eq!(page_size_from_header(&h), Err(DbError::Format));
    assert_eq!(page_size_from_header(&h[..99]), Err(DbError::Io));
}

#[test]
fn read_page_bounds() {
    let db = school();
    assert_eq!(read_page(&db, 512, 2).unwrap(), db[512..1024].to_vec());
    assert_eq!(read_page(&db, 512, 0), Err(DbError::Format));
    assert_eq!(read_page(&db, 512, 5), Err(DbError::Io));
}

#[test]
fn btree_two_levels_in_key_order() {
    let db = two_level(10);
    let rows = scan_table(&db, 512, 2).unwrap();
    let ids: Vec<u64> = rows.iter().map(|r| r.0).collect();
    assert_eq!(ids, (1..=10).collect::<Vec<u64>>());
    assert_eq!(parse_records(&rows[0].1).unwrap()[1], RecordField::Text("l".to_string()));
    assert_eq!(parse_records(&rows[9].1).unwrap()[1], RecordField::Text("r".to_string()));
}

#[test]
fn btree_rejects_index_pages_and_cycles() {
    let mut db = two_level(4);
    db[3 * 512] = 0x0A;
    assert_eq!(scan_table(&db, 512, 2), Err(DbError::Format));
    let mut cyclic = two_level(4);
    cyclic[512 + 8..512 + 12].copy_from_slice(&2u32.to_be_bytes());
    assert_eq!(scan_table(&cyclic, 512, 2), Err(DbError::Format));
}

#[test]
fn schema_catalog_lists_tables() {
    let db = school();
    let tables = get_tables(&db).unwrap();
    let summary: Vec<(String, u64, String)> =
        tables.iter().map(|t| (t.tbl_name.clone(), t.rootpage, t.sql.clone())).collect();
    assert_eq!(
        summary,
        vec![
            ("students".to_string(), 2, STUDENTS_SQL.to_string()),
            ("grades".to_string(), 3, GRADES_SQL.to_string()),
            ("fruits".to_string(), 4, FRUITS_SQL.to_string()),
        ]
    );
    assert_eq!(tables[0].schema_type, "table");
}

#[test]
fn schema_map_keeps_last_of_a_name() {
    let db = image(
        &[schema_row("t", 2, "CREATE TABLE t(a)"), schema_row("u", 3, "CREATE TABLE u(b)"), schema_row("t", 4, "CREATE TABLE t(c)")],
        vec![leaf_page(0, &[]), leaf_page(0, &[]), leaf_page(0, &[])],
    );
    let map = get_table_name_to_schema_map(&db).unwrap();
    let names: Vec<(String, u64)> = map.iter().map(|t| (t.tbl_name.clone(), t.rootpage)).collect();
    assert_eq!(names, vec![("u".to_string(), 3), ("t".to_string(), 4)]);
}

#[test]
fn schema_entry_from_bytes_reads_wide_root_page() {
    let payload = record(&[Val::Text("table"), Val::Text("x"), Val::Text("x"), Val::Int(300), Val::Text("")]);
    let e: SqliteSchema = SqliteSchema::from_bytes(&payload).unwrap();
    assert_eq!(e.rootpage, 300);
    let bad = record(&[Val::Text("table"), Val::Text("x"), Val::Text("x"), Val::Text("2"), Val::Text("")]);
    assert_eq!(SqliteSchema::from_bytes(&bad).map(|e| e.rootpage), Err(DbError::Format));
}

#[test]
fn count_spans_leaf_pages() {
    let db = two_level(40);
    assert_eq!(count_table_rows("big", &db), Ok(40));
}

#[test]
fn count_small_tables_and_unknown() {
    let db = school();
    assert_eq!(count_table_rows("students", &db), Ok(2));
    assert_eq!(count_table_rows("grades", &db), Ok(1));
    assert_eq!(count_table_rows("teachers", &db), Err(DbError::Schema));
    assert_eq!(count_table_rows("students", &db[..50]), Err(DbError::Io));
}

#[test]
fn select_fruit_names() {
    let db = school();
    let rows = get_records_from_table("fruits", &columns(&["name"]), &None, &db).unwrap();
    assert_eq!(texts(&rows), vec!["apple", "banana"]);
}

#[test]
fn select_with_filter() {
    let db = school();
    let cond = Some(("name".to_string(), "banana".to_string()));
    let rows = get_records_from_table("fruits", &columns(&["id"]), &cond, &db).unwrap();
    assert_eq!(texts(&rows), vec!["2"]);
    let by_id = Some(("id".to_string(), "1".to_string()));
    let rows = get_records_from_table("fruits", &columns(&["name", "id"]), &by_id, &db).unwrap();
    assert_eq!(rows, vec![vec![RecordField::Text("apple".to_string()), RecordField::Int8(1)]]);
}

#[test]
fn select_unknown_column_or_table() {
    let db = school();
    assert_eq!(get_records_from_table("fruits", &columns(&["colour"]), &None, &db), Err(DbError::Schema));
    let cond = Some(("colour".to_string(), "red".to_string()));
    assert_eq!(get_records_from_table("fruits", &columns(&["id"]), &cond, &db), Err(DbError::Schema));
    assert_eq!(get_records_from_table("veg", &columns(&["id"]), &None, &db), Err(DbError::Schema));
}

#[test]
fn repeated_queries_agree() {
    let db = school();
    let before = db.clone();
    let a = get_records_from_table("fruits", &columns(&["name"]), &None, &db);
    let b = get_records_from_table("fruits", &columns(&["name"]), &None, &db);
    assert_eq!(a, b);
    assert_eq!(count_table_rows("fruits", &db), count_table_rows("fruits", &db));
    assert_eq!(db, before);
}

#[test]
fn test_parse_field_from_create_table() {
    let statement = "CREATE TABLE student\n(\n\tid integer primary key autoincrement,\n\tname text,\n\tclass text\n)";
    let parsed = parse_create_table(statement).unwrap();
    assert_eq!(parsed, vec!["id", "name", "class"]);
}

#[test]
fn create_table_with_nested_parentheses() {
    let parsed = parse_create_table("CREATE TABLE t (a varchar(10, 2), b int)").unwrap();
    assert_eq!(parsed, vec!["a", "b"]);
    assert_eq!(parse_create_table("CREATE TABLE t"), Err(DbError::Parse));
    assert_eq!(parse_create_table("CREATE TABLE t (a"), Err(DbError::Parse));
}

#[test]
fn test_parse_select_statement() {
    let statement = "select butterscotch, pistachio from mango where name = 'super mango'";
    let parsed = parse_select_statement(statement).unwrap();
    match &parsed.selector {
        Selector::Columns(cols) => assert_eq!(cols, &vec!["butterscotch", "pistachio"]),
        Selector::CountAll => panic!("expected columns"),
    }
    assert_eq!(parsed.from, "mango");
    assert_eq!(parsed.condition, Some(("name".to_string(), "super mango".to_string())));
}

#[test]
fn parse_count_and_keyword_case() {
    let parsed = parse_select_statement("SELECT COUNT(*) FROM apples").unwrap();
    assert!(matches!(parsed.selector, Selector::CountAll));
    assert_eq!(parsed.from, "apples");
    assert_eq!(parsed.condition, None);
    let parsed = parse_select_statement("Select id From fruits Where name=\"banana\"").unwrap();
    assert_eq!(parsed.condition, Some(("name".to_string(), "banana".to_string())));
}

#[test]
fn parse_errors() {
    assert_eq!(parse_select_statement("select a b").map(|_| ()), Err(DbError::Parse));
    assert_eq!(parse_select_statement("select from t").map(|_| ()), Err(DbError::Parse));
    assert_eq!(parse_select_statement("select a from t where").map(|_| ()), Err(DbError::Parse));
    assert_eq!(parse_select_statement("select a from t where b = 'x").map(|_| ()), Err(DbError::Parse));
}

#[test]
fn index_entries_do_not_hide_their_table() {
    let index_row = record(&[
        Val::Text("index"),
        Val::Text("by_name"),
        Val::Text("t"),
        Val::Int(3),
        Val::Text("CREATE INDEX by_name ON t(name)"),
    ]);
    let table = leaf_page(0, &[(1, record(&[Val::Int(1), Val::Text("x")]))]);
    let index = vec![0u8; PAGE];
    let db = image(&[schema_row("t", 2, "CREATE TABLE t(id, name)"), index_row], vec![table, index]);
    assert_eq!(count_table_rows("t", &db), Ok(1));
    assert_eq!(get_tables(&db).unwrap().len(), 2);
}

#[test]
fn run_select_counts_and_projects() {
    let db = school();
    let count = parse_select_statement("SELECT COUNT(*) FROM fruits").unwrap();
    assert_eq!(run_select(&count, &db), Ok(QueryResult::Count(2)));
    let filtered = parse_select_statement("select count(*) from fruits where name = 'apple'").unwrap();
    assert_eq!(run_select(&filtered, &db), Ok(QueryResult::Count(1)));
    let names = parse_select_statement("SELECT name FROM fruits").unwrap();
    assert_eq!(
        run_select(&names, &db),
        Ok(QueryResult::Rows(vec![
            vec![RecordField::Text("apple".to_string())],
            vec![RecordField::Text("banana".to_string())],
        ]))
    );
    let unknown = parse_select_statement("SELECT colour FROM fruits").unwrap();
    assert_eq!(run_select(&unknown, &db), Err(DbError::Schema));
}
