use vstd::prelude::*;

use crate::btree::{rows_view, scan_table, table_rows};
use crate::error::DbError;
use crate::page::{declared_page_size, is_valid_page_size, page_size_from_header};
use crate::sqlite_schema::{schema_of, schema_record_ok, schema_view, SchemaView, SqliteSchema};

verus! {

broadcast use vstd::utf8::group_utf8_lib;

/// The page size of the file image `db`, or why it has none.
pub open spec fn db_page_size(db: Seq<u8>) -> Result<nat, DbError> {
    if db.len() < 100 {
        Err(DbError::Io)
    } else if !is_valid_page_size(declared_page_size(db)) {
        Err(DbError::Format)
    } else {
        Ok(declared_page_size(db))
    }
}

/// The entries of a list of catalog rows, as values.
pub open spec fn schemas_view(es: Seq<SqliteSchema>) -> Seq<SchemaView> {
    es.map_values(|e: SqliteSchema| schema_view(e))
}

/// The schema catalog of the file image `db`: the table rooted at page 1,
/// each row decoded into an entry, in key order.
pub open spec fn catalog(db: Seq<u8>) -> Result<Seq<SchemaView>, DbError> {
    match db_page_size(db) {
        Err(e) => Err(e),
        Ok(ps) => match table_rows(db, ps, 1) {
            None => Err(DbError::Format),
            Some(rows) => if forall|i: int| 0 <= i < rows.len() ==> #[trigger] schema_record_ok(rows[i].1) {
                Ok(rows.map_values(|r: (u64, Seq<u8>)| schema_of(r.1)))
            } else {
                Err(DbError::Format)
            },
        },
    }
}

/// Whether the catalog entry `e` describes the table `name` itself (and not
/// an index, view or trigger that belongs to it).
pub open spec fn describes_table(e: SchemaView, name: Seq<char>) -> bool {
    e.0 == seq!['t', 'a', 'b', 'l', 'e'] && e.2 == name
}

/// The entry for table `name`: the last catalog entry of type `table` with that table name.
pub open spec fn lookup(cat: Seq<SchemaView>, name: Seq<char>) -> Option<SchemaView>
    decreases cat.len(),
{
    if cat.len() == 0 {
        None
    } else if describes_table(cat.last(), name) {
        Some(cat.last())
    } else {
        lookup(cat.drop_last(), name)
    }
}

/// `m` without its entries for table `name`.
pub open spec fn remove_name(m: Seq<SchemaView>, name: Seq<char>) -> Seq<SchemaView>
    decreases m.len(),
{
    if m.len() == 0 {
        Seq::empty()
    } else if m.last().2 == name {
        remove_name(m.drop_last(), name)
    } else {
        remove_name(m.drop_last(), name).push(m.last())
    }
}

/// The catalog keyed by table name: entries inserted in catalog order, each
/// replacing the earlier one of the same table name.
pub open spec fn name_map(cat: Seq<SchemaView>) -> Seq<SchemaView>
    decreases cat.len(),
{
    if cat.len() == 0 {
        Seq::empty()
    } else {
        remove_name(name_map(cat.drop_last()), cat.last().2).push(cat.last())
    }
}

/// The number of rows of table `name` in the file image `db`.
pub open spec fn count_spec(db: Seq<u8>, name: Seq<char>) -> Result<nat, DbError> {
    match catalog(db) {
        Err(e) => Err(e),
        Ok(cat) => match lookup(cat, name) {
            None => Err(DbError::Schema),
            Some(e) => match table_rows(db, declared_page_size(db), e.3) {
                None => Err(DbError::Format),
                Some(rows) => Ok(rows.len()),
            },
        },
    }
}

/// Whether two strings hold the same characters, compared through their UTF-8 bytes.
pub fn same_text(a: &str, b: &str) -> (r: bool)
    ensures
        r == (a@ == b@),
{
    let x = a.as_bytes();
    let y = b.as_bytes();
    proof {
        vstd::utf8::encode_utf8_decode_utf8(a@);
        vstd::utf8::encode_utf8_decode_utf8(b@);
    }
    if x.len() != y.len() {
        return false;
    }
    let mut i: usize = 0;
    while i < x.len()
        invariant
            x@.len() == y@.len(),
            x@ == vstd::utf8::encode_utf8(a@),
            y@ == vstd::utf8::encode_utf8(b@),
            i <= x@.len(),
            forall|j: int| 0 <= j < i ==> x@[j] == y@[j],
        decreases x@.len() - i,
    {
        if x[i] != y[i] {
            return false;
        }
        i = i + 1;
    }
    proof {
        assert(x@ =~= y@);
    }
    true
}

/// Reads the page size from the header of the file image `db`.
pub fn db_header_page_size(db: &[u8]) -> (r: Result<u32, DbError>)
    ensures
        match db_page_size(db@) {
            Ok(ps) => r == Ok::<u32, DbError>(ps as u32) && is_valid_page_size(ps),
            Err(e) => r == Err::<u32, DbError>(e),
        },
{
    page_size_from_header(db)
}

/// Every entry of the schema catalog of the file image `db`, in key order.
pub fn get_tables(db: &[u8]) -> (r: Result<Vec<SqliteSchema>, DbError>)
    ensures
        match catalog(db@) {
            Ok(c) => r matches Ok(v) && schemas_view(v@) == c,
            Err(e) => r == Err::<Vec<SqliteSchema>, DbError>(e),
        },
{
    let ps = db_header_page_size(db)?;
    let rows = scan_table(db, ps, 1)?;
    let ghost rv = rows_view(rows@);
    let mut tables: Vec<SqliteSchema> = Vec::new();
    let mut i: usize = 0;
    while i < rows.len()
        invariant
            rv == rows_view(rows@),
            table_rows(db@, ps as nat, 1) == Some(rv),
            db_page_size(db@) == Ok::<nat, DbError>(ps as nat),
            i <= rows@.len(),
            forall|j: int| 0 <= j < i ==> #[trigger] schema_record_ok(rv[j].1),
            schemas_view(tables@) =~= rv.subrange(0, i as int).map_values(
                |r: (u64, Seq<u8>)| schema_of(r.1),
            ),
        decreases rows@.len() - i,
    {
        let e = match SqliteSchema::from_bytes(rows[i].1.as_slice()) {
            Ok(e) => e,
            Err(err) => {
                proof {
                    assert(!schema_record_ok(rv[i as int].1));
                }
                return Err(err);
            },
        };
        let ghost before = tables@;
        tables.push(e);
        proof {
            assert(rv.subrange(0, i + 1) =~= rv.subrange(0, i as int).push(rv[i as int]));
            assert(schemas_view(tables@) =~= schemas_view(before).push(schema_view(e)));
        }
        i = i + 1;
    }
    proof {
        assert(rv.subrange(0, i as int) =~= rv);
    }
    Ok(tables)
}

/// Finds the entry of table `name` among the catalog entries `tables`: the
/// last one of type `table`.
pub fn find_table(tables: &Vec<SqliteSchema>, name: &str) -> (r: Option<usize>)
    ensures
        lookup(schemas_view(tables@), name@) is None <==> r is None,
        r matches Some(i) ==> i < tables@.len() && lookup(schemas_view(tables@), name@) == Some(
            schema_view(tables@[i as int]),
        ),
{
    let mut k: usize = tables.len();
    proof {
        assert(tables@.subrange(0, k as int) =~= tables@);
    }
    while k > 0
        invariant
            k <= tables@.len(),
            lookup(schemas_view(tables@), name@) == lookup(
                schemas_view(tables@.subrange(0, k as int)),
                name@,
            ),
        decreases k,
    {
        proof {
            assert(schemas_view(tables@.subrange(0, k - 1)) =~= schemas_view(
                tables@.subrange(0, k as int),
            ).drop_last());
            reveal_strlit("table");
            assert("table"@ =~= seq!['t', 'a', 'b', 'l', 'e']);
        }
        if same_text(tables[k - 1].schema_type.as_str(), "table") && same_text(
            tables[k - 1].tbl_name.as_str(),
            name,
        ) {
            return Some(k - 1);
        }
        k = k - 1;
    }
    proof {
        assert(schemas_view(tables@.subrange(0, 0)) =~= Seq::<SchemaView>::empty());
    }
    None
}

/// `tables` without the entries of table `name`.
fn remove_table(tables: Vec<SqliteSchema>, name: &str) -> (r: Vec<SqliteSchema>)
    ensures
        schemas_view(r@) == remove_name(schemas_view(tables@), name@),
{
    let mut kept: Vec<SqliteSchema> = Vec::new();
    let mut i: usize = 0;
    while i < tables.len()
        invariant
            i <= tables@.len(),
            schemas_view(kept@) == remove_name(schemas_view(tables@.subrange(0, i as int)), name@),
        decreases tables@.len() - i,
    {
        proof {
            assert(schemas_view(tables@.subrange(0, i + 1)).drop_last() =~= schemas_view(
                tables@.subrange(0, i as int),
            ));
            assert(schemas_view(kept@.push(tables@[i as int])) =~= schemas_view(kept@).push(
                schema_view(tables@[i as int]),
            ));
        }
        if !same_text(tables[i].tbl_name.as_str(), name) {
            kept.push(tables[i].clone_entry());
        }
        i = i + 1;
    }
    proof {
        assert(tables@.subrange(0, i as int) =~= tables@);
    }
    kept
}

/// The schema catalog of the file image `db` keyed by table name: one entry
/// per table name, the catalog's last for that name.
pub fn get_table_name_to_schema_map(db: &[u8]) -> (r: Result<Vec<SqliteSchema>, DbError>)
    ensures
        match catalog(db@) {
            Ok(c) => r matches Ok(v) && schemas_view(v@) == name_map(c),
            Err(e) => r == Err::<Vec<SqliteSchema>, DbError>(e),
        },
{
    let tables = get_tables(db)?;
    let ghost c = schemas_view(tables@);
    let mut map: Vec<SqliteSchema> = Vec::new();
    let mut i: usize = 0;
    while i < tables.len()
        invariant
            c == schemas_view(tables@),
            i <= tables@.len(),
            schemas_view(map@) == name_map(c.subrange(0, i as int)),
        decreases tables@.len() - i,
    {
        let e = tables[i].clone_entry();
        proof {
            assert(c.subrange(0, i + 1).drop_last() =~= c.subrange(0, i as int));
        }
        let mut rest = remove_table(map, tables[i].tbl_name.as_str());
        let ghost before = rest@;
        rest.push(e);
        proof {
            assert(schemas_view(rest@) =~= schemas_view(before).push(schema_view(e)));
        }
        map = rest;
        i = i + 1;
    }
    proof {
        assert(c.subrange(0, i as int) =~= c);
    }
    Ok(map)
}

/// The number of rows of table `table_name` in the file image `db`: every leaf
/// row of its B-tree, however many pages it spans. Fails with `Schema` when
/// the catalog has no such table.
pub fn count_table_rows(table_name: &str, db: &[u8]) -> (r: Result<u64, DbError>)
    ensures
        match count_spec(db@, table_name@) {
            Ok(n) => r == Ok::<u64, DbError>(n as u64),
            Err(e) => r == Err::<u64, DbError>(e),
        },
{
    let ps = db_header_page_size(db)?;
    let tables = get_tables(db)?;
    let k = match find_table(&tables, table_name) {
        Some(k) => k,
        None => {
            return Err(DbError::Schema);
        },
    };
    let rows = scan_table(db, ps, tables[k].rootpage)?;
    proof {
        assert(rows_view(rows@).len() == rows@.len());
    }
    Ok(rows.len() as u64)
}

} // verus!
