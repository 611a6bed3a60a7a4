use vstd::prelude::*;
use vstd::utf8::decode_utf8;

use crate::error::DbError;
use crate::record::{
    be_uint, field_matches, is_text_type, parse_records, pow256, record_field_bytes, record_ok,
    record_types, RecordField,
};

verus! {

/// One row of the schema catalog: an object of the database and where its B-tree starts.
#[derive(Debug, Clone)]
pub struct SqliteSchema {
    /// "table", "index", "view" or "trigger".
    pub schema_type: String,
    pub name: String,
    /// The table that the object belongs to.
    pub tbl_name: String,
    /// The root page of the object's B-tree.
    pub rootpage: u64,
    /// The statement that defined the object.
    pub sql: String,
}

/// A catalog row as values: type, name, table name, root page, SQL text.
pub type SchemaView = (Seq<char>, Seq<char>, Seq<char>, nat, Seq<char>);

/// The values of a catalog entry.
pub open spec fn schema_view(e: SqliteSchema) -> SchemaView {
    (e.schema_type@, e.name@, e.tbl_name@, e.rootpage as nat, e.sql@)
}

/// Whether the payload `p` is a catalog row: five fields, the first three
/// text, the fourth an integer (one to eight bytes) naming a page, the fifth
/// text or NULL.
pub open spec fn schema_record_ok(p: Seq<u8>) -> bool {
    &&& record_ok(p)
    &&& record_types(p).len() == 5
    &&& is_text_type(record_types(p)[0])
    &&& is_text_type(record_types(p)[1])
    &&& is_text_type(record_types(p)[2])
    &&& 1 <= record_types(p)[3] <= 6
    &&& be_uint(record_field_bytes(p, 3)) >= 1
    &&& (is_text_type(record_types(p)[4]) || record_types(p)[4] == 0)
}

/// The catalog entry that the catalog row `p` holds; the root page is the
/// stored integer's bytes read as an unsigned number, and a NULL SQL text is empty.
pub open spec fn schema_of(p: Seq<u8>) -> SchemaView {
    (
        decode_utf8(record_field_bytes(p, 0)),
        decode_utf8(record_field_bytes(p, 1)),
        decode_utf8(record_field_bytes(p, 2)),
        be_uint(record_field_bytes(p, 3)),
        if record_types(p)[4] == 0 {
            Seq::empty()
        } else {
            decode_utf8(record_field_bytes(p, 4))
        },
    )
}

proof fn lemma_be_uint_bound(b: Seq<u8>)
    ensures
        be_uint(b) < pow256(b.len()),
    decreases b.len(),
{
    if b.len() > 0 {
        lemma_be_uint_bound(b.drop_last());
        let u = be_uint(b.drop_last());
        let p = pow256(b.drop_last().len());
        assert(u * 256 + b.last() < 256 * p) by (nonlinear_arith)
            requires
                u < p,
                b.last() < 256,
        ;
    }
}

/// The unsigned reading of a stored integer field: its bytes as a big-endian
/// unsigned number. `None` for a field that is not an integer of one to eight bytes.
fn unsigned_value(f: &RecordField, Ghost(t): Ghost<nat>, Ghost(b): Ghost<Seq<u8>>) -> (r: Option<u64>)
    requires
        field_matches(t, b, *f),
        b.len() == crate::record::serial_width(t),
    ensures
        r is Some <==> 1 <= t <= 6,
        r matches Some(u) ==> u as nat == be_uint(b),
{
    proof {
        lemma_be_uint_bound(b);
        reveal_with_fuel(pow256, 9);
    }
    match f {
        RecordField::Int8(x) => Some(
            if *x < 0 {
                (*x as i64 + 0x100) as u64
            } else {
                *x as u64
            },
        ),
        RecordField::Int16(x) => Some(
            if *x < 0 {
                (*x as i64 + 0x1_0000) as u64
            } else {
                *x as u64
            },
        ),
        RecordField::Int24(x) => Some(
            if *x < 0 {
                (*x as i64 + 0x100_0000) as u64
            } else {
                *x as u64
            },
        ),
        RecordField::Int32(x) => Some(
            if *x < 0 {
                (*x as i64 + 0x1_0000_0000) as u64
            } else {
                *x as u64
            },
        ),
        RecordField::Int48(x) => Some(
            if *x < 0 {
                (*x + 0x1_0000_0000_0000) as u64
            } else {
                *x as u64
            },
        ),
        RecordField::Int64(x) => Some(
            if *x < 0 {
                ((*x - i64::MIN) as u64) + 0x8000_0000_0000_0000
            } else {
                *x as u64
            },
        ),
        _ => None,
    }
}

impl SqliteSchema {

/// A copy of this entry.
pub fn clone_entry(&self) -> (r: SqliteSchema)
    ensures
        r == *self,
{
    SqliteSchema {
        schema_type: self.schema_type.clone(),
        name: self.name.clone(),
        tbl_name: self.tbl_name.clone(),
        rootpage: self.rootpage,
        sql: self.sql.clone(),
    }
}

/// Decodes a catalog row from its record payload. Fails with `Format` when the
/// payload is not a well-formed record of five fields of the catalog's shapes.
pub fn from_bytes(payload: &[u8]) -> (r: Result<SqliteSchema, DbError>)
    ensures
        r is Ok <==> schema_record_ok(payload@),
        r matches Ok(e) ==> schema_view(e) == schema_of(payload@),
        r is Err ==> r == Err::<SqliteSchema, DbError>(DbError::Format),
{
    let fields = parse_records(payload)?;
    let ghost ts = record_types(payload@);
    proof {
        assert(record_ok(payload@));
    }
    if fields.len() != 5 {
        return Err(DbError::Format);
    }
    proof {
        assert(field_matches(ts[0], record_field_bytes(payload@, 0), fields@[0]));
        assert(field_matches(ts[1], record_field_bytes(payload@, 1), fields@[1]));
        assert(field_matches(ts[2], record_field_bytes(payload@, 2), fields@[2]));
        assert(field_matches(ts[3], record_field_bytes(payload@, 3), fields@[3]));
        assert(field_matches(ts[4], record_field_bytes(payload@, 4), fields@[4]));
    }
    let schema_type = match &fields[0] {
        RecordField::Text(s) => s.clone(),
        _ => {
            return Err(DbError::Format);
        },
    };
    let name = match &fields[1] {
        RecordField::Text(s) => s.clone(),
        _ => {
            return Err(DbError::Format);
        },
    };
    let tbl_name = match &fields[2] {
        RecordField::Text(s) => s.clone(),
        _ => {
            return Err(DbError::Format);
        },
    };
    let ghost b3 = record_field_bytes(payload@, 3);
    proof {
        assert(b3.len() == crate::record::serial_width(ts[3])) by {
            crate::record::lemma_field_bytes_len(payload@, 3);
        }
    }
    let rootpage = match unsigned_value(&fields[3], Ghost(ts[3]), Ghost(b3)) {
        Some(u) => u,
        None => {
            return Err(DbError::Format);
        },
    };
    if rootpage == 0 {
        return Err(DbError::Format);
    }
    let sql = match &fields[4] {
        RecordField::Text(s) => s.clone(),
        RecordField::Null => String::new(),
        _ => {
            return Err(DbError::Format);
        },
    };
    Ok(SqliteSchema { schema_type, name, tbl_name, rootpage, sql })
}

}

} // verus!
