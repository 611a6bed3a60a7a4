use vstd::prelude::*;
use vstd::utf8::decode_utf8;

use crate::btree::{rows_view, scan_table, table_rows};
use crate::catalog::{
    catalog, count_spec, db_header_page_size, find_table, get_tables, lookup, same_text,
    schemas_view,
};
use crate::error::DbError;
use crate::page::declared_page_size;
use crate::record::{
    be_int, field_matches, is_text_type, parse_records, record_field_bytes, record_ok,
    record_types, serial_width, RecordField,
};
use crate::sqlite_schema::{schema_view, SchemaView};
use crate::catalog::count_table_rows;
use crate::sql_parser::{
    chars_of, parse_create_table, strings_view, table_columns, SelectStatement, Selector,
};

verus! {

/// The decimal digit `d`.
pub open spec fn digit_char(d: nat) -> char {
    if d == 0 {
        '0'
    } else if d == 1 {
        '1'
    } else if d == 2 {
        '2'
    } else if d == 3 {
        '3'
    } else if d == 4 {
        '4'
    } else if d == 5 {
        '5'
    } else if d == 6 {
        '6'
    } else if d == 7 {
        '7'
    } else if d == 8 {
        '8'
    } else {
        '9'
    }
}

/// The decimal digits of `n`, without leading zeros.
pub open spec fn nat_text(n: nat) -> Seq<char>
    decreases n,
{
    if n < 10 {
        seq![digit_char(n)]
    } else {
        nat_text(n / 10).push(digit_char(n % 10))
    }
}

/// The decimal text of `x`, with a leading `-` when it is negative.
pub open spec fn int_text(x: int) -> Seq<char> {
    if x < 0 {
        seq!['-'] + nat_text((-x) as nat)
    } else {
        nat_text(x as nat)
    }
}

/// Reading a file image changes nothing and keeps nothing between calls: the
/// same image and the same query give the same row count and the same rows,
/// however often they are asked for.
pub proof fn lemma_queries_repeatable(
    db1: Seq<u8>,
    db2: Seq<u8>,
    table: Seq<char>,
    cols: Seq<Seq<char>>,
    cond: Option<(Seq<char>, Seq<char>)>,
)
    requires
        db1 == db2,
    ensures
        count_spec(db1, table) == count_spec(db2, table),
        select_spec(db1, table, cols, cond) == select_spec(db2, table, cols, cond),
{
}

/// The textual form of the field of serial type `t` stored in the bytes `b`:
/// `NULL`, an integer in decimal, or the text itself. Blobs, floats and the
/// reserved types have none here.
pub open spec fn field_text(t: nat, b: Seq<u8>) -> Option<Seq<char>> {
    if t == 0 {
        Some(seq!['N', 'U', 'L', 'L'])
    } else if 1 <= t <= 6 {
        Some(int_text(be_int(b, serial_width(t))))
    } else if t == 8 {
        Some(seq!['0'])
    } else if t == 9 {
        Some(seq!['1'])
    } else if is_text_type(t) {
        Some(decode_utf8(b))
    } else {
        None
    }
}

/// The position of the first of the first `n` names that equals `c`.
pub open spec fn index_in(names: Seq<Seq<char>>, c: Seq<char>, n: nat) -> Option<nat>
    decreases n,
{
    if n == 0 {
        None
    } else {
        match index_in(names, c, (n - 1) as nat) {
            Some(k) => Some(k),
            None => if names[n - 1] == c {
                Some((n - 1) as nat)
            } else {
                None
            },
        }
    }
}

/// The position of the column `c` among the column names `names`.
pub open spec fn column_index(names: Seq<Seq<char>>, c: Seq<char>) -> Option<nat> {
    index_in(names, c, names.len())
}

/// The positions of the columns `cols` among the column names `names`, or
/// `None` when one of them is not there.
pub open spec fn column_indices(names: Seq<Seq<char>>, cols: Seq<Seq<char>>) -> Option<Seq<nat>>
    decreases cols.len(),
{
    if cols.len() == 0 {
        Some(Seq::empty())
    } else {
        match column_indices(names, cols.drop_last()) {
            None => None,
            Some(idx) => match column_index(names, cols.last()) {
                None => None,
                Some(k) => Some(idx.push(k)),
            },
        }
    }
}

/// What a query on the file image `db` resolves to before any row is read:
/// the table's root page, the positions of the projected columns, and the
/// position and literal of the filter.
pub open spec fn select_plan(
    db: Seq<u8>,
    table: Seq<char>,
    cols: Seq<Seq<char>>,
    cond: Option<(Seq<char>, Seq<char>)>,
) -> Result<(nat, Seq<nat>, Option<(nat, Seq<char>)>), DbError> {
    match catalog(db) {
        Err(e) => Err(e),
        Ok(cat) => match lookup(cat, table) {
            None => Err(DbError::Schema),
            Some(entry) => match table_columns(entry.4) {
                None => Err(DbError::Parse),
                Some(names) => match column_indices(names, cols) {
                    None => Err(DbError::Schema),
                    Some(idx) => match cond {
                        None => Ok((entry.3, idx, None)),
                        Some((c, lit)) => match column_index(names, c) {
                            None => Err(DbError::Schema),
                            Some(fi) => Ok((entry.3, idx, Some((fi, lit)))),
                        },
                    },
                },
            },
        },
    }
}

/// Whether the record `p` passes the filter `filt`: its filter field's text
/// equals the literal exactly.
pub open spec fn row_kept(p: Seq<u8>, filt: Option<(nat, Seq<char>)>) -> bool {
    match filt {
        None => true,
        Some((fi, lit)) => field_text(record_types(p)[fi as int], record_field_bytes(p, fi as int))
            == Some(lit),
    }
}

/// Whether the serial type `t` is one of the reserved ones.
pub open spec fn is_reserved_type(t: nat) -> bool {
    t == 10 || t == 11
}

/// Whether the row payload `p` can be read by the query: a well-formed record
/// that holds the filter column and, when kept, every projected column, none
/// of them of a reserved type.
pub open spec fn row_ok(p: Seq<u8>, idx: Seq<nat>, filt: Option<(nat, Seq<char>)>) -> bool {
    &&& record_ok(p)
    &&& (filt matches Some((fi, _)) ==> fi < record_types(p).len())
    &&& (row_kept(p, filt) ==> forall|k: int|
        0 <= k < idx.len() ==> #[trigger] idx[k] < record_types(p).len() && !is_reserved_type(
            record_types(p)[idx[k] as int],
        ))
}

/// The payloads of the rows that pass the filter, in order.
pub open spec fn kept_rows(rows: Seq<(u64, Seq<u8>)>, filt: Option<(nat, Seq<char>)>) -> Seq<Seq<u8>>
    decreases rows.len(),
{
    if rows.len() == 0 {
        Seq::empty()
    } else if row_kept(rows.last().1, filt) {
        kept_rows(rows.drop_last(), filt).push(rows.last().1)
    } else {
        kept_rows(rows.drop_last(), filt)
    }
}

/// The payloads whose projections a query returns, and the projected positions.
pub open spec fn select_spec(
    db: Seq<u8>,
    table: Seq<char>,
    cols: Seq<Seq<char>>,
    cond: Option<(Seq<char>, Seq<char>)>,
) -> Result<(Seq<Seq<u8>>, Seq<nat>), DbError> {
    match select_plan(db, table, cols, cond) {
        Err(e) => Err(e),
        Ok((root, idx, filt)) => match table_rows(db, declared_page_size(db), root) {
            None => Err(DbError::Format),
            Some(rows) => if forall|i: int| 0 <= i < rows.len() ==> #[trigger] row_ok(rows[i].1, idx, filt) {
                Ok((kept_rows(rows, filt), idx))
            } else {
                Err(DbError::Format)
            },
        },
    }
}

/// Whether `row` holds the fields at positions `idx` of the record `p`, in that order.
pub open spec fn projection_of(p: Seq<u8>, idx: Seq<nat>, row: Seq<RecordField>) -> bool {
    &&& row.len() == idx.len()
    &&& forall|k: int|
        0 <= k < idx.len() ==> #[trigger] field_matches(
            record_types(p)[idx[k] as int],
            record_field_bytes(p, idx[k] as int),
            row[k],
        )
}

/// A filter as values.
pub open spec fn condition_view(cond: Option<(String, String)>) -> Option<(Seq<char>, Seq<char>)> {
    match cond {
        Some((c, l)) => Some((c@, l@)),
        None => None,
    }
}

fn digit(d: u64) -> (r: char)
    requires
        d < 10,
    ensures
        r == digit_char(d as nat),
{
    if d == 0 {
        '0'
    } else if d == 1 {
        '1'
    } else if d == 2 {
        '2'
    } else if d == 3 {
        '3'
    } else if d == 4 {
        '4'
    } else if d == 5 {
        '5'
    } else if d == 6 {
        '6'
    } else if d == 7 {
        '7'
    } else if d == 8 {
        '8'
    } else {
        '9'
    }
}

fn push_digits(n: u64, out: &mut Vec<char>)
    ensures
        final(out)@ == old(out)@ + nat_text(n as nat),
    decreases n,
{
    if n >= 10 {
        push_digits(n / 10, out);
    }
    out.push(digit(n % 10));
    proof {
        if n >= 10 {
            assert(old(out)@ + nat_text(n as nat) =~= old(out)@ + nat_text((n / 10) as nat) + seq![
                digit_char((n % 10) as nat),
            ]);
        }
        assert(final(out)@ =~= old(out)@ + nat_text(n as nat));
    }
}

/// The decimal text of `x`.
pub fn int_chars(x: i64) -> (r: Vec<char>)
    ensures
        r@ == int_text(x as int),
{
    let mut out: Vec<char> = Vec::new();
    if x < 0 {
        out.push('-');
        let m: u64 = (-(x + 1)) as u64 + 1;
        push_digits(m, &mut out);
        proof {
            assert(out@ =~= seq!['-'] + nat_text(m as nat));
        }
    } else {
        push_digits(x as u64, &mut out);
        proof {
            assert(out@ =~= nat_text(x as nat));
        }
    }
    out
}

/// The textual form of a field, for comparing it with a filter literal.
fn field_chars(f: &RecordField, Ghost(t): Ghost<nat>, Ghost(b): Ghost<Seq<u8>>) -> (r: Option<Vec<char>>)
    requires
        field_matches(t, b, *f),
        b.len() == serial_width(t),
    ensures
        r is Some <==> field_text(t, b) is Some,
        r matches Some(v) ==> v@ == field_text(t, b)->0,
{
    match f {
        RecordField::Null => {
            let v = vec!['N', 'U', 'L', 'L'];
            proof {
                assert(v@ == seq!['N', 'U', 'L', 'L']);
            }
            Some(v)
        },
        RecordField::Int8(x) => Some(int_chars(*x as i64)),
        RecordField::Int16(x) => Some(int_chars(*x as i64)),
        RecordField::Int24(x) => Some(int_chars(*x as i64)),
        RecordField::Int32(x) => Some(int_chars(*x as i64)),
        RecordField::Int48(x) => Some(int_chars(*x)),
        RecordField::Int64(x) => Some(int_chars(*x)),
        RecordField::Zero => {
            let v = vec!['0'];
            proof {
                assert(v@ == seq!['0']);
            }
            Some(v)
        },
        RecordField::One => {
            let v = vec!['1'];
            proof {
                assert(v@ == seq!['1']);
            }
            Some(v)
        },
        RecordField::Text(s) => Some(chars_of(s.as_str())),
        _ => None,
    }
}

fn chars_equal(a: &Vec<char>, b: &Vec<char>) -> (r: bool)
    ensures
        r == (a@ == b@),
{
    if a.len() != b.len() {
        return false;
    }
    let mut i: usize = 0;
    while i < a.len()
        invariant
            a@.len() == b@.len(),
            i <= a@.len(),
            forall|j: int| 0 <= j < i ==> a@[j] == b@[j],
        decreases a@.len() - i,
    {
        if a[i] != b[i] {
            return false;
        }
        i = i + 1;
    }
    proof {
        assert(a@ =~= b@);
    }
    true
}

/// The position of the first column name in `names` that equals `c`.
fn find_column(names: &Vec<String>, c: &str) -> (r: Option<usize>)
    ensures
        match column_index(strings_view(names@), c@) {
            None => r is None,
            Some(k) => r matches Some(i) && i as nat == k && k < names@.len(),
        },
{
    let ghost nv = strings_view(names@);
    let mut i: usize = 0;
    while i < names.len()
        invariant
            nv == strings_view(names@),
            i <= names@.len(),
            index_in(nv, c@, i as nat) is None,
        decreases names@.len() - i,
    {
        if same_text(names[i].as_str(), c) {
            proof {
                assert(index_in(nv, c@, (i + 1) as nat) == Some(i as nat));
                lemma_index_in_stays(nv, c@, (i + 1) as nat, names@.len());
            }
            return Some(i);
        }
        i = i + 1;
    }
    None
}

proof fn lemma_index_in_stays(names: Seq<Seq<char>>, c: Seq<char>, j: nat, m: nat)
    requires
        j <= m,
        index_in(names, c, j) is Some,
    ensures
        index_in(names, c, m) == index_in(names, c, j),
    decreases m - j,
{
    if j < m {
        lemma_index_in_stays(names, c, j, (m - 1) as nat);
    }
}

/// The positions of the columns `cols` among the column names `names`.
fn find_columns(names: &Vec<String>, cols: &Vec<String>) -> (r: Option<Vec<usize>>)
    ensures
        r is Some <==> column_indices(strings_view(names@), strings_view(cols@)) is Some,
        r matches Some(v) ==> v@.len() == column_indices(strings_view(names@), strings_view(cols@))->0.len(),
        r matches Some(v) ==> forall|k: int|
            0 <= k < v@.len() ==> (#[trigger] v@[k]) as nat == column_indices(
                strings_view(names@),
                strings_view(cols@),
            )->0[k] && v@[k] < names@.len(),
{
    let ghost nv = strings_view(names@);
    let ghost cv = strings_view(cols@);
    let mut out: Vec<usize> = Vec::new();
    let mut i: usize = 0;
    proof {
        assert(cv.subrange(0, 0) =~= Seq::<Seq<char>>::empty());
    }
    while i < cols.len()
        invariant
            nv == strings_view(names@),
            cv == strings_view(cols@),
            i <= cols@.len(),
            column_indices(nv, cv.subrange(0, i as int)) matches Some(idx) && out@.len() == idx.len()
                && (forall|k: int|
                0 <= k < idx.len() ==> #[trigger] out@[k] as nat == idx[k] && idx[k] < names@.len()),
        decreases cols@.len() - i,
    {
        proof {
            assert(cv.subrange(0, i + 1).drop_last() =~= cv.subrange(0, i as int));
        }
        let ghost ci = cols@[i as int]@;
        match find_column(names, cols[i].as_str()) {
            Some(k) => {
                let ghost before = out@;
                out.push(k);
                proof {
                    let idx = column_indices(nv, cv.subrange(0, i as int))->0;
                    assert(cv.subrange(0, i + 1).last() == cols@[i as int]@);
                    let idx2 = column_indices(nv, cv.subrange(0, i + 1))->0;
                    assert(column_index(nv, ci) == Some(k as nat));
                    assert(idx2 == idx.push(k as nat));
                    assert forall|q: int| 0 <= q < idx2.len() implies #[trigger] out@[q] as nat == idx2[q]
                        && idx2[q] < names@.len() by {
                        if q < idx.len() {
                            assert(out@[q] == before[q]);
                        }
                    }
                }
            },
            None => {
                proof {
                    lemma_indices_fail(nv, cv, (i + 1) as nat);
                }
                return None;
            },
        }
        i = i + 1;
    }
    proof {
        assert(cv.subrange(0, i as int) =~= cv);
        let idx = column_indices(nv, cv)->0;
        assert forall|k: int| 0 <= k < idx.len() implies (#[trigger] out@[k]) as nat == idx[k] && idx[k]
            < names@.len() by {}
    }
    Some(out)
}

proof fn lemma_indices_fail(names: Seq<Seq<char>>, cols: Seq<Seq<char>>, n: nat)
    requires
        n <= cols.len(),
        column_indices(names, cols.subrange(0, n as int)) is None,
    ensures
        column_indices(names, cols) is None,
    decreases cols.len() - n,
{
    if n < cols.len() {
        assert(cols.subrange(0, (n + 1) as int).drop_last() =~= cols.subrange(0, n as int));
        lemma_indices_fail(names, cols, n + 1);
    } else {
        assert(cols.subrange(0, n as int) =~= cols);
    }
}

/// The fields at positions `idx` of a decoded record, or `None` when the
/// record lacks one of them or one is of a reserved type.
fn project(
    fields: &Vec<RecordField>,
    idx: &Vec<usize>,
    Ghost(p): Ghost<Seq<u8>>,
    Ghost(gidx): Ghost<Seq<nat>>,
) -> (r: Option<Vec<RecordField>>)
    requires
        record_ok(p),
        fields@.len() == record_types(p).len(),
        forall|q: int|
            0 <= q < record_types(p).len() ==> #[trigger] field_matches(
                record_types(p)[q],
                record_field_bytes(p, q),
                fields@[q],
            ),
        gidx.len() == idx@.len(),
        forall|q: int| 0 <= q < idx@.len() ==> #[trigger] idx@[q] as nat == gidx[q],
    ensures
        r is Some <==> forall|k: int|
            0 <= k < gidx.len() ==> #[trigger] gidx[k] < record_types(p).len() && !is_reserved_type(
                record_types(p)[gidx[k] as int],
            ),
        r matches Some(row) ==> projection_of(p, gidx, row@),
{
    let ghost ts = record_types(p);
    let mut row: Vec<RecordField> = Vec::new();
    let mut k: usize = 0;
    while k < idx.len()
        invariant
            ts == record_types(p),
            fields@.len() == ts.len(),
            forall|q: int|
                0 <= q < ts.len() ==> #[trigger] field_matches(ts[q], record_field_bytes(p, q), fields@[q]),
            gidx.len() == idx@.len(),
            forall|q: int| 0 <= q < idx@.len() ==> #[trigger] idx@[q] as nat == gidx[q],
            k <= idx@.len(),
            row@.len() == k,
            forall|q: int|
                0 <= q < k ==> #[trigger] gidx[q] < ts.len() && !is_reserved_type(ts[gidx[q] as int]),
            forall|q: int|
                0 <= q < k ==> #[trigger] field_matches(
                    ts[gidx[q] as int],
                    record_field_bytes(p, gidx[q] as int),
                    row@[q],
                ),
        decreases idx@.len() - k,
    {
        let c = idx[k];
        if c >= fields.len() {
            proof {
                assert(!(gidx[k as int] < ts.len()));
            }
            return None;
        }
        proof {
            assert(field_matches(ts[c as int], record_field_bytes(p, c as int), fields@[c as int]));
        }
        if let RecordField::Internal = &fields[c] {
            proof {
                assert(is_reserved_type(ts[gidx[k as int] as int]));
            }
            return None;
        }
        let f = fields[c].clone_field(Ghost(ts[c as int]), Ghost(record_field_bytes(p, c as int)));
        row.push(f);
        k = k + 1;
    }
    Some(row)
}

proof fn lemma_rows_fail(rows: Seq<(u64, Seq<u8>)>, idx: Seq<nat>, filt: Option<(nat, Seq<char>)>, i: int)
    requires
        0 <= i < rows.len(),
        !row_ok(rows[i].1, idx, filt),
    ensures
        !(forall|j: int| 0 <= j < rows.len() ==> #[trigger] row_ok(rows[j].1, idx, filt)),
{
}

/// The rows of table `table_name` in the file image `db` that pass the filter
/// `condition` (the named column's textual form equals the literal exactly),
/// each projected onto the columns `columns`, in scan order. Column names are
/// resolved against the table's `CREATE TABLE` text. Fails with `Schema` for
/// an unknown table or column, with `Parse` when the table's SQL text lists
/// no columns, and with `Format` for a malformed file or a row that lacks a
/// needed column or holds a reserved field in a projected one.
pub fn get_records_from_table(
    table_name: &str,
    columns: &Vec<String>,
    condition: &Option<(String, String)>,
    db: &[u8],
) -> (r: Result<Vec<Vec<RecordField>>, DbError>)
    ensures
        match select_spec(db@, table_name@, strings_view(columns@), condition_view(*condition)) {
            Err(e) => r == Err::<Vec<Vec<RecordField>>, DbError>(e),
            Ok((payloads, idx)) => r matches Ok(out) && out@.len() == payloads.len() && (forall|i: int|
                0 <= i < payloads.len() ==> #[trigger] projection_of(payloads[i], idx, out@[i]@)),
        },
{
    let ps = db_header_page_size(db)?;
    let tables = get_tables(db)?;
    let t = match find_table(&tables, table_name) {
        Some(t) => t,
        None => {
            return Err(DbError::Schema);
        },
    };
    let names = parse_create_table(tables[t].sql.as_str())?;
    let idx = match find_columns(&names, columns) {
        Some(v) => v,
        None => {
            return Err(DbError::Schema);
        },
    };
    let ghost plan = select_plan(db@, table_name@, strings_view(columns@), condition_view(*condition));
    let ghost gidx = plan->Ok_0.1;
    let ghost gfilt = plan->Ok_0.2;
    let ghost names_v = strings_view(names@);
    proof {
        assert(catalog(db@) == Ok::<Seq<SchemaView>, DbError>(schemas_view(tables@)));
        assert(lookup(schemas_view(tables@), table_name@) == Some(schema_view(tables@[t as int])));
        assert(table_columns(tables@[t as int].sql@) == Some(names_v));
    }
    let filter: Option<(usize, Vec<char>)> = match condition {
        None => None,
        Some((c, lit)) => match find_column(&names, c.as_str()) {
            Some(k) => {
                let v = chars_of(lit.as_str());
                proof {
                    assert(column_index(names_v, c@) == Some(k as nat));
                    assert(gfilt == Some((k as nat, v@)));
                }
                Some((k, v))
            },
            None => {
                return Err(DbError::Schema);
            },
        },
    };
    proof {
        assert(gidx.len() == idx@.len());
    }
    let rows = scan_table(db, ps, tables[t].rootpage)?;
    let ghost rv = rows_view(rows@);
    proof {
        assert(rv.len() == rows@.len());
    }
    let mut out: Vec<Vec<RecordField>> = Vec::new();
    let mut i: usize = 0;
    proof {
        assert(rv.subrange(0, 0) =~= Seq::<(u64, Seq<u8>)>::empty());
    }
    while i < rows.len()
        invariant
            rv == rows_view(rows@),
            rv.len() == rows@.len(),
            table_rows(db@, declared_page_size(db@), tables@[t as int].rootpage as nat) == Some(rv),
            plan == select_plan(db@, table_name@, strings_view(columns@), condition_view(*condition)),
            plan == Ok::<(nat, Seq<nat>, Option<(nat, Seq<char>)>), DbError>(
                (tables@[t as int].rootpage as nat, gidx, gfilt),
            ),
            gidx.len() == idx@.len(),
            forall|k: int| 0 <= k < idx@.len() ==> #[trigger] idx@[k] as nat == gidx[k],
            filter is None <==> gfilt is None,
            filter matches Some((k, v)) ==> gfilt == Some((k as nat, v@)),
            i <= rows@.len(),
            forall|j: int| 0 <= j < i ==> #[trigger] row_ok(rv[j].1, gidx, gfilt),
            out@.len() == kept_rows(rv.subrange(0, i as int), gfilt).len(),
            forall|j: int|
                0 <= j < out@.len() ==> #[trigger] projection_of(
                    kept_rows(rv.subrange(0, i as int), gfilt)[j],
                    gidx,
                    out@[j]@,
                ),
        decreases rows@.len() - i,
    {
        let ghost p = rv[i as int].1;
        let fields = match parse_records(rows[i].1.as_slice()) {
            Ok(f) => f,
            Err(e) => {
                proof {
                    lemma_rows_fail(rv, gidx, gfilt, i as int);
                }
                return Err(e);
            },
        };
        let ghost ts = record_types(p);
        let keep = match &filter {
            None => true,
            Some((fi, lit)) => {
                if *fi >= fields.len() {
                    proof {
                        lemma_rows_fail(rv, gidx, gfilt, i as int);
                    }
                    return Err(DbError::Format);
                }
                proof {
                    assert(field_matches(ts[*fi as int], record_field_bytes(p, *fi as int), fields@[*fi as int]));
                    crate::record::lemma_field_bytes_len(p, *fi as int);
                }
                match field_chars(&fields[*fi], Ghost(ts[*fi as int]), Ghost(record_field_bytes(p, *fi as int))) {
                    None => false,
                    Some(txt) => chars_equal(&txt, lit),
                }
            },
        };
        proof {
            assert(keep == row_kept(p, gfilt));
        }
        if keep {
            let row = match project(&fields, &idx, Ghost(p), Ghost(gidx)) {
                Some(row) => row,
                None => {
                    proof {
                        lemma_rows_fail(rv, gidx, gfilt, i as int);
                    }
                    return Err(DbError::Format);
                },
            };
            out.push(row);
        }
        proof {
            assert(rv.subrange(0, i + 1).drop_last() =~= rv.subrange(0, i as int));
            assert(rv.subrange(0, i + 1).last() == rv[i as int]);
        }
        i = i + 1;
    }
    proof {
        assert(rv.subrange(0, i as int) =~= rv);
    }
    Ok(out)
}

/// What a SELECT statement returns: a row count or the projected rows.
#[derive(Debug, PartialEq)]
pub enum QueryResult {
    Count(u64),
    Rows(Vec<Vec<RecordField>>),
}

/// Runs a parsed SELECT statement on the file image `db`. `COUNT(*)` without a
/// filter counts every row of the table; with a filter, the rows that pass it.
pub fn run_select(statement: &SelectStatement, db: &[u8]) -> (r: Result<QueryResult, DbError>)
    ensures
        match (statement.selector, statement.condition) {
            (Selector::CountAll, None) => match count_spec(db@, statement.from@) {
                Ok(n) => r == Ok::<QueryResult, DbError>(QueryResult::Count(n as u64)),
                Err(e) => r == Err::<QueryResult, DbError>(e),
            },
            (Selector::CountAll, Some(_)) => match select_spec(
                db@,
                statement.from@,
                Seq::empty(),
                condition_view(statement.condition),
            ) {
                Ok((payloads, _)) => r == Ok::<QueryResult, DbError>(
                    QueryResult::Count(payloads.len() as u64),
                ),
                Err(e) => r == Err::<QueryResult, DbError>(e),
            },
            (Selector::Columns(cols), _) => match select_spec(
                db@,
                statement.from@,
                strings_view(cols@),
                condition_view(statement.condition),
            ) {
                Ok((payloads, idx)) => r matches Ok(QueryResult::Rows(out)) && out@.len()
                    == payloads.len() && (forall|i: int|
                    0 <= i < payloads.len() ==> #[trigger] projection_of(
                        payloads[i],
                        idx,
                        out@[i]@,
                    )),
                Err(e) => r == Err::<QueryResult, DbError>(e),
            },
        },
{
    match &statement.selector {
        Selector::CountAll => {
            if statement.condition.is_none() {
                let n = count_table_rows(statement.from.as_str(), db)?;
                Ok(QueryResult::Count(n))
            } else {
                let none: Vec<String> = Vec::new();
                proof {
                    assert(strings_view(none@) =~= Seq::<Seq<char>>::empty());
                }
                let rows = get_records_from_table(statement.from.as_str(), &none, &statement.condition, db)?;
                Ok(QueryResult::Count(rows.len() as u64))
            }
        },
        Selector::Columns(cols) => {
            let rows = get_records_from_table(statement.from.as_str(), cols, &statement.condition, db)?;
            Ok(QueryResult::Rows(rows))
        },
    }
}

} // verus!
