use vstd::prelude::*;
use vstd::utf8::{decode_utf8, valid_utf8};

use crate::error::DbError;
use crate::varint::{read_varint, varint_decode};

verus! {

/// One field of a record, in the storage shape that its serial type selects.
#[derive(Debug, Clone, PartialEq)]
pub enum RecordField {
    Null,
    Int8(i8),
    Int16(i16),
    Int24(i32),
    Int32(i32),
    Int48(i64),
    Int64(i64),
    /// An IEEE-754 double, held as its 64 raw bits.
    Float64(u64),
    Zero,
    One,
    /// Serial types 10 and 11, reserved for internal use: never a column value.
    Internal,
    Blob(Vec<u8>),
    Text(String),
}

/// `256^k`.
pub open spec fn pow256(k: nat) -> nat
    decreases k,
{
    if k == 0 {
        1
    } else {
        256 * pow256((k - 1) as nat)
    }
}

/// The unsigned big-endian integer that the bytes `b` hold.
pub open spec fn be_uint(b: Seq<u8>) -> nat
    decreases b.len(),
{
    if b.len() == 0 {
        0
    } else {
        be_uint(b.drop_last()) * 256 + b.last() as nat
    }
}

/// The two's-complement value of the `w`-byte big-endian integer `b`.
pub open spec fn be_int(b: Seq<u8>, w: nat) -> int {
    if be_uint(b) * 2 >= pow256(w) {
        be_uint(b) - pow256(w)
    } else {
        be_uint(b) as int
    }
}

/// The number of body bytes that a field of serial type `t` takes.
pub open spec fn serial_width(t: nat) -> nat {
    if t <= 4 {
        t
    } else if t == 5 {
        6
    } else if t == 6 || t == 7 {
        8
    } else if t < 12 {
        0
    } else {
        ((t - 12) as nat) / 2
    }
}

/// Whether serial type `t` stands for text.
pub open spec fn is_text_type(t: nat) -> bool {
    t >= 13 && t % 2 == 1
}

/// Whether the `serial_width(t)` bytes `b` form a field of serial type `t`:
/// everything does, but text that is not valid UTF-8.
pub open spec fn field_ok(t: nat, b: Seq<u8>) -> bool {
    is_text_type(t) ==> valid_utf8(b)
}

/// Whether `f` is the field of serial type `t` stored in the `serial_width(t)` bytes `b`.
pub open spec fn field_matches(t: nat, b: Seq<u8>, f: RecordField) -> bool {
    match f {
        RecordField::Null => t == 0,
        RecordField::Int8(x) => t == 1 && x as int == be_int(b, 1),
        RecordField::Int16(x) => t == 2 && x as int == be_int(b, 2),
        RecordField::Int24(x) => t == 3 && x as int == be_int(b, 3),
        RecordField::Int32(x) => t == 4 && x as int == be_int(b, 4),
        RecordField::Int48(x) => t == 5 && x as int == be_int(b, 6),
        RecordField::Int64(x) => t == 6 && x as int == be_int(b, 8),
        RecordField::Float64(bits) => t == 7 && bits as nat == be_uint(b),
        RecordField::Zero => t == 8,
        RecordField::One => t == 9,
        RecordField::Internal => t == 10 || t == 11,
        RecordField::Blob(v) => t >= 12 && t % 2 == 0 && v@ == b,
        RecordField::Text(s) => is_text_type(t) && valid_utf8(b) && s@ == decode_utf8(b),
    }
}

/// The serial types listed back to back in the header bytes `hdr`.
pub open spec fn serial_types(hdr: Seq<u8>) -> Option<Seq<nat>>
    decreases hdr.len(),
{
    if hdr.len() == 0 {
        Some(Seq::empty())
    } else {
        match varint_decode(hdr) {
            None => None,
            Some((t, n)) => if n == 0 || n > hdr.len() {
                None
            } else {
                match serial_types(hdr.subrange(n as int, hdr.len() as int)) {
                    None => None,
                    Some(ts) => Some(seq![t].add(ts)),
                }
            },
        }
    }
}

/// The total body width of fields of serial types `ts`.
pub open spec fn width_sum(ts: Seq<nat>) -> nat
    decreases ts.len(),
{
    if ts.len() == 0 {
        0
    } else {
        width_sum(ts.drop_last()) + serial_width(ts.last())
    }
}

/// Where the field `i` of a body laid out by serial types `ts` starts.
pub open spec fn field_start(ts: Seq<nat>, i: int) -> nat {
    width_sum(ts.subrange(0, i))
}

/// The bytes of field `i` of the body `body` laid out by serial types `ts`.
pub open spec fn field_bytes(ts: Seq<nat>, body: Seq<u8>, i: int) -> Seq<u8> {
    body.subrange(field_start(ts, i) as int, (field_start(ts, i) + serial_width(ts[i])) as int)
}

/// The header of the record payload `p`: its serial types and its length in bytes.
pub open spec fn record_layout(p: Seq<u8>) -> Option<(Seq<nat>, nat)> {
    match varint_decode(p) {
        None => None,
        Some((h, n)) => if n <= h && h <= p.len() {
            match serial_types(p.subrange(n as int, h as int)) {
                None => None,
                Some(ts) => Some((ts, h)),
            }
        } else {
            None
        },
    }
}

/// Whether the body `body` holds exactly the fields of serial types `ts`.
pub open spec fn body_ok(ts: Seq<nat>, body: Seq<u8>) -> bool {
    &&& width_sum(ts) == body.len()
    &&& forall|i: int| 0 <= i < ts.len() ==> #[trigger] field_ok(ts[i], field_bytes(ts, body, i))
}

/// Whether the payload `p` is a well-formed record.
pub open spec fn record_ok(p: Seq<u8>) -> bool {
    match record_layout(p) {
        None => false,
        Some((ts, h)) => body_ok(ts, p.subrange(h as int, p.len() as int)),
    }
}

/// Whether `fs` are the fields, in header order, of the well-formed record `p`.
pub open spec fn record_fields(p: Seq<u8>, fs: Seq<RecordField>) -> bool {
    match record_layout(p) {
        None => false,
        Some((ts, h)) => {
            &&& fs.len() == ts.len()
            &&& forall|i: int|
                0 <= i < ts.len() ==> #[trigger] field_matches(
                    ts[i],
                    field_bytes(ts, p.subrange(h as int, p.len() as int), i),
                    fs[i],
                )
        },
    }
}

/// The serial types of the record payload `p`.
pub open spec fn record_types(p: Seq<u8>) -> Seq<nat> {
    match record_layout(p) {
        Some((ts, _)) => ts,
        None => Seq::empty(),
    }
}

/// The body of the record payload `p`: what follows its header.
pub open spec fn record_body(p: Seq<u8>) -> Seq<u8> {
    match record_layout(p) {
        Some((_, h)) => p.subrange(h as int, p.len() as int),
        None => Seq::empty(),
    }
}

/// The bytes of field `i` of the record payload `p`.
pub open spec fn record_field_bytes(p: Seq<u8>, i: int) -> Seq<u8> {
    field_bytes(record_types(p), record_body(p), i)
}

/// Each field of a well-formed record takes exactly its serial type's width.
pub proof fn lemma_field_bytes_len(p: Seq<u8>, i: int)
    requires
        record_ok(p),
        0 <= i < record_types(p).len(),
    ensures
        record_field_bytes(p, i).len() == serial_width(record_types(p)[i]),
{
    let ts = record_types(p);
    lemma_width_sum_step(ts, i);
    lemma_width_sum_prefix(ts, i + 1);
}

/// Relies on `String::from_utf8`: it succeeds exactly when the bytes are valid
/// UTF-8, and the string then holds the characters that they encode.
#[verifier::external_body]
fn utf8_string(bytes: Vec<u8>) -> (r: Option<String>)
    ensures
        r is Some <==> valid_utf8(bytes@),
        r matches Some(s) ==> s@ == decode_utf8(bytes@),
{
    String::from_utf8(bytes).ok()
}

proof fn lemma_pow256_values()
    ensures
        pow256(1) == 0x100,
        pow256(2) == 0x1_0000,
        pow256(3) == 0x100_0000,
        pow256(4) == 0x1_0000_0000,
        pow256(6) == 0x1_0000_0000_0000,
        pow256(7) == 0x100_0000_0000_0000,
        pow256(8) == 0x1_0000_0000_0000_0000,
{
    reveal_with_fuel(pow256, 9);
}

proof fn lemma_pow256_mono(i: nat, j: nat)
    requires
        i <= j,
    ensures
        pow256(i) <= pow256(j),
    decreases j - i,
{
    if i < j {
        lemma_pow256_mono(i, (j - 1) as nat);
    }
}

/// Reads the unsigned big-endian integer in the first `w` bytes of `s`.
fn read_uint(s: &[u8], w: usize) -> (r: u64)
    requires
        1 <= w <= 8,
        w <= s@.len(),
    ensures
        r as nat == be_uint(s@.subrange(0, w as int)),
        (r as nat) < pow256(w as nat),
{
    let mut u: u64 = 0;
    let mut i: usize = 0;
    proof {
        lemma_pow256_values();
        assert(s@.subrange(0, 0) =~= Seq::<u8>::empty());
    }
    while i < w
        invariant
            i <= w <= 8,
            w <= s@.len(),
            u as nat == be_uint(s@.subrange(0, i as int)),
            (u as nat) < pow256(i as nat),
            pow256(7) == 0x100_0000_0000_0000,
        decreases w - i,
    {
        proof {
            lemma_pow256_mono(i as nat, 7);
            assert(u * 256 + s@[i as int] < 256 * pow256(i as nat)) by (nonlinear_arith)
                requires
                    u < pow256(i as nat),
                    s@[i as int] < 256,
            ;
            assert(s@.subrange(0, i + 1).drop_last() =~= s@.subrange(0, i as int));
        }
        u = u * 256 + s[i] as u64;
        i = i + 1;
    }
    u
}

impl RecordField {

/// Decodes the field of serial type `serial_type` at the start of `content`,
/// returning it and the number of bytes it takes. Fails with `Format` when
/// `content` is too short or holds text that is not valid UTF-8.
pub fn parse_from_bytes(serial_type: u64, content: &[u8]) -> (r: Result<(RecordField, usize), DbError>)
    ensures
        r is Ok <==> serial_width(serial_type as nat) <= content@.len() && field_ok(
            serial_type as nat,
            content@.subrange(0, serial_width(serial_type as nat) as int),
        ),
        r matches Ok((f, n)) ==> n == serial_width(serial_type as nat) && field_matches(
            serial_type as nat,
            content@.subrange(0, n as int),
            f,
        ),
        r is Err ==> r == Err::<(RecordField, usize), DbError>(DbError::Format),
{
    let t = serial_type;
    proof {
        lemma_pow256_values();
    }
    if t == 0 {
        return Ok((RecordField::Null, 0));
    } else if t >= 8 && t <= 9 {
        return Ok((
            if t == 8 {
                RecordField::Zero
            } else {
                RecordField::One
            },
            0,
        ));
    } else if t == 10 || t == 11 {
        return Ok((RecordField::Internal, 0));
    } else if t >= 12 {
        let w64 = (t - 12) / 2;
        if w64 > content.len() as u64 {
            return Err(DbError::Format);
        }
        let w = w64 as usize;
        let bytes = crate::page::copy_range(content, 0, w);
        if t % 2 == 0 {
            return Ok((RecordField::Blob(bytes), w));
        }
        return match utf8_string(bytes) {
            Some(s) => Ok((RecordField::Text(s), w)),
            None => Err(DbError::Format),
        };
    }
    let w: usize = if t == 5 {
        6
    } else if t >= 6 {
        8
    } else {
        t as usize
    };
    if w > content.len() {
        return Err(DbError::Format);
    }
    let u = read_uint(content, w);
    let f = if t == 7 {
        RecordField::Float64(u)
    } else if t == 6 {
        let x: i64 = if u >= 0x8000_0000_0000_0000 {
            ((u - 0x8000_0000_0000_0000) as i64) + i64::MIN
        } else {
            u as i64
        };
        RecordField::Int64(x)
    } else {
        let full: u64 = if t == 5 {
            0x1_0000_0000_0000
        } else {
            1u64 << (8 * w as u64)
        };
        proof {
            if t != 5 {
                assert(full == pow256(w as nat)) by {
                    if w == 1 {
                        assert(1u64 << 8u64 == 0x100) by (bit_vector);
                    } else if w == 2 {
                        assert(1u64 << 16u64 == 0x1_0000) by (bit_vector);
                    } else if w == 3 {
                        assert(1u64 << 24u64 == 0x100_0000) by (bit_vector);
                    } else {
                        assert(1u64 << 32u64 == 0x1_0000_0000) by (bit_vector);
                    }
                }
            }
        }
        let x: i64 = if u * 2 >= full {
            u as i64 - full as i64
        } else {
            u as i64
        };
        if t == 1 {
            RecordField::Int8(x as i8)
        } else if t == 2 {
            RecordField::Int16(x as i16)
        } else if t == 3 {
            RecordField::Int24(x as i32)
        } else if t == 4 {
            RecordField::Int32(x as i32)
        } else {
            RecordField::Int48(x)
        }
    };
    Ok((f, w))
}

}

impl RecordField {

/// A copy of this field, the same field of the same bytes.
pub fn clone_field(&self, Ghost(t): Ghost<nat>, Ghost(b): Ghost<Seq<u8>>) -> (r: RecordField)
    requires
        field_matches(t, b, *self),
    ensures
        field_matches(t, b, r),
{
    match self {
        RecordField::Null => RecordField::Null,
        RecordField::Int8(x) => RecordField::Int8(*x),
        RecordField::Int16(x) => RecordField::Int16(*x),
        RecordField::Int24(x) => RecordField::Int24(*x),
        RecordField::Int32(x) => RecordField::Int32(*x),
        RecordField::Int48(x) => RecordField::Int48(*x),
        RecordField::Int64(x) => RecordField::Int64(*x),
        RecordField::Float64(x) => RecordField::Float64(*x),
        RecordField::Zero => RecordField::Zero,
        RecordField::One => RecordField::One,
        RecordField::Internal => RecordField::Internal,
        RecordField::Blob(v) => {
            let c = crate::page::copy_range(v.as_slice(), 0, v.len());
            proof {
                assert(c@ =~= v@);
            }
            RecordField::Blob(c)
        },
        RecordField::Text(s) => RecordField::Text(s.clone()),
    }
}

}

/// The serial types `ts` as mathematical integers.
pub open spec fn types_view(ts: Seq<u64>) -> Seq<nat> {
    ts.map_values(|t: u64| t as nat)
}

proof fn lemma_width_sum_step(ts: Seq<nat>, i: int)
    requires
        0 <= i < ts.len(),
    ensures
        width_sum(ts.subrange(0, i + 1)) == width_sum(ts.subrange(0, i)) + serial_width(ts[i]),
{
    assert(ts.subrange(0, i + 1).drop_last() =~= ts.subrange(0, i));
}

proof fn lemma_width_sum_prefix(ts: Seq<nat>, i: int)
    requires
        0 <= i <= ts.len(),
    ensures
        width_sum(ts.subrange(0, i)) <= width_sum(ts),
    decreases ts.len() - i,
{
    if i < ts.len() {
        lemma_width_sum_step(ts, i);
        lemma_width_sum_prefix(ts, i + 1);
    } else {
        assert(ts.subrange(0, i) =~= ts);
    }
}

/// Reads the serial types listed back to back in the header bytes `hdr`.
fn read_serial_types(hdr: &[u8]) -> (r: Result<Vec<u64>, DbError>)
    ensures
        r is Ok <==> serial_types(hdr@) is Some,
        r matches Ok(ts) ==> serial_types(hdr@) == Some(types_view(ts@)),
        r is Err ==> r == Err::<Vec<u64>, DbError>(DbError::Format),
{
    let mut ts: Vec<u64> = Vec::new();
    let mut pos: usize = 0;
    proof {
        assert(hdr@.subrange(0, hdr@.len() as int) =~= hdr@);
        assert(types_view(ts@) + Seq::<nat>::empty() =~= Seq::<nat>::empty());
    }
    while pos < hdr.len()
        invariant
            pos <= hdr@.len(),
            serial_types(hdr@) == (match serial_types(hdr@.subrange(pos as int, hdr@.len() as int)) {
                None => None,
                Some(rest) => Some(types_view(ts@) + rest),
            }),
        decreases hdr@.len() - pos,
    {
        let ghost rest = hdr@.subrange(pos as int, hdr@.len() as int);
        let (t, n) = read_varint(&hdr[pos..hdr.len()])?;
        proof {
            assert(rest.subrange(n as int, rest.len() as int) =~= hdr@.subrange(
                pos + n,
                hdr@.len() as int,
            ));
            assert(types_view(ts@.push(t)) =~= types_view(ts@).push(t as nat));
            match serial_types(hdr@.subrange(pos + n, hdr@.len() as int)) {
                None => {},
                Some(more) => {
                    assert(types_view(ts@) + (seq![t as nat] + more) =~= types_view(ts@).push(
                        t as nat,
                    ) + more);
                },
            }
        }
        ts.push(t);
        pos = pos + n;
    }
    proof {
        assert(hdr@.subrange(pos as int, hdr@.len() as int) =~= Seq::<u8>::empty());
        assert(types_view(ts@) + Seq::<nat>::empty() =~= types_view(ts@));
    }
    Ok(ts)
}

/// Decodes a record payload into its fields, in header order. Fails with
/// `Format` when the header is malformed, when the field widths that the
/// header implies do not add up to the body's length, or when a text field is
/// not valid UTF-8.
pub fn parse_records(payload: &[u8]) -> (r: Result<Vec<RecordField>, DbError>)
    ensures
        r is Ok <==> record_ok(payload@),
        r matches Ok(fs) ==> record_fields(payload@, fs@),
        r is Err ==> r == Err::<Vec<RecordField>, DbError>(DbError::Format),
{
    let (h64, n0) = read_varint(payload)?;
    if h64 < n0 as u64 || h64 > payload.len() as u64 {
        return Err(DbError::Format);
    }
    let h = h64 as usize;
    let ts = read_serial_types(&payload[n0..h])?;
    let ghost tsv = types_view(ts@);
    let body = &payload[h..payload.len()];
    let mut fields: Vec<RecordField> = Vec::new();
    let mut pos: usize = 0;
    let mut i: usize = 0;
    proof {
        assert(tsv.subrange(0, 0) =~= Seq::<nat>::empty());
    }
    while i < ts.len()
        invariant
            tsv == types_view(ts@),
            record_layout(payload@) == Some((tsv, h as nat)),
            body@ == payload@.subrange(h as int, payload@.len() as int),
            i <= ts@.len(),
            pos as nat == width_sum(tsv.subrange(0, i as int)),
            pos <= body@.len(),
            fields@.len() == i,
            forall|j: int|
                0 <= j < i ==> #[trigger] field_ok(tsv[j], field_bytes(tsv, body@, j)) && field_matches(
                    tsv[j],
                    field_bytes(tsv, body@, j),
                    fields@[j],
                ),
        decreases ts@.len() - i,
    {
        proof {
            lemma_width_sum_step(tsv, i as int);
            lemma_width_sum_prefix(tsv, i + 1);
        }
        let ghost content = body@.subrange(pos as int, body@.len() as int);
        match RecordField::parse_from_bytes(ts[i], &body[pos..body.len()]) {
            Ok((f, n)) => {
                proof {
                    assert(content.subrange(0, n as int) =~= field_bytes(tsv, body@, i as int));
                }
                fields.push(f);
                pos = pos + n;
                i = i + 1;
            },
            Err(e) => {
                proof {
                    let w = serial_width(tsv[i as int]);
                    if w <= content.len() {
                        assert(content.subrange(0, w as int) =~= field_bytes(tsv, body@, i as int));
                        assert(!field_ok(tsv[i as int], field_bytes(tsv, body@, i as int)));
                    }
                }
                return Err(e);
            },
        }
    }
    proof {
        assert(tsv.subrange(0, i as int) =~= tsv);
        assert forall|j: int| 0 <= j < tsv.len() implies #[trigger] field_matches(
            tsv[j],
            field_bytes(tsv, body@, j),
            fields@[j],
        ) by {
            assert(field_ok(tsv[j], field_bytes(tsv, body@, j)));
        }
    }
    if pos != body.len() {
        return Err(DbError::Format);
    }
    Ok(fields)
}

} // verus!
