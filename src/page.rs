use vstd::prelude::*;

use crate::error::DbError;

verus! {

/// The big-endian 16-bit integer at index `i` of `s`.
pub open spec fn be16(s: Seq<u8>, i: int) -> nat {
    s[i] as nat * 256 + s[i + 1] as nat
}

/// The big-endian 32-bit integer at index `i` of `s`.
pub open spec fn be32(s: Seq<u8>, i: int) -> nat {
    be16(s, i) * 65536 + be16(s, i + 2)
}

/// A page size the format allows: a power of two from 512 to 65536.
pub open spec fn is_valid_page_size(n: nat) -> bool {
    n == 512 || n == 1024 || n == 2048 || n == 4096 || n == 8192 || n == 16384 || n == 32768
        || n == 65536
}

/// The page size that a file header declares; the stored value `1` stands for 65536.
pub open spec fn declared_page_size(header: Seq<u8>) -> nat {
    if be16(header, 16) == 1 {
        65536
    } else {
        be16(header, 16)
    }
}

/// Where the page header of page `n` begins: after the 100-byte file header on
/// page 1, at the start of every other page.
pub open spec fn header_offset(n: nat) -> nat {
    if n == 1 {
        100
    } else {
        0
    }
}

/// Page `n` (1-based) of the file image `db` at page size `ps`, when the image holds it whole.
pub open spec fn page_of(db: Seq<u8>, ps: nat, n: nat) -> Option<Seq<u8>> {
    if 1 <= n && n * ps <= db.len() {
        Some(db.subrange((n - 1) * ps, (n * ps) as int))
    } else {
        None
    }
}

/// Reads the big-endian 16-bit integer at index `i`.
pub fn read_be16(s: &[u8], i: usize) -> (r: u32)
    requires
        i + 1 < s@.len(),
    ensures
        r as nat == be16(s@, i as int),
        r < 65536,
{
    s[i] as u32 * 256 + s[i + 1] as u32
}

/// Reads the big-endian 32-bit integer at index `i`.
pub fn read_be32(s: &[u8], i: usize) -> (r: u64)
    requires
        i + 3 < s@.len(),
    ensures
        r as nat == be32(s@, i as int),
{
    // the slice's length, a usize, bounds i + 2
    let _len = s.len();
    let hi = read_be16(s, i) as u64;
    let lo = read_be16(s, i + 2) as u64;
    hi * 65536 + lo
}

/// Copies `s[from..to]` into a vector of its own.
pub fn copy_range(s: &[u8], from: usize, to: usize) -> (r: Vec<u8>)
    requires
        from <= to <= s@.len(),
    ensures
        r@ == s@.subrange(from as int, to as int),
{
    let mut r: Vec<u8> = Vec::new();
    let mut i: usize = from;
    while i < to
        invariant
            from <= i <= to <= s@.len(),
            r@ == s@.subrange(from as int, i as int),
        decreases to - i,
    {
        r.push(s[i]);
        i = i + 1;
    }
    r
}

/// Reads the page size from the 100-byte file header at the start of `header`.
/// Fails with `Io` when fewer than 100 bytes are given and with `Format` when the
/// declared size is not a power of two from 512 to 65536.
pub fn page_size_from_header(header: &[u8]) -> (r: Result<u32, DbError>)
    ensures
        header@.len() < 100 ==> r == Err::<u32, DbError>(DbError::Io),
        header@.len() >= 100 ==> (r is Ok <==> is_valid_page_size(declared_page_size(header@))),
        header@.len() >= 100 && !is_valid_page_size(declared_page_size(header@)) ==> r == Err::<
            u32,
            DbError,
        >(DbError::Format),
        r matches Ok(ps) ==> ps as nat == declared_page_size(header@),
{
    if header.len() < 100 {
        return Err(DbError::Io);
    }
    let raw = read_be16(header, 16);
    let ps: u32 = if raw == 1 {
        65536
    } else {
        raw
    };
    if ps == 512 || ps == 1024 || ps == 2048 || ps == 4096 || ps == 8192 || ps == 16384 || ps
        == 32768 || ps == 65536 {
        Ok(ps)
    } else {
        Err(DbError::Format)
    }
}

/// Copies page `page_num` (1-based) out of the file image `db`. Fails with
/// `Format` for page number 0 and with `Io` when the image ends before the page does.
pub fn read_page(db: &[u8], page_size: u32, page_num: u64) -> (r: Result<Vec<u8>, DbError>)
    requires
        is_valid_page_size(page_size as nat),
    ensures
        page_num == 0 ==> r == Err::<Vec<u8>, DbError>(DbError::Format),
        page_num >= 1 && page_of(db@, page_size as nat, page_num as nat) is None ==> r == Err::<
            Vec<u8>,
            DbError,
        >(DbError::Io),
        r is Ok <==> page_of(db@, page_size as nat, page_num as nat) is Some,
        r matches Ok(p) ==> p@ == page_of(db@, page_size as nat, page_num as nat)->0,
{
    if page_num == 0 {
        return Err(DbError::Format);
    }
    let len = db.len() as u64;
    let ps = page_size as u64;
    if page_num > len / ps {
        proof {
            assert(page_num * ps > len) by (nonlinear_arith)
                requires
                    page_num > len / ps,
                    ps > 0,
            ;
        }
        return Err(DbError::Io);
    }
    proof {
        assert(page_num * ps <= len) by (nonlinear_arith)
            requires
                page_num <= len / ps,
                ps > 0,
        ;
        assert((page_num - 1) * ps == page_num * ps - ps) by (nonlinear_arith);
    }
    let end = (page_num * ps) as usize;
    let start = end - page_size as usize;
    Ok(copy_range(db, start, end))
}

} // verus!
