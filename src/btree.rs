use vstd::prelude::*;

use crate::error::DbError;
use crate::page::{
    be16, be32, copy_range, header_offset, is_valid_page_size, page_of, read_be16, read_be32,
    read_page,
};
use crate::varint::{read_varint, varint_decode};

verus! {

/// Page type byte of a leaf table page.
pub const LEAF_TABLE_PAGE: u8 = 0x0D;

/// Page type byte of an interior table page.
pub const INTERIOR_TABLE_PAGE: u8 = 0x05;

/// One leaf cell as values: its row id and its payload.
pub open spec fn row_view(r: (u64, Vec<u8>)) -> (u64, Seq<u8>) {
    (r.0, r.1@)
}

/// A sequence of leaf cells as values.
pub open spec fn rows_view(rs: Seq<(u64, Vec<u8>)>) -> Seq<(u64, Seq<u8>)> {
    rs.map_values(|r: (u64, Vec<u8>)| row_view(r))
}

/// The largest payload a leaf cell of a page of `len` bytes holds without
/// overflow pages.
pub open spec fn max_local_payload(len: nat) -> int {
    len - 35
}

/// The leaf cell at offset `o` of page `p`: payload length, row id, then the
/// payload, which must lie wholly in the page.
pub open spec fn leaf_cell(p: Seq<u8>, o: nat) -> Option<(u64, Seq<u8>)> {
    if o >= p.len() {
        None
    } else {
        let s = p.subrange(o as int, p.len() as int);
        match varint_decode(s) {
            None => None,
            Some((len, n1)) => match varint_decode(s.subrange(n1 as int, s.len() as int)) {
                None => None,
                Some((row_id, n2)) => if len <= max_local_payload(p.len()) && n1 + n2 + len
                    <= s.len() {
                    Some((row_id as u64, s.subrange((n1 + n2) as int, (n1 + n2 + len) as int)))
                } else {
                    None
                },
            },
        }
    }
}

/// The `k`-th entry of the cell pointer array of page `p`, whose page header
/// starts at `h` and is `hl` bytes long.
pub open spec fn cell_ptr(p: Seq<u8>, h: nat, hl: nat, k: nat) -> nat {
    be16(p, (h + hl + 2 * k) as int)
}

/// The number of cells that the page header at `h` declares.
pub open spec fn cell_count(p: Seq<u8>, h: nat) -> nat {
    be16(p, (h + 3) as int)
}

/// Whether the page header at `h`, `hl` bytes long, and its cell pointer array
/// lie within the page.
pub open spec fn ptrs_in_page(p: Seq<u8>, h: nat, hl: nat) -> bool {
    h + hl <= p.len() && h + hl + 2 * cell_count(p, h) <= p.len()
}

/// The rows of the first `k` cells of the leaf page `p`, in cell pointer order.
pub open spec fn leaf_rows(p: Seq<u8>, h: nat, k: nat) -> Option<Seq<(u64, Seq<u8>)>>
    decreases k,
{
    if k == 0 {
        Some(Seq::empty())
    } else {
        match leaf_rows(p, h, (k - 1) as nat) {
            None => None,
            Some(rs) => match leaf_cell(p, cell_ptr(p, h, 8, (k - 1) as nat)) {
                None => None,
                Some(c) => Some(rs.push(c)),
            },
        }
    }
}

/// The left child that the interior cell at offset `o` points to.
pub open spec fn left_child(p: Seq<u8>, o: nat) -> Option<nat> {
    if o + 4 <= p.len() {
        Some(be32(p, o as int))
    } else {
        None
    }
}

/// The rows of the subtrees under the first `k` cells of the interior page `p`,
/// left to right.
pub open spec fn interior_rows(db: Seq<u8>, ps: nat, p: Seq<u8>, h: nat, k: nat, fuel: nat) -> Option<
    Seq<(u64, Seq<u8>)>,
>
    decreases fuel, k + 1,
{
    if k == 0 {
        Some(Seq::empty())
    } else {
        match interior_rows(db, ps, p, h, (k - 1) as nat, fuel) {
            None => None,
            Some(rs) => match left_child(p, cell_ptr(p, h, 12, (k - 1) as nat)) {
                None => None,
                Some(c) => match scan(db, ps, c, fuel) {
                    None => None,
                    Some(more) => Some(rs + more),
                },
            },
        }
    }
}

/// Every leaf row of the table B-tree rooted at page `n`, in key order: a leaf
/// page's cells in pointer order; an interior page's left children in cell
/// order, then its right-most child. `None` when a page is malformed, of
/// another type, out of the image, or when the tree is deeper than `fuel`.
pub open spec fn scan(db: Seq<u8>, ps: nat, n: nat, fuel: nat) -> Option<Seq<(u64, Seq<u8>)>>
    decreases fuel, 0nat,
{
    if fuel == 0 {
        None
    } else {
        match page_of(db, ps, n) {
            None => None,
            Some(p) => {
                let h = header_offset(n);
                if h >= p.len() {
                    None
                } else if p[h as int] == LEAF_TABLE_PAGE {
                    if ptrs_in_page(p, h, 8) {
                        leaf_rows(p, h, cell_count(p, h))
                    } else {
                        None
                    }
                } else if p[h as int] == INTERIOR_TABLE_PAGE {
                    if ptrs_in_page(p, h, 12) {
                        match interior_rows(
                            db,
                            ps,
                            p,
                            h,
                            cell_count(p, h),
                            (fuel - 1) as nat,
                        ) {
                            None => None,
                            Some(rs) => match scan(
                                db,
                                ps,
                                be32(p, (h + 8) as int),
                                (fuel - 1) as nat,
                            ) {
                                None => None,
                                Some(more) => Some(rs + more),
                            },
                        }
                    } else {
                        None
                    }
                } else {
                    None
                }
            },
        }
    }
}

/// The number of pages that the image `db` holds whole: no path from a root
/// to a leaf of a well-formed tree visits more pages than that.
pub open spec fn page_count(db: Seq<u8>, ps: nat) -> nat {
    db.len() / ps
}

/// Every leaf row of the table whose root is page `root`, in key order.
pub open spec fn table_rows(db: Seq<u8>, ps: nat, root: nat) -> Option<Seq<(u64, Seq<u8>)>> {
    scan(db, ps, root, page_count(db, ps))
}

proof fn lemma_leaf_rows_fail(p: Seq<u8>, h: nat, j: nat, k: nat)
    requires
        j <= k,
        leaf_rows(p, h, j) is None,
    ensures
        leaf_rows(p, h, k) is None,
    decreases k - j,
{
    if j < k {
        lemma_leaf_rows_fail(p, h, j, (k - 1) as nat);
    }
}

proof fn lemma_interior_rows_fail(db: Seq<u8>, ps: nat, p: Seq<u8>, h: nat, j: nat, k: nat, fuel: nat)
    requires
        j <= k,
        interior_rows(db, ps, p, h, j, fuel) is None,
    ensures
        interior_rows(db, ps, p, h, k, fuel) is None,
    decreases k - j,
{
    if j < k {
        lemma_interior_rows_fail(db, ps, p, h, j, (k - 1) as nat, fuel);
    }
}

/// Decodes the leaf cell at offset `o` of page `p`.
fn read_leaf_cell(p: &[u8], o: usize) -> (r: Result<(u64, Vec<u8>), DbError>)
    ensures
        r is Ok <==> leaf_cell(p@, o as nat) is Some,
        r matches Ok(c) ==> leaf_cell(p@, o as nat) == Some(row_view(c)),
        r is Err ==> r == Err::<(u64, Vec<u8>), DbError>(DbError::Format),
{
    if o >= p.len() {
        return Err(DbError::Format);
    }
    let s = &p[o..p.len()];
    let (len, n1) = read_varint(s)?;
    let rest = &s[n1..s.len()];
    let (row_id, n2) = read_varint(rest)?;
    let avail = (s.len() - n1 - n2) as u64;
    if p.len() < 35 || len > (p.len() - 35) as u64 || len > avail {
        return Err(DbError::Format);
    }
    let start = n1 + n2;
    let end = start + len as usize;
    Ok((row_id, copy_range(s, start, end)))
}

/// Appends to `out` every leaf row of the B-tree rooted at page `n`, in key
/// order, visiting no deeper than `fuel` pages.
fn scan_page(db: &[u8], ps: u32, n: u64, fuel: u64, out: &mut Vec<(u64, Vec<u8>)>) -> (r: Result<
    (),
    DbError,
>)
    requires
        is_valid_page_size(ps as nat),
    ensures
        r is Ok <==> scan(db@, ps as nat, n as nat, fuel as nat) is Some,
        r is Ok ==> rows_view(final(out)@) == rows_view(old(out)@) + scan(
            db@,
            ps as nat,
            n as nat,
            fuel as nat,
        )->0,
        r is Err ==> r == Err::<(), DbError>(DbError::Format),
    decreases fuel,
{
    if fuel == 0 {
        return Err(DbError::Format);
    }
    let p = match read_page(db, ps, n) {
        Ok(p) => p,
        Err(_) => {
            return Err(DbError::Format);
        },
    };
    let ghost pv = p@;
    let h: usize = if n == 1 {
        100
    } else {
        0
    };
    let ghost spec_rows = scan(db@, ps as nat, n as nat, fuel as nat);
    let count = read_be16(p.as_slice(), h + 3) as usize;
    let kind = p[h];
    if kind == LEAF_TABLE_PAGE {
        if h + 8 + 2 * count > p.len() {
            return Err(DbError::Format);
        }
        let ghost base = rows_view(out@);
        let mut i: usize = 0;
        while i < count
            invariant
                p@ == pv,
                spec_rows == scan(db@, ps as nat, n as nat, fuel as nat),
                pv == page_of(db@, ps as nat, n as nat)->0,
                pv.len() == ps,
                h == header_offset(n as nat),
                count == cell_count(pv, h as nat),
                h + 8 + 2 * count <= pv.len(),
                i <= count,
                leaf_rows(pv, h as nat, i as nat) is Some,
                spec_rows == leaf_rows(pv, h as nat, count as nat),
                rows_view(out@) == base + leaf_rows(pv, h as nat, i as nat)->0,
            decreases count - i,
        {
            let o = read_be16(p.as_slice(), h + 8 + 2 * i) as usize;
            let c = match read_leaf_cell(p.as_slice(), o) {
                Ok(c) => c,
                Err(e) => {
                    proof {
                        lemma_leaf_rows_fail(pv, h as nat, (i + 1) as nat, count as nat);
                    }
                    return Err(e);
                },
            };
            let ghost before = out@;
            out.push(c);
            proof {
                assert(rows_view(out@) == rows_view(before).push(row_view(c)));
                assert(rows_view(out@) == base + leaf_rows(pv, h as nat, (i + 1) as nat)->0);
            }
            i = i + 1;
        }
        Ok(())
    } else if kind == INTERIOR_TABLE_PAGE {
        if h + 12 + 2 * count > p.len() {
            return Err(DbError::Format);
        }
        let ghost base = rows_view(out@);
        let mut i: usize = 0;
        while i < count
            invariant
                p@ == pv,
                spec_rows == scan(db@, ps as nat, n as nat, fuel as nat),
                pv == page_of(db@, ps as nat, n as nat)->0,
                pv.len() == ps,
                is_valid_page_size(ps as nat),
                fuel >= 1,
                h == header_offset(n as nat),
                count == cell_count(pv, h as nat),
                h + 12 + 2 * count <= pv.len(),
                i <= count,
                interior_rows(db@, ps as nat, pv, h as nat, i as nat, (fuel - 1) as nat) is Some,
                spec_rows == (match interior_rows(
                    db@,
                    ps as nat,
                    pv,
                    h as nat,
                    count as nat,
                    (fuel - 1) as nat,
                ) {
                    None => None,
                    Some(rs) => match scan(db@, ps as nat, be32(pv, (h + 8) as int), (fuel - 1) as nat) {
                        None => None,
                        Some(more) => Some(rs + more),
                    },
                }),
                rows_view(out@) == base + interior_rows(
                    db@,
                    ps as nat,
                    pv,
                    h as nat,
                    i as nat,
                    (fuel - 1) as nat,
                )->0,
            decreases count - i,
        {
            let o = read_be16(p.as_slice(), h + 12 + 2 * i) as usize;
            if o + 4 > p.len() {
                proof {
                    lemma_interior_rows_fail(
                        db@,
                        ps as nat,
                        pv,
                        h as nat,
                        (i + 1) as nat,
                        count as nat,
                        (fuel - 1) as nat,
                    );
                }
                return Err(DbError::Format);
            }
            let child = read_be32(p.as_slice(), o);
            match scan_page(db, ps, child, fuel - 1, out) {
                Ok(()) => {},
                Err(e) => {
                    proof {
                        lemma_interior_rows_fail(
                            db@,
                            ps as nat,
                            pv,
                            h as nat,
                            (i + 1) as nat,
                            count as nat,
                            (fuel - 1) as nat,
                        );
                    }
                    return Err(e);
                },
            }
            proof {
                assert(rows_view(out@) == base + interior_rows(
                    db@,
                    ps as nat,
                    pv,
                    h as nat,
                    (i + 1) as nat,
                    (fuel - 1) as nat,
                )->0);
            }
            i = i + 1;
        }
        let right = read_be32(p.as_slice(), h + 8);
        scan_page(db, ps, right, fuel - 1, out)?;
        Ok(())
    } else {
        Err(DbError::Format)
    }
}

/// Every leaf row (row id and payload) of the table B-tree whose root is page
/// `root` of the file image `db`, in key order. Fails with `Format` when a page
/// on the way is malformed, of an index type, outside the image, or when the
/// pages do not form a tree.
pub fn scan_table(db: &[u8], page_size: u32, root: u64) -> (r: Result<Vec<(u64, Vec<u8>)>, DbError>)
    requires
        is_valid_page_size(page_size as nat),
    ensures
        r is Ok <==> table_rows(db@, page_size as nat, root as nat) is Some,
        r matches Ok(rows) ==> rows_view(rows@) == table_rows(
            db@,
            page_size as nat,
            root as nat,
        )->0,
        r is Err ==> r == Err::<Vec<(u64, Vec<u8>)>, DbError>(DbError::Format),
{
    let fuel = (db.len() / page_size as usize) as u64;
    let mut out: Vec<(u64, Vec<u8>)> = Vec::new();
    scan_page(db, page_size, root, fuel, &mut out)?;
    proof {
        assert(rows_view(out@) == rows_view(Seq::empty()) + table_rows(
            db@,
            page_size as nat,
            root as nat,
        )->0);
        assert(rows_view(Seq::<(u64, Vec<u8>)>::empty()) =~= Seq::empty());
        assert(rows_view(out@) =~= table_rows(db@, page_size as nat, root as nat)->0);
    }
    Ok(out)
}

} // verus!
