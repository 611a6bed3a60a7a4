use vstd::prelude::*;

use crate::error::DbError;

verus! {

/// `128^k`: one more than the largest value that `k` seven-bit groups hold.
pub open spec fn cap(k: nat) -> nat
    decreases k,
{
    if k == 0 {
        1
    } else {
        128 * cap((k - 1) as nat)
    }
}

/// Where a varint that starts at index 0 of `s` ends, scanning from index `i`:
/// the first byte with its high bit clear ends it, and so does the ninth byte.
pub open spec fn varint_end(s: Seq<u8>, i: nat) -> Option<nat>
    decreases 9 - i,
{
    if i >= 9 || i >= s.len() {
        None
    } else if i == 8 || s[i as int] < 128 {
        Some(i + 1)
    } else {
        varint_end(s, i + 1)
    }
}

/// The value held by the first `n` bytes of a varint: seven bits of each of
/// the first eight bytes, all eight bits of the ninth.
pub open spec fn varint_acc(s: Seq<u8>, n: nat) -> nat
    decreases n,
{
    if n == 0 {
        0
    } else if n == 9 {
        varint_acc(s, 8) * 256 + s[8] as nat
    } else {
        varint_acc(s, (n - 1) as nat) * 128 + (s[n - 1] % 128) as nat
    }
}

/// The varint at the start of `s`: its value and the number of bytes it
/// takes, or `None` when `s` ends before the varint does.
pub open spec fn varint_decode(s: Seq<u8>) -> Option<(nat, nat)> {
    match varint_end(s, 0) {
        Some(n) => Some((varint_acc(s, n), n)),
        None => None,
    }
}

/// `k` bytes holding `w` in big-endian seven-bit groups, each with its
/// continuation bit set.
pub open spec fn cont_bytes(w: nat, k: nat) -> Seq<u8>
    decreases k,
{
    if k == 0 {
        Seq::empty()
    } else {
        cont_bytes(w / 128, (k - 1) as nat).push((w % 128 + 128) as u8)
    }
}

/// The `n`-byte varint encoding of `v` (leading groups may be zero).
pub open spec fn varint_encode(v: nat, n: nat) -> Seq<u8> {
    if n == 9 {
        cont_bytes(v / 256, 8).push((v % 256) as u8)
    } else {
        cont_bytes(v / 128, (n - 1) as nat).push((v % 128) as u8)
    }
}

proof fn lemma_cap_values()
    ensures
        cap(7) == 0x2_0000_0000_0000,
        cap(8) == 0x100_0000_0000_0000,
{
    reveal_with_fuel(cap, 9);
}

proof fn lemma_cap_mono(i: nat, j: nat)
    requires
        i <= j,
    ensures
        cap(i) <= cap(j),
    decreases j - i,
{
    if i < j {
        lemma_cap_mono(i, (j - 1) as nat);
    }
}

proof fn lemma_acc_prefix(s: Seq<u8>, t: Seq<u8>, n: nat)
    requires
        n <= s.len(),
        n <= t.len(),
        forall|j: int| 0 <= j < n ==> s[j] == t[j],
    ensures
        varint_acc(s, n) == varint_acc(t, n),
    decreases n,
{
    if n > 0 {
        if n == 9 {
            lemma_acc_prefix(s, t, 8);
        } else {
            lemma_acc_prefix(s, t, (n - 1) as nat);
        }
    }
}

proof fn lemma_cont_bytes(w: nat, k: nat)
    requires
        k <= 8,
        w < cap(k),
    ensures
        cont_bytes(w, k).len() == k,
        forall|j: int| 0 <= j < k ==> #[trigger] cont_bytes(w, k)[j] >= 128,
        varint_acc(cont_bytes(w, k), k) == w,
    decreases k,
{
    if k > 0 {
        let p = (k - 1) as nat;
        assert(w / 128 < cap(p)) by (nonlinear_arith)
            requires
                w < 128 * cap(p),
        ;
        lemma_cont_bytes(w / 128, p);
        let prev = cont_bytes(w / 128, p);
        let s = cont_bytes(w, k);
        assert(s == prev.push((w % 128 + 128) as u8));
        lemma_acc_prefix(s, prev, p);
        assert(w == (w / 128) * 128 + w % 128) by (nonlinear_arith);
        assert(((w % 128 + 128) as u8) % 128 == w % 128);
    }
}

proof fn lemma_end_scan(s: Seq<u8>, i: nat, n: nat)
    requires
        i < n <= 9,
        n <= s.len(),
        forall|j: int| i <= j < n - 1 ==> s[j] >= 128,
        n == 9 || s[n - 1] < 128,
    ensures
        varint_end(s, i) == Some(n),
    decreases n - i,
{
    if i + 1 < n {
        lemma_end_scan(s, i + 1, n);
    }
}

/// Encoding a value in `n` bytes and decoding the result gives back the value
/// and `n`, for every value that `n` bytes can hold: up to eight bytes carry
/// seven bits each, the ninth carries eight.
pub proof fn lemma_varint_round_trip(v: nat, n: nat)
    requires
        1 <= n <= 9,
        n == 9 ==> v <= u64::MAX,
        n < 9 ==> v < cap(n),
    ensures
        varint_decode(varint_encode(v, n)) == Some((v, n)),
{
    let e = varint_encode(v, n);
    lemma_cap_values();
    if n == 9 {
        assert(v / 256 < cap(8)) by (nonlinear_arith)
            requires
                v <= 0xffff_ffff_ffff_ffff,
                cap(8) == 0x100_0000_0000_0000,
        ;
        lemma_cont_bytes(v / 256, 8);
        let c = cont_bytes(v / 256, 8);
        lemma_acc_prefix(e, c, 8);
        lemma_end_scan(e, 0, 9);
        assert(v == (v / 256) * 256 + v % 256) by (nonlinear_arith);
    } else {
        let p = (n - 1) as nat;
        assert(v / 128 < cap(p)) by (nonlinear_arith)
            requires
                v < 128 * cap(p),
        ;
        lemma_cont_bytes(v / 128, p);
        let c = cont_bytes(v / 128, p);
        lemma_acc_prefix(e, c, p);
        lemma_end_scan(e, 0, n);
        assert(v == (v / 128) * 128 + v % 128) by (nonlinear_arith);
    }
}

proof fn lemma_end_runs_out(s: Seq<u8>, i: nat)
    requires
        s.len() <= 8,
        forall|j: int| i <= j < s.len() ==> s[j] >= 128,
    ensures
        varint_end(s, i) is None,
    decreases 9 - i,
{
    if i < s.len() {
        lemma_end_runs_out(s, i + 1);
    }
}

/// Cutting the `n`-byte encoding of a value short, by any number of bytes,
/// leaves input that does not decode.
pub proof fn lemma_varint_truncated(v: nat, n: nat, m: nat)
    requires
        1 <= n <= 9,
        n == 9 ==> v <= u64::MAX,
        n < 9 ==> v < cap(n),
        m < n,
    ensures
        varint_decode(varint_encode(v, n).subrange(0, m as int)) is None,
{
    let e = varint_encode(v, n);
    let t = e.subrange(0, m as int);
    lemma_cap_values();
    if n == 9 {
        assert(v / 256 < cap(8)) by (nonlinear_arith)
            requires
                v <= 0xffff_ffff_ffff_ffff,
                cap(8) == 0x100_0000_0000_0000,
        ;
        lemma_cont_bytes(v / 256, 8);
    } else {
        let p = (n - 1) as nat;
        assert(v / 128 < cap(p)) by (nonlinear_arith)
            requires
                v < 128 * cap(p),
        ;
        lemma_cont_bytes(v / 128, p);
    }
    assert forall|j: int| 0 <= j < t.len() implies t[j] >= 128 by {
        assert(t[j] == e[j]);
    }
    lemma_end_runs_out(t, 0);
}

/// Decodes the varint at the start of `input`, returning its value and the
/// number of bytes it takes; fails with `Format` when `input` ends first.
pub fn read_varint(input: &[u8]) -> (r: Result<(u64, usize), DbError>)
    ensures
        r is Ok <==> varint_decode(input@) is Some,
        r matches Ok((v, n)) ==> varint_decode(input@) == Some((v as nat, n as nat)),
        r matches Ok((v, n)) ==> 1 <= n <= 9 && n <= input@.len(),
        r is Err ==> r == Err::<(u64, usize), DbError>(DbError::Format),
{
    let mut v: u64 = 0;
    let mut i: usize = 0;
    proof {
        lemma_cap_values();
    }
    loop
        invariant
            i <= 8,
            forall|j: int| 0 <= j < i ==> input@[j] >= 128,
            varint_end(input@, 0) == varint_end(input@, i as nat),
            i <= input@.len(),
            v as nat == varint_acc(input@, i as nat),
            v < cap(i as nat),
            cap(7) == 0x2_0000_0000_0000,
            cap(8) == 0x100_0000_0000_0000,
        decreases 9 - i,
    {
        if i >= input.len() {
            return Err(DbError::Format);
        }
        let b = input[i];
        if i == 8 {
            assert(v * 256 + b <= 0xffff_ffff_ffff_ffff) by (nonlinear_arith)
                requires
                    v < 0x100_0000_0000_0000,
                    b < 256,
            ;
            v = v * 256 + b as u64;
            return Ok((v, 9));
        }
        proof {
            lemma_cap_mono((i + 1) as nat, 8);
            assert(v * 128 + b % 128 < 128 * cap(i as nat)) by (nonlinear_arith)
                requires
                    v < cap(i as nat),
                    b % 128 < 128,
            ;
        }
        v = v * 128 + (b % 128) as u64;
        i = i + 1;
        if b < 128 {
            return Ok((v, i));
        }
    }
}

} // verus!
