use vstd::arithmetic::div_mod::{lemma_basic_div, lemma_div_denominator, lemma_fundamental_div_mod};
use vstd::prelude::*;

use crate::error::DbError;

verus! {

/// `128` raised to the power `k`.
pub open spec fn pow128(k: nat) -> nat
    decreases k,
{
    if k == 0 {
        1
    } else {
        128 * pow128((k - 1) as nat)
    }
}

/// The number formed by the low seven bits of the first `k` bytes of `s`,
/// most significant group first.
pub open spec fn septets_value(s: Seq<u8>, k: nat) -> nat
    decreases k,
{
    if k == 0 {
        0
    } else {
        septets_value(s, (k - 1) as nat) * 128 + (s[k - 1] % 128) as nat
    }
}

/// Length of a varint whose first `i` bytes all carry the continuation bit.
/// A byte missing from `s` counts as carrying it, so a truncated varint has a
/// length larger than `s`.
pub open spec fn varint_len_from(s: Seq<u8>, i: nat) -> nat
    decreases 8 - i,
{
    if i >= 8 {
        9
    } else if i < s.len() && s[i as int] < 128 {
        i + 1
    } else {
        varint_len_from(s, i + 1)
    }
}

/// Number of bytes, from 1 to 9, of the varint at the start of `s`.
pub open spec fn varint_len(s: Seq<u8>) -> nat {
    varint_len_from(s, 0)
}

/// Value of the varint at the start of `s`: seven bits from each of its first
/// eight bytes, and all eight bits of a ninth byte.
pub open spec fn varint_value(s: Seq<u8>) -> nat {
    let n = varint_len(s);
    if n <= 8 {
        septets_value(s, n)
    } else {
        septets_value(s, 8) * 256 + s[8] as nat
    }
}

/// The varint at the start of `s` as (value, bytes used), or `None` where
/// `s` ends before the varint does.
pub open spec fn varint_spec(s: Seq<u8>) -> Option<(u64, nat)> {
    if varint_len(s) <= s.len() {
        Some((varint_value(s) as u64, varint_len(s)))
    } else {
        None
    }
}

pub proof fn lemma_varint_len_bounds(s: Seq<u8>, i: nat)
    requires
        i <= 8,
    ensures
        i < varint_len_from(s, i) <= 9,
    decreases 8 - i,
{
    if i < 8 {
        lemma_varint_len_bounds(s, i + 1);
    }
}

pub proof fn lemma_septets_bound(s: Seq<u8>, k: nat)
    ensures
        septets_value(s, k) < pow128(k),
    decreases k,
{
    if k > 0 {
        let k1 = (k - 1) as nat;
        lemma_septets_bound(s, k1);
        let v = septets_value(s, k1);
        let d = (s[k - 1] % 128) as nat;
        let p = pow128(k1);
        assert(v * 128 + d < 128 * p) by (nonlinear_arith)
            requires
                v < p,
                d < 128,
        ;
    }
}

/// A varint never denotes more than `u64::MAX`.
pub proof fn lemma_varint_value_fits(s: Seq<u8>)
    ensures
        varint_value(s) <= u64::MAX,
{
    lemma_varint_len_bounds(s, 0);
    let n = varint_len(s);
    lemma_septets_bound(s, n);
    lemma_septets_bound(s, 8);
    lemma_pow128_eight();
    if n <= 8 {
        lemma_pow128_monotone(n, 8);
    } else {
        let v = septets_value(s, 8);
        let b = s[8] as nat;
        assert(v * 256 + b <= u64::MAX) by (nonlinear_arith)
            requires
                v < 0x100000000000000,
                b < 256,
        ;
    }
}

pub proof fn lemma_pow128_eight()
    ensures
        pow128(8) == 0x100000000000000,
{
    reveal_with_fuel(pow128, 9);
}

pub proof fn lemma_pow128_monotone(a: nat, b: nat)
    requires
        a <= b,
    ensures
        pow128(a) <= pow128(b),
    decreases b - a,
{
    if a < b {
        lemma_pow128_monotone(a, (b - 1) as nat);
    }
}


/// Group `j` of seven bits of `v`, counting from the least significant.
pub open spec fn septet(v: nat, j: nat) -> nat {
    (v / pow128(j)) % 128
}

/// Shortest length, at least `k`, of a varint for `v`.
pub open spec fn encoded_len_from(v: nat, k: nat) -> nat
    decreases 8 - k,
{
    if k >= 8 {
        if v < pow128(8) {
            8
        } else {
            9
        }
    } else if v < pow128(k) {
        k
    } else {
        encoded_len_from(v, k + 1)
    }
}

/// Number of bytes of the shortest varint for `v`.
pub open spec fn encoded_len(v: nat) -> nat {
    encoded_len_from(v, 1)
}

/// The shortest varint for `v`: up to eight bytes of seven bits each, all
/// but the last with the continuation bit set; or, for values of 57 bits and
/// more, eight such bytes followed by one byte holding the low eight bits.
pub open spec fn varint_encode(v: nat) -> Seq<u8> {
    let n = encoded_len(v);
    if n <= 8 {
        Seq::new(
            n,
            |i: int|
                (septet(v, (n - 1 - i) as nat) + if i < n - 1 {
                    128nat
                } else {
                    0nat
                }) as u8,
        )
    } else {
        Seq::new(
            9,
            |i: int|
                if i < 8 {
                    (septet(v / 256, (7 - i) as nat) + 128) as u8
                } else {
                    (v % 256) as u8
                },
        )
    }
}

proof fn lemma_encoded_len_bounds(v: nat, k: nat)
    requires
        1 <= k <= 8,
    ensures
        k <= encoded_len_from(v, k) <= 9,
        encoded_len_from(v, k) <= 8 ==> v < pow128(encoded_len_from(v, k)),
        encoded_len_from(v, k) == 9 ==> v >= pow128(8),
    decreases 8 - k,
{
    if k < 8 {
        lemma_encoded_len_bounds(v, k + 1);
    }
}

proof fn lemma_pow128_step(k: nat)
    requires
        k >= 1,
    ensures
        pow128(k) / 128 == pow128((k - 1) as nat),
        pow128(k) == 128 * pow128((k - 1) as nat),
{
    let p = pow128((k - 1) as nat);
    assert((128 * p) / 128 == p) by (nonlinear_arith);
}

proof fn lemma_pow128_positive(k: nat)
    ensures
        pow128(k) > 0,
    decreases k,
{
    if k > 0 {
        lemma_pow128_positive((k - 1) as nat);
    }
}

/// The continuation bits of `s` make its varint `n` bytes long.
proof fn lemma_len_of_marked(s: Seq<u8>, n: nat, i: nat)
    requires
        1 <= n <= 9,
        i < n,
        s.len() >= n,
        forall|j: int| 0 <= j < n - 1 && j < 8 ==> s[j] >= 128,
        n <= 8 ==> s[n - 1] < 128,
    ensures
        varint_len_from(s, i) == n,
    decreases n - i,
{
    if i + 1 < n && i < 8 {
        lemma_len_of_marked(s, n, i + 1);
    }
}

/// Where byte `i` of `s` holds septet `k - 1 - i` of `w`, the first `m` bytes
/// hold `w` with its lowest `k - m` septets dropped.
proof fn lemma_septets_of_digits(s: Seq<u8>, w: nat, k: nat, m: nat)
    requires
        m <= k,
        w < pow128(k),
        s.len() >= k,
        forall|i: int| 0 <= i < k ==> (#[trigger] s[i] % 128) as nat == septet(w, (k - 1 - i) as nat),
    ensures
        septets_value(s, m) == w / pow128((k - m) as nat),
    decreases m,
{
    let e = (k - m) as nat;
    lemma_pow128_positive(e);
    if m == 0 {
        lemma_basic_div(w as int, pow128(k) as int);
    } else {
        lemma_septets_of_digits(s, w, k, (m - 1) as nat);
        let x = w / pow128(e);
        assert(pow128(e + 1) == 128 * pow128(e));
        lemma_div_denominator(w as int, pow128(e) as int, 128);
        assert(pow128(e) * 128 == 128 * pow128(e)) by (nonlinear_arith);
        lemma_fundamental_div_mod(x as int, 128);
        assert(s[m - 1] % 128 == septet(w, e));
    }
}

/// Decodes the varint that starts at `pos` in `buf`; returns its value and
/// the number of bytes it occupies.
pub fn read_varint(buf: &[u8], pos: usize) -> (r: Result<(u64, usize), DbError>)
    requires
        pos <= buf@.len(),
    ensures
        match varint_spec(buf@.subrange(pos as int, buf@.len() as int)) {
            Some((v, n)) => r == Ok::<(u64, usize), DbError>((v, n as usize)),
            None => r == Err::<(u64, usize), DbError>(DbError::Format),
        },
        r is Ok ==> 1 <= r.unwrap().1 <= 9 && pos + r.unwrap().1 <= buf@.len(),
{
    let ghost s = buf@.subrange(pos as int, buf@.len() as int);
    proof {
        lemma_varint_value_fits(s);
        lemma_varint_len_bounds(s, 0);
    }
    let mut v: u64 = 0;
    let mut i: usize = 0;
    while i < 8
        invariant
            i <= 8,
            pos <= buf@.len(),
            s == buf@.subrange(pos as int, buf@.len() as int),
            v as nat == septets_value(s, i as nat),
            v < pow128(i as nat),
            varint_len(s) == varint_len_from(s, i as nat),
            varint_value(s) <= u64::MAX,
        decreases 8 - i,
    {
        if i >= buf.len() - pos {
            proof {
                lemma_varint_len_bounds(s, i as nat);
            }
            return Err(DbError::Format);
        }
        let b = buf[pos + i];
        proof {
            let p = pow128(i as nat);
            let d = (b % 128) as nat;
            assert(v * 128 + d < 128 * p) by (nonlinear_arith)
                requires
                    v < p,
                    d < 128,
            ;
            lemma_pow128_monotone((i + 1) as nat, 8);
            lemma_pow128_eight();
        }
        v = v * 128 + (b % 128) as u64;
        i = i + 1;
        if b < 128 {
            return Ok((v, i));
        }
    }
    if buf.len() - pos <= 8 {
        return Err(DbError::Format);
    }
    let b = buf[pos + 8];
    Ok((v * 256 + b as u64, 9))
}

/// Decodes the varint at the start of `stream`.
pub fn parse_varint(stream: &[u8]) -> (r: Result<(u64, usize), DbError>)
    ensures
        match varint_spec(stream@) {
            Some((v, n)) => r == Ok::<(u64, usize), DbError>((v, n as usize)),
            None => r == Err::<(u64, usize), DbError>(DbError::Format),
        },
{
    assert(stream@.subrange(0, stream@.len() as int) =~= stream@);
    read_varint(stream, 0)
}

/// Decoding the shortest varint for `v` gives back `v` and the number of
/// bytes of the encoding.
pub proof fn lemma_varint_round_trip(v: u64)
    ensures
        varint_spec(varint_encode(v as nat)) == Some((v, varint_encode(v as nat).len())),
{
    let w = v as nat;
    let s = varint_encode(w);
    let n = encoded_len(w);
    lemma_encoded_len_bounds(w, 1);
    lemma_pow128_eight();
    if n <= 8 {
        assert forall|i: int| 0 <= i < n implies (#[trigger] s[i] % 128) as nat == septet(
            w,
            (n - 1 - i) as nat,
        ) && (i < n - 1 ==> s[i] >= 128) && (i == n - 1 ==> s[i] < 128) by {
            let d = septet(w, (n - 1 - i) as nat);
            assert(d < 128);
        }
        lemma_len_of_marked(s, n, 0);
        lemma_septets_of_digits(s, w, n, n);
        assert(pow128(0) == 1);
        assert(w / 1 == w);
        assert(septets_value(s, n) == w);
        assert(varint_len(s) == n);
        assert(s.len() == n);
        assert(varint_value(s) == w);
    } else {
        let q = w / 256;
        assert(q < pow128(8));
        assert forall|i: int| 0 <= i < 8 implies (#[trigger] s[i] % 128) as nat == septet(
            q,
            (7 - i) as nat,
        ) && s[i] >= 128 by {
            let d = septet(q, (7 - i) as nat);
            assert(d < 128);
        }
        lemma_len_of_marked(s, 9, 0);
        lemma_septets_of_digits(s, q, 8, 8);
        assert(pow128(0) == 1);
        assert(q / 1 == q);
        assert(septets_value(s, 8) == q);
        lemma_fundamental_div_mod(w as int, 256);
        assert(varint_value(s) == w);
    }
}

/// Bytes of the shortest varint for `v`.
pub fn encode_varint(v: u64) -> (r: Vec<u8>)
    ensures
        r@ == varint_encode(v as nat),
{
    let ghost w = v as nat;
    proof {
        lemma_encoded_len_bounds(w, 1);
        lemma_pow128_eight();
    }
    let mut n: usize = 1;
    let mut p: u64 = 128;
    proof {
        reveal_with_fuel(pow128, 2);
    }
    while n < 8 && v >= p
        invariant
            1 <= n <= 8,
            w == v as nat,
            p as nat == pow128(n as nat),
            encoded_len(w) == encoded_len_from(w, n as nat),
        decreases 8 - n,
    {
        proof {
            lemma_pow128_monotone((n + 1) as nat, 8);
            lemma_pow128_step((n + 1) as nat);
            lemma_pow128_eight();
            reveal_with_fuel(encoded_len_from, 2);
            assert(encoded_len_from(w, n as nat) == encoded_len_from(w, (n + 1) as nat));
        }
        p = p * 128;
        n = n + 1;
    }
    let mut out: Vec<u8> = Vec::new();
    proof {
        if v < p {
            assert(encoded_len_from(w, n as nat) == n);
        } else {
            assert(n == 8);
        }
        lemma_pow128_step(n as nat);
    }
    if v < p {
        // all of `v` fits in `n` groups of seven bits
        let ghost enc = varint_encode(w);
        let mut i: usize = 0;
        let mut q: u64 = p / 128;
        assert(n >= 1);
        while i < n
            invariant
                n == encoded_len(w),
                w == v as nat,
                n <= 8,
                i <= n,
                enc == varint_encode(w),
                i < n ==> q as nat == pow128((n - 1 - i) as nat),
                out@ == enc.subrange(0, i as int),
            decreases n - i,
        {
            proof {
                lemma_pow128_positive((n - 1 - i) as nat);
            }
            let d = (v / q) % 128;
            let b: u8 = if i + 1 < n {
                (d + 128) as u8
            } else {
                d as u8
            };
            out.push(b);
            proof {
                assert(septet(w, (n - 1 - i) as nat) == d as nat);
                assert(enc[i as int] == b);
                assert(out@ =~= enc.subrange(0, i + 1));
                if i + 1 < n {
                    lemma_pow128_step((n - 1 - i) as nat);
                }
            }
            if i + 1 < n {
                q = q / 128;
            }
            i = i + 1;
        }
        proof {
            assert(out@ =~= enc);
        }
    } else {
        let ghost enc = varint_encode(w);
        let hi = v / 256;
        let mut i: usize = 0;
        let mut q: u64 = p / 128;
        while i < 8
            invariant
                encoded_len(w) == 9,
                w == v as nat,
                i <= 8,
                enc == varint_encode(w),
                hi == w / 256,
                i < 8 ==> q as nat == pow128((7 - i) as nat),
                out@ == enc.subrange(0, i as int),
            decreases 8 - i,
        {
            proof {
                lemma_pow128_positive((7 - i) as nat);
            }
            let d = (hi / q) % 128;
            out.push((d + 128) as u8);
            proof {
                assert(enc[i as int] == (d + 128) as u8);
                assert(out@ =~= enc.subrange(0, i + 1));
                if i + 1 < 8 {
                    lemma_pow128_step((7 - i) as nat);
                }
            }
            if i + 1 < 8 {
                q = q / 128;
            }
            i = i + 1;
        }
        out.push((v % 256) as u8);
        proof {
            assert(out@ =~= enc);
        }
    }
    out
}

} // verus!
