use vstd::prelude::*;

use crate::list_file::{agree_upto, lex_le, lex_lt};

verus! {

/// The digits of `v` in base 255, most significant first, each stored as the
/// digit plus one so that no byte of the encoding is 0 (0 separates fields
/// in the index files). Zero is the single byte 1.
pub open spec fn base255(v: nat) -> Seq<u8>
    decreases v,
{
    if v < 255 {
        seq![(v + 1) as u8]
    } else {
        base255(v / 255).push((v % 255 + 1) as u8)
    }
}

/// The number that a sequence of base-255 digits (each stored plus one)
/// stands for.
pub open spec fn base255_value(digits: Seq<u8>) -> int
    decreases digits.len(),
{
    if digits.len() == 0 {
        0
    } else {
        base255_value(digits.drop_last()) * 255 + (digits.last() - 1)
    }
}

/// How many base-255 digits `v` has (at least one).
pub open spec fn base255_len(v: nat) -> nat
    decreases v,
{
    if v < 255 {
        1
    } else {
        1 + base255_len(v / 255)
    }
}

/// Whether `v` can be converted: the converter counts digits by comparing
/// `v` with growing powers of 255, so 255 to the power of the digit count
/// must fit in a `usize` (on 64 bits: `v < 255^8`).
pub open spec fn base255_writable(v: nat) -> bool {
    pow255(base255_len(v)) <= usize::MAX
}

/// Converts `value` to its base-255 digits, most significant first, each
/// digit stored plus one so that the result never holds a 0 byte.
pub fn convert_to_base_255_as_bytes(value: usize) -> (digits: Vec<u8>)
    requires
        base255_writable(value as nat),
    ensures
        digits@ == base255(value as nat),
{
    let mut v: usize = value;
    let mut res: Vec<u8> = Vec::new();
    while v >= 255
        invariant
            base255(value as nat) == base255(v as nat) + res@,
        decreases v,
    {
        let d: u8 = (v % 255 + 1) as u8;
        let ghost old_res = res@;
        res.insert(0, d);
        proof {
            assert(res@ =~= seq![d] + old_res);
            assert(base255(v as nat) == base255((v / 255) as nat).push(d));
            assert(base255((v / 255) as nat).push(d) + old_res =~= base255((v / 255) as nat) + res@);
        }
        v = v / 255;
    }
    let ghost old_res = res@;
    res.insert(0, (v + 1) as u8);
    assert(res@ =~= base255(v as nat) + old_res);
    res
}

/// Decoding the base-255 digits of a number gives the number back.
pub proof fn lemma_base255_roundtrip(v: nat)
    ensures
        base255_value(base255(v)) == v,
    decreases v,
{
    if v >= 255 {
        lemma_base255_roundtrip(v / 255);
        let s = base255(v);
        assert(s.drop_last() =~= base255(v / 255));
        assert(s.last() == (v % 255 + 1) as u8);
        assert(v == (v / 255) * 255 + v % 255) by (nonlinear_arith);
        assert(base255_value(s) == base255_value(s.drop_last()) * 255 + (s.last() - 1));
    } else {
        let s = base255(v);
        assert(s.drop_last() =~= Seq::<u8>::empty());
        assert(base255_value(s) == base255_value(s.drop_last()) * 255 + (s.last() - 1));
    }
}

/// Two numbers with the same base-255 digits are equal.
pub proof fn lemma_base255_injective(v: nat, w: nat)
    requires
        base255(v) == base255(w),
    ensures
        v == w,
{
    lemma_base255_roundtrip(v);
    lemma_base255_roundtrip(w);
}

/// No byte of a base-255 encoding is 0, and its length is the digit count.
pub proof fn lemma_base255_shape(v: nat)
    ensures
        base255(v).len() == base255_len(v),
        forall|i: int| 0 <= i < base255(v).len() ==> #[trigger] base255(v)[i] != 0,
    decreases v,
{
    if v >= 255 {
        lemma_base255_shape(v / 255);
        let s = base255(v);
        assert forall|i: int| 0 <= i < s.len() implies #[trigger] s[i] != 0 by {
            if i < s.len() - 1 {
                assert(s[i] == base255(v / 255)[i]);
            }
        }
    }
}

/// A larger number never has fewer base-255 digits.
pub proof fn lemma_base255_len_monotone(v: nat, w: nat)
    requires
        v <= w,
    ensures
        base255_len(v) <= base255_len(w),
    decreases w,
{
    if v >= 255 {
        lemma_base255_len_monotone(v / 255, w / 255);
    }
}

/// `255` to the power `k`.
pub open spec fn pow255(k: nat) -> nat
    decreases k,
{
    if k == 0 {
        1
    } else {
        255 * pow255((k - 1) as nat)
    }
}

/// A number below `255^k` has at most `k` base-255 digits.
pub proof fn lemma_base255_len_below_pow(v: nat, k: nat)
    requires
        k >= 1,
        v < pow255(k),
    ensures
        base255_len(v) <= k,
    decreases k,
{
    if v >= 255 {
        if k == 1 {
            assert(pow255(1) == 255 * pow255(0));
        } else {
            let p = pow255((k - 1) as nat);
            assert(pow255(k) == 255 * p);
            assert(v / 255 < p) by (nonlinear_arith)
                requires
                    v < 255 * p,
            ;
            lemma_base255_len_below_pow(v / 255, (k - 1) as nat);
        }
    }
}

/// Every 64-bit number has at most nine base-255 digits.
pub proof fn lemma_base255_len_u64(v: nat)
    requires
        v <= 0xFFFF_FFFF_FFFF_FFFF,
    ensures
        base255_len(v) <= 9,
{
    reveal_with_fuel(pow255, 10);
    assert(pow255(9) == 4558916353692287109375);
    lemma_base255_len_below_pow(v, 9);
}

/// Powers of 255 grow with the exponent.
pub proof fn lemma_pow255_monotone(j: nat, k: nat)
    requires
        j <= k,
    ensures
        pow255(j) <= pow255(k),
    decreases k,
{
    if j < k {
        lemma_pow255_monotone(j, (k - 1) as nat);
        assert(pow255(k) == 255 * pow255((k - 1) as nat));
    }
}

/// A number is below 255 to the power of its digit count.
pub proof fn lemma_below_pow_len(v: nat)
    ensures
        v < pow255(base255_len(v)),
    decreases v,
{
    if v >= 255 {
        lemma_below_pow_len(v / 255);
        let p = pow255(base255_len(v / 255));
        assert(pow255(base255_len(v)) == 255 * p);
        assert(v < 255 * p) by (nonlinear_arith)
            requires
                v / 255 < p,
        ;
    } else {
        assert(pow255(1) == 255 * pow255(0));
    }
}

/// A smaller number can be converted whenever a larger one can.
pub proof fn lemma_writable_monotone(v: nat, w: nat)
    requires
        v <= w,
        base255_writable(w),
    ensures
        base255_writable(v),
{
    lemma_base255_len_monotone(v, w);
    lemma_pow255_monotone(base255_len(v), base255_len(w));
}

/// The number of base-255 digits of `value`.
pub fn digit_count(value: usize) -> (d: usize)
    ensures
        d == base255_len(value as nat),
        1 <= d <= 9,
{
    proof {
        lemma_base255_len_u64(value as nat);
    }
    let mut v: usize = value;
    let mut d: usize = 1;
    while v >= 255
        invariant
            d >= 1,
            d + base255_len(v as nat) == base255_len(value as nat) + 1,
            base255_len(value as nat) <= 9,
        decreases v,
    {
        assert(base255_len(v as nat) == 1 + base255_len((v / 255) as nat));
        assert(base255_len((v / 255) as nat) >= 1);
        v = v / 255;
        d = d + 1;
    }
    d
}

/// Whether `value` can be converted (see `base255_writable`).
pub fn base255_fits(value: usize) -> (ok: bool)
    ensures
        ok == base255_writable(value as nat),
{
    let d = digit_count(value);
    let mut p: usize = 1;
    let mut k: usize = 0;
    while k < d
        invariant
            k <= d,
            d == base255_len(value as nat),
            p == pow255(k as nat),
        decreases d - k,
    {
        assert(pow255((k + 1) as nat) == 255 * pow255(k as nat));
        match p.checked_mul(255) {
            None => {
                proof {
                    lemma_pow255_monotone((k + 1) as nat, d as nat);
                }
                return false;
            },
            Some(q) => {
                p = q;
                k = k + 1;
            },
        }
    }
    true
}

/// Over bytes that are not 0, a longer prefix never has a smaller value.
pub proof fn lemma_base255_value_prefix(s: Seq<u8>, i: int, j: int)
    requires
        0 <= i <= j <= s.len(),
        forall|k: int| 0 <= k < s.len() ==> s[k] != 0,
    ensures
        base255_value(s.take(i)) <= base255_value(s.take(j)),
    decreases j - i,
{
    if i < j {
        lemma_base255_value_prefix(s, i, j - 1);
        assert(s.take(j).drop_last() =~= s.take(j - 1));
        assert(s.take(j).last() == s[j - 1]);
        lemma_base255_value_nonneg(s.take(j - 1));
        assert(base255_value(s.take(j - 1)) <= base255_value(s.take(j - 1)) * 255 + (s[j - 1] - 1)) by (nonlinear_arith)
            requires
                base255_value(s.take(j - 1)) >= 0,
                s[j - 1] >= 1,
        ;
    }
}

/// Digits that are not 0 have a non-negative value.
pub proof fn lemma_base255_value_nonneg(s: Seq<u8>)
    requires
        forall|k: int| 0 <= k < s.len() ==> s[k] != 0,
    ensures
        base255_value(s) >= 0,
    decreases s.len(),
{
    if s.len() > 0 {
        lemma_base255_value_nonneg(s.drop_last());
        assert(base255_value(s.drop_last()) * 255 >= 0) by (nonlinear_arith)
            requires
                base255_value(s.drop_last()) >= 0,
        ;
    }
}

/// Base-255 encodings keep the order of numbers: a larger number has at
/// least as many digits, and among encodings of the same length the larger
/// number's comes later in byte order.
pub proof fn lemma_base255_order(a: nat, b: nat)
    requires
        a <= b,
    ensures
        base255(a).len() <= base255(b).len(),
        base255(a).len() == base255(b).len() ==> lex_le(base255(a), base255(b)),
    decreases b,
{
    lemma_base255_shape(a);
    lemma_base255_shape(b);
    lemma_base255_len_monotone(a, b);
    let sa = base255(a);
    let sb = base255(b);
    if a < 255 && b < 255 {
        if a < b {
            assert(agree_upto(sa, sb, 0));
            assert(lex_lt(sa, sb));
        } else {
            assert(sa =~= sb);
        }
    } else if a < 255 {
        assert(base255_len(b) == 1 + base255_len(b / 255));
        assert(base255_len(b / 255) >= 1);
    } else if a >= 255 && b >= 255 && sa.len() == sb.len() {
        let qa = a / 255;
        let qb = b / 255;
        assert(qa <= qb) by (nonlinear_arith)
            requires
                a <= b,
                qa == a / 255,
                qb == b / 255,
        ;
        lemma_base255_order(qa, qb);
        let pa = base255(qa);
        let pb = base255(qb);
        assert(sa == pa.push((a % 255 + 1) as u8));
        assert(sb == pb.push((b % 255 + 1) as u8));
        if pa == pb {
            lemma_base255_injective(qa, qb);
            assert(a % 255 <= b % 255) by (nonlinear_arith)
                requires
                    a <= b,
                    a / 255 == b / 255,
            ;
            if a % 255 < b % 255 {
                let k = pa.len() as int;
                assert forall|t: int| 0 <= t < k implies sa[t] == sb[t] by {
                    assert(sa[t] == pa[t]);
                    assert(sb[t] == pb[t]);
                }
                assert(agree_upto(sa, sb, k));
                assert(lex_lt(sa, sb));
            } else {
                assert(sa =~= sb);
            }
        } else {
            let k = choose|k: int| 0 <= k < pa.len() && k < pb.len() && #[trigger] agree_upto(pa, pb, k) && pa[k] < pb[k];
            assert forall|t: int| 0 <= t < k implies sa[t] == sb[t] by {
                assert(sa[t] == pa[t]);
                assert(sb[t] == pb[t]);
            }
            assert(agree_upto(sa, sb, k));
            assert(sa[k] == pa[k] && sb[k] == pb[k]);
            assert(lex_lt(sa, sb));
        }
    }
}

} // verus!
