//! Arbitrary-precision signed integers over base-94 digit vectors.
//!
//! A magnitude is a little-endian vector of digits, each below 94, with no
//! leading (that is, trailing in vector order) zero digit; zero is the empty
//! vector. A sign flag completes the number. Division truncates toward zero
//! and the remainder takes the dividend's sign.
use vstd::prelude::*;

use vstd::arithmetic::div_mod::lemma_fundamental_div_mod_converse;
use vstd::seq_lib::*;

use crate::EvalError;
use crate::codec::body_byte;

verus! {

/// 94 raised to the power `n`.
pub open spec fn p94(n: nat) -> int
    decreases n,
{
    if n == 0 {
        1
    } else {
        94 * p94((n - 1) as nat)
    }
}

/// The value of a little-endian digit sequence: digit `i` has place value
/// `p94(i)`.
pub open spec fn mag(s: Seq<u8>) -> int
    decreases s.len(),
{
    if s.len() == 0 {
        0
    } else {
        s[0] + 94 * mag(s.skip(1))
    }
}

/// The value of a most-significant-first digit sequence.
pub open spec fn msbval(s: Seq<u8>) -> int
    decreases s.len(),
{
    if s.len() == 0 {
        0
    } else {
        94 * msbval(s.drop_last()) + s.last()
    }
}

/// Every digit is below the base.
pub open spec fn digits_ok(s: Seq<u8>) -> bool {
    forall|i: int| 0 <= i < s.len() ==> s[i] < 94
}

/// Digits below the base and no leading zero: the unique representation of
/// its value.
pub open spec fn canonical(s: Seq<u8>) -> bool {
    digits_ok(s) && (s.len() > 0 ==> s[s.len() - 1] != 0)
}

pub proof fn lemma_p94_pos(n: nat)
    ensures
        p94(n) >= 1,
    decreases n,
{
    if n > 0 {
        lemma_p94_pos((n - 1) as nat);
    }
}

pub proof fn lemma_mag_nonneg(s: Seq<u8>)
    ensures
        mag(s) >= 0,
    decreases s.len(),
{
    if s.len() > 0 {
        lemma_mag_nonneg(s.skip(1));
    }
}

/// Appending a digit at the high end adds its place value.
pub proof fn lemma_mag_push(s: Seq<u8>, d: u8)
    ensures
        mag(s.push(d)) == mag(s) + d * p94(s.len()),
    decreases s.len(),
{
    if s.len() == 0 {
        assert(s.push(d).skip(1) =~= Seq::<u8>::empty());
        assert(s.push(d)[0] == d);
        assert(mag(s.push(d)) == d + 94 * mag(s.push(d).skip(1)));
        assert(mag(s.push(d)) == d);
        assert(p94(s.len()) == 1);
    } else {
        assert(s.push(d).skip(1) =~= s.skip(1).push(d));
        lemma_mag_push(s.skip(1), d);
        assert(94 * (mag(s.skip(1)) + d * p94((s.len() - 1) as nat)) == 94 * mag(s.skip(1)) + d * (
        94 * p94((s.len() - 1) as nat))) by (nonlinear_arith);
        assert(p94(s.len()) == 94 * p94((s.len() - 1) as nat));
        assert(mag(s.push(d)) == s[0] + 94 * (mag(s.skip(1)) + d * p94((s.len() - 1) as nat)));
    }
}

/// A digit sequence is worth less than the place value just above it.
pub proof fn lemma_mag_bound(s: Seq<u8>)
    requires
        digits_ok(s),
    ensures
        mag(s) < p94(s.len()),
    decreases s.len(),
{
    if s.len() == 0 {
    } else {
        lemma_mag_bound(s.skip(1));
        let t = mag(s.skip(1));
        let p = p94((s.len() - 1) as nat);
        lemma_mag_nonneg(s.skip(1));
        assert(t <= p - 1);
        assert(94 * t <= 94 * (p - 1)) by (nonlinear_arith)
            requires
                t <= p - 1,
        ;
    }
}

/// A canonical nonempty sequence is worth at least its top digit's place
/// value.
pub proof fn lemma_mag_lower(s: Seq<u8>)
    requires
        canonical(s),
        s.len() > 0,
    ensures
        mag(s) >= p94((s.len() - 1) as nat),
    decreases s.len(),
{
    if s.len() == 1 {
    } else {
        assert(s.skip(1).len() == s.len() - 1);
        assert(s.skip(1)[s.skip(1).len() - 1] == s[s.len() - 1]);
        lemma_mag_lower(s.skip(1));
        let p = p94((s.len() - 2) as nat);
        assert(94 * mag(s.skip(1)) >= 94 * p) by (nonlinear_arith)
            requires
                mag(s.skip(1)) >= p,
        ;
    }
}

/// Unfolds the value of a suffix by one digit.
pub proof fn lemma_mag_skip_unfold(s: Seq<u8>, i: int)
    requires
        0 <= i < s.len(),
    ensures
        mag(s.skip(i)) == s[i] + 94 * mag(s.skip(i + 1)),
{
    assert(s.skip(i).len() > 0);
    assert(s.skip(i)[0] == s[i]);
    assert(s.skip(i).skip(1) =~= s.skip(i + 1));
}

/// Extends the value of a prefix by one digit.
pub proof fn lemma_mag_take_push(s: Seq<u8>, i: int)
    requires
        0 <= i < s.len(),
    ensures
        mag(s.take(i + 1)) == mag(s.take(i)) + s[i] * p94(i as nat),
{
    assert(s.take(i + 1) =~= s.take(i).push(s[i]));
    lemma_mag_push(s.take(i), s[i]);
}

/// A most-significant-first sequence is worth the same as its reversal read
/// little-endian.
pub proof fn lemma_msb_rev(s: Seq<u8>)
    ensures
        msbval(s) == mag(s.reverse()),
    decreases s.len(),
{
    if s.len() > 0 {
        assert(s.reverse()[0] == s[s.len() - 1]);
        assert(s.reverse().skip(1) =~= s.drop_last().reverse());
        lemma_msb_rev(s.drop_last());
    }
}

/// Two canonical sequences with equal suffixes and an unequal digit compare
/// by that digit.
proof fn lemma_suffix_decides(a: Seq<u8>, b: Seq<u8>, j: int)
    requires
        digits_ok(a),
        digits_ok(b),
        a.len() == b.len(),
        0 <= j < a.len(),
        mag(a.skip(j)) < mag(b.skip(j)),
    ensures
        mag(a) < mag(b),
    decreases j,
{
    if j > 0 {
        lemma_mag_skip_unfold(a, j - 1);
        lemma_mag_skip_unfold(b, j - 1);
        assert(94 * mag(a.skip(j)) + 94 <= 94 * mag(b.skip(j))) by (nonlinear_arith)
            requires
                mag(a.skip(j)) < mag(b.skip(j)),
        ;
        lemma_suffix_decides(a, b, j - 1);
    } else {
        assert(a.skip(0) =~= a);
        assert(b.skip(0) =~= b);
    }
}

/// Strips high zero digits, canonicalising a digit vector without changing
/// its value.
fn trim(v: &mut Vec<u8>)
    requires
        digits_ok(old(v)@),
    ensures
        canonical(final(v)@),
        mag(final(v)@) == mag(old(v)@),
        final(v)@.len() <= old(v)@.len(),
{
    while v.len() > 0 && v[v.len() - 1] == 0
        invariant
            digits_ok(v@),
            mag(v@) == mag(old(v)@),
            v@.len() <= old(v)@.len(),
        decreases v@.len(),
    {
        let n = v.len();
        proof {
            assert(v@ =~= v@.take(n - 1).push(v@[n - 1]));
            lemma_mag_push(v@.take(n - 1), v@[n - 1]);
        }
        v.pop();
    }
}

/// Compares two canonical magnitudes.
fn mag_lt(a: &Vec<u8>, b: &Vec<u8>) -> (r: bool)
    requires
        canonical(a@),
        canonical(b@),
    ensures
        r == (mag(a@) < mag(b@)),
{
    if a.len() < b.len() {
        proof {
            lemma_mag_bound(a@);
            lemma_mag_lower(b@);
            if a@.len() < b@.len() {
                lemma_p94_mono(a@.len(), (b@.len() - 1) as nat);
            }
        }
        return true;
    }
    if b.len() < a.len() {
        proof {
            lemma_mag_bound(b@);
            lemma_mag_lower(a@);
            lemma_p94_mono(b@.len(), (a@.len() - 1) as nat);
        }
        return false;
    }
    // Equal lengths: find the highest differing digit.
    let n = a.len();
    let mut i: usize = n;
    while i > 0
        invariant
            canonical(a@),
            canonical(b@),
            a@.len() == n,
            b@.len() == n,
            0 <= i <= n,
            a@.skip(i as int) =~= b@.skip(i as int),
        decreases i,
    {
        let d = i - 1;
        if a[d] < b[d] {
            proof {
                lemma_mag_skip_unfold(a@, d as int);
                lemma_mag_skip_unfold(b@, d as int);
                lemma_mag_nonneg(a@.skip(d + 1));
                lemma_mag_bound(a@.skip(d + 1));
                lemma_mag_nonneg(b@.skip(d + 1));
                lemma_mag_bound(b@.skip(d + 1));
                assert(mag(a@.skip(d as int)) < mag(b@.skip(d as int))) by {
                    assert(94 * mag(a@.skip(d + 1)) <= 94 * mag(b@.skip(d + 1)))
                        by (nonlinear_arith)
                        requires
                            mag(a@.skip(d + 1)) <= mag(b@.skip(d + 1)),
                    ;
                }
                lemma_suffix_decides(a@, b@, d as int);
            }
            return true;
        }
        if b[d] < a[d] {
            proof {
                lemma_mag_skip_unfold(a@, d as int);
                lemma_mag_skip_unfold(b@, d as int);
                assert(mag(b@.skip(d as int)) < mag(a@.skip(d as int))) by {
                    assert(94 * mag(b@.skip(d + 1)) <= 94 * mag(a@.skip(d + 1)))
                        by (nonlinear_arith)
                        requires
                            mag(b@.skip(d + 1)) <= mag(a@.skip(d + 1)),
                    ;
                }
                lemma_suffix_decides(b@, a@, d as int);
            }
            return false;
        }
        proof {
            assert forall|k: int| 0 <= k < a@.skip(d as int).len() implies a@.skip(d as int)[k]
                == b@.skip(d as int)[k] by {
                if k > 0 {
                    assert(a@.skip(d as int)[k] == a@.skip(d + 1)[k - 1]);
                    assert(b@.skip(d as int)[k] == b@.skip(d + 1)[k - 1]);
                }
            }
            assert(a@.skip(d as int) =~= b@.skip(d as int));
        }
        i = d;
    }
    proof {
        assert(a@.skip(0) =~= a@);
        assert(b@.skip(0) =~= b@);
    }
    false
}

proof fn lemma_p94_mono(a: nat, b: nat)
    requires
        a <= b,
    ensures
        p94(a) <= p94(b),
    decreases b,
{
    if a < b {
        lemma_p94_mono(a, (b - 1) as nat);
        lemma_p94_pos((b - 1) as nat);
        assert(94 * p94((b - 1) as nat) >= 1 * p94((b - 1) as nat)) by (nonlinear_arith)
            requires
                p94((b - 1) as nat) >= 1,
        ;
    }
}

/// Adds two magnitudes digit by digit with a carry.
fn mag_add(a: &Vec<u8>, b: &Vec<u8>) -> (r: Vec<u8>)
    requires
        canonical(a@),
        canonical(b@),
    ensures
        canonical(r@),
        mag(r@) == mag(a@) + mag(b@),
{
    let mut out: Vec<u8> = Vec::new();
    let mut carry: u8 = 0;
    let mut i: usize = 0;
    let n = if a.len() < b.len() {
        b.len()
    } else {
        a.len()
    };
    while i < n
        invariant
            digits_ok(a@),
            digits_ok(b@),
            n == if a@.len() < b@.len() {
                b@.len()
            } else {
                a@.len()
            },
            0 <= i <= n,
            carry <= 1,
            out@.len() == i,
            digits_ok(out@),
            mag(out@) + carry * p94(i as nat) == mag(a@.take(min_int(i as int, a@.len() as int)))
                + mag(b@.take(min_int(i as int, b@.len() as int))),
        decreases n - i,
    {
        let ad: u8 = if i < a.len() {
            a[i]
        } else {
            0
        };
        let bd: u8 = if i < b.len() {
            b[i]
        } else {
            0
        };
        let t: u8 = ad + bd + carry;
        let d: u8 = t % 94;
        let c: u8 = t / 94;
        proof {
            let ia = min_int(i as int, a@.len() as int);
            let ib = min_int(i as int, b@.len() as int);
            let ia2 = min_int(i + 1, a@.len() as int);
            let ib2 = min_int(i + 1, b@.len() as int);
            lemma_mag_push(out@, d);
            if (i as int) < a@.len() {
                lemma_mag_take_push(a@, i as int);
            } else {
                assert(a@.take(ia2) =~= a@.take(ia));
            }
            if (i as int) < b@.len() {
                lemma_mag_take_push(b@, i as int);
            } else {
                assert(b@.take(ib2) =~= b@.take(ib));
            }
            assert(t == 94 * (t / 94) + t % 94);
            assert(p94((i + 1) as nat) == 94 * p94(i as nat));
            assert((c * 94) * p94(i as nat) == c * (94 * p94(i as nat))) by (nonlinear_arith);
            assert((ad + bd + carry) * p94(i as nat) == ad * p94(i as nat) + bd * p94(i as nat)
                + carry * p94(i as nat)) by (nonlinear_arith);
            assert((d + 94 * c) * p94(i as nat) == d * p94(i as nat) + c * (94 * p94(i as nat)))
                by (nonlinear_arith);
        }
        out.push(d);
        carry = c;
        i += 1;
    }
    proof {
        assert(a@.take(min_int(i as int, a@.len() as int)) =~= a@);
        assert(b@.take(min_int(i as int, b@.len() as int)) =~= b@);
    }
    if carry > 0 {
        proof {
            lemma_mag_push(out@, carry);
            assert(p94((i + 1) as nat) == 94 * p94(i as nat));
        }
        out.push(carry);
    }
    let mut out = out;
    trim(&mut out);
    out
}

pub open spec fn min_int(x: int, y: int) -> int {
    if x < y {
        x
    } else {
        y
    }
}

/// Subtracts a smaller magnitude from a larger one with a borrow.
fn mag_sub(a: &Vec<u8>, b: &Vec<u8>) -> (r: Vec<u8>)
    requires
        canonical(a@),
        canonical(b@),
        mag(b@) <= mag(a@),
    ensures
        canonical(r@),
        mag(r@) == mag(a@) - mag(b@),
{
    proof {
        if b@.len() > a@.len() {
            lemma_mag_lower(b@);
            lemma_mag_bound(a@);
            lemma_p94_mono(a@.len(), (b@.len() - 1) as nat);
            lemma_mag_nonneg(b@);
            assert(false);
        }
    }
    let mut out: Vec<u8> = Vec::new();
    let mut borrow: u8 = 0;
    let mut i: usize = 0;
    let n = a.len();
    while i < n
        invariant
            digits_ok(a@),
            digits_ok(b@),
            b@.len() <= a@.len(),
            n == a@.len(),
            0 <= i <= n,
            borrow <= 1,
            out@.len() == i,
            digits_ok(out@),
            mag(out@) == mag(a@.take(i as int)) - mag(b@.take(min_int(i as int, b@.len() as int)))
                + borrow * p94(i as nat),
        decreases n - i,
    {
        let ad: u8 = a[i];
        let bd: u8 = if i < b.len() {
            b[i]
        } else {
            0
        };
        let need: u8 = bd + borrow;
        let d: u8;
        let nb: u8;
        if ad >= need {
            d = ad - need;
            nb = 0;
        } else {
            d = ad + 94 - need;
            nb = 1;
        }
        proof {
            let ib = min_int(i as int, b@.len() as int);
            let ib2 = min_int(i + 1, b@.len() as int);
            let p = p94(i as nat);
            lemma_mag_push(out@, d);
            lemma_mag_take_push(a@, i as int);
            if (i as int) < b@.len() {
                lemma_mag_take_push(b@, i as int);
            } else {
                assert(b@.take(ib2) =~= b@.take(ib));
            }
            assert(d == ad - bd - borrow + 94 * nb);
            assert(p94((i + 1) as nat) == 94 * p);
            assert(d * p + borrow * p == ad * p - bd * p + nb * (94 * p)) by (nonlinear_arith)
                requires
                    d == ad - bd - borrow + 94 * nb,
            ;
            assert(nb * (94 * p) == nb * p94((i + 1) as nat));
            assert(mag(out@.push(d)) == mag(a@.take(i + 1)) - mag(b@.take(ib2)) + nb * p94(
                (i + 1) as nat,
            ));
        }
        out.push(d);
        borrow = nb;
        i += 1;
    }
    proof {
        assert(a@.take(n as int) =~= a@);
        assert(b@.take(min_int(n as int, b@.len() as int)) =~= b@);
        if borrow == 1 {
            lemma_mag_bound(out@);
            lemma_mag_nonneg(out@);
            assert(false);
        }
    }
    let mut out = out;
    trim(&mut out);
    out
}

/// Multiplies a magnitude by a single digit.
fn mag_mul_digit(a: &Vec<u8>, d: u8) -> (r: Vec<u8>)
    requires
        digits_ok(a@),
        d < 94,
    ensures
        canonical(r@),
        mag(r@) == mag(a@) * d,
{
    let mut out: Vec<u8> = Vec::new();
    let mut carry: u8 = 0;
    let mut i: usize = 0;
    let n = a.len();
    while i < n
        invariant
            digits_ok(a@),
            d < 94,
            n == a@.len(),
            0 <= i <= n,
            carry < 94,
            out@.len() == i,
            digits_ok(out@),
            mag(out@) + carry * p94(i as nat) == mag(a@.take(i as int)) * d,
        decreases n - i,
    {
        proof {
            assert(a@[i as int] < 94);
            assert(a@[i as int] * d <= 93 * 93) by (nonlinear_arith)
                requires
                    a@[i as int] < 94,
                    d < 94,
            ;
        }
        let t: u32 = (a[i] as u32) * (d as u32) + (carry as u32);
        proof {
            assert(t / 94 < 94) by (nonlinear_arith)
                requires
                    t < 8836,
            ;
        }
        let nd: u8 = (t % 94) as u8;
        let nc: u8 = (t / 94) as u8;
        proof {
            lemma_mag_push(out@, nd);
            lemma_mag_take_push(a@, i as int);
            assert(t == 94 * (t / 94) + t % 94);
            assert(p94((i + 1) as nat) == 94 * p94(i as nat));
            let p = p94(i as nat);
            assert((mag(a@.take(i as int)) + a@[i as int] * p) * d == mag(a@.take(i as int)) * d + (
            a@[i as int] * d) * p) by (nonlinear_arith);
            assert((a@[i as int] * d) * p == nd * p + nc * (94 * p) - carry * p) by (nonlinear_arith)
                requires
                    a@[i as int] * d == nd + 94 * nc - carry,
            ;
            assert(nc * (94 * p) == nc * p94((i + 1) as nat));
        }
        out.push(nd);
        carry = nc;
        i += 1;
    }
    proof {
        assert(a@.take(n as int) =~= a@);
    }
    if carry > 0 {
        proof {
            lemma_mag_push(out@, carry);
            assert(p94((i + 1) as nat) == 94 * p94(i as nat));
        }
        out.push(carry);
    }
    let mut out = out;
    trim(&mut out);
    out
}

/// The all-zero digit sequence of length `k`.
pub open spec fn zseq(k: nat) -> Seq<u8> {
    Seq::new(k, |i: int| 0u8)
}

proof fn lemma_mag_zeros(k: nat, s: Seq<u8>)
    ensures
        mag(zseq(k) + s) == p94(k) * mag(s),
    decreases k,
{
    if k == 0 {
        assert(zseq(0) + s =~= s);
        assert(1 * mag(s) == mag(s)) by (nonlinear_arith);
    } else {
        let t = zseq(k) + s;
        assert(t.len() > 0);
        assert(t[0] == 0);
        assert(t.skip(1) =~= zseq((k - 1) as nat) + s);
        lemma_mag_zeros((k - 1) as nat, s);
        assert(94 * (p94((k - 1) as nat) * mag(s)) == (94 * p94((k - 1) as nat)) * mag(s))
            by (nonlinear_arith);
    }
}

/// Shifts a magnitude up by `k` digits, multiplying it by `p94(k)`.
fn mag_shift(a: Vec<u8>, k: usize) -> (r: Vec<u8>)
    requires
        canonical(a@),
    ensures
        canonical(r@),
        mag(r@) == p94(k as nat) * mag(a@),
{
    if a.len() == 0 {
        proof {
            assert(p94(k as nat) * 0 == 0) by (nonlinear_arith);
        }
        return a;
    }
    let mut out: Vec<u8> = Vec::new();
    let mut j: usize = 0;
    while j < k
        invariant
            0 <= j <= k,
            out@ =~= zseq(j as nat),
        decreases k - j,
    {
        out.push(0);
        j += 1;
    }
    let mut m: usize = 0;
    let n = a.len();
    while m < n
        invariant
            canonical(a@),
            n == a@.len(),
            0 <= m <= n,
            out@ =~= zseq(k as nat) + a@.take(m as int),
        decreases n - m,
    {
        out.push(a[m]);
        m += 1;
    }
    proof {
        assert(a@.take(n as int) =~= a@);
        assert(out@ =~= zseq(k as nat) + a@);
        lemma_mag_zeros(k as nat, a@);
        assert(out@[out@.len() - 1] == a@[a@.len() - 1]);
    }
    out
}

/// Schoolbook multiplication of two magnitudes.
fn mag_mul(a: &Vec<u8>, b: &Vec<u8>) -> (r: Vec<u8>)
    requires
        canonical(a@),
        canonical(b@),
    ensures
        canonical(r@),
        mag(r@) == mag(a@) * mag(b@),
{
    let mut acc: Vec<u8> = Vec::new();
    let mut i: usize = 0;
    let n = b.len();
    while i < n
        invariant
            canonical(a@),
            canonical(b@),
            n == b@.len(),
            0 <= i <= n,
            canonical(acc@),
            mag(acc@) == mag(a@) * mag(b@.take(i as int)),
        decreases n - i,
    {
        let part = mag_mul_digit(a, b[i]);
        let part = mag_shift(part, i);
        let next = mag_add(&acc, &part);
        proof {
            lemma_mag_take_push(b@, i as int);
            assert(mag(a@) * (mag(b@.take(i as int)) + b@[i as int] * p94(i as nat)) == mag(a@)
                * mag(b@.take(i as int)) + p94(i as nat) * (mag(a@) * b@[i as int]))
                by (nonlinear_arith);
        }
        acc = next;
        i += 1;
    }
    proof {
        assert(b@.take(n as int) =~= b@);
    }
    acc
}

/// Long division of one magnitude by another, most significant digit first.
/// Returns the quotient and the remainder.
fn mag_divmod(a: &Vec<u8>, b: &Vec<u8>) -> (qr: (Vec<u8>, Vec<u8>))
    requires
        canonical(a@),
        canonical(b@),
        mag(b@) >= 1,
    ensures
        canonical(qr.0@),
        canonical(qr.1@),
        mag(qr.0@) * mag(b@) + mag(qr.1@) == mag(a@),
        0 <= mag(qr.1@) < mag(b@),
{
    let mut qd: Vec<u8> = Vec::new();  // quotient digits, most significant first
    let mut rem: Vec<u8> = Vec::new();
    let n = a.len();
    let mut i: usize = n;
    proof {
        assert(a@.skip(n as int) =~= Seq::<u8>::empty());
        lemma_mag_nonneg(rem@);
    }
    while i > 0
        invariant
            canonical(a@),
            canonical(b@),
            mag(b@) >= 1,
            n == a@.len(),
            0 <= i <= n,
            canonical(rem@),
            0 <= mag(rem@) < mag(b@),
            digits_ok(qd@),
            msbval(qd@) * mag(b@) + mag(rem@) == mag(a@.skip(i as int)),
        decreases i,
    {
        i -= 1;
        let ghost rem_old = mag(rem@);
        let ghost q_old = msbval(qd@);
        // nr := rem * 94 + a[i], by prepending the digit
        let mut nr: Vec<u8> = Vec::new();
        nr.push(a[i]);
        let mut j: usize = 0;
        let rl = rem.len();
        while j < rl
            invariant
                0 <= j <= rl,
                rl == rem@.len(),
                digits_ok(rem@),
                i < a@.len(),
                digits_ok(a@),
                nr@ =~= seq![a@[i as int]] + rem@.take(j as int),
            decreases rl - j,
        {
            nr.push(rem[j]);
            j += 1;
        }
        proof {
            assert(rem@.take(rl as int) =~= rem@);
            assert(nr@ =~= seq![a@[i as int]] + rem@);
            assert(nr@[0] == a@[i as int]);
            assert(nr@.skip(1) =~= rem@);
            assert(mag(nr@) == a@[i as int] + 94 * mag(rem@));
        }
        trim(&mut nr);
        let ghost v0 = mag(nr@);
        proof {
            assert(v0 < 94 * mag(b@)) by (nonlinear_arith)
                requires
                    v0 == a@[i as int] + 94 * rem_old,
                    a@[i as int] < 94,
                    rem_old <= mag(b@) - 1,
            ;
        }
        let mut k: u8 = 0;
        loop
            invariant
                canonical(b@),
                mag(b@) >= 1,
                canonical(nr@),
                mag(nr@) >= 0,
                v0 < 94 * mag(b@),
                mag(nr@) == v0 - k * mag(b@),
                k < 94,
            ensures
                canonical(nr@),
                mag(nr@) == v0 - k * mag(b@),
                0 <= mag(nr@) < mag(b@),
                k < 94,
            decreases mag(nr@),
        {
            if mag_lt(&nr, b) {
                proof {
                    lemma_mag_nonneg(nr@);
                }
                break ;
            }
            let next = mag_sub(&nr, b);
            proof {
                assert((k + 1) * mag(b@) == k * mag(b@) + mag(b@)) by (nonlinear_arith);
                lemma_mag_nonneg(next@);
                assert((k + 1) * mag(b@) <= v0) by (nonlinear_arith)
                    requires
                        0 <= v0 - (k + 1) * mag(b@),
                ;
                assert(k + 1 < 94) by (nonlinear_arith)
                    requires
                        (k + 1) * mag(b@) <= v0,
                        v0 < 94 * mag(b@),
                        mag(b@) >= 1,
                ;
            }
            nr = next;
            k += 1;
        }
        proof {
            assert(msbval(qd@.push(k)) == 94 * msbval(qd@) + k) by {
                assert(qd@.push(k).drop_last() =~= qd@);
            }
            lemma_mag_skip_unfold(a@, i as int);
            assert((94 * q_old + k) * mag(b@) + (v0 - k * mag(b@)) == 94 * (q_old * mag(b@)
                + rem_old) + a@[i as int]) by (nonlinear_arith)
                requires
                    v0 == a@[i as int] + 94 * rem_old,
            ;
        }
        qd.push(k);
        rem = nr;
    }
    proof {
        assert(a@.skip(0) =~= a@);
    }
    // Reverse the quotient digits into little-endian order.
    let mut q: Vec<u8> = Vec::new();
    let mut j: usize = qd.len();
    while j > 0
        invariant
            0 <= j <= qd@.len(),
            digits_ok(qd@),
            q@.len() == qd@.len() - j,
            forall|m: int| 0 <= m < q@.len() ==> q@[m] == qd@[qd@.len() - 1 - m],
        decreases j,
    {
        j -= 1;
        q.push(qd[j]);
    }
    proof {
        assert(q@ =~= qd@.reverse());
        lemma_msb_rev(qd@);
    }
    trim(&mut q);
    (q, rem)
}

/// Copies a digit vector.
fn clone_digits(v: &Vec<u8>) -> (r: Vec<u8>)
    ensures
        r@ == v@,
{
    let mut out: Vec<u8> = Vec::new();
    let mut i: usize = 0;
    while i < v.len()
        invariant
            0 <= i <= v@.len(),
            out@ =~= v@.take(i as int),
        decreases v@.len() - i,
    {
        out.push(v[i]);
        i += 1;
    }
    proof {
        assert(v@.take(v@.len() as int) =~= v@);
    }
    out
}

/// The absolute value.
pub open spec fn absi(x: int) -> int {
    if x < 0 {
        -x
    } else {
        x
    }
}

/// Integer division truncating toward zero.
pub open spec fn tdiv(x: int, y: int) -> int
    recommends
        y != 0,
{
    if (x < 0) != (y < 0) {
        -(absi(x) / absi(y))
    } else {
        absi(x) / absi(y)
    }
}

/// The remainder of truncating division; its sign follows the dividend.
pub open spec fn tmod(x: int, y: int) -> int
    recommends
        y != 0,
{
    x - y * tdiv(x, y)
}

/// From the magnitude identity `|x| == q * |y| + r`, truncating division of
/// the signed values is `q` and `r` with the signs put back.
proof fn lemma_trunc(x: int, y: int, q: int, r: int)
    requires
        y != 0,
        q >= 0,
        absi(x) == q * absi(y) + r,
        0 <= r < absi(y),
    ensures
        tdiv(x, y) == if (x < 0) != (y < 0) {
            -q
        } else {
            q
        },
        tmod(x, y) == if x < 0 {
            -r
        } else {
            r
        },
{
    lemma_fundamental_div_mod_converse(absi(x), absi(y), q, r);
    assert(absi(x) / absi(y) == q);
    if (x < 0) != (y < 0) {
        assert(y * -q == -(y * q)) by (nonlinear_arith);
        if x < 0 {
            assert(y * q == absi(x) - r) by (nonlinear_arith)
                requires
                    y > 0,
                    q * absi(y) + r == absi(x),
                    absi(y) == y,
            ;
        } else {
            assert(y * q == -(absi(x) - r)) by (nonlinear_arith)
                requires
                    y < 0,
                    q * absi(y) + r == absi(x),
                    absi(y) == -y,
            ;
        }
    } else {
        if x < 0 {
            assert(y * q == -(absi(x) - r)) by (nonlinear_arith)
                requires
                    y < 0,
                    q * absi(y) + r == absi(x),
                    absi(y) == -y,
            ;
        } else {
            assert(y * q == absi(x) - r) by (nonlinear_arith)
                requires
                    y > 0,
                    q * absi(y) + r == absi(x),
                    absi(y) == y,
            ;
        }
    }
}

/// The digit values of a body: each byte less 33.
pub open spec fn digits_of(body: Seq<u8>) -> Seq<u8> {
    body.map_values(|b: u8| ((b - 33) as u8))
}

/// 10 raised to the power `n`.
pub open spec fn p10(n: nat) -> int
    decreases n,
{
    if n == 0 {
        1
    } else {
        10 * p10((n - 1) as nat)
    }
}

/// An ASCII decimal digit.
pub open spec fn is_dec_digit(c: u8) -> bool {
    48 <= c <= 57
}

/// The value of ASCII decimal digits, least significant first.
pub open spec fn dec_lsb(s: Seq<u8>) -> int
    decreases s.len(),
{
    if s.len() == 0 {
        0
    } else {
        (s[0] - 48) + 10 * dec_lsb(s.skip(1))
    }
}

/// The value of ASCII decimal digits, most significant first.
pub open spec fn dec_msb(s: Seq<u8>) -> int
    decreases s.len(),
{
    if s.len() == 0 {
        0
    } else {
        10 * dec_msb(s.drop_last()) + (s.last() - 48)
    }
}

proof fn lemma_dec_push(s: Seq<u8>, c: u8)
    ensures
        dec_lsb(s.push(c)) == dec_lsb(s) + (c - 48) * p10(s.len()),
    decreases s.len(),
{
    if s.len() == 0 {
        assert(s.push(c).skip(1) =~= Seq::<u8>::empty());
        assert(s.push(c)[0] == c);
        assert(dec_lsb(Seq::<u8>::empty()) == 0);
        assert(dec_lsb(s.push(c)) == (c - 48) + 10 * dec_lsb(s.push(c).skip(1)));
        assert(p10(s.len()) == 1);
    } else {
        assert(s.push(c).skip(1) =~= s.skip(1).push(c));
        lemma_dec_push(s.skip(1), c);
        assert(10 * (dec_lsb(s.skip(1)) + (c - 48) * p10((s.len() - 1) as nat)) == 10 * dec_lsb(
            s.skip(1),
        ) + (c - 48) * (10 * p10((s.len() - 1) as nat))) by (nonlinear_arith);
        assert(p10(s.len()) == 10 * p10((s.len() - 1) as nat));
        assert((c - 48) * (10 * p10((s.len() - 1) as nat)) == (c - 48) * p10(s.len()));
        assert(dec_lsb(s.push(c)) == s[0] - 48 + 10 * (dec_lsb(s.skip(1)) + (c - 48) * p10(
            (s.len() - 1) as nat,
        )));
    }
}

proof fn lemma_dec_rev(s: Seq<u8>)
    ensures
        dec_msb(s) == dec_lsb(s.reverse()),
    decreases s.len(),
{
    if s.len() > 0 {
        assert(s.reverse()[0] == s[s.len() - 1]);
        assert(s.reverse().skip(1) =~= s.drop_last().reverse());
        lemma_dec_rev(s.drop_last());
    }
}

/// An arbitrary-precision signed integer: a sign and a canonical base-94
/// magnitude. Its mathematical value is the view.
#[derive(Debug, Clone, PartialEq, Eq)]
pub struct BigInt {
    neg: bool,
    mag: Vec<u8>,
}

impl View for BigInt {
    type V = int;

    closed spec fn view(&self) -> int {
        if self.neg {
            -mag(self.mag@)
        } else {
            mag(self.mag@)
        }
    }
}

impl BigInt {
    /// The representation invariant: a canonical magnitude and no negative
    /// zero.
    pub closed spec fn wf(&self) -> bool {
        canonical(self.mag@) && (self.neg ==> self.mag@.len() > 0)
    }

    proof fn lemma_sign(&self)
        requires
            self.wf(),
        ensures
            self.neg ==> self@ <= -1,
            !self.neg ==> self@ >= 0,
            self@ == 0 <==> self.mag@.len() == 0,
    {
        lemma_mag_nonneg(self.mag@);
        if self.mag@.len() > 0 {
            lemma_mag_lower(self.mag@);
            lemma_p94_pos((self.mag@.len() - 1) as nat);
        }
    }

    /// Builds a number from a sign and digits, clearing the sign of zero.
    fn make(neg: bool, digits: Vec<u8>) -> (r: BigInt)
        requires
            canonical(digits@),
        ensures
            r.wf(),
            r@ == if neg {
                -mag(digits@)
            } else {
                mag(digits@)
            },
    {
        if digits.len() == 0 {
            BigInt { neg: false, mag: digits }
        } else {
            BigInt { neg, mag: digits }
        }
    }

    /// Zero.
    pub fn zero() -> (r: BigInt)
        ensures
            r.wf(),
            r@ == 0,
    {
        BigInt { neg: false, mag: Vec::new() }
    }

    /// The number with a machine integer's value.
    pub fn from_u64(n: u64) -> (r: BigInt)
        ensures
            r.wf(),
            r@ == n,
    {
        let mut digs: Vec<u8> = Vec::new();
        let mut cur: u64 = n;
        while cur > 0
            invariant
                digits_ok(digs@),
                mag(digs@) + cur * p94(digs@.len()) == n,
            decreases cur,
        {
            let d: u8 = (cur % 94) as u8;
            proof {
                lemma_mag_push(digs@, d);
                assert(p94((digs@.len() + 1) as nat) == 94 * p94(digs@.len()));
                assert(cur == 94 * (cur / 94) + cur % 94);
                assert((cur / 94) * (94 * p94(digs@.len())) + d * p94(digs@.len()) == cur * p94(
                    digs@.len(),
                )) by (nonlinear_arith)
                    requires
                        cur == 94 * (cur / 94) + d,
                ;
            }
            digs.push(d);
            cur = cur / 94;
        }
        let mut digs = digs;
        proof {
            assert(cur * p94(digs@.len()) == 0) by (nonlinear_arith)
                requires
                    cur == 0,
            ;
        }
        trim(&mut digs);
        BigInt { neg: false, mag: digs }
    }

    /// A copy with the same value.
    pub fn duplicate(&self) -> (r: BigInt)
        ensures
            r@ == self@,
            self.wf() ==> r.wf(),
    {
        let digits = clone_digits(&self.mag);
        BigInt { neg: self.neg, mag: digits }
    }

    /// Whether the value is negative.
    pub fn is_negative(&self) -> (r: bool)
        requires
            self.wf(),
        ensures
            r == (self@ < 0),
    {
        proof {
            self.lemma_sign();
        }
        self.neg
    }

    /// Whether the value is zero.
    pub fn is_zero(&self) -> (r: bool)
        requires
            self.wf(),
        ensures
            r == (self@ == 0),
    {
        proof {
            self.lemma_sign();
        }
        self.mag.len() == 0
    }

    /// The arithmetic complement.
    pub fn negated(&self) -> (r: BigInt)
        requires
            self.wf(),
        ensures
            r.wf(),
            r@ == -self@,
    {
        let mag = clone_digits(&self.mag);
        BigInt::make(!self.neg, mag)
    }

    /// Whether this value is strictly below another.
    pub fn lt(&self, other: &BigInt) -> (r: bool)
        requires
            self.wf(),
            other.wf(),
        ensures
            r == (self@ < other@),
    {
        proof {
            self.lemma_sign();
            other.lemma_sign();
        }
        if self.neg && !other.neg {
            true
        } else if !self.neg && other.neg {
            false
        } else if !self.neg {
            mag_lt(&self.mag, &other.mag)
        } else {
            mag_lt(&other.mag, &self.mag)
        }
    }

    /// Whether two values are equal.
    pub fn eq_val(&self, other: &BigInt) -> (r: bool)
        requires
            self.wf(),
            other.wf(),
        ensures
            r == (self@ == other@),
    {
        !self.lt(other) && !other.lt(self)
    }

    /// The sum.
    pub fn add(&self, other: &BigInt) -> (r: BigInt)
        requires
            self.wf(),
            other.wf(),
        ensures
            r.wf(),
            r@ == self@ + other@,
    {
        if self.neg == other.neg {
            let m = mag_add(&self.mag, &other.mag);
            BigInt::make(self.neg, m)
        } else if mag_lt(&self.mag, &other.mag) {
            let m = mag_sub(&other.mag, &self.mag);
            BigInt::make(other.neg, m)
        } else {
            proof {
                lemma_mag_nonneg(self.mag@);
                lemma_mag_nonneg(other.mag@);
            }
            let m = mag_sub(&self.mag, &other.mag);
            BigInt::make(self.neg, m)
        }
    }

    /// The difference.
    pub fn sub(&self, other: &BigInt) -> (r: BigInt)
        requires
            self.wf(),
            other.wf(),
        ensures
            r.wf(),
            r@ == self@ - other@,
    {
        let n = other.negated();
        self.add(&n)
    }

    /// The product.
    pub fn mul(&self, other: &BigInt) -> (r: BigInt)
        requires
            self.wf(),
            other.wf(),
        ensures
            r.wf(),
            r@ == self@ * other@,
    {
        let m = mag_mul(&self.mag, &other.mag);
        let r = BigInt::make(self.neg != other.neg, m);
        proof {
            let a = mag(self.mag@);
            let b = mag(other.mag@);
            assert((-a) * b == -(a * b) && a * (-b) == -(a * b) && (-a) * (-b) == a * b)
                by (nonlinear_arith);
        }
        r
    }

    /// Truncating division and remainder: the quotient is rounded toward
    /// zero and the remainder takes the dividend's sign. Fails exactly on a
    /// zero divisor.
    pub fn divmod(&self, other: &BigInt) -> (r: Result<(BigInt, BigInt), EvalError>)
        requires
            self.wf(),
            other.wf(),
        ensures
            other@ == 0 ==> r == Err::<(BigInt, BigInt), EvalError>(EvalError::DivisionByZero),
            other@ != 0 ==> (r matches Ok(qm) && qm.0.wf() && qm.1.wf() && qm.0@ == tdiv(
                self@,
                other@,
            ) && qm.1@ == tmod(self@, other@)),
    {
        proof {
            self.lemma_sign();
            other.lemma_sign();
        }
        if other.mag.len() == 0 {
            return Err(EvalError::DivisionByZero);
        }
        proof {
            lemma_mag_lower(other.mag@);
            lemma_p94_pos((other.mag@.len() - 1) as nat);
        }
        let (qm, rm) = mag_divmod(&self.mag, &other.mag);
        proof {
            lemma_mag_nonneg(qm@);
            lemma_mag_nonneg(rm@);
            lemma_trunc(self@, other@, mag(qm@), mag(rm@));
        }
        let q = BigInt::make(self.neg != other.neg, qm);
        let m = BigInt::make(self.neg, rm);
        Ok((q, m))
    }

    /// Parses a base-94 numeral body, most significant digit first. Fails
    /// exactly when the body is empty or holds a byte outside the printable
    /// range; leading zero digits are accepted.
    pub fn from_body(body: &Vec<u8>) -> (r: Result<BigInt, EvalError>)
        ensures
            (body@.len() > 0 && forall|i: int| 0 <= i < body@.len() ==> body_byte(body@[i])) <==> r
                is Ok,
            r matches Ok(n) ==> n.wf() && n@ == msbval(digits_of(body@)) && n@ >= 0,
            r matches Err(e) ==> e == EvalError::DecodeError,
    {
        let n = body.len();
        if n == 0 {
            return Err(EvalError::DecodeError);
        }
        let mut le: Vec<u8> = Vec::new();
        let mut i: usize = n;
        while i > 0
            invariant
                0 <= i <= n,
                n == body@.len(),
                forall|j: int| i <= j < n ==> body_byte(body@[j]),
                le@.len() == n - i,
                forall|m: int| 0 <= m < le@.len() ==> le@[m] == digits_of(body@)[n - 1 - m],
            decreases i,
        {
            i -= 1;
            let b = body[i];
            if b < 33 || b > 126 {
                return Err(EvalError::DecodeError);
            }
            le.push(b - 33);
        }
        proof {
            assert(le@ =~= digits_of(body@).reverse());
            lemma_msb_rev(digits_of(body@));
            lemma_mag_nonneg(le@);
            assert(digits_ok(le@));
        }
        let mut le = le;
        trim(&mut le);
        Ok(BigInt { neg: false, mag: le })
    }

    /// Writes a non-negative value as a base-94 numeral body, most
    /// significant digit first, with no leading zero digit; zero is the
    /// single zero digit.
    pub fn to_body(&self) -> (r: Vec<u8>)
        requires
            self.wf(),
            self@ >= 0,
        ensures
            r@.len() >= 1,
            forall|i: int| 0 <= i < r@.len() ==> body_byte(#[trigger] r@[i]),
            msbval(digits_of(r@)) == self@,
            r@.len() > 1 ==> r@[0] != 33,
    {
        proof {
            self.lemma_sign();
        }
        let n = self.mag.len();
        let mut out: Vec<u8> = Vec::new();
        if n == 0 {
            out.push(33);
            proof {
                assert(digits_of(out@) =~= seq![0u8]);
                assert(seq![0u8].drop_last() =~= Seq::<u8>::empty());
                assert(msbval(Seq::<u8>::empty()) == 0);
                assert(msbval(seq![0u8]) == 94 * msbval(seq![0u8].drop_last()) + seq![0u8].last());
                assert(msbval(digits_of(out@)) == 0);
            }
            return out;
        }
        let mut m: usize = 0;
        while m < n
            invariant
                0 <= m <= n,
                n == self.mag@.len(),
                digits_ok(self.mag@),
                out@.len() == m,
                forall|j: int| 0 <= j < m ==> out@[j] == (self.mag@[n - 1 - j] + 33) as u8,
            decreases n - m,
        {
            out.push(self.mag[n - 1 - m] + 33);
            m += 1;
        }
        proof {
            assert(digits_of(out@) =~= self.mag@.reverse());
            lemma_msb_rev(digits_of(out@));
            assert(self.mag@.reverse().reverse() =~= self.mag@);
            assert(out@[0] == (self.mag@[n - 1] + 33) as u8);
        }
        out
    }

    /// Writes the value in decimal ASCII, with a leading minus sign when it
    /// is negative and no leading zero digit.
    pub fn to_decimal(&self) -> (r: Vec<u8>)
        requires
            self.wf(),
        ensures
            self@ >= 0 ==> r@.len() >= 1 && (forall|i: int|
                0 <= i < r@.len() ==> is_dec_digit(#[trigger] r@[i])) && dec_msb(r@) == self@ && (
            r@.len() > 1 ==> r@[0] != 48),
            self@ < 0 ==> r@.len() >= 2 && r@[0] == 45 && (forall|i: int|
                1 <= i < r@.len() ==> is_dec_digit(#[trigger] r@[i])) && dec_msb(r@.skip(1))
                == -self@ && r@[1] != 48,
    {
        proof {
            self.lemma_sign();
        }
        let ghost m0 = mag(self.mag@);
        let mut digs: Vec<u8> = Vec::new();  // decimal ASCII, least significant first
        let mut cur = clone_digits(&self.mag);
        if cur.len() == 0 {
            digs.push(48);
            proof {
                assert(digs@.skip(1) =~= Seq::<u8>::empty());
                assert(dec_lsb(Seq::<u8>::empty()) == 0);
                assert(dec_lsb(digs@) == (digs@[0] - 48) + 10 * dec_lsb(digs@.skip(1)));
                assert(dec_lsb(digs@) == 0);
            }
        } else {
            let mut ten: Vec<u8> = Vec::new();
            ten.push(10);
            proof {
                assert(ten@.skip(1) =~= Seq::<u8>::empty());
                assert(mag(Seq::<u8>::empty()) == 0);
                assert(mag(ten@) == ten@[0] + 94 * mag(ten@.skip(1)));
                assert(mag(ten@) == 10);
                lemma_mag_lower(self.mag@);
                lemma_p94_pos((self.mag@.len() - 1) as nat);
                assert(1 * p10(0) == 1) by (nonlinear_arith);
            }
            while cur.len() > 0
                invariant
                    canonical(ten@),
                    mag(ten@) == 10,
                    canonical(cur@),
                    forall|i: int| 0 <= i < digs@.len() ==> is_dec_digit(#[trigger] digs@[i]),
                    dec_lsb(digs@) + mag(cur@) * p10(digs@.len()) == m0,
                    mag(cur@) >= 0,
                    digs@.len() > 0 || cur@.len() > 0,
                    cur@.len() == 0 && digs@.len() > 0 ==> digs@[digs@.len() - 1] != 48,
                decreases mag(cur@),
            {
                let ghost vc = mag(cur@);
                let ghost k = digs@.len();
                proof {
                    lemma_mag_lower(cur@);
                    lemma_p94_pos((cur@.len() - 1) as nat);
                }
                let (q, rm) = mag_divmod(&cur, &ten);
                let rd: u8 = if rm.len() == 0 {
                    0
                } else {
                    rm[0]
                };
                proof {
                    if rm@.len() >= 2 {
                        lemma_mag_lower(rm@);
                        lemma_p94_mono(1, (rm@.len() - 1) as nat);
                        assert(p94(1) == 94 * p94(0));
                        assert(false);
                    }
                    if rm@.len() == 1 {
                        assert(rm@.skip(1) =~= Seq::<u8>::empty());
                        assert(mag(Seq::<u8>::empty()) == 0);
                        assert(mag(rm@) == rm@[0] + 94 * mag(rm@.skip(1)));
                    }
                    assert(mag(rm@) == rd);
                    assert(rd < 10);
                    lemma_mag_nonneg(q@);
                    assert(mag(q@) < vc) by (nonlinear_arith)
                        requires
                            mag(q@) * 10 + rd == vc,
                            0 <= rd,
                            mag(q@) >= 0,
                            vc >= 1,
                    ;
                    lemma_dec_push(digs@, (rd + 48) as u8);
                    assert(p10((k + 1) as nat) == 10 * p10(k as nat));
                    assert(dec_lsb(digs@) + rd * p10(k as nat) + mag(q@) * (10 * p10(k as nat))
                        == dec_lsb(digs@) + (mag(q@) * 10 + rd) * p10(k as nat))
                        by (nonlinear_arith);
                    assert(mag(q@) * (10 * p10(k as nat)) == mag(q@) * p10((k + 1) as nat));
                    if q@.len() == 0 {
                        lemma_mag_lower(cur@);
                    }
                }
                digs.push(rd + 48);
                cur = q;
            }
            proof {
                assert(mag(cur@) * p10(digs@.len()) == 0) by (nonlinear_arith)
                    requires
                        mag(cur@) == 0,
                ;
            }
        }
        let mut out: Vec<u8> = Vec::new();
        let ghost off: int = if self.neg {
            1int
        } else {
            0int
        };
        if self.neg {
            out.push(45);
        }
        let dn = digs.len();
        let mut j: usize = dn;
        while j > 0
            invariant
                0 <= j <= dn,
                dn == digs@.len(),
                out@.len() == off + dn - j,
                off == if self.neg {
                    1int
                } else {
                    0int
                },
                self.neg ==> out@.len() > 0 && out@[0] == 45,
                forall|m: int| 0 <= m < dn - j ==> #[trigger] out@[off + m] == digs@[dn - 1 - m],
            decreases j,
        {
            j -= 1;
            out.push(digs[j]);
        }
        proof {
            assert forall|m: int| 0 <= m < dn implies out@.skip(off)[m] == digs@.reverse()[m] by {
                assert(out@.skip(off)[m] == out@[off + m]);
            }
            assert(out@.skip(off) =~= digs@.reverse());
            lemma_dec_rev(digs@.reverse());
            assert(digs@.reverse().reverse() =~= digs@);
            assert(dec_msb(out@.skip(off)) == dec_lsb(digs@));
            assert forall|i: int| off <= i < out@.len() implies is_dec_digit(
                #[trigger] out@[i],
            ) by {
                assert(out@[off + (i - off)] == digs@[dn - 1 - (i - off)]);
            }
            if self.neg {
                assert(out@[1] == out@[off + 0]);
                assert(out@[off + 0] == digs@[dn - 1]);
            } else {
                assert(out@.skip(0) =~= out@);
                assert(dec_msb(out@) == dec_lsb(digs@));
                if out@.len() > 1 {
                    assert(out@[0] == out@[off + 0]);
                    assert(out@[off + 0] == digs@[dn - 1]);
                }
            }
        }
        out
    }
}

/// A digit sequence is worth its low part plus its high part at the split's
/// place value.
pub proof fn lemma_mag_split(s: Seq<u8>, i: int)
    requires
        0 <= i <= s.len(),
    ensures
        mag(s) == mag(s.take(i)) + p94(i as nat) * mag(s.skip(i)),
    decreases i,
{
    if i == 0 {
        assert(s.take(0) =~= Seq::<u8>::empty());
        assert(s.skip(0) =~= s);
        assert(1 * mag(s) == mag(s)) by (nonlinear_arith);
    } else {
        lemma_mag_split(s, i - 1);
        lemma_mag_skip_unfold(s, i - 1);
        lemma_mag_take_push(s, i - 1);
        assert(p94((i - 1) as nat) * (s[i - 1] + 94 * mag(s.skip(i))) == s[i - 1] * p94(
            (i - 1) as nat,
        ) + (94 * p94((i - 1) as nat)) * mag(s.skip(i))) by (nonlinear_arith);
        assert(p94(i as nat) == 94 * p94((i - 1) as nat));
    }
}

impl BigInt {
    /// The value as a machine integer.
    pub fn to_u64(&self) -> (r: u64)
        requires
            self.wf(),
            0 <= self@ <= u64::MAX,
    ensures
            r == self@,
    {
        proof {
            self.lemma_sign();
        }
        let s = &self.mag;
        let n = s.len();
        let mut acc: u64 = 0;
        let mut i: usize = n;
        proof {
            assert(s@.skip(n as int) =~= Seq::<u8>::empty());
        }
        while i > 0
            invariant
                n == s@.len(),
                0 <= i <= n,
                canonical(s@),
                mag(s@) <= u64::MAX,
                acc == mag(s@.skip(i as int)),
            decreases i,
        {
            proof {
                lemma_mag_split(s@, i - 1);
                lemma_mag_skip_unfold(s@, i - 1);
                lemma_mag_nonneg(s@.take(i - 1));
                lemma_mag_nonneg(s@.skip(i - 1));
                lemma_p94_pos((i - 1) as nat);
                assert(p94((i - 1) as nat) * mag(s@.skip(i - 1)) >= 1 * mag(s@.skip(i - 1)))
                    by (nonlinear_arith)
                    requires
                        p94((i - 1) as nat) >= 1,
                        mag(s@.skip(i - 1)) >= 0,
                ;
                assert(mag(s@.skip(i - 1)) <= mag(s@));
            }
            i -= 1;
            acc = acc * 94 + (s[i] as u64);
        }
        proof {
            assert(s@.skip(0) =~= s@);
        }
        acc
    }
}

/// A most-significant-first digit sequence with no leading zero is worth at
/// least its length's place value.
proof fn lemma_msb_lower(d: Seq<u8>)
    requires
        digits_ok(d),
        d.len() >= 1,
        d[0] != 0,
    ensures
        msbval(d) >= 1,
{
    lemma_msb_rev(d);
    lemma_mag_lower(d.reverse());
    lemma_p94_pos((d.len() - 1) as nat);
}

/// Two base-94 numerals with no leading zero digit and the same value are
/// the same digit sequence.
proof fn lemma_msb_unique(d1: Seq<u8>, d2: Seq<u8>)
    requires
        digits_ok(d1),
        digits_ok(d2),
        d1.len() >= 1,
        d2.len() >= 1,
        d1.len() > 1 ==> d1[0] != 0,
        d2.len() > 1 ==> d2[0] != 0,
        msbval(d1) == msbval(d2),
    ensures
        d1 == d2,
    decreases d1.len(),
{
    let v = msbval(d1);
    lemma_msb_rev(d1);
    lemma_mag_nonneg(d1.reverse());
    lemma_msb_rev(d2);
    lemma_mag_nonneg(d2.reverse());
    lemma_fundamental_div_mod_converse(v, 94, msbval(d1.drop_last()), d1.last() as int);
    lemma_fundamental_div_mod_converse(v, 94, msbval(d2.drop_last()), d2.last() as int);
    assert(msbval(d1.drop_last()) >= 0) by {
        lemma_msb_rev(d1.drop_last());
        lemma_mag_nonneg(d1.drop_last().reverse());
    }
    assert(msbval(d2.drop_last()) >= 0) by {
        lemma_msb_rev(d2.drop_last());
        lemma_mag_nonneg(d2.drop_last().reverse());
    }
    assert(d1.last() == d2.last());
    assert(msbval(d1.drop_last()) == msbval(d2.drop_last()));
    if d1.len() == 1 && d2.len() == 1 {
        assert(d1 =~= d2);
    } else if d1.len() == 1 {
        assert(d2.drop_last().len() >= 1);
        assert(d2.drop_last()[0] == d2[0]);
        lemma_msb_lower(d2.drop_last());
        assert(false);
    } else if d2.len() == 1 {
        assert(d1.drop_last().len() >= 1);
        assert(d1.drop_last()[0] == d1[0]);
        lemma_msb_lower(d1.drop_last());
        assert(false);
    } else {
        lemma_msb_unique(d1.drop_last(), d2.drop_last());
        assert(d1 =~= d1.drop_last().push(d1.last()));
        assert(d2 =~= d2.drop_last().push(d2.last()));
    }
}

/// The canonical base-94 numeral body of a non-negative value: most
/// significant digit first, no leading zero digit, zero as one zero digit.
pub open spec fn int_body_spec(n: int) -> Seq<u8>
    recommends
        n >= 0,
    decreases n,
{
    if n < 94 {
        seq![(n + 33) as u8]
    } else {
        int_body_spec(n / 94).push((n % 94 + 33) as u8)
    }
}

/// The canonical numeral body is a well-formed spelling of its value.
pub proof fn lemma_int_body(n: int)
    requires
        n >= 0,
    ensures
        int_body_spec(n).len() >= 1,
        forall|i: int|
            0 <= i < int_body_spec(n).len() ==> body_byte(#[trigger] int_body_spec(n)[i]),
        int_body_spec(n).len() > 1 ==> int_body_spec(n)[0] != 33,
        n > 0 ==> int_body_spec(n)[0] != 33,
        msbval(digits_of(int_body_spec(n))) == n,
    decreases n,
{
    if n < 94 {
        let b = int_body_spec(n);
        assert(b =~= seq![(n + 33) as u8]);
        assert(digits_of(b) =~= seq![(n) as u8]);
        assert(digits_of(b).drop_last() =~= Seq::<u8>::empty());
        assert(msbval(digits_of(b)) == 94 * msbval(digits_of(b).drop_last()) + digits_of(b).last());
    } else {
        lemma_int_body(n / 94);
        let h = int_body_spec(n / 94);
        let b = int_body_spec(n);
        assert(b == h.push((n % 94 + 33) as u8));
        assert(digits_of(b) =~= digits_of(h).push((n % 94) as u8));
        assert(digits_of(b).drop_last() =~= digits_of(h));
        assert(msbval(digits_of(b)) == 94 * msbval(digits_of(h)) + (n % 94));
        assert(n == 94 * (n / 94) + n % 94);
        assert(n / 94 >= 1) by (nonlinear_arith)
            requires
                n >= 94,
        ;
        assert(b[0] == h[0]);
    }
}

/// Round trip for integers: a value has exactly one numeral body, so parsing
/// any body written for it gives the value back. The bounds here are those
/// that [`BigInt::to_body`] establishes of what it writes.
pub proof fn lemma_int_round_trip(b1: Seq<u8>, b2: Seq<u8>)
    requires
        b1.len() >= 1,
        b2.len() >= 1,
        forall|i: int| 0 <= i < b1.len() ==> body_byte(#[trigger] b1[i]),
        forall|i: int| 0 <= i < b2.len() ==> body_byte(#[trigger] b2[i]),
        b1.len() > 1 ==> b1[0] != 33,
        b2.len() > 1 ==> b2[0] != 33,
        msbval(digits_of(b1)) == msbval(digits_of(b2)),
    ensures
        b1 == b2,
{
    lemma_msb_unique(digits_of(b1), digits_of(b2));
    assert forall|i: int| 0 <= i < b1.len() implies b1[i] == b2[i] by {
        assert(digits_of(b1)[i] == digits_of(b2)[i]);
    }
    assert(b1 =~= b2);
}

} // verus!
