//! Human-readable byte-size formatting.
//!
//! [`bytecount_format`] renders an unsigned magnitude with the smallest
//! binary unit (a power of 1024) that the magnitude fits under, and a
//! caller-chosen number of fractional digits.  With zero fractional digits
//! the scaled value is truncated (the floor of the true ratio); with one or
//! more it is rounded half away from zero.  All arithmetic is exact integer
//! arithmetic.

use vstd::prelude::*;
use vstd::arithmetic::power2::pow2;
use vstd::arithmetic::power2::lemma2_to64;
use vstd::arithmetic::power2::lemma2_to64_rest;
use vstd::arithmetic::power2::lemma_pow2_adds;
use vstd::arithmetic::div_mod::lemma_fundamental_div_mod;
use vstd::arithmetic::div_mod::lemma_fundamental_div_mod_converse;
use vstd::string::StringExecFns;

verus! {

/// Error returned by the byte-size formatter.
#[derive(Clone, Copy, Debug, PartialEq, Eq, Structural)]
pub enum SizeError {
    /// The magnitude is at least 1024^7, past the largest unit of the table.
    OutOfRange,
}

/// Name of the unit at index `u` of the table (`u` counts powers of 1024).
pub open spec fn unit_name(u: nat) -> Seq<char> {
    if u == 0 {
        seq!['b', 'y', 't', 'e', 's']
    } else if u == 1 {
        seq!['K', 'i', 'B']
    } else if u == 2 {
        seq!['M', 'i', 'B']
    } else if u == 3 {
        seq!['G', 'i', 'B']
    } else if u == 4 {
        seq!['T', 'i', 'B']
    } else if u == 5 {
        seq!['P', 'i', 'B']
    } else {
        seq!['E', 'i', 'B']
    }
}

/// A magnitude has a unit in the table exactly when it is below 1024^7.
pub open spec fn size_in_range(i: nat) -> bool {
    i < pow2(70)
}

/// The smallest unit index `u` in `0..=6` with `i < 1024^(u+1)`.
pub open spec fn unit_index(i: nat) -> nat {
    if i < pow2(10) {
        0
    } else if i < pow2(20) {
        1
    } else if i < pow2(30) {
        2
    } else if i < pow2(40) {
        3
    } else if i < pow2(50) {
        4
    } else if i < pow2(60) {
        5
    } else {
        6
    }
}

/// The decimal digit character for `d < 10`.
pub open spec fn digit_char(d: nat) -> char {
    if d == 0 {
        '0'
    } else if d == 1 {
        '1'
    } else if d == 2 {
        '2'
    } else if d == 3 {
        '3'
    } else if d == 4 {
        '4'
    } else if d == 5 {
        '5'
    } else if d == 6 {
        '6'
    } else if d == 7 {
        '7'
    } else if d == 8 {
        '8'
    } else {
        '9'
    }
}

/// Decimal rendering of `n`, without leading zeros (a single `0` for zero).
pub open spec fn dec_str(n: nat) -> Seq<char>
    decreases n,
{
    if n < 10 {
        seq![digit_char(n)]
    } else {
        dec_str(n / 10) + seq![digit_char(n % 10)]
    }
}

/// Decimal rendering of the low `width` digits of `n`, zero-padded to
/// exactly `width` characters.
pub open spec fn dec_str_pad(n: nat, width: nat) -> Seq<char>
    decreases width,
{
    if width == 0 {
        Seq::empty()
    } else {
        dec_str_pad(n / 10, (width - 1) as nat) + seq![digit_char(n % 10)]
    }
}

/// 10 to the power `e`.
pub open spec fn pow10(e: nat) -> nat
    decreases e,
{
    if e == 0 {
        1
    } else {
        10 * pow10((e - 1) as nat)
    }
}

/// The scaled numeric part of the formatted size: with precision 0 the
/// truncated quotient by 1024^u; otherwise the quotient rounded half away
/// from zero to `p` fractional digits, written with a decimal point.
pub open spec fn scaled_chars(i: nat, p: nat) -> Seq<char> {
    let u = unit_index(i);
    let d = pow2(10 * u);
    if p == 0 {
        dec_str(i / d)
    } else {
        let t = (i * pow10(p) + d / 2) / d;
        dec_str(t / pow10(p)) + seq!['.'] + dec_str_pad(t % pow10(p), p)
    }
}

/// The whole formatted size: scaled value, a space, and the unit name.
pub open spec fn size_format(i: nat, p: nat) -> Seq<char> {
    scaled_chars(i, p) + seq![' '] + unit_name(unit_index(i))
}

/// The value of a big-endian sequence of decimal digits.
pub open spec fn digits_val(ds: Seq<u8>) -> nat
    decreases ds.len(),
{
    if ds.len() == 0 {
        0
    } else {
        digits_val(ds.drop_last()) * 10 + (ds.last() as nat)
    }
}

/// The characters of a big-endian sequence of decimal digits.
pub open spec fn digits_chars(ds: Seq<u8>) -> Seq<char> {
    Seq::new(ds.len(), |k: int| digit_char(ds[k] as nat))
}

proof fn lemma_pow2_table()
    ensures
        pow2(0) == 1,
        pow2(10) == 1024,
        pow2(20) == 1048576,
        pow2(30) == 1073741824,
        pow2(40) == 1099511627776,
        pow2(50) == 1125899906842624,
        pow2(60) == 1152921504606846976,
        pow2(70) == 1180591620717411303424,
{
    lemma2_to64();
    lemma2_to64_rest();
    lemma_pow2_adds(60, 10);
}

proof fn lemma_digits_val_push(ds: Seq<u8>, x: u8)
    ensures
        digits_val(ds.push(x)) == digits_val(ds) * 10 + x,
{
    assert(ds.push(x).drop_last() =~= ds);
    assert(ds.push(x).last() == x);
}

proof fn lemma_digits_val_prepend(x: u8, ds: Seq<u8>)
    ensures
        digits_val(seq![x] + ds) == (x as nat) * pow10(ds.len()) + digits_val(ds),
    decreases ds.len(),
{
    if ds.len() == 0 {
        assert(seq![x] + ds =~= seq![x]);
        assert(seq![x].drop_last() =~= Seq::<u8>::empty());
        assert(digits_val(Seq::<u8>::empty()) == 0);
        assert(seq![x].last() == x);
        assert(digits_val(seq![x]) == x);
        assert(pow10(0) == 1);
    } else {
        let s = seq![x] + ds;
        assert(s.drop_last() =~= seq![x] + ds.drop_last());
        assert(s.last() == ds.last());
        lemma_digits_val_prepend(x, ds.drop_last());
        let w = (ds.len() - 1) as nat;
        assert(pow10(ds.len()) == 10 * pow10(w));
        assert(digits_val(s) == digits_val(s.drop_last()) * 10 + (s.last() as nat));
        assert(digits_val(ds) == digits_val(ds.drop_last()) * 10 + (ds.last() as nat));
        assert(((x as nat) * pow10(w) + digits_val(ds.drop_last())) * 10 == (x as nat) * pow10(
            ds.len(),
        ) + digits_val(ds.drop_last()) * 10) by (nonlinear_arith)
            requires
                pow10(ds.len()) == 10 * pow10(w),
        ;
    }
}

proof fn lemma_digits_val_append(a: Seq<u8>, b: Seq<u8>)
    ensures
        digits_val(a + b) == digits_val(a) * pow10(b.len()) + digits_val(b),
    decreases b.len(),
{
    if b.len() == 0 {
        assert(a + b =~= a);
        assert(pow10(0) == 1);
        assert(digits_val(b) == 0);
    } else {
        assert((a + b).drop_last() =~= a + b.drop_last());
        assert((a + b).last() == b.last());
        lemma_digits_val_append(a, b.drop_last());
        let w = (b.len() - 1) as nat;
        assert(pow10(b.len()) == 10 * pow10(w));
        assert(digits_val(a + b) == digits_val((a + b).drop_last()) * 10 + ((a + b).last() as nat));
        assert(digits_val(b) == digits_val(b.drop_last()) * 10 + (b.last() as nat));
        assert((digits_val(a) * pow10(w) + digits_val(b.drop_last())) * 10 == digits_val(a) * pow10(
            b.len(),
        ) + digits_val(b.drop_last()) * 10) by (nonlinear_arith)
            requires
                pow10(b.len()) == 10 * pow10(w),
        ;
    }
}

proof fn lemma_digits_val_bound(ds: Seq<u8>)
    requires
        forall|k: int| 0 <= k < ds.len() ==> ds[k] < 10,
    ensures
        digits_val(ds) < pow10(ds.len()),
    decreases ds.len(),
{
    if ds.len() == 0 {
    } else {
        lemma_digits_val_bound(ds.drop_last());
        assert(pow10(ds.len()) == 10 * pow10((ds.len() - 1) as nat));
        assert(ds.last() < 10);
        assert(digits_val(ds.drop_last()) * 10 + 9 < 10 * pow10((ds.len() - 1) as nat))
            by (nonlinear_arith)
            requires
                digits_val(ds.drop_last()) < pow10((ds.len() - 1) as nat),
        ;
    }
}

proof fn lemma_digits_chars_pad(ds: Seq<u8>)
    requires
        forall|k: int| 0 <= k < ds.len() ==> ds[k] < 10,
    ensures
        digits_chars(ds) =~= dec_str_pad(digits_val(ds), ds.len()),
    decreases ds.len(),
{
    if ds.len() == 0 {
    } else {
        let v = digits_val(ds);
        let dl = ds.drop_last();
        assert(forall|k: int| 0 <= k < dl.len() ==> dl[k] < 10);
        lemma_digits_chars_pad(dl);
        assert(v == digits_val(dl) * 10 + ds.last());
        lemma_fundamental_div_mod_converse(v as int, 10, digits_val(dl) as int, ds.last() as int);
        assert(v / 10 == digits_val(dl));
        assert(v % 10 == ds.last());
        assert(digits_chars(ds) =~= digits_chars(dl) + seq![digit_char(ds.last() as nat)]);
    }
}

fn digit_str(d: u8) -> (r: &'static str)
    requires
        d < 10,
    ensures
        r@ == seq![digit_char(d as nat)],
{
    proof {
        reveal_strlit("0");
        reveal_strlit("1");
        reveal_strlit("2");
        reveal_strlit("3");
        reveal_strlit("4");
        reveal_strlit("5");
        reveal_strlit("6");
        reveal_strlit("7");
        reveal_strlit("8");
        reveal_strlit("9");
    }
    let r = if d == 0 {
        "0"
    } else if d == 1 {
        "1"
    } else if d == 2 {
        "2"
    } else if d == 3 {
        "3"
    } else if d == 4 {
        "4"
    } else if d == 5 {
        "5"
    } else if d == 6 {
        "6"
    } else if d == 7 {
        "7"
    } else if d == 8 {
        "8"
    } else {
        "9"
    };
    proof {
        assert(r@ =~= seq![digit_char(d as nat)]);
    }
    r
}

fn unit_str(u: usize) -> (r: &'static str)
    requires
        u <= 6,
    ensures
        r@ == unit_name(u as nat),
{
    proof {
        reveal_strlit("bytes");
        reveal_strlit("KiB");
        reveal_strlit("MiB");
        reveal_strlit("GiB");
        reveal_strlit("TiB");
        reveal_strlit("PiB");
        reveal_strlit("EiB");
    }
    let r = if u == 0 {
        "bytes"
    } else if u == 1 {
        "KiB"
    } else if u == 2 {
        "MiB"
    } else if u == 3 {
        "GiB"
    } else if u == 4 {
        "TiB"
    } else if u == 5 {
        "PiB"
    } else {
        "EiB"
    };
    proof {
        assert(r@ =~= unit_name(u as nat));
    }
    r
}

fn push_dec(out: &mut String, n: u128)
    ensures
        final(out)@ == old(out)@ + dec_str(n as nat),
    decreases n,
{
    if n < 10 {
        out.append(digit_str(n as u8));
        proof {
            assert(out@ =~= old(out)@ + dec_str(n as nat));
        }
    } else {
        proof {
            assert(n / 10 < n) by (nonlinear_arith)
                requires
                    n >= 10,
            ;
        }
        push_dec(out, n / 10);
        out.append(digit_str((n % 10) as u8));
        proof {
            assert(out@ =~= old(out)@ + dec_str(n as nat));
        }
    }
}

/// Adds one to the decimal number held in `digs`, propagating the carry from
/// the last digit; reports whether the carry left the vector (all nines).
fn round_up_digits(digs: &mut Vec<u8>) -> (carry: bool)
    requires
        forall|t: int| 0 <= t < old(digs)@.len() ==> old(digs)@[t] < 10,
    ensures
        final(digs)@.len() == old(digs)@.len(),
        forall|t: int| 0 <= t < final(digs)@.len() ==> final(digs)@[t] < 10,
        digits_val(old(digs)@) + 1 == (if carry {
            pow10(old(digs)@.len())
        } else {
            0
        }) + digits_val(final(digs)@),
{
    let ghost og = digs@;
    let p = digs.len();
    let mut j: usize = p;
    let mut carry: bool = true;
    while carry && j > 0
        invariant
            j <= p,
            digs@.len() == p,
            og.len() == p,
            forall|t: int| 0 <= t < p ==> digs@[t] < 10,
            forall|t: int| 0 <= t < p ==> og[t] < 10,
            digs@.take(j as int) == og.take(j as int),
            digits_val(og.skip(j as int)) + 1 == (if carry {
                pow10((p - j) as nat)
            } else {
                0
            }) + digits_val(digs@.skip(j as int)),
        decreases j,
    {
        j = j - 1;
        let x = digs[j];
        let ghost before = digs@;
        if x == 9 {
            digs.set(j, 0);
        } else {
            digs.set(j, x + 1);
            carry = false;
        }
        proof {
            let jj = j as int;
            assert(before.take(jj + 1) == og.take(jj + 1));
            assert(og[jj] == og.take(jj + 1)[jj]);
            assert(before[jj] == before.take(jj + 1)[jj]);
            assert(x == og[jj]);
            assert(og.skip(jj) =~= seq![og[jj]] + og.skip(jj + 1));
            assert(digs@.skip(jj) =~= seq![digs@[jj]] + digs@.skip(jj + 1));
            assert(before.skip(jj + 1) =~= digs@.skip(jj + 1));
            lemma_digits_val_prepend(og[jj], og.skip(jj + 1));
            lemma_digits_val_prepend(digs@[jj], digs@.skip(jj + 1));
            assert(digs@.take(jj) =~= og.take(jj));
            let w = (p - j - 1) as nat;
            assert(og.skip(jj + 1).len() == w);
            assert(digs@.skip(jj + 1).len() == w);
            assert(pow10((p - jj) as nat) == 10 * pow10(w));
            if x < 9 {
                assert(((x + 1) as nat) * pow10(w) == (x as nat) * pow10(w) + pow10(w))
                    by (nonlinear_arith);
            }
        }
    }
    proof {
        let jj = j as int;
        assert(og =~= og.take(jj) + og.skip(jj));
        assert(digs@ =~= digs@.take(jj) + digs@.skip(jj));
        lemma_digits_val_append(og.take(jj), og.skip(jj));
        lemma_digits_val_append(digs@.take(jj), digs@.skip(jj));
        assert(og.skip(jj).len() == digs@.skip(jj).len());
        if carry {
            assert(j == 0);
            assert(og.skip(0) =~= og);
            assert(digs@.skip(0) =~= digs@);
        }
    }
    carry
}

/// Long division of `rem / d` into `precision` decimal digits, rounded half
/// away from zero, with the integer part `q` absorbing a final carry.  The
/// result is the rounded scaled value split at the decimal point.
fn frac_digits(i: u128, d: u128, q: u128, rem: u128, precision: usize) -> (res: (u128, Vec<u8>))
    requires
        1 <= d <= 1152921504606846976,
        d == 1 || d == 2 * (d / 2),
        precision >= 1,
        q < 1024,
        rem < d,
        (i as nat) == (q as nat) * (d as nat) + (rem as nat),
    ensures
        ({
            let t = ((i as nat) * pow10(precision as nat) + (d as nat) / 2) / (d as nat);
            &&& res.1@.len() == precision as nat
            &&& forall|k: int| 0 <= k < res.1@.len() ==> res.1@[k] < 10
            &&& t / pow10(precision as nat) == res.0 as nat
            &&& t % pow10(precision as nat) == digits_val(res.1@)
        }),
{
    let ghost dd = d as nat;
    let ghost r0 = rem as nat;
    let mut digs: Vec<u8> = Vec::new();
    let mut rr: u128 = rem;
    let mut k: usize = 0;
    proof {
        assert(pow10(0) == 1);
        assert(digits_val(digs@) == 0);
    }
    while k < precision
        invariant
            k <= precision,
            digs@.len() == k,
            rr < d,
            1 <= d <= 1152921504606846976,
            r0 == rem as nat,
            dd == d as nat,
            forall|t: int| 0 <= t < digs@.len() ==> digs@[t] < 10,
            r0 * pow10(k as nat) == digits_val(digs@) * dd + (rr as nat),
        decreases precision - k,
    {
        let prod: u128 = rr * 10;
        let dig128: u128 = prod / d;
        let rr2: u128 = prod % d;
        proof {
            assert(dig128 < 10) by (nonlinear_arith)
                requires
                    dig128 == prod / d,
                    prod == rr * 10,
                    rr < d,
                    d >= 1,
            ;
            lemma_fundamental_div_mod(prod as int, d as int);
            assert(prod as nat == dig128 as nat * dd + rr2 as nat);
            lemma_digits_val_push(digs@, dig128 as u8);
            assert(pow10((k + 1) as nat) == 10 * pow10(k as nat));
            assert(r0 * pow10((k + 1) as nat) == (digits_val(digs@) * 10 + dig128 as nat) * dd
                + rr2 as nat) by (nonlinear_arith)
                requires
                    r0 * pow10(k as nat) == digits_val(digs@) * dd + (rr as nat),
                    pow10((k + 1) as nat) == 10 * pow10(k as nat),
                    (rr as nat) * 10 == dig128 as nat * dd + rr2 as nat,
            ;
        }
        digs.push(dig128 as u8);
        rr = rr2;
        k = k + 1;
    }
    let ghost p = precision as nat;
    let ghost f0 = digits_val(digs@);
    let ghost up: nat = if 2 * (rr as nat) >= dd {
        1
    } else {
        0
    };
    let carry: bool;
    if 2 * rr >= d {
        carry = round_up_digits(&mut digs);
    } else {
        carry = false;
        proof {
            assert(up == 0);
        }
    }
    let q2: u128 = if carry {
        q + 1
    } else {
        q
    };
    proof {
        lemma_digits_val_bound(digs@);
        assert(digits_val(digs@) < pow10(p));
        assert((q2 as nat) * pow10(p) + digits_val(digs@) == (q as nat) * pow10(p) + f0 + up)
            by (nonlinear_arith)
            requires
                (if carry {
                    (q2 as nat) == (q as nat) + 1
                } else {
                    (q2 as nat) == (q as nat)
                }),
                (if carry {
                    f0 + up == pow10(p) + digits_val(digs@)
                } else {
                    f0 + up == digits_val(digs@)
                }),
        ;
        // The divisor is 1 or even, so the rounding half is exact and the
        // adjusted remainder stays inside [0, dd).
        let h = dd / 2;
        let rem2: int = (rr as nat) + h - up * dd;
        if dd == 1 {
            assert(rr == 0);
            assert(up == 0);
            assert(0 <= rem2 < dd);
        } else {
            assert(dd == 2 * h);
            assert(0 <= rem2 < dd);
        }
        assert((i as nat) * pow10(p) + h == dd * ((q as nat) * pow10(p) + f0 + up) + rem2)
            by (nonlinear_arith)
            requires
                (i as nat) == (q as nat) * dd + r0,
                r0 * pow10(p) == f0 * dd + (rr as nat),
                rem2 == (rr as nat) + h - up * dd,
        ;
        lemma_fundamental_div_mod_converse(
            ((i as nat) * pow10(p) + h) as int,
            dd as int,
            ((q as nat) * pow10(p) + f0 + up) as int,
            rem2,
        );
        let t = ((i as nat) * pow10(p) + dd / 2) / dd;
        assert(t == (q as nat) * pow10(p) + f0 + up);
        assert(t == (q2 as nat) * pow10(p) + digits_val(digs@));
        lemma_fundamental_div_mod_converse(
            t as int,
            pow10(p) as int,
            q2 as int,
            digits_val(digs@) as int,
        );
    }
    (q2, digs)
}

/// Formats `i` bytes with `precision` fractional digits and the smallest
/// binary unit that fits, or reports that `i` is past the unit table.
pub fn bytecount_format(i: u128, precision: usize) -> (r: Result<String, SizeError>)
    ensures
        r is Ok <==> size_in_range(i as nat),
        r is Ok ==> r->Ok_0@ == size_format(i as nat, precision as nat),
        r is Err ==> r == Result::<String, SizeError>::Err(SizeError::OutOfRange),
{
    proof {
        lemma_pow2_table();
    }
    if i >= 1180591620717411303424 {
        return Err(SizeError::OutOfRange);
    }
    let (u, d): (usize, u128) = if i < 1024 {
        (0, 1)
    } else if i < 1048576 {
        (1, 1024)
    } else if i < 1073741824 {
        (2, 1048576)
    } else if i < 1099511627776 {
        (3, 1073741824)
    } else if i < 1125899906842624 {
        (4, 1099511627776)
    } else if i < 1152921504606846976 {
        (5, 1125899906842624)
    } else {
        (6, 1152921504606846976)
    };
    proof {
        assert(u as nat == unit_index(i as nat));
        assert(d as nat == pow2(10 * (u as nat)));
        assert((i as nat) < (d as nat) * 1024);
        assert(d == 1 || d == 2 * (d / 2));
    }
    let q: u128 = i / d;
    let rem: u128 = i % d;
    proof {
        lemma_fundamental_div_mod(i as int, d as int);
        assert((i as int) == (d as int) * (q as int) + (rem as int));
        assert((i as nat) == (q as nat) * (d as nat) + (rem as nat)) by (nonlinear_arith)
            requires
                (i as int) == (d as int) * (q as int) + (rem as int),
        ;
        assert(q < 1024) by (nonlinear_arith)
            requires
                q == i / d,
                (i as nat) < (d as nat) * 1024,
                d >= 1,
        ;
    }
    let mut out = String::new();
    if precision == 0 {
        push_dec(&mut out, q);
    } else {
        let (q2, digs) = frac_digits(i, d, q, rem, precision);
        push_dec(&mut out, q2);
        proof {
            reveal_strlit(".");
        }
        out.append(".");
        proof {
            lemma_digits_chars_pad(digs@);
        }
        let ghost mid = out@;
        let mut k2: usize = 0;
        while k2 < precision
            invariant
                k2 <= precision,
                digs@.len() == precision,
                forall|t: int| 0 <= t < digs@.len() ==> digs@[t] < 10,
                out@ == mid + digits_chars(digs@).take(k2 as int),
            decreases precision - k2,
        {
            out.append(digit_str(digs[k2]));
            proof {
                assert(digits_chars(digs@).take(k2 + 1) =~= digits_chars(digs@).take(k2 as int)
                    + seq![digit_char(digs@[k2 as int] as nat)]);
            }
            k2 = k2 + 1;
        }
        proof {
            assert(digits_chars(digs@).take(precision as int) =~= digits_chars(digs@));
        }
    }
    proof {
        reveal_strlit(" ");
    }
    out.append(" ");
    out.append(unit_str(u));
    proof {
        assert(out@ =~= size_format(i as nat, precision as nat));
    }
    Ok(out)
}

} // verus!
