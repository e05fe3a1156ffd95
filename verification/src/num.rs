//! Exact decimal numbers.
//!
//! A [`Num`] carries a magnitude as a normalised significand — decimal
//! digits with no leading and no trailing zero — together with a base-ten
//! exponent and a sign, so the value of a finite number is
//! `±0.d1d2…dn × 10^exp`.  Special values (infinities and the not-a-number
//! marker) carry no digits.  Every operation is exact, and rendering with a
//! fixed number of fraction digits is specified to the character.

use vstd::prelude::*;
use vstd::string::StringExecFns;

use crate::digits::digit_char;
use crate::digits::digit_str;
use crate::digits::digits_int;
use crate::digits::digits_ok;
use crate::digits::inc_digits;
use crate::digits::inc_digits_spec;
use crate::digits::lead0;
use crate::digits::lemma_digits_bound;
use crate::digits::lemma_digits_first;
use crate::digits::lemma_digits_nonneg;
use crate::digits::lemma_digits_split;
use crate::digits::lemma_digits_unique;
use crate::digits::lemma_inc_digits;
use crate::digits::lemma_nat_digits;
use crate::digits::lemma_pow10_mono;
use crate::digits::lemma_pow10_pos;
use crate::digits::lemma_strip0;
use crate::digits::mul_small;
use crate::digits::nat_digits;
use crate::digits::ndigits;
use crate::digits::pow10;
use crate::digits::strip0;
use crate::digits::u64_digits;

verus! {

/// The three kinds of value a [`Num`] can hold.
#[derive(Clone, Copy, Debug, PartialEq, Eq, Structural)]
pub enum NumClass {
    /// Not a number.
    Nan,
    /// An infinity, negative when the sign flag is set.
    Infinite,
    /// An ordinary finite value (possibly zero).
    Finite,
}

/// An exact decimal number.
#[derive(Debug, PartialEq)]
pub struct Num {
    pub class: NumClass,
    pub neg: bool,
    pub digits: Vec<u8>,
    pub exp: i64,
}

/// The mathematical content of a [`Num`].
#[verifier::ext_equal]
pub ghost struct NumV {
    pub class: NumClass,
    pub neg: bool,
    pub digits: Seq<u8>,
    pub exp: int,
}

impl View for Num {
    type V = NumV;

    open spec fn view(&self) -> NumV {
        NumV { class: self.class, neg: self.neg, digits: self.digits@, exp: self.exp as int }
    }
}

/// A well-formed number: digits are decimal, the significand is normalised
/// (no leading or trailing zero), zero and the special values carry no
/// digits and exponent zero, and the not-a-number marker has no sign.
pub open spec fn wf(n: NumV) -> bool {
    &&& digits_ok(n.digits)
    &&& (n.digits.len() > 0 ==> n.digits[0] != 0 && n.digits.last() != 0)
    &&& (n.digits.len() == 0 ==> n.exp == 0)
    &&& (!(n.class is Finite) ==> n.digits.len() == 0)
    &&& (n.class is Nan ==> !n.neg)
}

/// The exponent range inside which every operation here is free of
/// machine-arithmetic overflow.
pub open spec fn exp_in_range(e: int) -> bool {
    -0x2000_0000_0000_0000 <= e <= 0x2000_0000_0000_0000
}

/// The unsigned significand read as an integer.
pub open spec fn mant(n: NumV) -> int {
    digits_int(n.digits)
}

/// The signed significand.
pub open spec fn smant(n: NumV) -> int {
    if n.neg {
        -digits_int(n.digits)
    } else {
        digits_int(n.digits)
    }
}

/// The power of ten that scales the significand: the value of a finite
/// number is `smant * 10^pt`.
pub open spec fn pt(n: NumV) -> int {
    n.exp - n.digits.len()
}

/// Whether `m1 * 10^e1` and `m2 * 10^e2` denote the same rational.
pub open spec fn val_eq(m1: int, e1: int, m2: int, e2: int) -> bool {
    if e1 >= e2 {
        m1 * pow10((e1 - e2) as nat) == m2
    } else {
        m1 == m2 * pow10((e2 - e1) as nat)
    }
}

/// A finite nonzero number: the only kind that scaling and significant-figure
/// rounding act on.
pub open spec fn is_scalable(n: NumV) -> bool {
    n.class is Finite && n.digits.len() > 0
}

/// Rounding a significand at a digit position.
///
/// `keep` is the number of leading significand digits retained; the first
/// dropped digit decides the direction, half away from zero.  The result is
/// the normalised significand and the adjusted exponent.
pub open spec fn round_spec(d: Seq<u8>, e: int, keep: int) -> (Seq<u8>, int) {
    if keep < 0 {
        (Seq::empty(), 0)
    } else if keep >= d.len() {
        (d, e)
    } else {
        let t = d.take(keep);
        let u = if d[keep] >= 5 {
            inc_digits_spec(t)
        } else {
            t
        };
        let s = strip0(u);
        if s.len() == 0 {
            (s, 0)
        } else {
            (s, e + u.len() - keep)
        }
    }
}

/// The sign marker of a rendered number.
pub open spec fn sign_chars(neg: bool) -> Seq<char> {
    if neg {
        "-"@
    } else {
        Seq::empty()
    }
}

/// The digit of `d` at position `i`, zero off either end.
pub open spec fn dig_at(d: Seq<u8>, i: int) -> u8 {
    if 0 <= i < d.len() {
        d[i]
    } else {
        0
    }
}

/// The integer-part characters of a significand `d` with exponent `e`.
pub open spec fn int_chars(d: Seq<u8>, e: int) -> Seq<char> {
    if e <= 0 {
        "0"@
    } else {
        Seq::new(e as nat, |i: int| digit_char(dig_at(d, i)))
    }
}

/// The fraction characters: a point and exactly `prec` digits.
pub open spec fn frac_chars(d: Seq<u8>, e: int, prec: nat) -> Seq<char> {
    if prec == 0 {
        Seq::empty()
    } else {
        "."@ + Seq::new(prec, |j: int| digit_char(dig_at(d, e + j)))
    }
}

/// The text of a number rendered with exactly `prec` fraction digits.
///
/// The significand is first rounded (half away from zero) at the last
/// printed position; the special values render as their plain names.
pub open spec fn render_fixed_spec(n: NumV, prec: nat) -> Seq<char> {
    if n.class is Nan {
        "NaN"@
    } else if n.class is Infinite {
        sign_chars(n.neg) + "inf"@
    } else {
        let (d, e) = round_spec(n.digits, n.exp, n.exp + prec);
        sign_chars(n.neg) + int_chars(d, e) + frac_chars(d, e, prec)
    }
}

/// The natural text of a number: every significand digit, no padding
/// beyond one leading zero for values below one.
pub open spec fn render_native_spec(n: NumV) -> Seq<char> {
    if n.class is Finite {
        render_fixed_spec(n, nat_prec(n))
    } else {
        render_fixed_spec(n, 0)
    }
}

/// The fraction digits the natural rendering needs.
pub open spec fn nat_prec(n: NumV) -> nat {
    if n.digits.len() - n.exp >= 0 {
        (n.digits.len() - n.exp) as nat
    } else {
        0
    }
}

impl Num {
    /// The not-a-number marker.
    pub fn nan() -> (r: Num)
        ensures
            wf(r@),
            r@.class is Nan,
            r@.neg == false,
    {
        Num { class: NumClass::Nan, neg: false, digits: Vec::new(), exp: 0 }
    }

    /// A signed infinity.
    pub fn infinity(neg: bool) -> (r: Num)
        ensures
            wf(r@),
            r@.class is Infinite,
            r@.neg == neg,
    {
        Num { class: NumClass::Infinite, neg, digits: Vec::new(), exp: 0 }
    }

    /// The exact value `±m × 10^e`.
    ///
    /// Passing `m == 0` gives a (possibly negative) zero.
    pub fn from_parts(neg: bool, m: u64, e: i32) -> (r: Num)
        ensures
            wf(r@),
            r@.class is Finite,
            r@.neg == neg,
            r@.digits == strip0(nat_digits(m as nat)),
            r@.exp == if m == 0 {
                0int
            } else {
                e + ndigits(m as nat)
            },
            val_eq(mant(r@), pt(r@), m as int, e as int),
            exp_in_range(r@.exp),
            r@.digits.len() <= 20,
            ndigits(m as nat) <= 20,
    {
        proof {
            lemma_nat_digits(m as nat);
            lemma_ndigits_u64(m);
            lemma_strip0(nat_digits(m as nat));
        }
        let ds = u64_digits(m);
        let n: usize = ds.len();
        let ds = strip_trailing(ds);
        let ex: i64 = if m == 0 {
            0
        } else {
            (e as i64) + (n as i64)
        };
        let r = Num { class: NumClass::Finite, neg, digits: ds, exp: ex };
        proof {
            lemma_strip0(nat_digits(m as nat));
            lemma_digits_nonneg(r@.digits);
            if m == 0 {
                assert(nat_digits(0nat) == Seq::<u8>::empty());
                assert(strip0(Seq::<u8>::empty()) == Seq::<u8>::empty());
            } else {
                let full = nat_digits(m as nat);
                let z = (full.len() - strip0(full).len()) as nat;
                assert(mant(r@) * pow10(z) == m as int);
                assert(pt(r@) == e + z);
                lemma_val_eq_shift(mant(r@), e as int, z);
            }
        }
        r
    }

    /// The exact value `m`.
    pub fn from_u64(m: u64) -> (r: Num)
        ensures
            wf(r@),
            r@.class is Finite,
            r@.neg == false,
            r@.digits == strip0(nat_digits(m as nat)),
            r@.exp == if m == 0 {
                0int
            } else {
                ndigits(m as nat) as int
            },
            val_eq(mant(r@), pt(r@), m as int, 0),
            exp_in_range(r@.exp),
            r@.digits.len() <= 20,
            ndigits(m as nat) <= 20,
    {
        Num::from_parts(false, m, 0)
    }

    /// An identical copy.
    pub fn duplicate(&self) -> (r: Num)
        ensures
            r@ == self@,
    {
        let ds = copy_digits(&self.digits);
        Num { class: self.class, neg: self.neg, digits: ds, exp: self.exp }
    }

    /// Whether scaling applies: finite and nonzero.
    pub fn is_scalable(&self) -> (r: bool)
        ensures
            r == is_scalable(self@),
    {
        match self.class {
            NumClass::Finite => self.digits.len() > 0,
            _ => false,
        }
    }

    /// The same magnitude divided by `10^k`.
    pub fn shift10(&self, k: i64) -> (r: Num)
        requires
            wf(self@),
            self@.class is Finite,
            exp_in_range(self@.exp),
            exp_in_range(k as int),
        ensures
            wf(r@),
            r@.class is Finite,
            r@.neg == self@.neg,
            r@.digits == self@.digits,
            r@.exp == if self@.digits.len() == 0 {
                0int
            } else {
                self@.exp - k
            },
    {
        let ds = copy_digits(&self.digits);
        let ex: i64 = if ds.len() == 0 {
            0
        } else {
            self.exp - k
        };
        Num { class: NumClass::Finite, neg: self.neg, digits: ds, exp: ex }
    }

    /// The same value divided by two: the significand is multiplied by
    /// five and the exponent drops by one.
    pub fn halve(&self) -> (r: Num)
        requires
            wf(self@),
            is_scalable(self@),
            exp_in_range(self@.exp),
        ensures
            wf(r@),
            is_scalable(r@),
            r@.neg == self@.neg,
            r@.digits == strip0(nat_digits((5 * mant(self@)) as nat)),
            r@.exp == self@.exp - 1 + ndigits((5 * mant(self@)) as nat) - self@.digits.len(),
            self@.exp - 1 <= r@.exp <= self@.exp,
    {
        let (ds, growth) = mul_norm(&self.digits, 5);
        Num { class: NumClass::Finite, neg: self.neg, digits: ds, exp: self.exp - 1 + growth }
    }

    /// The same value multiplied by two.
    pub fn double(&self) -> (r: Num)
        requires
            wf(self@),
            is_scalable(self@),
            exp_in_range(self@.exp),
        ensures
            wf(r@),
            is_scalable(r@),
            r@.neg == self@.neg,
            r@.digits == strip0(nat_digits((2 * mant(self@)) as nat)),
            r@.exp == self@.exp + ndigits((2 * mant(self@)) as nat) - self@.digits.len(),
            self@.exp <= r@.exp <= self@.exp + 1,
    {
        let (ds, growth) = mul_norm(&self.digits, 2);
        Num { class: NumClass::Finite, neg: self.neg, digits: ds, exp: self.exp + growth }
    }
}

impl Num {
    /// The text of this number with exactly `prec` fraction digits, as the
    /// fixed-point rendering of a quantity wants it.
    pub fn render_fixed(&self, prec: u64) -> (s: String)
        requires
            wf(self@),
            exp_in_range(self@.exp),
            prec <= 0x4_0000_0000_0000,
        ensures
            s@ == render_fixed_spec(self@, prec as nat),
    {
        match self.class {
            NumClass::Nan => String::from_str("NaN"),
            NumClass::Infinite => {
                let mut out = String::new();
                if self.neg {
                    out.append("-");
                }
                out.append("inf");
                proof {
                    assert(out@ =~= sign_chars(self@.neg) + "inf"@);
                }
                out
            },
            NumClass::Finite => {
                let ds = copy_digits(&self.digits);
                let keep: i64 = self.exp + (prec as i64);
                let (rd, re) = round_at(ds, self.exp, keep);
                proof {
                    lemma_round_shape(self@.digits, self@.exp, keep as int);
                }
                let mut out = String::new();
                if self.neg {
                    out.append("-");
                }
                proof {
                    assert(out@ =~= sign_chars(self@.neg));
                }
                push_int_chars(&mut out, &rd, re);
                push_frac_chars(&mut out, &rd, re, prec);
                proof {
                    assert(out@ =~= sign_chars(self@.neg) + int_chars(rd@, re as int)
                        + frac_chars(rd@, re as int, prec as nat));
                }
                out
            },
        }
    }

    /// The natural text of this number: the full significand, no fixed
    /// fraction width.
    pub fn render_native(&self) -> (s: String)
        requires
            wf(self@),
            -0x2_0000_0000_0000 <= self@.exp <= 0x2_0000_0000_0000,
            self@.digits.len() <= 0x2_0000_0000_0000,
        ensures
            s@ == render_native_spec(self@),
    {
        match self.class {
            NumClass::Finite => {
                let lz: i64 = self.digits.len() as i64;
                let pr: i64 = if lz - self.exp >= 0 {
                    lz - self.exp
                } else {
                    0
                };
                proof {
                    assert(pr as nat == nat_prec(self@));
                }
                self.render_fixed(pr as u64)
            },
            _ => self.render_fixed(0),
        }
    }
}

/// The canonical number denoted by a raw digit string: the significand
/// normalised, the exponent corrected for dropped leading zeros, zero when
/// every digit is zero.
pub open spec fn norm_v(neg: bool, raw: Seq<u8>, e: int) -> NumV {
    NumV {
        class: NumClass::Finite,
        neg,
        digits: strip0(nat_digits(digits_int(raw) as nat)),
        exp: if digits_int(raw) == 0 {
            0int
        } else {
            e - lead0(raw)
        },
    }
}

/// Put a raw digit string into canonical form.
pub fn normalize(neg: bool, digits: Vec<u8>, e: i64) -> (r: Num)
    requires
        digits_ok(digits@),
        digits@.len() <= 0x1_0000_0000,
        -0x4000_0000_0000_0000 <= e - digits@.len() <= 0x4000_0000_0000_0000,
        -0x4000_0000_0000_0000 <= e <= 0x4000_0000_0000_0000,
    ensures
        wf(r@),
        r@.class is Finite,
        r@ == norm_v(neg, digits@, e as int),
        r@.digits.len() <= digits@.len(),
        r@.exp <= e || r@.exp == 0,
        e - digits@.len() <= r@.exp || r@.exp == 0,
{
    let ghost orig = digits@;
    let olen: usize = digits.len();
    let mut ds = digits;
    let mut dropped: usize = 0;
    while ds.len() > 0 && ds[0] == 0
        invariant
            digits_ok(orig),
            digits_ok(ds@),
            olen == orig.len(),
            dropped + ds@.len() == orig.len(),
            ds@ == orig.skip(dropped as int),
            lead0(orig) == dropped + lead0(ds@),
            digits_int(orig) == digits_int(ds@),
        decreases ds@.len(),
    {
        proof {
            lemma_digits_split(ds@, 1);
            assert(ds@.take(1) =~= seq![0u8]);
            crate::digits::lemma_digits_single(0u8);
            assert(digits_int(ds@) == digits_int(ds@.skip(1)));
            assert(orig.skip(dropped as int).skip(1) =~= orig.skip(dropped + 1));
        }
        ds.remove(0);
        dropped = dropped + 1;
    }
    proof {
        assert(ds@.len() > 0 ==> ds@[0] != 0);
        assert(lead0(ds@) == 0);
        assert(dropped == lead0(orig));
        if ds@.len() > 0 {
            lemma_digits_unique(ds@);
            assert(nat_digits(digits_int(orig) as nat) == ds@);
        } else {
            assert(digits_int(ds@) == 0);
        }
        lemma_digits_nonneg(ds@);
    }
    let ghost mid = ds@;
    let ds = strip_trailing(ds);
    proof {
        lemma_strip0(mid);
        lemma_digits_nonneg(ds@);
    }
    if ds.len() == 0 {
        proof {
            if digits_int(orig) != 0 {
                assert(mid.len() > 0);
                lemma_digits_first(mid);
                crate::digits::lemma_pow10_pos((mid.len() - 1) as nat);
                assert(digits_int(mid) >= 1);
                assert(digits_int(strip0(mid)) * pow10((mid.len() - strip0(mid).len()) as nat)
                    == digits_int(mid));
                assert(digits_int(strip0(mid)) == 0);
                crate::digits::lemma_pow10_pos((mid.len() - strip0(mid).len()) as nat);
                assert(false);
            }
            lemma_nat_digits(0nat);
            assert(strip0(Seq::<u8>::empty()) =~= Seq::<u8>::empty());
            let r0 = NumV { class: NumClass::Finite, neg, digits: ds@, exp: 0 };
            assert(r0 =~= norm_v(neg, orig, e as int));
        }
        return Num { class: NumClass::Finite, neg, digits: ds, exp: 0 };
    }
    proof {
        if digits_int(orig) == 0 {
            lemma_nat_digits(0nat);
            assert(mid.len() == 0);
            assert(strip0(mid) =~= Seq::<u8>::empty());
            assert(false);
        }
        assert(ds@ == strip0(nat_digits(digits_int(orig) as nat)));
        let r0 = NumV { class: NumClass::Finite, neg, digits: ds@, exp: e - dropped };
        assert(r0 =~= norm_v(neg, orig, e as int));
    }
    Num { class: NumClass::Finite, neg, digits: ds, exp: e - (dropped as i64) }
}

/// An identical copy of a digit vector.
pub fn copy_digits(v: &Vec<u8>) -> (r: Vec<u8>)
    ensures
        r@ == v@,
{
    let mut out: Vec<u8> = Vec::new();
    let mut i: usize = 0;
    while i < v.len()
        invariant
            i <= v@.len(),
            out@ == v@.take(i as int),
        decreases v@.len() - i,
    {
        out.push(v[i]);
        proof {
            assert(v@.take(i + 1) =~= v@.take(i as int).push(v@[i as int]));
        }
        i = i + 1;
    }
    proof {
        assert(v@.take(v@.len() as int) =~= v@);
    }
    out
}

/// Drop trailing zero digits.
pub fn strip_trailing(v: Vec<u8>) -> (r: Vec<u8>)
    ensures
        r@ == strip0(v@),
{
    let mut out = v;
    while out.len() > 0 && out[out.len() - 1] == 0
        invariant
            strip0(out@) == strip0(v@),
        decreases out@.len(),
    {
        proof {
            assert(out@.last() == 0);
            assert(strip0(out@) == strip0(out@.drop_last()));
        }
        out.pop();
    }
    out
}

/// Multiply a normalised significand by a factor of two or five and
/// normalise again; also reports how many digits the significand grew by.
fn mul_norm(d: &Vec<u8>, f: u8) -> (r: (Vec<u8>, i64))
    requires
        digits_ok(d@),
        d@.len() > 0,
        d@[0] != 0,
        d@.last() != 0,
        2 <= f <= 5,
    ensures
        digits_ok(r.0@),
        r.0@.len() > 0,
        r.0@[0] != 0,
        r.0@.last() != 0,
        r.0@ == strip0(nat_digits((f * digits_int(d@)) as nat)),
        r.1 == ndigits((f * digits_int(d@)) as nat) - d@.len(),
        0 <= r.1 <= 1,
{
    let m = mul_small(d, f);
    proof {
        let n = d@.len();
        lemma_digits_first(d@);
        lemma_digits_nonneg(d@);
        lemma_pow10_pos((n - 1) as nat);
        assert(f * digits_int(d@) >= pow10((n - 1) as nat)) by (nonlinear_arith)
            requires
                digits_int(d@) >= pow10((n - 1) as nat),
                pow10((n - 1) as nat) >= 1,
                f >= 2,
        ;
        if m@[0] == 0 {
            assert(m@.len() == n);
            lemma_digits_split(m@, 1);
            assert(m@.take(1) =~= seq![m@[0]]);
            crate::digits::lemma_digits_single(m@[0]);
            lemma_digits_bound(m@.skip(1));
            assert(digits_int(m@) == digits_int(m@.skip(1)));
            assert(digits_int(m@) < pow10((n - 1) as nat));
            assert(false);
        }
        lemma_digits_unique(m@);
        assert(nat_digits(digits_int(m@) as nat) == m@);
        assert(digits_int(m@) == f * digits_int(d@));
    }
    let g: i64 = if m.len() > d.len() {
        1
    } else {
        0
    };
    let m2 = strip_trailing(m);
    proof {
        lemma_strip0(nat_digits((f * digits_int(d@)) as nat));
        lemma_nat_digits((f * digits_int(d@)) as nat);
        lemma_digits_nonneg(d@);
        lemma_digits_first(d@);
        lemma_pow10_pos((d@.len() - 1) as nat);
        assert(f * digits_int(d@) > 0) by (nonlinear_arith)
            requires
                digits_int(d@) >= 1,
                f >= 2,
        ;
    }
    (m2, g)
}

/// Shifting the exponent of an exact product keeps the denoted value.
pub proof fn lemma_val_eq_shift(m1: int, e: int, z: nat)
    ensures
        val_eq(m1, e + z, m1 * pow10(z), e),
{
    if z == 0 {
        assert(pow10(0) == 1);
    }
}

/// A rounded significand is normalised, and rounding keeps a nonzero
/// leading digit unless everything rounded away.
pub proof fn lemma_round_shape(d: Seq<u8>, e: int, keep: int)
    requires
        digits_ok(d),
        d.len() > 0 ==> d[0] != 0,
        d.len() > 0 ==> d.last() != 0,
        d.len() == 0 ==> e == 0,
    ensures
        digits_ok(round_spec(d, e, keep).0),
        round_spec(d, e, keep).0.len() > 0 ==> round_spec(d, e, keep).0[0] != 0,
        round_spec(d, e, keep).0.len() > 0 ==> round_spec(d, e, keep).0.last() != 0,
        round_spec(d, e, keep).0.len() == 0 ==> round_spec(d, e, keep).1 == 0,
        round_spec(d, e, keep).0.len() <= d.len(),
        e - 1 <= round_spec(d, e, keep).1 <= e + 1 || round_spec(d, e, keep).1 == 0,
{
    if keep < 0 {
    } else if keep >= d.len() {
    } else {
        let t = d.take(keep);
        assert(digits_ok(t));
        if d[keep] >= 5 {
            lemma_inc_digits(t);
            let u = inc_digits_spec(t);
            lemma_strip0(u);
            lemma_digits_nonneg(strip0(u));
            if keep > 0 {
                assert(t[0] == d[0]);
            }
            if strip0(u).len() > 0 {
                assert(strip0(u)[0] == u[0]);
            }
        } else {
            lemma_strip0(t);
            if keep > 0 {
                assert(t[0] == d[0]);
            }
            if strip0(t).len() > 0 {
                assert(strip0(t)[0] == t[0]);
            }
        }
    }
}

/// Round a significand at digit position `keep` (half away from zero).
pub fn round_at(d: Vec<u8>, e: i64, keep: i64) -> (r: (Vec<u8>, i64))
    requires
        digits_ok(d@),
        d@.len() > 0 ==> d@[0] != 0,
        d@.len() > 0 ==> d@.last() != 0,
        exp_in_range(e as int),
        -0x4000_0000_0000_0000 <= keep <= 0x4000_0000_0000_0000,
    ensures
        r.0@ == round_spec(d@, e as int, keep as int).0,
        r.1 as int == round_spec(d@, e as int, keep as int).1,
{
    if keep < 0 {
        return (Vec::new(), 0);
    }
    if keep as u64 >= d.len() as u64 {
        return (d, e);
    }
    let k: usize = keep as usize;
    proof {
        assert(k as int == keep as int);
    }
    let ghost orig = d@;
    let roundup: bool = d[k] >= 5;
    let mut t = d;
    proof {
        assert(orig.take(orig.len() as int) =~= orig);
    }
    while t.len() > k
        invariant
            k <= t@.len(),
            t@.len() <= orig.len(),
            t@ == orig.take(t@.len() as int),
        decreases t@.len(),
    {
        proof {
            assert(orig.take(t@.len() as int).drop_last() =~= orig.take(t@.len() - 1));
        }
        t.pop();
    }
    proof {
        assert(t@ == orig.take(k as int));
    }
    let u = if roundup {
        proof {
            assert(digits_ok(orig.take(k as int)));
        }
        inc_digits(t)
    } else {
        t
    };
    let ulen: usize = u.len();
    proof {
        if roundup {
            lemma_inc_digits(orig.take(k as int));
        }
        assert(ulen <= k + 1);
    }
    let s = strip_trailing(u);
    proof {
        assert(s@ == round_spec(orig, e as int, keep as int).0);
    }
    if s.len() == 0 {
        (s, 0)
    } else {
        (s, e + (ulen as i64) - (k as i64))
    }
}

/// Render the integer-part characters of a rounded significand.
fn push_int_chars(out: &mut String, rd: &Vec<u8>, re: i64)
    requires
        digits_ok(rd@),
        -0x4000_0000_0000_0000 <= re <= 0x4000_0000_0000_0000,
    ensures
        final(out)@ == old(out)@ + int_chars(rd@, re as int),
{
    if re <= 0 {
        out.append("0");
        return ;
    }
    let ghost base = out@;
    let ghost target = int_chars(rd@, re as int);
    let mut i: i64 = 0;
    proof {
        assert(Seq::new(0nat, |x: int| digit_char(dig_at(rd@, x))) =~= Seq::<char>::empty());
        assert(base + Seq::<char>::empty() =~= base);
    }
    while i < re
        invariant
            0 <= i <= re,
            0 < re <= 0x4000_0000_0000_0000,
            digits_ok(rd@),
            target == int_chars(rd@, re as int),
            out@ == base + Seq::new(i as nat, |x: int| digit_char(dig_at(rd@, x))),
        decreases re - i,
    {
        let dgt: u8 = if (i as u64) < (rd.len() as u64) {
            proof {
                assert(i < rd@.len());
            }
            rd[i as usize]
        } else {
            0
        };
        proof {
            assert(dgt == dig_at(rd@, i as int));
            assert(dgt < 10);
            assert(Seq::new((i + 1) as nat, |x: int| digit_char(dig_at(rd@, x))) =~= Seq::new(
                i as nat,
                |x: int| digit_char(dig_at(rd@, x)),
            ).push(digit_char(dig_at(rd@, i as int))));
        }
        let cs = digit_str(dgt);
        out.append(cs);
        proof {
            assert(out@ =~= base + Seq::new((i + 1) as nat, |x: int| digit_char(dig_at(rd@, x))));
        }
        i = i + 1;
    }
    proof {
        assert(int_chars(rd@, re as int) == Seq::new(re as nat, |x: int| digit_char(dig_at(rd@, x))));
    }
}

/// Render the fraction characters of a rounded significand.
fn push_frac_chars(out: &mut String, rd: &Vec<u8>, re: i64, prec: u64)
    requires
        digits_ok(rd@),
        -0x4000_0000_0000_0000 <= re <= 0x4000_0000_0000_0000,
        prec <= 0x4_0000_0000_0000,
    ensures
        final(out)@ == old(out)@ + frac_chars(rd@, re as int, prec as nat),
{
    if prec == 0 {
        proof {
            assert(old(out)@ + frac_chars(rd@, re as int, prec as nat) =~= old(out)@);
        }
        return ;
    }
    out.append(".");
    let ghost base = out@;
    let mut j: u64 = 0;
    proof {
        assert(Seq::new(0nat, |x: int| digit_char(dig_at(rd@, re + x))) =~= Seq::<char>::empty());
        assert(base + Seq::<char>::empty() =~= base);
    }
    while j < prec
        invariant
            0 <= j <= prec,
            prec <= 0x4_0000_0000_0000,
            -0x4000_0000_0000_0000 <= re <= 0x4000_0000_0000_0000,
            digits_ok(rd@),
            base == old(out)@ + "."@,
            out@ == base + Seq::new(j as nat, |x: int| digit_char(dig_at(rd@, re + x))),
        decreases prec - j,
    {
        let pos: i64 = re + (j as i64);
        let dgt: u8 = if 0 <= pos && (pos as u64) < (rd.len() as u64) {
            proof {
                assert(pos < rd@.len());
            }
            rd[pos as usize]
        } else {
            0
        };
        proof {
            assert(dgt == dig_at(rd@, re + j));
            assert(dgt < 10);
            assert(Seq::new((j + 1) as nat, |x: int| digit_char(dig_at(rd@, re + x)))
                =~= Seq::new(j as nat, |x: int| digit_char(dig_at(rd@, re + x))).push(
                digit_char(dig_at(rd@, re + j)),
            ));
        }
        let cs = digit_str(dgt);
        out.append(cs);
        proof {
            assert(out@ =~= base + Seq::new((j + 1) as nat, |x: int| digit_char(dig_at(rd@, re + x))));
        }
        j = j + 1;
    }
    proof {
        assert(frac_chars(rd@, re as int, prec as nat) == "."@ + Seq::new(
            prec as nat,
            |x: int| digit_char(dig_at(rd@, re + x)),
        ));
        assert(out@ =~= old(out)@ + frac_chars(rd@, re as int, prec as nat));
    }
}

/// The canonical significand of `m` times the ten-power lost to trailing
/// zeros gives back `m`.
pub proof fn lemma_canon(m: nat)
    ensures
        strip0(nat_digits(m)).len() <= nat_digits(m).len(),
        digits_int(strip0(nat_digits(m))) * pow10(
            (nat_digits(m).len() - strip0(nat_digits(m)).len()) as nat,
        ) == m,
{
    lemma_nat_digits(m);
    lemma_strip0(nat_digits(m));
}

/// `val_eq` is preserved by scaling both sides.
pub proof fn lemma_val_eq_scale(m1: int, e1: int, m2: int, e2: int, c: int)
    requires
        val_eq(m1, e1, m2, e2),
    ensures
        val_eq(c * m1, e1, c * m2, e2),
{
    if e1 >= e2 {
        assert((c * m1) * pow10((e1 - e2) as nat) == c * (m1 * pow10((e1 - e2) as nat)))
            by (nonlinear_arith);
    } else {
        assert((c * m2) * pow10((e2 - e1) as nat) == c * (m2 * pow10((e2 - e1) as nat)))
            by (nonlinear_arith);
    }
}

/// `val_eq` is transitive.
pub proof fn lemma_val_eq_trans(m1: int, e1: int, m2: int, e2: int, m3: int, e3: int)
    requires
        val_eq(m1, e1, m2, e2),
        val_eq(m2, e2, m3, e3),
    ensures
        val_eq(m1, e1, m3, e3),
{
    let a = if e1 >= e2 {
        (e1 - e2) as nat
    } else {
        (e2 - e1) as nat
    };
    let b = if e2 >= e3 {
        (e2 - e3) as nat
    } else {
        (e3 - e2) as nat
    };
    if e1 >= e2 && e2 >= e3 {
        crate::digits::lemma_pow10_adds(a, b);
        assert((m1 * pow10(a)) * pow10(b) == m1 * (pow10(a) * pow10(b))) by (nonlinear_arith);
    } else if e1 >= e2 && e2 < e3 {
        if e1 >= e3 {
            crate::digits::lemma_pow10_adds((e1 - e3) as nat, (e3 - e2) as nat);
            assert(m1 * (pow10((e1 - e3) as nat) * pow10((e3 - e2) as nat)) == (m1 * pow10(
                (e1 - e3) as nat,
            )) * pow10((e3 - e2) as nat)) by (nonlinear_arith);
            lemma_pow10_cancel(m1 * pow10((e1 - e3) as nat), m3, (e3 - e2) as nat);
        } else {
            crate::digits::lemma_pow10_adds((e3 - e1) as nat, (e1 - e2) as nat);
            assert((m3 * pow10((e3 - e1) as nat)) * pow10((e1 - e2) as nat) == m3 * (pow10(
                (e3 - e1) as nat,
            ) * pow10((e1 - e2) as nat))) by (nonlinear_arith);
            lemma_pow10_cancel(m1, m3 * pow10((e3 - e1) as nat), (e1 - e2) as nat);
        }
    } else if e1 < e2 && e2 >= e3 {
        let aa = (e2 - e1) as nat;
        let bb = (e2 - e3) as nat;
        if e1 >= e3 {
            crate::digits::lemma_pow10_adds(aa, (e1 - e3) as nat);
            assert((m2 * pow10(aa)) * pow10((e1 - e3) as nat) == m2 * (pow10(aa) * pow10(
                (e1 - e3) as nat,
            ))) by (nonlinear_arith);
        } else {
            crate::digits::lemma_pow10_adds(bb, (e3 - e1) as nat);
            assert((m2 * pow10(bb)) * pow10((e3 - e1) as nat) == m2 * (pow10(bb) * pow10(
                (e3 - e1) as nat,
            ))) by (nonlinear_arith);
        }
    } else {
        crate::digits::lemma_pow10_adds((e3 - e2) as nat, (e2 - e1) as nat);
        assert((m3 * pow10((e3 - e2) as nat)) * pow10((e2 - e1) as nat) == m3 * (pow10(
            (e3 - e2) as nat,
        ) * pow10((e2 - e1) as nat))) by (nonlinear_arith);
    }
}

/// Equal products with the same positive ten-power factor have equal
/// other factors.
pub proof fn lemma_pow10_cancel(x: int, y: int, p: nat)
    requires
        x * pow10(p) == y * pow10(p),
    ensures
        x == y,
{
    lemma_pow10_pos(p);
    assert(x == y) by (nonlinear_arith)
        requires
            x * pow10(p) == y * pow10(p),
            pow10(p) >= 1,
    ;
}

/// Halving: twice the result denotes the original value.
pub proof fn lemma_halve_val(v: NumV, r: NumV)
    requires
        wf(v),
        is_scalable(v),
        r.digits == strip0(nat_digits((5 * mant(v)) as nat)),
        r.exp == v.exp - 1 + ndigits((5 * mant(v)) as nat) - v.digits.len(),
    ensures
        val_eq(2 * mant(r), pt(r), mant(v), pt(v)),
{
    lemma_digits_nonneg(v.digits);
    let m5 = (5 * mant(v)) as nat;
    lemma_canon(m5);
    let z = (nat_digits(m5).len() - strip0(nat_digits(m5)).len()) as nat;
    assert(mant(r) * pow10(z) == 5 * mant(v));
    assert(pt(r) == pt(v) - 1 + z);
    if z >= 1 {
        assert(pow10(z) == 10 * pow10((z - 1) as nat));
        assert(2 * mant(r) * pow10((z - 1) as nat) == mant(v)) by (nonlinear_arith)
            requires
                mant(r) * (10 * pow10((z - 1) as nat)) == 5 * mant(v),
        ;
        assert((2 * mant(r)) * pow10((z - 1) as nat) == 2 * mant(r) * pow10((z - 1) as nat))
            by (nonlinear_arith);
        assert(pt(r) - pt(v) == z - 1);
    } else {
        assert(pow10(0) == 1);
        assert(mant(r) == 5 * mant(v));
        assert(pow10(1) == 10);
        assert(pt(v) - pt(r) == 1);
        assert(2 * mant(r) == mant(v) * 10);
    }
}

/// Doubling: the result denotes twice the original value.
pub proof fn lemma_double_val(v: NumV, r: NumV)
    requires
        wf(v),
        is_scalable(v),
        r.digits == strip0(nat_digits((2 * mant(v)) as nat)),
        r.exp == v.exp + ndigits((2 * mant(v)) as nat) - v.digits.len(),
    ensures
        val_eq(mant(r), pt(r), 2 * mant(v), pt(v)),
{
    lemma_digits_nonneg(v.digits);
    let m2 = (2 * mant(v)) as nat;
    lemma_canon(m2);
    let z = (nat_digits(m2).len() - strip0(nat_digits(m2)).len()) as nat;
    assert(mant(r) * pow10(z) == 2 * mant(v));
    assert(pt(r) == pt(v) + z);
}

/// The number of digits of a machine integer is at most twenty.
pub proof fn lemma_ndigits_u64(m: u64)
    ensures
        ndigits(m as nat) <= 20,
{
    lemma_nat_digits(m as nat);
    let s = nat_digits(m as nat);
    if s.len() >= 21 {
        lemma_digits_first(s);
        lemma_pow10_mono(20, (s.len() - 1) as nat);
        lemma_pow10_20();
        assert(digits_int(s) >= pow10(20));
    }
}

/// Ten to the twentieth power exceeds the largest machine integer.
pub proof fn lemma_pow10_20()
    ensures
        pow10(20) > 0xFFFF_FFFF_FFFF_FFFF,
{
    assert(pow10(0) == 1);
    assert(pow10(1) == 10);
    assert(pow10(2) == 100);
    assert(pow10(3) == 1000);
    assert(pow10(4) == 10000);
    assert(pow10(5) == 100000);
    let p5 = pow10(5);
    let p10x = pow10(10);
    crate::digits::lemma_pow10_adds(5, 5);
    assert(p10x == p5 * p5);
    assert(p10x == 10000000000) by (nonlinear_arith)
        requires
            p10x == p5 * p5,
            p5 == 100000,
    ;
    crate::digits::lemma_pow10_adds(10, 10);
    assert(pow10(20) == p10x * p10x);
    assert(pow10(20) == 100000000000000000000) by (nonlinear_arith)
        requires
            pow10(20) == p10x * p10x,
            p10x == 10000000000,
    ;
}

} // verus!
