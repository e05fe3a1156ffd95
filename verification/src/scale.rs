//! Prefixes, prefix families, and automatic scaling.
//!
//! A prefix is a named multiplier `base^exponent`; a family is the ordered
//! run of prefixes sharing one base.  Auto-scaling walks the family from the
//! smallest prefix upward and keeps the largest prefix whose scaled
//! magnitude still reaches one.

use vstd::prelude::*;

pub mod binary;
pub mod decimal;

pub use binary::Binary;
pub use decimal::Decimal;

use crate::digits::lemma_digits_bound;
use crate::digits::lemma_digits_first;
use crate::digits::lemma_digits_nonneg;
use crate::digits::lemma_nat_digits;
use crate::digits::lemma_pow10_mono;
use crate::digits::lemma_pow10_pos;
use crate::digits::lemma_strip0;
use crate::digits::nat_digits;
use crate::digits::ndigits;
use crate::digits::pow10;
use crate::digits::pow2;
use crate::digits::strip0;
use crate::num::is_scalable;
use crate::num::lemma_double_val;
use crate::num::lemma_halve_val;
use crate::num::lemma_val_eq_scale;
use crate::num::lemma_val_eq_trans;
use crate::num::mant;
use crate::num::pt;
use crate::num::val_eq;
use crate::num::wf;
use crate::num::Num;
use crate::num::NumClass;
use crate::num::NumV;

verus! {

/// One prefix of a family: a label and an exponent over the family base.
pub trait Prefix: Sized {
    /// The base of this prefix's exponent.
    spec fn base_spec(&self) -> int;

    /// The exponent.
    spec fn exp_spec(&self) -> int;

    /// The display label.
    spec fn label_spec(&self) -> Seq<char>;

    /// The value `v` divided by this prefix's multiplier.
    spec fn scale_spec(&self, v: NumV) -> NumV;

    /// Whether this prefix's multiplier is computable without leaving the
    /// machine range.
    spec fn scale_ok(&self) -> bool;

    /// What this prefix's multiplier denotes.
    spec fn mult_rel(&self, m: NumV) -> bool;

    /// Get the base for this prefix's exponent.
    fn base(&self) -> (b: i32)
        ensures
            b as int == self.base_spec(),
    ;

    /// Get the exponent for this prefix.
    fn exponent(&self) -> (e: i32)
        ensures
            e as int == self.exp_spec(),
    ;

    /// Get the label for this prefix.
    fn label(&self) -> (l: &str)
        ensures
            l@ == self.label_spec(),
    ;

    /// Get the multiplier for this prefix as an exact number.
    fn multiplier(&self) -> (m: Num)
        requires
            self.scale_ok(),
        ensures
            wf(m@),
            is_scalable(m@),
            !m@.neg,
            self.mult_rel(m@),
    ;

    /// Rescale a value for this prefix.
    fn scale_value(&self, v: &Num) -> (r: Num)
        requires
            wf(v@),
            -0x1000_0000_0000 <= v@.exp <= 0x1000_0000_0000,
            self.scale_ok(),
        ensures
            wf(r@),
            r@ == self.scale_spec(v@),
            r@.class == v@.class,
            r@.neg == v@.neg,
            !is_scalable(v@) ==> r@ == v@,
            is_scalable(v@) ==> is_scalable(r@) && v@.exp - abs_of(self.exp_spec())
                <= r@.exp <= v@.exp + abs_of(self.exp_spec()),
    ;
}

/// The magnitude of an integer.
pub open spec fn abs_of(x: int) -> int {
    if x >= 0 {
        x
    } else {
        -x
    }
}

/// A family of prefixes: an ordered table and an auto-scale rule.
pub trait PrefixFamily: Prefix {
    /// The deterministic result of auto-scaling: the scaled value and the
    /// chosen prefix exponent.
    spec fn auto_spec(v: NumV) -> (NumV, int);

    /// The label the family gives to a table exponent.
    spec fn label_of(e: int) -> Seq<char>;

    /// How many prefixes the family's table holds.
    spec fn table_len() -> int;

    /// The exponent of the table's prefix at position `i`.
    spec fn table_exp(i: int) -> int;

    /// The unit prefix: empty label, exponent zero.
    fn unit_prefix() -> (p: Self)
        ensures
            p.exp_spec() == 0,
            p.label_spec() == Seq::<char>::empty(),
            p.scale_ok(),
    ;

    /// All prefixes of the family: the complete table, in strictly
    /// ascending exponent order, each entry carrying the exponent and
    /// label the family assigns to its position.
    fn all_prefixes() -> (ps: Vec<Self>)
        ensures
            ps@.len() == Self::table_len(),
            ps@.len() > 0,
            forall|i: int|
                0 <= i < ps@.len() ==> #[trigger] ps@[i].exp_spec() == Self::table_exp(i)
                    && ps@[i].label_spec() == Self::label_of(Self::table_exp(i)),
            forall|i: int, j: int|
                0 <= i < j < ps@.len() ==> #[trigger] ps@[i].exp_spec() < #[trigger] ps@[j].exp_spec(),
    ;

    /// Auto-scale a value: pick the largest prefix whose scaled magnitude
    /// still reaches one, or the smallest prefix if none does.  Values that
    /// are not finite and nonzero pass through under the unit prefix.
    fn autoscale(v: &Num) -> (r: (Num, Self))
        requires
            wf(v@),
            -0x1000_0000_0000 <= v@.exp <= 0x1000_0000_0000,
        ensures
            wf(r.0@),
            r.0@ == Self::auto_spec(v@).0,
            r.1.exp_spec() == Self::auto_spec(v@).1,
            r.1.label_spec() == Self::label_of(Self::auto_spec(v@).1),
            !is_scalable(v@) ==> r.0@ == v@ && r.1.exp_spec() == 0,
            is_scalable(v@) ==> is_scalable(r.0@) && r.0@.neg == v@.neg && v@.exp - 100
                <= r.0@.exp <= v@.exp + 100,
    ;
}

/// How a quantity is scaled for display.
#[derive(Clone, Debug, PartialEq)]
pub enum Scale<P> {
    /// Auto-scale to the best-fitting prefix.
    Auto,
    /// Display the number in its native scale.
    Native,
    /// Use a specific fixed prefix.
    Fixed(P),
}

/// The value reached from `v` by halving `n` times, kept in canonical form.
pub open spec fn halve_v(v: NumV) -> NumV {
    NumV {
        class: NumClass::Finite,
        neg: v.neg,
        digits: strip0(nat_digits((5 * mant(v)) as nat)),
        exp: v.exp - 1 + ndigits((5 * mant(v)) as nat) - v.digits.len(),
    }
}

/// `n` successive halvings.
pub open spec fn halves_v(v: NumV, n: nat) -> NumV
    decreases n,
{
    if n == 0 {
        v
    } else {
        halve_v(halves_v(v, (n - 1) as nat))
    }
}

/// The canonical significand of a positive integer spans the expected
/// ten-power range.
pub proof fn lemma_ndigits_range(x: nat)
    requires
        x > 0,
    ensures
        ndigits(x) > 0,
        pow10((ndigits(x) - 1) as nat) <= x < pow10(ndigits(x)),
{
    lemma_nat_digits(x);
    lemma_digits_first(nat_digits(x));
    lemma_digits_bound(nat_digits(x));
}

/// One halving keeps the number well formed and moves the exponent down by
/// at most one.
pub proof fn lemma_halve_v_shape(v: NumV)
    requires
        wf(v),
        is_scalable(v),
    ensures
        wf(halve_v(v)),
        is_scalable(halve_v(v)),
        halve_v(v).neg == v.neg,
        v.exp - 1 <= halve_v(v).exp <= v.exp,
{
    let n = v.digits.len();
    lemma_digits_first(v.digits);
    lemma_digits_bound(v.digits);
    lemma_digits_nonneg(v.digits);
    lemma_pow10_pos((n - 1) as nat);
    let m5 = (5 * mant(v)) as nat;
    assert(m5 >= pow10((n - 1) as nat)) by (nonlinear_arith)
        requires
            m5 == 5 * mant(v),
            mant(v) >= pow10((n - 1) as nat),
            pow10((n - 1) as nat) >= 1,
    ;
    assert(m5 < 5 * pow10(n as nat)) by (nonlinear_arith)
        requires
            m5 == 5 * mant(v),
            mant(v) < pow10(n as nat),
    ;
    assert(pow10((n + 1) as nat) == 10 * pow10(n as nat));
    lemma_ndigits_range(m5);
    let nd = ndigits(m5);
    if nd > n + 1 {
        lemma_pow10_mono((n + 1) as nat, (nd - 1) as nat);
        assert(false);
    }
    if nd < n {
        lemma_pow10_mono(nd, (n - 1) as nat);
        assert(m5 < pow10((n - 1) as nat));
        assert(false);
    }
    lemma_nat_digits(m5);
    lemma_strip0(nat_digits(m5));
    assert(halve_v(v).digits.len() > 0);
}

/// Repeated halving: shape and value.  After `n` halvings the value,
/// multiplied back by `2^n`, is the original value.
pub proof fn lemma_halves_v(v: NumV, n: nat)
    requires
        wf(v),
        is_scalable(v),
    ensures
        wf(halves_v(v, n)),
        is_scalable(halves_v(v, n)),
        halves_v(v, n).neg == v.neg,
        v.exp - n <= halves_v(v, n).exp <= v.exp,
        val_eq(pow2(n) * mant(halves_v(v, n)), pt(halves_v(v, n)), mant(v), pt(v)),
    decreases n,
{
    if n == 0 {
        assert(pow2(0) == 1);
        assert(1 * mant(v) == mant(v));
    } else {
        lemma_halves_v(v, (n - 1) as nat);
        let h = halves_v(v, (n - 1) as nat);
        let r = halve_v(h);
        lemma_halve_v_shape(h);
        lemma_halve_val(h, r);
        lemma_val_eq_scale(2 * mant(r), pt(r), mant(h), pt(h), pow2((n - 1) as nat));
        assert(pow2((n - 1) as nat) * (2 * mant(r)) == pow2(n) * mant(r)) by (nonlinear_arith)
            requires
                pow2(n) == 2 * pow2((n - 1) as nat),
        ;
        lemma_val_eq_trans(
            pow2(n) * mant(r),
            pt(r),
            pow2((n - 1) as nat) * mant(h),
            pt(h),
            mant(v),
            pt(v),
        );
    }
}

/// Ten halvings at once.
pub fn halve10(v: &Num) -> (r: Num)
    requires
        wf(v@),
        is_scalable(v@),
        -0x1000_0000_0000_0000 <= v@.exp <= 0x1000_0000_0000_0000,
    ensures
        wf(r@),
        is_scalable(r@),
        r@ == halves_v(v@, 10),
        r@.neg == v@.neg,
        v@.exp - 10 <= r@.exp <= v@.exp,
{
    let mut cur = v.duplicate();
    let mut j: u64 = 0;
    while j < 10
        invariant
            j <= 10,
            wf(v@),
            is_scalable(v@),
            -0x1000_0000_0000_0000 <= v@.exp <= 0x1000_0000_0000_0000,
            wf(cur@),
            is_scalable(cur@),
            cur@ == halves_v(v@, j as nat),
            v@.exp - j <= cur@.exp <= v@.exp,
        decreases 10 - j,
    {
        proof {
            lemma_halves_v(v@, j as nat);
        }
        let nxt = cur.halve();
        proof {
            assert(halves_v(v@, (j + 1) as nat) == halve_v(halves_v(v@, j as nat)));
            assert(nxt@ == halve_v(cur@));
        }
        cur = nxt;
        j = j + 1;
    }
    proof {
        lemma_halves_v(v@, 10);
    }
    cur
}

/// Halve `k` times.
pub fn halve_times(v: &Num, k: u32) -> (r: Num)
    requires
        wf(v@),
        is_scalable(v@),
        -0x1000_0000_0000 <= v@.exp <= 0x1000_0000_0000,
        k <= 0x1000,
    ensures
        wf(r@),
        is_scalable(r@),
        r@ == halves_v(v@, k as nat),
        r@.neg == v@.neg,
        v@.exp - k <= r@.exp <= v@.exp,
{
    let mut cur = v.duplicate();
    let mut j: u32 = 0;
    while j < k
        invariant
            j <= k,
            k <= 0x1000,
            wf(v@),
            is_scalable(v@),
            -0x1000_0000_0000 <= v@.exp <= 0x1000_0000_0000,
            wf(cur@),
            is_scalable(cur@),
            cur@ == halves_v(v@, j as nat),
            v@.exp - j <= cur@.exp <= v@.exp,
        decreases k - j,
    {
        proof {
            lemma_halves_v(v@, j as nat);
        }
        let nxt = cur.halve();
        proof {
            assert(halves_v(v@, (j + 1) as nat) == halve_v(halves_v(v@, j as nat)));
            assert(nxt@ == halve_v(cur@));
        }
        cur = nxt;
        j = j + 1;
    }
    proof {
        lemma_halves_v(v@, k as nat);
    }
    cur
}

/// One doubling, kept in canonical form.
pub open spec fn double_v(v: NumV) -> NumV {
    NumV {
        class: NumClass::Finite,
        neg: v.neg,
        digits: strip0(nat_digits((2 * mant(v)) as nat)),
        exp: v.exp + ndigits((2 * mant(v)) as nat) - v.digits.len(),
    }
}

/// `n` successive doublings.
pub open spec fn doubles_v(v: NumV, n: nat) -> NumV
    decreases n,
{
    if n == 0 {
        v
    } else {
        double_v(doubles_v(v, (n - 1) as nat))
    }
}

/// One doubling keeps the number well formed and moves the exponent up by
/// at most one.
pub proof fn lemma_double_v_shape(v: NumV)
    requires
        wf(v),
        is_scalable(v),
    ensures
        wf(double_v(v)),
        is_scalable(double_v(v)),
        double_v(v).neg == v.neg,
        v.exp <= double_v(v).exp <= v.exp + 1,
{
    let n = v.digits.len();
    lemma_digits_first(v.digits);
    lemma_digits_bound(v.digits);
    lemma_digits_nonneg(v.digits);
    lemma_pow10_pos((n - 1) as nat);
    let m2 = (2 * mant(v)) as nat;
    assert(m2 >= pow10((n - 1) as nat)) by (nonlinear_arith)
        requires
            m2 == 2 * mant(v),
            mant(v) >= pow10((n - 1) as nat),
            pow10((n - 1) as nat) >= 1,
    ;
    assert(m2 < 2 * pow10(n as nat)) by (nonlinear_arith)
        requires
            m2 == 2 * mant(v),
            mant(v) < pow10(n as nat),
    ;
    assert(pow10((n + 1) as nat) == 10 * pow10(n as nat));
    lemma_ndigits_range(m2);
    let nd = ndigits(m2);
    if nd > n + 1 {
        lemma_pow10_mono((n + 1) as nat, (nd - 1) as nat);
        assert(false);
    }
    if nd < n {
        lemma_pow10_mono(nd, (n - 1) as nat);
        assert(m2 < pow10((n - 1) as nat));
        assert(false);
    }
    lemma_nat_digits(m2);
    lemma_strip0(nat_digits(m2));
    assert(double_v(v).digits.len() > 0);
}

/// Repeated doubling: shape, and the value is the original times `2^n`.
pub proof fn lemma_doubles_v(v: NumV, n: nat)
    requires
        wf(v),
        is_scalable(v),
    ensures
        wf(doubles_v(v, n)),
        is_scalable(doubles_v(v, n)),
        doubles_v(v, n).neg == v.neg,
        v.exp <= doubles_v(v, n).exp <= v.exp + n,
        val_eq(mant(doubles_v(v, n)), pt(doubles_v(v, n)), pow2(n) * mant(v), pt(v)),
    decreases n,
{
    if n == 0 {
        assert(pow2(0) == 1);
        assert(1 * mant(v) == mant(v));
    } else {
        lemma_doubles_v(v, (n - 1) as nat);
        let h = doubles_v(v, (n - 1) as nat);
        let r = double_v(h);
        lemma_double_v_shape(h);
        lemma_double_val(h, r);
        lemma_val_eq_scale(mant(h), pt(h), pow2((n - 1) as nat) * mant(v), pt(v), 2);
        assert(2 * (pow2((n - 1) as nat) * mant(v)) == pow2(n) * mant(v)) by (nonlinear_arith)
            requires
                pow2(n) == 2 * pow2((n - 1) as nat),
        ;
        lemma_val_eq_trans(
            mant(r),
            pt(r),
            2 * mant(h),
            pt(h),
            pow2(n) * mant(v),
            pt(v),
        );
    }
}

/// Double `k` times.
pub fn double_times(v: &Num, k: u32) -> (r: Num)
    requires
        wf(v@),
        is_scalable(v@),
        -0x1000_0000_0000 <= v@.exp <= 0x1000_0000_0000,
        k <= 0x1000,
    ensures
        wf(r@),
        is_scalable(r@),
        r@ == doubles_v(v@, k as nat),
        r@.neg == v@.neg,
        v@.exp <= r@.exp <= v@.exp + k,
{
    let mut cur = v.duplicate();
    let mut j: u32 = 0;
    while j < k
        invariant
            j <= k,
            k <= 0x1000,
            wf(v@),
            is_scalable(v@),
            -0x1000_0000_0000 <= v@.exp <= 0x1000_0000_0000,
            wf(cur@),
            is_scalable(cur@),
            cur@ == doubles_v(v@, j as nat),
            v@.exp <= cur@.exp <= v@.exp + j,
        decreases k - j,
    {
        proof {
            lemma_doubles_v(v@, j as nat);
        }
        let nxt = cur.double();
        proof {
            assert(doubles_v(v@, (j + 1) as nat) == double_v(doubles_v(v@, j as nat)));
            assert(nxt@ == double_v(cur@));
        }
        cur = nxt;
        j = j + 1;
    }
    proof {
        lemma_doubles_v(v@, k as nat);
    }
    cur
}

/// Whether a finite nonzero value has magnitude at least one.
pub open spec fn abs_ge_one(v: NumV) -> bool {
    if pt(v) >= 0 {
        mant(v) * pow10(pt(v) as nat) >= 1
    } else {
        mant(v) >= pow10((-pt(v)) as nat)
    }
}

/// The exponent of a normalised nonzero value reads off whether its
/// magnitude reaches one.
pub proof fn lemma_exp_ge_one(v: NumV)
    requires
        wf(v),
        is_scalable(v),
    ensures
        abs_ge_one(v) <==> v.exp >= 1,
{
    let n = v.digits.len();
    lemma_digits_first(v.digits);
    lemma_digits_bound(v.digits);
    lemma_digits_nonneg(v.digits);
    lemma_pow10_pos((n - 1) as nat);
    if pt(v) >= 0 {
        lemma_pow10_pos(pt(v) as nat);
        assert(mant(v) * pow10(pt(v) as nat) >= 1) by (nonlinear_arith)
            requires
                mant(v) >= 1,
                pow10(pt(v) as nat) >= 1,
        ;
    } else {
        if v.exp >= 1 {
            lemma_pow10_mono((n - v.exp) as nat, (n - 1) as nat);
        }
        if mant(v) >= pow10((n - v.exp) as nat) && v.exp <= 0 {
            lemma_pow10_mono(n as nat, (n - v.exp) as nat);
        }
    }
}

/// Successive halvings compose.
pub proof fn lemma_halves_compose(v: NumV, a: nat, b: nat)
    ensures
        halves_v(halves_v(v, a), b) == halves_v(v, a + b),
    decreases b,
{
    if b > 0 {
        lemma_halves_compose(v, a, (b - 1) as nat);
    }
}

} // verus!
