//! The decimal (SI) prefix family, base ten, exponents −24 to 24 in steps
//! of three.

use vstd::prelude::*;
use vstd::string::StringExecFns;

use crate::num::is_scalable;
use crate::num::mant;
use crate::num::pt;
use crate::num::val_eq;
use crate::num::wf;
use crate::num::Num;
use crate::num::NumV;
use crate::scale::Prefix;
use crate::scale::PrefixFamily;

verus! {

/// A decimal scale prefix.
#[derive(Clone, Debug, PartialEq)]
pub struct Decimal {
    pub pfx: String,
    pub exp: i32,
}

/// The label the decimal family gives to each table exponent.
pub open spec fn dec_label(e: int) -> Seq<char> {
    if e == -24 {
        "y"@
    } else if e == -21 {
        "z"@
    } else if e == -18 {
        "a"@
    } else if e == -15 {
        "f"@
    } else if e == -12 {
        "p"@
    } else if e == -9 {
        "n"@
    } else if e == -6 {
        "\u{03bc}"@
    } else if e == -3 {
        "m"@
    } else if e == 0 {
        Seq::empty()
    } else if e == 3 {
        "k"@
    } else if e == 6 {
        "M"@
    } else if e == 9 {
        "G"@
    } else if e == 12 {
        "T"@
    } else if e == 15 {
        "P"@
    } else if e == 18 {
        "E"@
    } else if e == 21 {
        "Z"@
    } else if e == 24 {
        "Y"@
    } else {
        Seq::empty()
    }
}

/// The largest table exponent, at or above `k`, whose scaled magnitude
/// still reaches one: the scan of the auto-scale rule.
pub open spec fn dec_choice(e: int, k: int) -> int
    decreases 24 - k when k <= 24
{
    if k + 3 > 24 {
        k
    } else if e - (k + 3) <= 0 {
        k
    } else {
        dec_choice(e, k + 3)
    }
}

impl Decimal {
    /// Create a new decimal prefix.
    pub fn new(pfx: &str, exp: i32) -> (r: Decimal)
        ensures
            r.pfx@ == pfx@,
            r.exp == exp,
    {
        Decimal { pfx: String::from_str(pfx), exp }
    }

    /// The empty unit prefix.
    pub fn unit() -> (r: Decimal)
        ensures
            r.exp_spec() == 0,
            r.label_spec() == Seq::<char>::empty(),
    {
        let r = Decimal::new("", 0);
        proof {
            reveal_strlit("");
            assert(r.pfx@ =~= Seq::<char>::empty());
        }
        r
    }

    /// `10^-24`.
    pub fn yocto() -> (r: Decimal)
        ensures
            r.exp_spec() == -24,
            r.label_spec() == dec_label(-24),
    {
        Decimal::new("y", -24)
    }

    /// `10^-21`.
    pub fn zepto() -> (r: Decimal)
        ensures
            r.exp_spec() == -21,
            r.label_spec() == dec_label(-21),
    {
        Decimal::new("z", -21)
    }

    /// `10^-18`.
    pub fn atto() -> (r: Decimal)
        ensures
            r.exp_spec() == -18,
            r.label_spec() == dec_label(-18),
    {
        Decimal::new("a", -18)
    }

    /// `10^-15`.
    pub fn femto() -> (r: Decimal)
        ensures
            r.exp_spec() == -15,
            r.label_spec() == dec_label(-15),
    {
        Decimal::new("f", -15)
    }

    /// `10^-12`.
    pub fn pico() -> (r: Decimal)
        ensures
            r.exp_spec() == -12,
            r.label_spec() == dec_label(-12),
    {
        Decimal::new("p", -12)
    }

    /// `10^-9`.
    pub fn nano() -> (r: Decimal)
        ensures
            r.exp_spec() == -9,
            r.label_spec() == dec_label(-9),
    {
        Decimal::new("n", -9)
    }

    /// `10^-6`.
    pub fn micro() -> (r: Decimal)
        ensures
            r.exp_spec() == -6,
            r.label_spec() == dec_label(-6),
    {
        Decimal::new("\u{03bc}", -6)
    }

    /// `10^-3`.
    pub fn milli() -> (r: Decimal)
        ensures
            r.exp_spec() == -3,
            r.label_spec() == dec_label(-3),
    {
        Decimal::new("m", -3)
    }

    /// `10^3`.
    pub fn kilo() -> (r: Decimal)
        ensures
            r.exp_spec() == 3,
            r.label_spec() == dec_label(3),
    {
        Decimal::new("k", 3)
    }

    /// `10^6`.
    pub fn mega() -> (r: Decimal)
        ensures
            r.exp_spec() == 6,
            r.label_spec() == dec_label(6),
    {
        Decimal::new("M", 6)
    }

    /// `10^9`.
    pub fn giga() -> (r: Decimal)
        ensures
            r.exp_spec() == 9,
            r.label_spec() == dec_label(9),
    {
        Decimal::new("G", 9)
    }

    /// `10^12`.
    pub fn tera() -> (r: Decimal)
        ensures
            r.exp_spec() == 12,
            r.label_spec() == dec_label(12),
    {
        Decimal::new("T", 12)
    }

    /// `10^15`.
    pub fn peta() -> (r: Decimal)
        ensures
            r.exp_spec() == 15,
            r.label_spec() == dec_label(15),
    {
        Decimal::new("P", 15)
    }

    /// `10^18`.
    pub fn exa() -> (r: Decimal)
        ensures
            r.exp_spec() == 18,
            r.label_spec() == dec_label(18),
    {
        Decimal::new("E", 18)
    }

    /// `10^21`.
    pub fn zetta() -> (r: Decimal)
        ensures
            r.exp_spec() == 21,
            r.label_spec() == dec_label(21),
    {
        Decimal::new("Z", 21)
    }

    /// `10^24`.
    pub fn yotta() -> (r: Decimal)
        ensures
            r.exp_spec() == 24,
            r.label_spec() == dec_label(24),
    {
        Decimal::new("Y", 24)
    }
}

impl Prefix for Decimal {
    open spec fn base_spec(&self) -> int {
        10
    }

    open spec fn exp_spec(&self) -> int {
        self.exp as int
    }

    open spec fn label_spec(&self) -> Seq<char> {
        self.pfx@
    }

    open spec fn scale_spec(&self, v: NumV) -> NumV {
        if is_scalable(v) {
            NumV { exp: v.exp - self.exp, ..v }
        } else {
            v
        }
    }

    open spec fn scale_ok(&self) -> bool {
        true
    }

    open spec fn mult_rel(&self, m: NumV) -> bool {
        &&& m.digits == seq![1u8]
        &&& m.exp == self.exp + 1
        &&& val_eq(mant(m), pt(m), 1, self.exp as int)
    }

    fn base(&self) -> (b: i32) {
        10
    }

    fn exponent(&self) -> (e: i32) {
        self.exp
    }

    fn label(&self) -> (l: &str) {
        self.pfx.as_str()
    }

    fn multiplier(&self) -> (m: Num) {
        let mut ds: Vec<u8> = Vec::new();
        ds.push(1);
        proof {
            assert(ds@ =~= seq![1u8]);
            crate::digits::lemma_digits_single(1u8);
            assert(crate::digits::pow10(0) == 1);
        }
        Num {
            class: crate::num::NumClass::Finite,
            neg: false,
            digits: ds,
            exp: (self.exp as i64) + 1,
        }
    }

    fn scale_value(&self, v: &Num) -> (r: Num) {
        if !v.is_scalable() {
            let r = v.duplicate();
            proof {
                assert(r@ =~= self.scale_spec(v@));
            }
            r
        } else {
            let r = v.shift10(self.exp as i64);
            proof {
                assert(r@ =~= self.scale_spec(v@));
            }
            r
        }
    }
}

impl PrefixFamily for Decimal {
    open spec fn auto_spec(v: NumV) -> (NumV, int) {
        if !is_scalable(v) {
            (v, 0)
        } else {
            let k = dec_choice(v.exp, -24);
            (NumV { exp: v.exp - k, ..v }, k)
        }
    }

    open spec fn label_of(e: int) -> Seq<char> {
        dec_label(e)
    }

    open spec fn table_len() -> int {
        17
    }

    open spec fn table_exp(i: int) -> int {
        -24 + 3 * i
    }

    fn unit_prefix() -> (p: Decimal) {
        Decimal::unit()
    }

    fn all_prefixes() -> (ps: Vec<Decimal>) {
        let mut ps: Vec<Decimal> = Vec::new();
        ps.push(Decimal::yocto());
        ps.push(Decimal::zepto());
        ps.push(Decimal::atto());
        ps.push(Decimal::femto());
        ps.push(Decimal::pico());
        ps.push(Decimal::nano());
        ps.push(Decimal::micro());
        ps.push(Decimal::milli());
        ps.push(Decimal::unit());
        ps.push(Decimal::kilo());
        ps.push(Decimal::mega());
        ps.push(Decimal::giga());
        ps.push(Decimal::tera());
        ps.push(Decimal::peta());
        ps.push(Decimal::exa());
        ps.push(Decimal::zetta());
        ps.push(Decimal::yotta());
        proof {
            assert(ps@.len() == 17);
            assert forall|i: int|
                0 <= i < ps@.len() implies (#[trigger] ps@[i].exp_spec()) == Self::table_exp(i)
                    && ps@[i].label_spec() == Self::label_of(Self::table_exp(i)) by {
                if i == 0 {
                    assert(ps@[0].exp_spec() == -24 && ps@[0].label_spec() == dec_label(-24));
                } else if i == 1 {
                    assert(ps@[1].exp_spec() == -21 && ps@[1].label_spec() == dec_label(-21));
                } else if i == 2 {
                    assert(ps@[2].exp_spec() == -18 && ps@[2].label_spec() == dec_label(-18));
                } else if i == 3 {
                    assert(ps@[3].exp_spec() == -15 && ps@[3].label_spec() == dec_label(-15));
                } else if i == 4 {
                    assert(ps@[4].exp_spec() == -12 && ps@[4].label_spec() == dec_label(-12));
                } else if i == 5 {
                    assert(ps@[5].exp_spec() == -9 && ps@[5].label_spec() == dec_label(-9));
                } else if i == 6 {
                    assert(ps@[6].exp_spec() == -6 && ps@[6].label_spec() == dec_label(-6));
                } else if i == 7 {
                    assert(ps@[7].exp_spec() == -3 && ps@[7].label_spec() == dec_label(-3));
                } else if i == 8 {
                    assert(ps@[8].exp_spec() == 0 && ps@[8].label_spec() == dec_label(0));
                } else if i == 9 {
                    assert(ps@[9].exp_spec() == 3 && ps@[9].label_spec() == dec_label(3));
                } else if i == 10 {
                    assert(ps@[10].exp_spec() == 6 && ps@[10].label_spec() == dec_label(6));
                } else if i == 11 {
                    assert(ps@[11].exp_spec() == 9 && ps@[11].label_spec() == dec_label(9));
                } else if i == 12 {
                    assert(ps@[12].exp_spec() == 12 && ps@[12].label_spec() == dec_label(12));
                } else if i == 13 {
                    assert(ps@[13].exp_spec() == 15 && ps@[13].label_spec() == dec_label(15));
                } else if i == 14 {
                    assert(ps@[14].exp_spec() == 18 && ps@[14].label_spec() == dec_label(18));
                } else if i == 15 {
                    assert(ps@[15].exp_spec() == 21 && ps@[15].label_spec() == dec_label(21));
                } else {
                    assert(i == 16);
                    assert(ps@[16].exp_spec() == 24 && ps@[16].label_spec() == dec_label(24));
                }
            }
        }
        ps
    }

    fn autoscale(v: &Num) -> (r: (Num, Decimal)) {
        if !v.is_scalable() {
            return (v.duplicate(), Decimal::unit());
        }
        let mut k: i32 = -24;
        while k < 24 && v.exp - ((k + 3) as i64) >= 1
            invariant
                -24 <= k <= 24,
                (k + 24) % 3 == 0,
                wf(v@),
                is_scalable(v@),
                -0x1000_0000_0000 <= v@.exp <= 0x1000_0000_0000,
                dec_choice(v@.exp, k as int) == dec_choice(v@.exp, -24),
            decreases 24 - k,
        {
            k = k + 3;
        }
        proof {
            assert(dec_choice(v@.exp, k as int) == k);
        }
        let scaled = v.shift10(k as i64);
        proof {
            assert(scaled@ =~= Decimal::auto_spec(v@).0);
        }
        let p = if k == -24 {
            Decimal::yocto()
        } else if k == -21 {
            Decimal::zepto()
        } else if k == -18 {
            Decimal::atto()
        } else if k == -15 {
            Decimal::femto()
        } else if k == -12 {
            Decimal::pico()
        } else if k == -9 {
            Decimal::nano()
        } else if k == -6 {
            Decimal::micro()
        } else if k == -3 {
            Decimal::milli()
        } else if k == 0 {
            Decimal::unit()
        } else if k == 3 {
            Decimal::kilo()
        } else if k == 6 {
            Decimal::mega()
        } else if k == 9 {
            Decimal::giga()
        } else if k == 12 {
            Decimal::tera()
        } else if k == 15 {
            Decimal::peta()
        } else if k == 18 {
            Decimal::exa()
        } else if k == 21 {
            Decimal::zetta()
        } else {
            proof {
                assert(k == 24);
            }
            Decimal::yotta()
        };
        (scaled, p)
    }
}

/// The scan lands on a table exponent no larger than what the magnitude
/// supports, and the next one up would overshoot.
pub proof fn lemma_dec_choice(e: int, k: int)
    requires
        -24 <= k <= 24,
        (k + 24) % 3 == 0,
        k == -24 || e - k >= 1,
    ensures
        k <= dec_choice(e, k) <= 24,
        (dec_choice(e, k) + 24) % 3 == 0,
        dec_choice(e, k) > -24 ==> e - dec_choice(e, k) >= 1,
        dec_choice(e, k) + 3 <= 24 ==> e - (dec_choice(e, k) + 3) <= 0,
    decreases 24 - k,
{
    if k + 3 > 24 {
    } else if e - (k + 3) <= 0 {
    } else {
        lemma_dec_choice(e, k + 3);
    }
}

/// Auto-scale round trip: the scaled value, multiplied back by ten to the
/// chosen exponent, is exactly the original value.
pub proof fn lemma_decimal_autoscale_round_trip(v: NumV)
    requires
        wf(v),
        is_scalable(v),
    ensures
        ({
            let (sv, k) = Decimal::auto_spec(v);
            crate::num::val_eq(crate::num::mant(sv), crate::num::pt(sv) + k, crate::num::mant(v),
                crate::num::pt(v))
        }),
{
    let (sv, k) = Decimal::auto_spec(v);
    assert(crate::num::mant(sv) == crate::num::mant(v));
    assert(crate::num::pt(sv) + k == crate::num::pt(v));
    assert(crate::digits::pow10(0) == 1);
}

/// Auto-scale boundary: the chosen exponent is a member of the family
/// table; except at the smallest prefix the scaled magnitude reaches one,
/// and except at the largest the next prefix up would push it below one —
/// so the scan keeps the largest prefix that does not overshoot, falling
/// back to the table's first entry.
pub proof fn lemma_decimal_autoscale_boundary(v: NumV)
    requires
        wf(v),
        is_scalable(v),
    ensures
        ({
            let (sv, k) = Decimal::auto_spec(v);
            &&& -24 <= k <= 24
            &&& (k + 24) % 3 == 0
            &&& exists|i: int|
                0 <= i < Decimal::table_len() && k == #[trigger] Decimal::table_exp(i)
            &&& (k > -24 ==> sv.exp >= 1 && crate::scale::abs_ge_one(sv))
            &&& (k + 3 <= 24 ==> v.exp - (k + 3) <= 0)
        }),
{
    let (sv, k) = Decimal::auto_spec(v);
    lemma_dec_choice(v.exp, -24);
    vstd::arithmetic::div_mod::lemma_fundamental_div_mod(k + 24, 3);
    assert(k == Decimal::table_exp((k + 24) / 3));
    assert(0 <= (k + 24) / 3 < 17);
    if k > -24 {
        crate::scale::lemma_exp_ge_one(sv);
    }
}

} // verus!
