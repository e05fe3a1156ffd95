//! The binary (IEC) prefix family, base two, exponents 0 to 80 in steps of
//! ten.

use vstd::prelude::*;
use vstd::string::StringExecFns;

use crate::digits::pow2;
use crate::num::is_scalable;
use crate::num::mant;
use crate::num::pt;
use crate::num::val_eq;
use crate::num::wf;
use crate::num::Num;
use crate::num::NumV;
use crate::scale::double_times;
use crate::scale::halve10;
use crate::scale::halve_times;
use crate::scale::halves_v;
use crate::scale::lemma_doubles_v;
use crate::scale::lemma_halves_compose;
use crate::scale::lemma_halves_v;
use crate::scale::Prefix;
use crate::scale::PrefixFamily;

verus! {

/// A binary scale prefix.
#[derive(Clone, Debug, PartialEq)]
pub struct Binary {
    pub pfx: String,
    pub exp: i32,
}

/// The label the binary family gives to each table exponent.
pub open spec fn bin_label(e: int) -> Seq<char> {
    if e == 0 {
        Seq::empty()
    } else if e == 10 {
        "Ki"@
    } else if e == 20 {
        "Mi"@
    } else if e == 30 {
        "Gi"@
    } else if e == 40 {
        "Ti"@
    } else if e == 50 {
        "Pi"@
    } else if e == 60 {
        "Ei"@
    } else if e == 70 {
        "Zi"@
    } else if e == 80 {
        "Yi"@
    } else {
        Seq::empty()
    }
}

/// The binary auto-scale scan: from the table slot `i` (exponent `10 i`),
/// keep adopting the next prefix while the value scaled by it still
/// reaches one.
pub open spec fn bin_scan(cur: NumV, i: nat) -> (NumV, nat)
    decreases 8 - i when i <= 8
{
    if i >= 8 {
        (cur, i)
    } else {
        let nxt = halves_v(cur, 10);
        if nxt.exp <= 0 {
            (cur, i)
        } else {
            bin_scan(nxt, i + 1)
        }
    }
}

impl Binary {
    /// Create a new binary prefix.
    pub fn new(pfx: &str, exp: i32) -> (r: Binary)
        ensures
            r.pfx@ == pfx@,
            r.exp == exp,
    {
        Binary { pfx: String::from_str(pfx), exp }
    }

    /// The empty unit prefix.
    pub fn unit() -> (r: Binary)
        ensures
            r.exp_spec() == 0,
            r.label_spec() == Seq::<char>::empty(),
    {
        let r = Binary::new("", 0);
        proof {
            reveal_strlit("");
            assert(r.pfx@ =~= Seq::<char>::empty());
        }
        r
    }

    /// `2^10`.
    pub fn kibi() -> (r: Binary)
        ensures
            r.exp_spec() == 10,
            r.label_spec() == bin_label(10),
    {
        Binary::new("Ki", 10)
    }

    /// `2^20`.
    pub fn mebi() -> (r: Binary)
        ensures
            r.exp_spec() == 20,
            r.label_spec() == bin_label(20),
    {
        Binary::new("Mi", 20)
    }

    /// `2^30`.
    pub fn gibi() -> (r: Binary)
        ensures
            r.exp_spec() == 30,
            r.label_spec() == bin_label(30),
    {
        Binary::new("Gi", 30)
    }

    /// `2^40`.
    pub fn tebi() -> (r: Binary)
        ensures
            r.exp_spec() == 40,
            r.label_spec() == bin_label(40),
    {
        Binary::new("Ti", 40)
    }

    /// `2^50`.
    pub fn pebi() -> (r: Binary)
        ensures
            r.exp_spec() == 50,
            r.label_spec() == bin_label(50),
    {
        Binary::new("Pi", 50)
    }

    /// `2^60`.
    pub fn exbi() -> (r: Binary)
        ensures
            r.exp_spec() == 60,
            r.label_spec() == bin_label(60),
    {
        Binary::new("Ei", 60)
    }

    /// `2^70`.
    pub fn zebi() -> (r: Binary)
        ensures
            r.exp_spec() == 70,
            r.label_spec() == bin_label(70),
    {
        Binary::new("Zi", 70)
    }

    /// `2^80`.
    pub fn yobi() -> (r: Binary)
        ensures
            r.exp_spec() == 80,
            r.label_spec() == bin_label(80),
    {
        Binary::new("Yi", 80)
    }

}

/// The canonical digit string of one.
pub open spec fn nat_digits_one() -> Seq<u8> {
    crate::digits::nat_digits(1nat)
}

impl Prefix for Binary {
    open spec fn base_spec(&self) -> int {
        2
    }

    open spec fn exp_spec(&self) -> int {
        self.exp as int
    }

    open spec fn label_spec(&self) -> Seq<char> {
        self.pfx@
    }

    open spec fn scale_spec(&self, v: NumV) -> NumV {
        if is_scalable(v) && self.exp >= 0 {
            halves_v(v, self.exp as nat)
        } else {
            v
        }
    }

    open spec fn scale_ok(&self) -> bool {
        0 <= self.exp <= 0x1000
    }

    open spec fn mult_rel(&self, m: NumV) -> bool {
        val_eq(mant(m), pt(m), pow2(if self.exp >= 0 {
            self.exp as nat
        } else {
            0
        }), 0)
    }

    fn base(&self) -> (b: i32) {
        2
    }

    fn exponent(&self) -> (e: i32) {
        self.exp
    }

    fn label(&self) -> (l: &str) {
        self.pfx.as_str()
    }

    /// The multiplier `2^exp` as an exact number.
    ///
    /// The exponent must not be negative and must stay within the range of
    /// the doubling loop; a machine shift could not form a binary
    /// multiplier outside it either.
    fn multiplier(&self) -> (m: Num) {
        let one = Num::from_u64(1);
        proof {
            crate::digits::lemma_nat_digits(1nat);
            assert(crate::digits::nat_digits(0nat) == Seq::<u8>::empty());
            assert(1nat / 10 == 0 && 1nat % 10 == 1);
            assert(nat_digits_one() =~= seq![1u8]);
            assert(crate::digits::strip0(seq![1u8]) =~= seq![1u8]);
            assert(one@.digits =~= seq![1u8]);
            crate::digits::lemma_digits_single(1u8);
            assert(mant(one@) == 1);
            assert(pt(one@) == 0);
        }
        let r = double_times(&one, self.exp as u32);
        proof {
            lemma_doubles_v(one@, self.exp as nat);
            assert(pow2(self.exp as nat) * mant(one@) == pow2(self.exp as nat))
                by (nonlinear_arith)
                requires
                    mant(one@) == 1,
            ;
        }
        r
    }

    fn scale_value(&self, v: &Num) -> (r: Num) {
        if !v.is_scalable() {
            let r = v.duplicate();
            proof {
                assert(r@ =~= self.scale_spec(v@));
            }
            r
        } else {
            let r = halve_times(v, self.exp as u32);
            proof {
                lemma_halves_v(v@, self.exp as nat);
            }
            r
        }
    }
}

impl PrefixFamily for Binary {
    open spec fn auto_spec(v: NumV) -> (NumV, int) {
        if !is_scalable(v) {
            (v, 0)
        } else {
            let (s, i) = bin_scan(v, 0);
            (s, 10 * (i as int))
        }
    }

    open spec fn label_of(e: int) -> Seq<char> {
        bin_label(e)
    }

    open spec fn table_len() -> int {
        9
    }

    open spec fn table_exp(i: int) -> int {
        10 * i
    }

    fn unit_prefix() -> (p: Binary) {
        Binary::unit()
    }

    fn all_prefixes() -> (ps: Vec<Binary>) {
        let mut ps: Vec<Binary> = Vec::new();
        ps.push(Binary::unit());
        ps.push(Binary::kibi());
        ps.push(Binary::mebi());
        ps.push(Binary::gibi());
        ps.push(Binary::tebi());
        ps.push(Binary::pebi());
        ps.push(Binary::exbi());
        ps.push(Binary::zebi());
        ps.push(Binary::yobi());
        proof {
            assert(ps@.len() == 9);
            assert forall|i: int|
                0 <= i < ps@.len() implies (#[trigger] ps@[i].exp_spec()) == Self::table_exp(i)
                    && ps@[i].label_spec() == Self::label_of(Self::table_exp(i)) by {
                if i == 0 {
                    assert(ps@[0].exp_spec() == 0 && ps@[0].label_spec() == bin_label(0));
                } else if i == 1 {
                    assert(ps@[1].exp_spec() == 10 && ps@[1].label_spec() == bin_label(10));
                } else if i == 2 {
                    assert(ps@[2].exp_spec() == 20 && ps@[2].label_spec() == bin_label(20));
                } else if i == 3 {
                    assert(ps@[3].exp_spec() == 30 && ps@[3].label_spec() == bin_label(30));
                } else if i == 4 {
                    assert(ps@[4].exp_spec() == 40 && ps@[4].label_spec() == bin_label(40));
                } else if i == 5 {
                    assert(ps@[5].exp_spec() == 50 && ps@[5].label_spec() == bin_label(50));
                } else if i == 6 {
                    assert(ps@[6].exp_spec() == 60 && ps@[6].label_spec() == bin_label(60));
                } else if i == 7 {
                    assert(ps@[7].exp_spec() == 70 && ps@[7].label_spec() == bin_label(70));
                } else {
                    assert(i == 8);
                    assert(ps@[8].exp_spec() == 80 && ps@[8].label_spec() == bin_label(80));
                }
            }
        }
        ps
    }

    fn autoscale(v: &Num) -> (r: (Num, Binary)) {
        if !v.is_scalable() {
            return (v.duplicate(), Binary::unit());
        }
        let mut cur = v.duplicate();
        let mut i: u32 = 0;
        let mut done = false;
        while !done && i < 8
            invariant
                i <= 8,
                wf(v@),
                is_scalable(v@),
                -0x1000_0000_0000 <= v@.exp <= 0x1000_0000_0000,
                wf(cur@),
                is_scalable(cur@),
                cur@.neg == v@.neg,
                cur@ == halves_v(v@, (10 * i) as nat),
                v@.exp - 10 * i <= cur@.exp <= v@.exp,
                bin_scan(cur@, i as nat) == bin_scan(v@, 0),
                done ==> bin_scan(cur@, i as nat) == (cur@, i as nat),
            decreases 8 - i + (if done { 0int } else { 1int }),
        {
            proof {
                lemma_halves_v(v@, (10 * i) as nat);
            }
            let nxt = halve10(&cur);
            proof {
                lemma_halves_compose(v@, (10 * i) as nat, 10);
                assert(nxt@ == halves_v(v@, (10 * i + 10) as nat));
            }
            if nxt.exp <= 0 {
                done = true;
            } else {
                cur = nxt;
                i = i + 1;
            }
        }
        proof {
            assert(bin_scan(cur@, i as nat) == (cur@, i as nat));
            lemma_halves_v(v@, (10 * i) as nat);
        }
        let p = if i == 0 {
            Binary::unit()
        } else if i == 1 {
            Binary::kibi()
        } else if i == 2 {
            Binary::mebi()
        } else if i == 3 {
            Binary::gibi()
        } else if i == 4 {
            Binary::tebi()
        } else if i == 5 {
            Binary::pebi()
        } else if i == 6 {
            Binary::exbi()
        } else if i == 7 {
            Binary::zebi()
        } else {
            proof {
                assert(i == 8);
            }
            Binary::yobi()
        };
        (cur, p)
    }
}

/// The scan adopts a prefix only while the scaled magnitude still reaches
/// one, and stops as soon as the next would overshoot.
pub proof fn lemma_bin_scan(c: NumV, i: nat)
    requires
        wf(c),
        is_scalable(c),
        i <= 8,
    ensures
        ({
            let (s, j) = bin_scan(c, i);
            &&& i <= j <= 8
            &&& s == halves_v(c, (10 * (j - i)) as nat)
            &&& wf(s)
            &&& is_scalable(s)
            &&& (j > i ==> s.exp >= 1)
            &&& (j < 8 ==> halves_v(s, 10).exp <= 0)
        }),
    decreases 8 - i,
{
    if i >= 8 {
        assert(halves_v(c, 0) == c);
    } else {
        let nxt = halves_v(c, 10);
        lemma_halves_v(c, 10);
        if nxt.exp <= 0 {
            assert(halves_v(c, 0) == c);
        } else {
            lemma_bin_scan(nxt, i + 1);
            let (s, j) = bin_scan(nxt, i + 1);
            lemma_halves_compose(c, 10, (10 * (j - i - 1)) as nat);
            assert(s == halves_v(c, (10 * (j - i)) as nat));
            if j == i + 1 {
                assert(s == halves_v(nxt, 0));
                assert(s == nxt);
            }
        }
    }
}

/// Auto-scale round trip: the scaled value, multiplied back by two to the
/// chosen exponent, is exactly the original value.
pub proof fn lemma_binary_autoscale_round_trip(v: NumV)
    requires
        wf(v),
        is_scalable(v),
    ensures
        ({
            let (sv, k) = Binary::auto_spec(v);
            &&& 0 <= k <= 80
            &&& val_eq(pow2(k as nat) * mant(sv), pt(sv), mant(v), pt(v))
        }),
{
    lemma_bin_scan(v, 0);
    let (s, j) = bin_scan(v, 0);
    crate::scale::lemma_halves_v(v, (10 * j) as nat);
}

/// Auto-scale boundary: the chosen exponent is a member of the family
/// table; except at the unit prefix the scaled magnitude reaches one, and
/// except at the largest prefix the next one up would push it below one —
/// so the scan keeps the largest prefix that does not overshoot, falling
/// back to the table's first entry.
pub proof fn lemma_binary_autoscale_boundary(v: NumV)
    requires
        wf(v),
        is_scalable(v),
    ensures
        ({
            let (sv, k) = Binary::auto_spec(v);
            &&& 0 <= k <= 80
            &&& k % 10 == 0
            &&& exists|i: int| 0 <= i < Binary::table_len() && k == #[trigger] Binary::table_exp(i)
            &&& (k > 0 ==> sv.exp >= 1 && crate::scale::abs_ge_one(sv))
            &&& (k < 80 ==> halves_v(sv, 10).exp <= 0)
        }),
{
    lemma_bin_scan(v, 0);
    let (sv, k) = Binary::auto_spec(v);
    let (s0, j) = bin_scan(v, 0);
    assert(k == 10 * (j as int));
    assert(k == Binary::table_exp(j as int));
    assert(k % 10 == 0) by (nonlinear_arith)
        requires
            k == 10 * (j as int),
            0 <= j <= 8,
    ;
    if k > 0 {
        crate::scale::lemma_exp_ge_one(sv);
    }
}

} // verus!
