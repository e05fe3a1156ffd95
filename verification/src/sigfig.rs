//! Significant-figure rounding.

use vstd::prelude::*;

use crate::digits::inc_digits_spec;
use crate::digits::lemma_inc_digits;
use crate::digits::lemma_strip0;
use crate::digits::strip0;
use crate::num::copy_digits;
use crate::num::exp_in_range;
use crate::num::is_scalable;
use crate::num::lemma_round_shape;
use crate::num::round_at;
use crate::num::round_spec;
use crate::num::wf;
use crate::num::Num;
use crate::num::NumClass;
use crate::num::NumV;

verus! {

/// The fraction digits needed after rounding to `sf` significant figures a
/// value whose leading digit sits at position `exp`: never negative.
pub open spec fn sig_decimals(exp: int, sf: int) -> int {
    if sf >= exp {
        sf - exp
    } else {
        0
    }
}

/// The deterministic content of [`sigscale`]: the rounded value and the
/// reported precision.
pub open spec fn sigscale_v(v: NumV, sf: int) -> (NumV, int) {
    if !is_scalable(v) {
        (v, sf)
    } else {
        let rp = round_spec(v.digits, v.exp, sf);
        (NumV { class: NumClass::Finite, neg: v.neg, digits: rp.0, exp: rp.1 }, sig_decimals(
            v.exp,
            sf,
        ))
    }
}

/// Round a value to `sf` significant figures.
///
/// Returns the rounded value together with the number of fraction digits
/// needed to display it at that precision.  A value that is not finite and
/// nonzero passes through unchanged, with the precision defaulting to the
/// requested figure count.
pub fn sigscale(val: &Num, sf: u64) -> (r: (Num, u64))
    requires
        wf(val@),
        -0x1000_0000_0000_0000 <= val@.exp <= 0x1000_0000_0000_0000,
        sf <= 0x100_0000_0000,
    ensures
        wf(r.0@),
        exp_in_range(r.0@.exp),
        r.0@ == sigscale_v(val@, sf as int).0,
        r.1 as int == sigscale_v(val@, sf as int).1,
        !is_scalable(val@) ==> r.0@ == val@ && r.1 == sf,
        is_scalable(val@) ==> {
            &&& r.0@.class is Finite
            &&& r.0@.neg == val@.neg
            &&& r.0@.digits == round_spec(val@.digits, val@.exp, sf as int).0
            &&& r.0@.exp == round_spec(val@.digits, val@.exp, sf as int).1
            &&& r.1 as int == sig_decimals(val@.exp, sf as int)
        },
{
    if !val.is_scalable() {
        return (val.duplicate(), sf);
    }
    let ds = copy_digits(&val.digits);
    let (rd, re) = round_at(ds, val.exp, sf as i64);
    proof {
        lemma_round_shape(val@.digits, val@.exp, sf as int);
    }
    let n = Num { class: NumClass::Finite, neg: val.neg, digits: rd, exp: re };
    let diff: i64 = (sf as i64) - val.exp;
    let dec: u64 = if diff < 0 {
        0
    } else {
        diff as u64
    };
    proof {
        assert(n@ =~= sigscale_v(val@, sf as int).0);
    }
    (n, dec)
}

/// Rounding to `sf` figures leaves at most `sf` significand digits.
pub proof fn lemma_round_sig_len(d: Seq<u8>, e: int, sf: int)
    requires
        crate::digits::digits_ok(d),
        d.len() > 0 ==> d[0] != 0,
        d.len() > 0 ==> d.last() != 0,
        sf >= 1,
    ensures
        round_spec(d, e, sf).0.len() <= sf,
{
    if sf >= d.len() {
    } else {
        let t = d.take(sf);
        if d[sf] >= 5 {
            lemma_inc_digits(t);
            let u = inc_digits_spec(t);
            lemma_strip0(u);
            if u.len() == sf + 1 {
                assert(u.last() == 0);
                assert(strip0(u) == strip0(u.drop_last()));
                lemma_strip0(u.drop_last());
            }
        } else {
            lemma_strip0(t);
        }
    }
}

/// The significant-figure law: for a finite nonzero value and `sf >= 1`,
/// the reported precision is never negative, the rounded significand keeps
/// at most `sf` digits, and — whenever rounding does not lengthen the
/// significand past its old leading position — the displayed digit span,
/// from the leading digit down to the last printed fraction place, is
/// exactly `sf` (trailing display zeros aside).  A value too wide for `sf`
/// figures prints with no fraction digits at all.
pub proof fn lemma_sigscale_figures(v: NumV, sf: int, rd: Seq<u8>, re: int, dec: int)
    requires
        wf(v),
        is_scalable(v),
        sf >= 1,
        rd == round_spec(v.digits, v.exp, sf).0,
        re == round_spec(v.digits, v.exp, sf).1,
        dec == sig_decimals(v.exp, sf),
    ensures
        dec >= 0,
        rd.len() <= sf,
        rd.len() > 0 && re == v.exp && sf >= v.exp ==> re + dec == sf,
        sf < v.exp ==> dec == 0,
{
    lemma_round_sig_len(v.digits, v.exp, sf);
}

} // verus!
