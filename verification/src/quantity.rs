//! General-purpose quantities with scales.

use vstd::prelude::*;
use vstd::string::StringExecFns;

use crate::num::mant;
use crate::num::pt;
use crate::num::render_fixed_spec;
use crate::num::render_native_spec;
use crate::num::val_eq;
use crate::num::wf;
use crate::num::Num;
use crate::num::NumV;
use crate::scale::abs_of;
use crate::scale::Prefix;
use crate::scale::PrefixFamily;
use crate::scale::Scale;
use crate::sigfig::sigscale;
use crate::sigfig::sigscale_v;

verus! {

/// Trait for values a quantity can hold: anything with an exact decimal
/// reading.
pub trait QVal: Sized {
    /// Whether this value may be converted.
    spec fn q_ok(&self) -> bool;

    /// Whether `n` is the exact number this value denotes.
    spec fn matches(&self, n: NumV) -> bool;

    /// Convert to an exact decimal number.
    fn as_num(&self) -> (n: Num)
        requires
            self.q_ok(),
        ensures
            wf(n@),
            self.matches(n@),
            -0x40_0000_0000 <= n@.exp <= 0x40_0000_0000,
            n@.digits.len() <= 0x1_0000_0000,
    ;
}

/// An exact reading of a signed machine integer.
pub open spec fn int_matches(x: int, n: NumV) -> bool {
    &&& n.class is Finite
    &&& n.neg == (x < 0)
    &&& val_eq(mant(n), pt(n), abs_of(x), 0)
}

impl QVal for u64 {
    open spec fn q_ok(&self) -> bool {
        true
    }

    open spec fn matches(&self, n: NumV) -> bool {
        int_matches(*self as int, n)
    }

    fn as_num(&self) -> (n: Num) {
        Num::from_parts(false, *self, 0)
    }
}

impl QVal for u32 {
    open spec fn q_ok(&self) -> bool {
        true
    }

    open spec fn matches(&self, n: NumV) -> bool {
        int_matches(*self as int, n)
    }

    fn as_num(&self) -> (n: Num) {
        Num::from_parts(false, *self as u64, 0)
    }
}

impl QVal for usize {
    open spec fn q_ok(&self) -> bool {
        true
    }

    open spec fn matches(&self, n: NumV) -> bool {
        int_matches(*self as int, n)
    }

    fn as_num(&self) -> (n: Num) {
        Num::from_parts(false, *self as u64, 0)
    }
}

impl QVal for i64 {
    open spec fn q_ok(&self) -> bool {
        true
    }

    open spec fn matches(&self, n: NumV) -> bool {
        int_matches(*self as int, n)
    }

    fn as_num(&self) -> (n: Num) {
        if *self < 0 {
            let m: u64 = if *self == i64::MIN {
                0x8000_0000_0000_0000u64
            } else {
                (-*self) as u64
            };
            Num::from_parts(true, m, 0)
        } else {
            Num::from_parts(false, *self as u64, 0)
        }
    }
}

impl QVal for i32 {
    open spec fn q_ok(&self) -> bool {
        true
    }

    open spec fn matches(&self, n: NumV) -> bool {
        int_matches(*self as int, n)
    }

    fn as_num(&self) -> (n: Num) {
        if *self < 0 {
            let m: u64 = if *self == i32::MIN {
                0x8000_0000u64
            } else {
                (-*self) as u64
            };
            Num::from_parts(true, m, 0)
        } else {
            Num::from_parts(false, *self as u64, 0)
        }
    }
}

impl QVal for Num {
    open spec fn q_ok(&self) -> bool {
        wf(self@) && -0x40_0000_0000 <= self@.exp <= 0x40_0000_0000
            && self@.digits.len() <= 0x1_0000_0000
    }

    open spec fn matches(&self, n: NumV) -> bool {
        n == self@
    }

    fn as_num(&self) -> (n: Num) {
        self.duplicate()
    }
}

/// A numeric quantity to display.
///
/// `Quantity` is the core type for general display of numeric quantities
/// that may be rescaled with prefixes, may have unit suffixes, etc.
///
/// By default, quantities are displayed with 4 significant figures and are
/// auto-scaled.
#[derive(Debug, PartialEq)]
pub struct Quantity<P> {
    pub value: Num,
    pub scale: Scale<P>,
    pub sfx_str: String,
    pub nsig: u32,
    pub spc: bool,
    pub integral: bool,
}

/// The separating space, when asked for and needed.
pub open spec fn joiner(spc: bool, need: bool) -> Seq<char> {
    if spc && need {
        " "@
    } else {
        Seq::empty()
    }
}

/// The text of an unscaled value: its native rendering, then the suffix,
/// space-separated when configured and the suffix is nonempty.
pub open spec fn native_text(v: NumV, sfx: Seq<char>, spc: bool) -> Seq<char> {
    render_native_spec(v) + joiner(spc, sfx.len() > 0) + sfx
}

/// The text of a scaled magnitude: the value rounded to `nsig` significant
/// figures and printed at the precision that rounding reports, then the
/// prefix label and suffix, space-separated when configured and either is
/// nonempty.
pub open spec fn scaled_text(
    sv: NumV,
    nsig: int,
    label: Seq<char>,
    sfx: Seq<char>,
    spc: bool,
) -> Seq<char> {
    let rp = sigscale_v(sv, nsig);
    render_fixed_spec(rp.0, rp.1 as nat) + joiner(spc, label.len() > 0 || sfx.len() > 0) + label
        + sfx
}

/// The text of an auto-scaled quantity: the family picks the prefix; an
/// integral value that resolves to the unit prefix keeps its native form.
pub open spec fn auto_text<P: PrefixFamily>(
    v: NumV,
    nsig: int,
    sfx: Seq<char>,
    spc: bool,
    integral: bool,
) -> Seq<char> {
    let (sv, k) = P::auto_spec(v);
    if k == 0 && integral {
        native_text(v, sfx, spc)
    } else {
        scaled_text(sv, nsig, P::label_of(k), sfx, spc)
    }
}

/// The text of a quantity under a fixed prefix; an integral value under a
/// zero-exponent prefix keeps its native form.
pub open spec fn fixed_text<P: Prefix>(
    p: P,
    v: NumV,
    nsig: int,
    sfx: Seq<char>,
    spc: bool,
    integral: bool,
) -> Seq<char> {
    if p.exp_spec() == 0 && integral {
        native_text(v, sfx, spc)
    } else {
        scaled_text(p.scale_spec(v), nsig, p.label_spec(), sfx, spc)
    }
}

/// The complete text of a quantity, by its scale selector.
pub open spec fn quantity_text<P: PrefixFamily>(q: &Quantity<P>) -> Seq<char> {
    match q.scale {
        Scale::Native => native_text(q.value@, q.sfx_str@, q.spc),
        Scale::Auto => auto_text::<P>(q.value@, q.nsig as int, q.sfx_str@, q.spc, q.integral),
        Scale::Fixed(p) => fixed_text(p, q.value@, q.nsig as int, q.sfx_str@, q.spc, q.integral),
    }
}

impl<P> Quantity<P> {
    /// A quantity whose fields every operation can rely on.
    pub open spec fn wf_spec(&self) -> bool {
        &&& wf(self.value@)
        &&& -0x40_0000_0000 <= self.value@.exp <= 0x40_0000_0000
        &&& self.value@.digits.len() <= 0x1_0000_0000
    }
}

impl<P: PrefixFamily> Quantity<P> {
    /// Whether the configured scale can be applied.
    pub open spec fn scale_usable(&self) -> bool {
        match self.scale {
            Scale::Fixed(ref p) => p.scale_ok() && abs_of(p.exp_spec()) <= 0x1_0000_0000,
            _ => true,
        }
    }

    /// Create a new auto-scaled quantity of arbitrary prefix type.
    pub fn new<V: QVal>(value: V) -> (r: Quantity<P>)
        requires
            value.q_ok(),
        ensures
            r.wf_spec(),
            r.scale_usable(),
            value.matches(r.value@),
            r.scale is Auto,
            r.sfx_str@ == Seq::<char>::empty(),
            r.nsig == 4,
            r.spc == true,
            r.integral == false,
    {
        let n = value.as_num();
        let r = Quantity {
            value: n,
            scale: Scale::Auto,
            sfx_str: String::new(),
            nsig: 4,
            spc: true,
            integral: false,
        };
        r
    }

    /// Configure this quantity with a different scale.
    pub fn scale<P2: PrefixFamily>(self, scale: Scale<P2>) -> (r: Quantity<P2>)
        ensures
            r.value@ == self.value@,
            r.scale == scale,
            r.sfx_str@ == self.sfx_str@,
            r.nsig == self.nsig,
            r.spc == self.spc,
            r.integral == self.integral,
    {
        Quantity {
            value: self.value,
            sfx_str: self.sfx_str,
            nsig: self.nsig,
            scale,
            spc: self.spc,
            integral: self.integral,
        }
    }

    /// Change the unit suffix on this quantity.
    pub fn suffix(self, suffix: &str) -> (r: Quantity<P>)
        ensures
            r.value@ == self.value@,
            r.scale == self.scale,
            r.sfx_str@ == suffix@,
            r.nsig == self.nsig,
            r.spc == self.spc,
            r.integral == self.integral,
    {
        Quantity { sfx_str: String::from_str(suffix), ..self }
    }

    /// Change whether to include a space before units.
    pub fn space(self, spc: bool) -> (r: Quantity<P>)
        ensures
            r.value@ == self.value@,
            r.scale == self.scale,
            r.sfx_str@ == self.sfx_str@,
            r.nsig == self.nsig,
            r.spc == spc,
            r.integral == self.integral,
    {
        Quantity { spc, ..self }
    }

    /// Change the number of significant figures on this quantity.
    pub fn sig_figs(self, sf: u32) -> (r: Quantity<P>)
        ensures
            r.value@ == self.value@,
            r.scale == self.scale,
            r.sfx_str@ == self.sfx_str@,
            r.nsig == sf,
            r.spc == self.spc,
            r.integral == self.integral,
    {
        Quantity { nsig: sf, ..self }
    }

    /// Change whether the quantity is an integer.
    pub fn integral(self, int_flag: bool) -> (r: Quantity<P>)
        ensures
            r.value@ == self.value@,
            r.scale == self.scale,
            r.sfx_str@ == self.sfx_str@,
            r.nsig == self.nsig,
            r.spc == self.spc,
            r.integral == int_flag,
    {
        Quantity { integral: int_flag, ..self }
    }

    /// Render this quantity to text.
    ///
    /// The scale selector decides: native printing, the family's automatic
    /// prefix, or a fixed prefix; an integral value that resolves to the
    /// unit prefix keeps its native form.
    pub fn render(&self) -> (s: String)
        requires
            self.wf_spec(),
            self.scale_usable(),
        ensures
            s@ == quantity_text(self),
    {
        match &self.scale {
            Scale::Native => self.emit_native(),
            Scale::Auto => {
                let (sv, p) = P::autoscale(&self.value);
                if p.exponent() == 0 && self.integral {
                    self.emit_native()
                } else {
                    self.emit_scaled(&sv, p.label())
                }
            },
            Scale::Fixed(p) => {
                if p.exponent() == 0 && self.integral {
                    self.emit_native()
                } else {
                    let sv = p.scale_value(&self.value);
                    self.emit_scaled(&sv, p.label())
                }
            },
        }
    }

    /// The native branch: value, optional space, suffix.
    fn emit_native(&self) -> (s: String)
        requires
            self.wf_spec(),
        ensures
            s@ == native_text(self.value@, self.sfx_str@, self.spc),
    {
        let mut out = self.value.render_native();
        if self.spc && !self.sfx_str.as_str().is_empty() {
            out.append(" ");
        }
        out.append(self.sfx_str.as_str());
        proof {
            assert(out@ =~= native_text(self.value@, self.sfx_str@, self.spc));
        }
        out
    }

    /// The scaled branch: rounded magnitude, optional space, label, suffix.
    fn emit_scaled(&self, sv: &Num, label: &str) -> (s: String)
        requires
            self.wf_spec(),
            wf(sv@),
            -0x100_0000_0000 <= sv@.exp <= 0x100_0000_0000,
        ensures
            s@ == scaled_text(sv@, self.nsig as int, label@, self.sfx_str@, self.spc),
    {
        let (rv, prec) = sigscale(sv, self.nsig as u64);
        let mut out = rv.render_fixed(prec);
        if self.spc && !(label.is_empty() && self.sfx_str.as_str().is_empty()) {
            out.append(" ");
        }
        out.append(label);
        out.append(self.sfx_str.as_str());
        proof {
            assert(out@ =~= scaled_text(sv@, self.nsig as int, label@, self.sfx_str@, self.spc));
        }
        out
    }
}

impl Quantity<crate::scale::Decimal> {
    /// Create a new auto-scaled decimal quantity.
    pub fn decimal<V: QVal>(value: V) -> (r: Quantity<crate::scale::Decimal>)
        requires
            value.q_ok(),
        ensures
            r.wf_spec(),
            r.scale_usable(),
            value.matches(r.value@),
            r.scale is Auto,
            r.sfx_str@ == Seq::<char>::empty(),
            r.nsig == 4,
            r.spc == true,
            r.integral == false,
    {
        Quantity::new(value)
    }
}

impl Quantity<crate::scale::Binary> {
    /// Create a new auto-scaled binary quantity.
    pub fn binary<V: QVal>(value: V) -> (r: Quantity<crate::scale::Binary>)
        requires
            value.q_ok(),
        ensures
            r.wf_spec(),
            r.scale_usable(),
            value.matches(r.value@),
            r.scale is Auto,
            r.sfx_str@ == Seq::<char>::empty(),
            r.nsig == 4,
            r.spc == true,
            r.integral == false,
    {
        Quantity::new(value)
    }
}

/// Rendering is a pure function of the configured quantity: two renderings
/// of the same configured quantity are the same text, letter for letter.
pub proof fn lemma_render_repeatable<P: PrefixFamily>(q: &Quantity<P>, a: Seq<char>, b: Seq<char>)
    requires
        a == quantity_text(q),
        b == quantity_text(q),
    ensures
        a == b,
{
}

} // verus!
