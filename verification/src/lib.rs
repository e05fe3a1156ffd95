//! Human-friendly display of numeric quantities.
//!
//! Values are held as exact decimal significands (a digit vector plus a
//! base-ten exponent), so every scaling, rounding and rendering step is
//! carried out exactly and carries a proved contract.

use vstd::prelude::*;

pub mod digits;
pub mod num;
pub mod sigfig;
pub mod scale;
pub mod quantity;
pub mod temporal;
pub use num::Num;
pub use num::NumClass;
pub use quantity::Quantity;
pub use temporal::HumanDuration;
pub use temporal::duration;
pub use temporal::seconds;
pub use scale::Scale;

verus! {

/// Display a number of bytes, with binary prefixes by default.
pub fn bytes<V: quantity::QVal>(val: V) -> (r: Quantity<scale::Binary>)
    requires
        val.q_ok(),
    ensures
        r.wf_spec(),
        r.scale_usable(),
        val.matches(r.value@),
        r.scale is Auto,
        r.sfx_str@ == "B"@,
        r.nsig == 4,
        r.spc == true,
        r.integral == false,
{
    Quantity::binary(val).suffix("B")
}

/// An ordinary auto-scaled value.
pub fn scalar<V: quantity::QVal>(val: V) -> (r: Quantity<scale::Decimal>)
    requires
        val.q_ok(),
    ensures
        r.wf_spec(),
        r.scale_usable(),
        val.matches(r.value@),
        r.scale is Auto,
        r.sfx_str@ == Seq::<char>::empty(),
        r.nsig == 4,
        r.spc == true,
        r.integral == false,
{
    Quantity::decimal(val)
}

} // verus!
