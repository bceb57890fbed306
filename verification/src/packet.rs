//! Sizes in whole packets.
use vstd::prelude::*;

verus! {

/// 1024 times 1024 bytes, the size that large transfers are built around.
pub const MEBIBYTE: usize = 0x10_0000;

/// The smallest multiple of `unit` that is not below `value`.
pub open spec fn rounded_up(value: nat, unit: nat) -> nat {
    if value % unit == 0 {
        value
    } else {
        (value + unit - value % unit) as nat
    }
}

/// Rounding up gives a multiple, no less than the value and less than one unit above it.
pub(crate) proof fn lemma_rounded_up(value: nat, unit: nat)
    requires
        unit > 0,
    ensures
        rounded_up(value, unit) % unit == 0,
        value <= rounded_up(value, unit) < value + unit,
{
    let r = value % unit;
    if r != 0 {
        vstd::arithmetic::div_mod::lemma_fundamental_div_mod(value as int, unit as int);
        let up = unit * (value / unit) + unit;
        assert(value + unit - r == up);
        assert(unit * (value / unit) + unit == unit * (value / unit + 1)) by (nonlinear_arith);
        vstd::arithmetic::div_mod::lemma_mod_multiples_basic((value / unit + 1) as int, unit as int);
        assert((value / unit + 1) * unit == unit * (value / unit + 1)) by (nonlinear_arith);
    }
}

/// Rounds up to whole packets.
pub(crate) fn round_up(value: usize, unit: u16) -> (rounded: usize)
    requires
        unit > 0,
        value <= MEBIBYTE,
    ensures
        rounded == rounded_up(value as nat, unit as nat),
{
    let rest: usize = value % (unit as usize);
    if rest == 0 {
        value
    } else {
        value + (unit as usize - rest)
    }
}

/// Rounding up gives the one multiple that is no less than the value and less than a unit above
/// it.
pub proof fn law_rounding_up_gives_the_next_multiple(value: nat, unit: nat, multiple: nat)
    requires
        unit > 0,
    ensures
        rounded_up(value, unit) % unit == 0,
        value <= rounded_up(value, unit) < value + unit,
        multiple % unit == 0 && value <= multiple ==> rounded_up(value, unit) <= multiple,
{
    lemma_rounded_up(value, unit);
    let up = rounded_up(value, unit);
    if multiple % unit == 0 && value <= multiple && multiple < up {
        vstd::arithmetic::div_mod::lemma_fundamental_div_mod(up as int, unit as int);
        vstd::arithmetic::div_mod::lemma_fundamental_div_mod(multiple as int, unit as int);
        let a = up / unit;
        let b = multiple / unit;
        assert(a > b) by (nonlinear_arith)
            requires
                unit * a > unit * b,
                unit > 0,
        ;
        assert(unit * a >= unit * b + unit) by (nonlinear_arith)
            requires
                a >= b + 1,
                unit > 0,
        ;
    }
}

/// Large transfers are built around 1024 times 1024 bytes.
pub proof fn law_mebibyte()
    ensures
        MEBIBYTE == 1024 * 1024,
{
}

} // verus!
