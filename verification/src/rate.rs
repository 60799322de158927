//! Arithmetic on rates: scaling that rounds up, so that no machine is
//! promised less than it needs.
use vstd::prelude::*;
use crate::catalog::Rate;

verus! {

/// `a / b`, rounded up.
pub open spec fn div_up(a: int, b: int) -> int {
    if a % b == 0 {
        a / b
    } else {
        a / b + 1
    }
}

/// The rate of an input that a machine needs in order to put out `rate`,
/// where at full speed it turns `need` of the input into `cap` of its
/// output: `rate * need / cap`, rounded up to a whole rate unit.
pub open spec fn scaled(rate: Rate, need: Rate, cap: Rate) -> int {
    div_up(rate * need, cap as int)
}

/// The number of machines of capacity `cap` that it takes to put out `total`.
pub open spec fn machines(total: int, cap: Rate) -> int {
    div_up(total, cap as int)
}

/// Rounding up gives the least multiple that covers the dividend.
pub proof fn lemma_div_up(a: int, b: int)
    requires
        0 <= a,
        0 < b,
    ensures
        0 <= div_up(a, b),
        a <= div_up(a, b) * b < a + b,
        a > 0 ==> div_up(a, b) >= 1,
{
    vstd::arithmetic::div_mod::lemma_fundamental_div_mod(a, b);
    vstd::arithmetic::div_mod::lemma_div_pos_is_pos(a, b);
    vstd::arithmetic::div_mod::lemma_mod_bound(a, b);
    let q = a / b;
    assert(b * q == q * b) by (nonlinear_arith);
    assert((q + 1) * b == q * b + b) by (nonlinear_arith);
    assert(q == 0 ==> q * b == 0);
}

/// `rate * need / cap`, rounded up; nothing where that exceeds the range
/// of rate units.
pub fn scale_up(rate: Rate, need: Rate, cap: Rate) -> (r: Option<Rate>)
    requires
        cap > 0,
    ensures
        match r {
            Some(x) => x == scaled(rate, need, cap),
            None => scaled(rate, need, cap) > u64::MAX,
        },
{
    proof {
        assert(0 <= rate * need <= u64::MAX * u64::MAX) by (nonlinear_arith)
            requires
                0 <= rate <= u64::MAX,
                0 <= need <= u64::MAX,
        ;
        vstd::arithmetic::div_mod::lemma_div_pos_is_pos(rate * need, cap as int);
        vstd::arithmetic::div_mod::lemma_fundamental_div_mod(rate * need, cap as int);
        vstd::arithmetic::div_mod::lemma_mod_bound(rate * need, cap as int);
        let q = (rate * need) / (cap as int);
        assert(q <= rate * need) by (nonlinear_arith)
            requires
                rate * need == cap * q + (rate * need) % (cap as int),
                0 <= (rate * need) % (cap as int),
                cap >= 1,
                q >= 0,
        ;
    }
    let product: u128 = rate as u128 * need as u128;
    let whole: u128 = product / cap as u128;
    let up: u128 = if product % cap as u128 == 0 {
        whole
    } else {
        whole + 1
    };
    if up > u64::MAX as u128 {
        None
    } else {
        Some(up as Rate)
    }
}

/// The number of machines of capacity `cap` that it takes to put out `total`.
pub fn machines_for(total: u128, cap: Rate) -> (n: u128)
    requires
        cap > 0,
        total < u128::MAX,
    ensures
        n == machines(total as int, cap),
        total > cap ==> n >= 2,
{
    proof {
        lemma_div_up(total as int, cap as int);
        vstd::arithmetic::div_mod::lemma_fundamental_div_mod(total as int, cap as int);
        vstd::arithmetic::div_mod::lemma_mod_bound(total as int, cap as int);
        let q = (total as int) / (cap as int);
        assert(q <= total) by (nonlinear_arith)
            requires
                total == cap * q + (total as int) % (cap as int),
                0 <= (total as int) % (cap as int),
                cap >= 1,
                q >= 0,
        ;
        assert(total > cap ==> div_up(total as int, cap as int) >= 2) by (nonlinear_arith)
            requires
                total <= div_up(total as int, cap as int) * cap,
                cap > 0,
        ;
    }
    let whole: u128 = total / cap as u128;
    if total % cap as u128 == 0 {
        whole
    } else {
        whole + 1
    }
}

/// A scaled rate covers what it is scaled from, and is no more than the
/// full need where the machine runs at no more than full speed.
pub proof fn lemma_scaled_covers(amount: Rate, need: Rate, cap: Rate)
    requires
        cap > 0,
    ensures
        0 <= scaled(amount, need, cap),
        amount * need <= scaled(amount, need, cap) * cap < amount * need + cap,
        amount <= cap ==> scaled(amount, need, cap) <= need,
{
    assert(0 <= amount * need) by (nonlinear_arith)
        requires
            0 <= amount,
            0 <= need,
    ;
    lemma_div_up(amount * need, cap as int);
    let s = scaled(amount, need, cap);
    if amount <= cap {
        assert(s <= need) by (nonlinear_arith)
            requires
                s * cap < amount * need + cap,
                amount <= cap,
                0 <= need,
                0 <= amount,
                cap > 0,
        ;
    }
}

/// Two inputs scaled for the same output differ from the same share of
/// their full needs by less than one rate unit each.
pub proof fn lemma_scaled_in_step(amount: Rate, cap: Rate, need_a: Rate, need_b: Rate)
    requires
        cap > 0,
    ensures
        scaled(amount, need_a, cap) * need_b - scaled(amount, need_b, cap) * need_a <= if need_a
            >= need_b {
            need_a as int
        } else {
            need_b as int
        },
{
    lemma_scaled_covers(amount, need_a, cap);
    lemma_scaled_covers(amount, need_b, cap);
    let sa = scaled(amount, need_a, cap);
    let sb = scaled(amount, need_b, cap);
    assert(sa * need_b - sb * need_a <= need_b) by (nonlinear_arith)
        requires
            sa * cap < amount * need_a + cap,
            amount * need_b <= sb * cap,
            cap > 0,
            0 <= need_a,
            0 <= need_b,
            0 <= sa,
            0 <= sb,
    ;
}

/// Rounding up commutes with adding whole multiples of the divisor.
pub proof fn lemma_div_up_shift(a: int, k: int, b: int)
    requires
        0 <= a,
        0 <= k,
        0 < b,
    ensures
        div_up(a + k * b, b) == k + div_up(a, b),
{
    vstd::arithmetic::div_mod::lemma_fundamental_div_mod(a, b);
    vstd::arithmetic::div_mod::lemma_mod_bound(a, b);
    assert(0 <= k * b) by (nonlinear_arith)
        requires
            0 <= k,
            0 < b,
    ;
    let q = a / b;
    let r = a % b;
    assert(a + k * b == b * (q + k) + r) by (nonlinear_arith)
        requires
            a == b * q + r,
    ;
    vstd::arithmetic::div_mod::lemma_fundamental_div_mod_converse(a + k * b, b, q + k, r);
}

/// A machine at full speed needs its full need; a machine that puts out
/// nothing needs nothing.
pub proof fn lemma_scaled_ends(need: Rate, cap: Rate)
    requires
        cap > 0,
    ensures
        scaled(cap, need, cap) == need,
        scaled(0, need, cap) == 0,
{
    assert(0 <= need * cap) by (nonlinear_arith)
        requires
            0 <= need,
            0 <= cap,
    ;
    lemma_div_up_shift(0, need as int, cap as int);
    assert(cap * need == 0 + need * cap) by (nonlinear_arith);
    assert(0 * need == 0) by (nonlinear_arith);
}

} // verus!
