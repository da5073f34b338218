//! The share of an image's rows that is looked at.

use vstd::prelude::*;

verus! {

/// The number of units in one percent: `2^52`. With this many, every
/// double-precision number between 1 and 100 is a whole number of units.
pub const UNITS_PER_PERCENT: u64 = 4503599627370496;

/// The number of units in one hundred percent.
pub const FULL_UNITS: u64 = 450359962737049600;

/// A double holds every whole number below this one exactly: `2^53`.
pub const DOUBLE_SPAN: u128 = 9007199254740992;

/// A percentage as a whole number of units of `2^-52` percent.
#[derive(Clone, Copy, Debug, PartialEq, Eq, Structural)]
pub struct Percentage {
    units: u64,
}

impl View for Percentage {
    type V = nat;

    closed spec fn view(&self) -> nat {
        self.units as nat
    }
}

/// `units` brought into the range from one percent to one hundred percent.
pub open spec fn clamped_units(units: nat) -> nat {
    if units < UNITS_PER_PERCENT {
        UNITS_PER_PERCENT as nat
    } else if units > FULL_UNITS {
        FULL_UNITS as nat
    } else {
        units
    }
}

/// The quotient `numerator / denominator` rounded to the nearest whole
/// number, a half rounded up.
pub open spec fn round_half_up(numerator: nat, denominator: nat) -> nat {
    (2 * numerator + denominator) / (2 * denominator)
}

/// The distance between the whole numbers that a double can hold near `n`:
/// the smallest power of two `u` with `n < 2^53 * u`.
pub open spec fn double_unit(n: nat) -> nat
    decreases n,
{
    if n < DOUBLE_SPAN {
        1
    } else {
        2 * double_unit(n / 2)
    }
}

/// What becomes of the whole number `n` when a double holds it: the nearest
/// multiple of [`double_unit`], and of two that are equally near the even
/// one.
pub open spec fn as_double(n: nat) -> nat {
    let unit = double_unit(n);
    let below = n / unit;
    let rest = n % unit;
    if 2 * rest > unit || (2 * rest == unit && below % 2 == 1) {
        (below + 1) * unit
    } else {
        below * unit
    }
}

/// The number of rows that a share of `units` units makes of `height` rows:
/// `height * p / 100` rounded to the nearest whole number, where `p` is the
/// share in percent, brought into the range from 1 to 100. The product
/// `height * p` is held in a double before it is divided, so that the
/// outcome agrees with the same arithmetic done in doubles: 1.7 percent of
/// 3500 rows are 60 rows, though the double nearest to 1.7 is a little less.
pub open spec fn target_rows(height: nat, units: nat) -> nat {
    round_half_up(as_double(height * clamped_units(units)), FULL_UNITS as nat)
}

/// Whether a share asks for every row: no share was given, or one of a
/// hundred percent or more.
pub open spec fn takes_every_row(share: Option<Percentage>) -> bool {
    share matches Some(p) ==> p@ >= FULL_UNITS
}

/// The number of rows that `share` asks for out of `height`.
pub open spec fn rows_wanted(height: nat, share: Option<Percentage>) -> nat {
    match share {
        Some(p) if p@ < FULL_UNITS => target_rows(height, p@),
        _ => height,
    }
}

impl Percentage {
    /// The percentage of `units` units of `2^-52` percent each.
    pub fn from_units(units: u64) -> (share: Percentage)
        ensures
            share@ == units,
    {
        Percentage { units }
    }

    /// The percentage of `percent` whole percent.
    pub fn whole(percent: u8) -> (share: Percentage)
        ensures
            share@ == percent * UNITS_PER_PERCENT,
    {
        let wide: u64 = percent as u64;
        Percentage { units: wide * UNITS_PER_PERCENT }
    }

    /// The number of units of `2^-52` percent.
    pub fn units(&self) -> (units: u64)
        ensures
            units == self@,
    {
        self.units
    }

    /// Whether this is a hundred percent or more.
    pub fn is_full(&self) -> (full: bool)
        ensures
            full == (self@ >= FULL_UNITS),
    {
        self.units >= FULL_UNITS
    }
}

/// The rounded quotient is the whole number nearest to the exact one: it
/// lies no more than a half above it and less than a half below it.
pub proof fn lemma_round_half_up_nearest(numerator: nat, denominator: nat)
    requires
        denominator > 0,
    ensures
        2 * round_half_up(numerator, denominator) * denominator <= 2 * numerator + denominator,
        2 * numerator < 2 * round_half_up(numerator, denominator) * denominator + denominator,
{
    let n = (2 * numerator + denominator) as int;
    let d = (2 * denominator) as int;
    vstd::arithmetic::div_mod::lemma_fundamental_div_mod(n, d);
    vstd::arithmetic::div_mod::lemma_mod_bound(n, d);
    assert(d * (n / d) == 2 * (n / d) * denominator) by (nonlinear_arith)
        requires
            d == 2 * denominator,
    ;
}

/// The distance between doubles is positive, and the doubles at distance
/// `double_unit(n)` reach beyond `n`.
pub proof fn lemma_double_unit_span(n: nat)
    ensures
        double_unit(n) >= 1,
        n < DOUBLE_SPAN * double_unit(n),
    decreases n,
{
    if n >= DOUBLE_SPAN {
        lemma_double_unit_span(n / 2);
    }
}

/// A double holds `n` as a multiple of the distance at `n` that lies no
/// more than half that distance from `n`.
pub proof fn lemma_as_double_nearest(n: nat)
    ensures
        as_double(n) % double_unit(n) == 0,
        2 * as_double(n) <= 2 * n + double_unit(n),
        2 * n <= 2 * as_double(n) + double_unit(n),
{
    let unit = double_unit(n) as int;
    lemma_double_unit_span(n);
    let below = (n as int) / unit;
    let rest = (n as int) % unit;
    vstd::arithmetic::div_mod::lemma_fundamental_div_mod(n as int, unit);
    vstd::arithmetic::div_mod::lemma_mod_bound(n as int, unit);
    vstd::arithmetic::div_mod::lemma_mod_multiples_basic(below, unit);
    vstd::arithmetic::div_mod::lemma_mod_multiples_basic(below + 1, unit);
    assert((below + 1) * unit == below * unit + unit) by (nonlinear_arith);
    assert(unit * below == below * unit) by (nonlinear_arith);
}

/// Below `2^53 * 2^k` the distance between doubles divides `2^k`: the
/// lemma returns the quotient.
proof fn lemma_double_unit_divides(n: nat, k: nat) -> (times: nat)
    requires
        n < DOUBLE_SPAN * vstd::arithmetic::power2::pow2(k),
    ensures
        vstd::arithmetic::power2::pow2(k) == times * double_unit(n),
    decreases k,
{
    let span = vstd::arithmetic::power2::pow2(k);
    if n < DOUBLE_SPAN {
        assert(span == span * 1) by (nonlinear_arith);
        span
    } else {
        if k == 0 {
            vstd::arithmetic::power2::lemma2_to64();
            assert(DOUBLE_SPAN * span == DOUBLE_SPAN) by (nonlinear_arith)
                requires
                    span == 1,
            ;
        }
        vstd::arithmetic::power2::lemma_pow2_unfold(k);
        let half = vstd::arithmetic::power2::pow2((k - 1) as nat);
        assert(n / 2 < DOUBLE_SPAN * half) by (nonlinear_arith)
            requires
                n < DOUBLE_SPAN * span,
                span == 2 * half,
        ;
        let times = lemma_double_unit_divides(n / 2, (k - 1) as nat);
        assert(2 * (times * double_unit(n / 2)) == times * (2 * double_unit(n / 2)))
            by (nonlinear_arith);
        times
    }
}

/// A double holds a multiple of the distance at `n` that is not below `n`
/// as it is, and `n` itself as no more than that multiple.
proof fn lemma_as_double_capped(n: nat, times: nat)
    requires
        n <= times * double_unit(n),
    ensures
        as_double(n) <= times * double_unit(n),
        n == times * double_unit(n) ==> as_double(n) == n,
{
    let unit = double_unit(n) as int;
    lemma_double_unit_span(n);
    let below = (n as int) / unit;
    let rest = (n as int) % unit;
    vstd::arithmetic::div_mod::lemma_fundamental_div_mod(n as int, unit);
    vstd::arithmetic::div_mod::lemma_mod_bound(n as int, unit);
    assert(unit * below == below * unit) by (nonlinear_arith);
    assert(below <= times) by (nonlinear_arith)
        requires
            below * unit + rest <= times * unit,
            0 <= rest,
            unit >= 1,
    ;
    if below < times {
        assert((below + 1) * unit <= times * unit) by (nonlinear_arith)
            requires
                below < times,
                unit >= 1,
        ;
        assert(n < times * unit) by (nonlinear_arith)
            requires
                n == below * unit + rest,
                rest < unit,
                (below + 1) * unit <= times * unit,
        ;
    }
}

/// A share never asks for more rows than there are, and a share of a
/// hundred percent asks for all of them.
pub proof fn lemma_target_rows_bounds(height: nat, units: nat)
    requires
        height <= u32::MAX,
    ensures
        as_double(height * clamped_units(units)) <= height * FULL_UNITS,
        target_rows(height, units) <= height,
        units >= FULL_UNITS ==> target_rows(height, units) == height,
{
    let share = clamped_units(units);
    let full = FULL_UNITS as nat;
    let product = height * share;
    let all = height * full;
    let held = as_double(product);
    let rows = target_rows(height, units);
    assert(product <= all) by (nonlinear_arith)
        requires
            product == height * share,
            all == height * full,
            share <= full,
    ;
    // The product of all rows and a full share is a multiple of `2^38`,
    // which the distance between doubles divides this far down.
    vstd::arithmetic::power2::lemma2_to64_rest();
    assert(all < DOUBLE_SPAN * 0x4000000000) by (nonlinear_arith)
        requires
            all == height * full,
            height <= 0xffff_ffff,
            full == 450359962737049600,
    ;
    let times = lemma_double_unit_divides(product, 38);
    let unit = double_unit(product);
    assert(all == (height * 1638400 * times) * unit) by (nonlinear_arith)
        requires
            all == height * full,
            full == 450359962737049600,
            0x4000000000 == times * unit,
    ;
    lemma_as_double_capped(product, height * 1638400 * times);
    lemma_round_half_up_nearest(held, full);
    assert(rows <= height) by (nonlinear_arith)
        requires
            2 * rows * full <= 2 * held + full,
            held <= height * full,
            full > 0,
    ;
    if units >= FULL_UNITS {
        assert(rows >= height) by (nonlinear_arith)
            requires
                2 * (height * full) < 2 * rows * full + full,
                full > 0,
        ;
    }
}

/// Whatever the share, it asks for no more rows than there are, and for all
/// of them where it [`takes_every_row`].
pub proof fn lemma_rows_wanted_bounds(height: nat, share: Option<Percentage>)
    requires
        height <= u32::MAX,
    ensures
        rows_wanted(height, share) <= height,
        takes_every_row(share) ==> rows_wanted(height, share) == height,
{
    if let Some(part) = share {
        lemma_target_rows_bounds(height, part@);
    }
}

/// Computes [`as_double`].
fn hold_as_double(n: u128) -> (held: u128)
    requires
        n <= 0xffff_ffff * FULL_UNITS,
    ensures
        held == as_double(n as nat),
{
    let mut unit: u128 = 1;
    let mut scaled: u128 = n;
    while scaled >= DOUBLE_SPAN
        invariant
            unit >= 1,
            scaled == n / unit,
            unit * scaled <= n,
            n <= 0xffff_ffff * FULL_UNITS,
            double_unit(n as nat) == unit * double_unit(scaled as nat),
        decreases scaled,
    {
        proof {
            vstd::arithmetic::div_mod::lemma_div_denominator(n as int, unit as int, 2);
            assert(unit * 2 * (scaled / 2) <= n && unit * 2 < 0x1_0000_0000_0000_0000)
                by (nonlinear_arith)
                requires
                    unit * scaled <= n,
                    scaled >= 9007199254740992,
                    unit >= 1,
                    n <= 0xffff_ffff * 450359962737049600,
            ;
            assert(unit * (2 * double_unit((scaled / 2) as nat)) == unit * 2 * double_unit(
                (scaled / 2) as nat,
            )) by (nonlinear_arith);
        }
        scaled = scaled / 2;
        unit = unit * 2;
    }
    proof {
        assert(unit * 1 == unit) by (nonlinear_arith);
        assert(double_unit(n as nat) == unit);
        vstd::arithmetic::div_mod::lemma_fundamental_div_mod(n as int, unit as int);
        vstd::arithmetic::div_mod::lemma_mod_bound(n as int, unit as int);
        assert((n / unit + 1) * unit <= n + unit) by (nonlinear_arith)
            requires
                n == unit * (n / unit) + n % unit,
                0 <= n % unit,
        ;
        assert(0 <= (n / unit) * unit <= n) by (nonlinear_arith)
            requires
                n == unit * (n / unit) + n % unit,
                0 <= n % unit,
                unit >= 1,
                n / unit >= 0,
        ;
    }
    let below = n / unit;
    let rest = n % unit;
    if 2 * rest > unit || (2 * rest == unit && below % 2 == 1) {
        (below + 1) * unit
    } else {
        below * unit
    }
}

/// Computes [`target_rows`].
pub fn target_row_count(height: u32, share: Percentage) -> (rows: u32)
    ensures
        rows == target_rows(height as nat, share@),
        rows <= height,
{
    let units: u64 = if share.units < UNITS_PER_PERCENT {
        UNITS_PER_PERCENT
    } else if share.units > FULL_UNITS {
        FULL_UNITS
    } else {
        share.units
    };
    proof {
        lemma_target_rows_bounds(height as nat, share@);
        assert(0 <= height * units <= 0xffff_ffff * 450359962737049600) by (nonlinear_arith)
            requires
                0 <= height <= 0xffff_ffff,
                0 <= units <= 450359962737049600,
        ;
        assert(height * FULL_UNITS <= 0xffff_ffff * 450359962737049600) by (nonlinear_arith)
            requires
                0 <= height <= 0xffff_ffff,
                FULL_UNITS == 450359962737049600,
        ;
    }
    let product: u128 = (height as u128) * (units as u128);
    let held: u128 = hold_as_double(product);
    let rounded: u128 = (2 * held + FULL_UNITS as u128) / (2 * FULL_UNITS as u128);
    rounded as u32
}

} // verus!
