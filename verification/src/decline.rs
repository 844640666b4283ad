//! The change of a price between two days.
//!
//! A change is held exactly, as the quotient of the rise in price by the
//! base price; a fall is a negative rise. Changes are compared as quotients,
//! so that no two different changes ever count as the same. Only where a
//! change is shown is it rounded: to hundredths of a percent, to the nearest
//! one, a tie going away from zero. A base price that is not positive gives
//! no quotient; the change is then zero by definition.
use vstd::prelude::*;
use crate::price::Price;
use crate::text::{magnitude, magnitude_of};

verus! {

/// How a report words a fall in price.
#[derive(Clone, Copy, Debug, PartialEq, Eq, Structural)]
pub enum ReportMode {
    /// The figure is the signed change, negative for a fall.
    SignedChange,
    /// The figure is the size of the fall, positive for a fall.
    Magnitude,
}

/// A change of price: the quotient `rise / base`, both in millionths of the
/// currency unit. In percent it is `rise / base * 100`.
#[derive(Clone, Copy, Debug, PartialEq, Eq, Structural)]
pub struct Change {
    pub rise: i128,
    pub base: i64,
}

/// The quotient `num / den` rounded to the nearest integer, a tie going away
/// from zero.
pub open spec fn round_half_away(num: int, den: int) -> int
    recommends
        den > 0,
{
    if num >= 0 {
        (2 * num + den) / (2 * den)
    } else {
        -((2 * (-num) + den) / (2 * den))
    }
}

/// The change from the price `older` to the price `newer`, or no change
/// where `older` is not positive.
pub open spec fn exact_change(older: int, newer: int) -> Change {
    if older > 0 {
        Change { rise: (newer - older) as i128, base: older as i64 }
    } else {
        Change { rise: 0, base: 1 }
    }
}

/// A change in hundredths of a percent.
pub open spec fn hundredths_of(change: Change) -> int {
    round_half_away(change.rise * 10000, change.base as int)
}

/// Whether the change `a` is no greater than the change `b`, as quotients.
pub open spec fn change_le(a: Change, b: Change) -> bool {
    a.rise * b.base <= b.rise * a.base
}

/// The signed change from `older` to `newer` in hundredths of a percent, or
/// zero where `older` is not positive.
pub open spec fn change_hundredths(older: int, newer: int) -> int {
    if older > 0 {
        round_half_away((newer - older) * 10000, older)
    } else {
        0
    }
}

/// The fall from `older` to `newer` in hundredths of a percent, or zero
/// where `older` is not positive.
pub open spec fn fall_hundredths(older: int, newer: int) -> int {
    if older > 0 {
        round_half_away((older - newer) * 10000, older)
    } else {
        0
    }
}

/// The figure that a report in `mode` shows for the step from `older` to
/// `newer`.
pub open spec fn decline_figure(mode: ReportMode, older: int, newer: int) -> int {
    match mode {
        ReportMode::SignedChange => change_hundredths(older, newer),
        ReportMode::Magnitude => fall_hundredths(older, newer),
    }
}

/// The figure that a report in `mode` shows for a signed change.
pub open spec fn shown_figure(mode: ReportMode, change: int) -> int {
    match mode {
        ReportMode::SignedChange => change,
        ReportMode::Magnitude => -change,
    }
}

/// The change that a report in `mode` shows: the change itself, or the fall,
/// which is the change with the opposite sign.
pub open spec fn shown_change(mode: ReportMode, change: Change) -> Change {
    match mode {
        ReportMode::SignedChange => change,
        ReportMode::Magnitude => Change { rise: (-change.rise) as i128, base: change.base },
    }
}

impl Change {
    /// Whether the change is a quotient that can be worked with: its base
    /// is positive, and its rise is the difference of two prices.
    pub open spec fn wf(self) -> bool {
        &&& self.base > 0
        &&& -0x1_0000_0000_0000_0000 < self.rise < 0x1_0000_0000_0000_0000
    }

    /// Tells whether the change is a quotient that can be worked with.
    pub fn is_sound(&self) -> (ok: bool)
        ensures
            ok == self.wf(),
    {
        self.base > 0 && -0x1_0000_0000_0000_0000 < self.rise && self.rise
            < 0x1_0000_0000_0000_0000
    }

    /// The change in hundredths of a percent.
    pub fn hundredths(&self) -> (figure: i128)
        requires
            self.wf(),
        ensures
            figure == hundredths_of(*self),
    {
        let den: u128 = self.base as u128;
        let num: i128 = self.rise * 10000;
        let m: u128 = magnitude_of(num);
        proof {
            lemma_round_bounds(m as int, den as int);
        }
        let q: u128 = (2 * m + den) / (2 * den);
        if num >= 0 {
            q as i128
        } else {
            -(q as i128)
        }
    }

    /// Whether this change is no greater than `other`, as quotients.
    pub fn no_greater_than(&self, other: &Change) -> (yes: bool)
        requires
            self.wf(),
            other.wf(),
        ensures
            yes == change_le(*self, *other),
    {
        proof {
            lemma_product_fits(self.rise as int, other.base as int);
            lemma_product_fits(other.rise as int, self.base as int);
        }
        self.rise * (other.base as i128) <= other.rise * (self.base as i128)
    }
}

proof fn lemma_product_fits(rise: int, base: int)
    requires
        -0x1_0000_0000_0000_0000 < rise < 0x1_0000_0000_0000_0000,
        0 < base < 0x8000_0000_0000_0000,
    ensures
        -0x8000_0000_0000_0000_0000_0000_0000_0000 < rise * base
            < 0x8000_0000_0000_0000_0000_0000_0000_0000,
{
    assert(rise * base <= 0xffff_ffff_ffff_ffff * 0x7fff_ffff_ffff_ffff) by (nonlinear_arith)
        requires
            rise <= 0xffff_ffff_ffff_ffff,
            0 < base <= 0x7fff_ffff_ffff_ffff,
    ;
    assert(rise * base >= -0xffff_ffff_ffff_ffff * 0x7fff_ffff_ffff_ffff) by (nonlinear_arith)
        requires
            rise >= -0xffff_ffff_ffff_ffff,
            0 < base <= 0x7fff_ffff_ffff_ffff,
    ;
}

/// The rounded quotient of a numerator that is not negative is neither
/// negative nor beyond twice the numerator and the denominator together,
/// and it is zero for the numerator zero.
proof fn lemma_round_bounds(m: int, den: int)
    requires
        m >= 0,
        den > 0,
    ensures
        0 <= (2 * m + den) / (2 * den) <= 2 * m + den,
        m == 0 ==> (2 * m + den) / (2 * den) == 0,
{
    assert(0 <= (2 * m + den) / (2 * den) <= 2 * m + den) by (nonlinear_arith)
        requires
            m >= 0,
            den > 0,
    ;
    if m == 0 {
        assert((2 * 0 + den) / (2 * den) == 0) by (nonlinear_arith)
            requires
                den > 0,
        ;
    }
}

/// The figure of the exact change between two prices is the change between
/// them in hundredths of a percent.
pub proof fn lemma_hundredths_of_exact_change(older: int, newer: int)
    requires
        i64::MIN <= older <= i64::MAX,
        i64::MIN <= newer <= i64::MAX,
    ensures
        exact_change(older, newer).wf(),
        hundredths_of(exact_change(older, newer)) == change_hundredths(older, newer),
{
    if older <= 0 {
        lemma_round_bounds(0, 1);
    }
}

/// The two modes show the same step with opposite signs.
pub proof fn lemma_modes_are_opposite(older: int, newer: int)
    ensures
        fall_hundredths(older, newer) == -change_hundredths(older, newer),
        forall|mode: ReportMode|
            decline_figure(mode, older, newer) == shown_figure(
                mode,
                change_hundredths(older, newer),
            ),
{
    if older > 0 {
        let num = (newer - older) * 10000;
        assert((older - newer) * 10000 == -num);
        lemma_round_bounds(0, older);
    }
    assert forall|mode: ReportMode|
        decline_figure(mode, older, newer) == shown_figure(
            mode,
            change_hundredths(older, newer),
        ) by {}
}

/// Rounding keeps the order of quotients that are not negative.
proof fn lemma_round_keeps_order(x: int, den: int, y: int, e: int)
    requires
        0 <= x,
        0 <= y,
        den > 0,
        e > 0,
        x * e <= y * den,
    ensures
        (2 * x + den) / (2 * den) <= (2 * y + e) / (2 * e),
{
    let rx = (2 * x + den) / (2 * den);
    let ry = (2 * y + e) / (2 * e);
    assert(rx * (2 * den) <= 2 * x + den) by (nonlinear_arith)
        requires
            rx == (2 * x + den) / (2 * den),
            den > 0,
    ;
    assert(2 * y + e < (ry + 1) * (2 * e)) by (nonlinear_arith)
        requires
            ry == (2 * y + e) / (2 * e),
            e > 0,
    ;
    if rx >= ry + 1 {
        assert((ry + 1) * (2 * den) <= rx * (2 * den)) by (nonlinear_arith)
            requires
                ry + 1 <= rx,
                den > 0,
        ;
        assert(((ry + 1) * (2 * den)) * e <= (2 * x + den) * e) by (nonlinear_arith)
            requires
                (ry + 1) * (2 * den) <= 2 * x + den,
                e > 0,
        ;
        assert((2 * x + den) * e == 2 * (x * e) + den * e) by (nonlinear_arith);
        assert((2 * y + e) * den == 2 * (y * den) + den * e) by (nonlinear_arith);
        assert((2 * y + e) * den < ((ry + 1) * (2 * e)) * den) by (nonlinear_arith)
            requires
                2 * y + e < (ry + 1) * (2 * e),
                den > 0,
        ;
        assert(((ry + 1) * (2 * den)) * e == ((ry + 1) * (2 * e)) * den) by (nonlinear_arith);
        assert(false);
    }
}

/// The figures shown follow the exact changes: of two changes, the one that
/// is no greater never shows the greater figure.
pub proof fn lemma_figures_follow_changes(a: Change, b: Change)
    requires
        a.base > 0,
        b.base > 0,
        change_le(a, b),
    ensures
        hundredths_of(a) <= hundredths_of(b),
{
    let (x, den) = (a.rise * 10000, a.base as int);
    let (y, e) = (b.rise * 10000, b.base as int);
    assert(x * e == (a.rise * e) * 10000) by (nonlinear_arith)
        requires
            x == a.rise * 10000,
    ;
    assert(y * den == (b.rise * den) * 10000) by (nonlinear_arith)
        requires
            y == b.rise * 10000,
    ;
    assert(x * e <= y * den);
    lemma_round_bounds(magnitude(x) as int, den);
    lemma_round_bounds(magnitude(y) as int, e);
    if x >= 0 && y >= 0 {
        lemma_round_keeps_order(x, den, y, e);
    } else if x < 0 && y < 0 {
        assert((-y) * den == -(y * den)) by (nonlinear_arith);
        assert((-x) * e == -(x * e)) by (nonlinear_arith);
        lemma_round_keeps_order(-y, e, -x, den);
    } else if x >= 0 {
        assert(x * e >= 0) by (nonlinear_arith)
            requires
                x >= 0,
                e > 0,
        ;
        assert(y * den < 0) by (nonlinear_arith)
            requires
                y < 0,
                den > 0,
        ;
    }
}

/// A change is the hundredth of a percent nearest to the exact quotient: it
/// misses `(newer - older) * 10000 / older` by half a hundredth at most.
pub proof fn lemma_change_is_nearest(older: int, newer: int)
    requires
        older > 0,
    ensures
        ({
            let change = change_hundredths(older, newer);
            let exact = (newer - older) * 10000;
            -older <= 2 * (change * older - exact) <= older
        }),
{
    let num = (newer - older) * 10000;
    let m = if num >= 0 {
        num
    } else {
        -num
    };
    let q = (2 * m + older) / (2 * older);
    assert(0 <= 2 * m + older - q * (2 * older) < 2 * older) by (nonlinear_arith)
        requires
            q == (2 * m + older) / (2 * older),
            older > 0,
    ;
    assert(q * (2 * older) == 2 * (q * older)) by (nonlinear_arith);
    if num < 0 {
        assert((-q) * older == -(q * older)) by (nonlinear_arith);
    }
}

/// A change whose exact quotient is a whole number of hundredths is that
/// number.
pub proof fn lemma_change_exact(older: int, newer: int, k: int)
    requires
        older > 0,
        (newer - older) * 10000 == k * older,
    ensures
        change_hundredths(older, newer) == k,
{
    lemma_change_is_nearest(older, newer);
    let change = change_hundredths(older, newer);
    assert(change * older - k * older == (change - k) * older) by (nonlinear_arith);
    assert(change == k) by (nonlinear_arith)
        requires
            -older <= 2 * ((change - k) * older) <= older,
            older > 0,
    ;
}

/// A fall never shows as a positive change, nor a rise as a negative one.
pub proof fn lemma_change_sign(older: int, newer: int)
    ensures
        newer <= older ==> change_hundredths(older, newer) <= 0,
        newer >= older ==> change_hundredths(older, newer) >= 0,
{
    if older > 0 {
        let num = (newer - older) * 10000;
        lemma_round_bounds(magnitude(num) as int, older);
    }
}

/// Any two changes can be compared: one of them is no greater than the
/// other.
pub proof fn lemma_change_le_total(a: Change, b: Change)
    ensures
        change_le(a, b) || change_le(b, a),
{
    assert(a.rise * b.base == b.base * a.rise) by (nonlinear_arith);
    assert(b.rise * a.base == a.base * b.rise) by (nonlinear_arith);
}

/// The order of changes carries on: a change that is no greater than a
/// second, which is no greater than a third, is no greater than the third.
pub proof fn lemma_change_le_transitive(a: Change, b: Change, c: Change)
    requires
        a.base > 0,
        b.base > 0,
        c.base > 0,
        change_le(a, b),
        change_le(b, c),
    ensures
        change_le(a, c),
{
    let (ar, ab) = (a.rise as int, a.base as int);
    let (br, bb) = (b.rise as int, b.base as int);
    let (cr, cb) = (c.rise as int, c.base as int);
    assert((ar * bb) * cb <= (br * ab) * cb) by (nonlinear_arith)
        requires
            ar * bb <= br * ab,
            cb > 0,
    ;
    assert((br * cb) * ab <= (cr * bb) * ab) by (nonlinear_arith)
        requires
            br * cb <= cr * bb,
            ab > 0,
    ;
    assert((br * ab) * cb == (br * cb) * ab) by (nonlinear_arith);
    assert((ar * bb) * cb == (ar * cb) * bb) by (nonlinear_arith);
    assert((cr * bb) * ab == (cr * ab) * bb) by (nonlinear_arith);
    assert(ar * cb <= cr * ab) by (nonlinear_arith)
        requires
            (ar * cb) * bb <= (cr * ab) * bb,
            bb > 0,
    ;
}

/// The change from `older` to `newer`, as an exact quotient.
pub fn calculate(older: Price, newer: Price) -> (change: Change)
    ensures
        change == exact_change(older.units as int, newer.units as int),
        change.wf(),
{
    if older.units > 0 {
        Change { rise: newer.units as i128 - older.units as i128, base: older.units }
    } else {
        Change { rise: 0, base: 1 }
    }
}

/// The figure that a report in `mode` shows for the step from `older` to
/// `newer`, in hundredths of a percent: the signed change, or the size of
/// the fall.
pub fn decline(mode: ReportMode, older: Price, newer: Price) -> (figure: i128)
    ensures
        figure == decline_figure(mode, older.units as int, newer.units as int),
{
    let change: i128 = calculate(older, newer).hundredths();
    proof {
        lemma_hundredths_of_exact_change(older.units as int, newer.units as int);
        lemma_modes_are_opposite(older.units as int, newer.units as int);
        lemma_change_bounded(older.units as int, newer.units as int);
    }
    match mode {
        ReportMode::SignedChange => change,
        ReportMode::Magnitude => -change,
    }
}

/// No change between two prices that fit sixty-four bits leaves the range
/// of the figures.
pub proof fn lemma_change_bounded(older: int, newer: int)
    requires
        i64::MIN <= older <= i64::MAX,
        i64::MIN <= newer <= i64::MAX,
    ensures
        -0x8_0000_0000_0000_0000_0000 <= change_hundredths(older, newer)
            <= 0x8_0000_0000_0000_0000_0000,
{
    if older > 0 {
        let num = (newer - older) * 10000;
        lemma_round_bounds(magnitude(num) as int, older);
    }
}

} // verus!
