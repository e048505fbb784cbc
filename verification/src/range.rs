//! The coding range, and the two operations that act on it: narrowing to the
//! share of one symbol, and scaling it back up by one decimal digit.

use vstd::arithmetic::div_mod::{
    lemma_div_is_ordered,
    lemma_div_multiples_vanish,
    lemma_div_plus_one,
    lemma_fundamental_div_mod,
    lemma_fundamental_div_mod_converse_div,
    lemma_mod_bound,
};
use vstd::prelude::*;
use crate::error::CodecError;
use crate::radix::Frame;

verus! {

/// The multiple of `unit` at or below `high`: the value at which the leading
/// digit last changed.
pub open spec fn pivot(high: int, unit: int) -> int {
    (high / unit) * unit
}

/// Both bounds have the same leading digit, so that digit is settled.
pub open spec fn shift_ready(low: int, high: int, unit: int) -> bool {
    low / unit == high / unit
}

/// The bounds straddle a change of the leading digit from close by: `low` is
/// written `d 9 ..` and `high` is written `d+1 0 ..`.
pub open spec fn straddle_ready(low: int, high: int, unit: int) -> bool {
    &&& low / unit < high / unit
    &&& pivot(high, unit) - low <= unit / 10
    &&& high - pivot(high, unit) < unit / 10
}

/// One of the two scalings applies.
pub open spec fn scale_ready(low: int, high: int, unit: int) -> bool {
    shift_ready(low, high, unit) || straddle_ready(low, high, unit)
}

/// What a scaling subtracts after multiplying by ten: the leading digit of
/// both bounds when it is shifted out, nine tenths of the pivot when the
/// second digit is dropped.
pub open spec fn scale_offset(low: int, high: int, unit: int) -> int {
    if shift_ready(low, high, unit) {
        10 * pivot(high, unit)
    } else {
        9 * pivot(high, unit)
    }
}

/// The lower bound after a scaling: a zero joins at the right.
pub open spec fn scaled_low(low: int, high: int, unit: int) -> int {
    10 * low - scale_offset(low, high, unit)
}

/// The upper bound after a scaling: a nine joins at the right.
pub open spec fn scaled_high(low: int, high: int, unit: int) -> int {
    10 * high + 9 - scale_offset(low, high, unit)
}

/// The lower bound of the share `[lower, upper)` out of `total` of a range.
pub open spec fn narrowed_low(low: int, high: int, lower: int, total: int) -> int {
    low + ((high - low + 1) * lower) / total
}

/// The upper bound of the share `[lower, upper)` out of `total` of a range.
pub open spec fn narrowed_high(low: int, high: int, upper: int, total: int) -> int {
    low + ((high - low + 1) * upper) / total - 1
}

/// What a scaling does: the range stays inside the frame, becomes ten times
/// as wide, and the offset is a multiple of ten.
pub proof fn lemma_scale(low: int, high: int, unit: int)
    requires
        0 <= low <= high < 10 * unit,
        unit == 1 || unit % 10 == 0,
        unit >= 1,
        scale_ready(low, high, unit),
    ensures
        0 <= scaled_low(low, high, unit) <= scaled_high(low, high, unit) < 10 * unit,
        scaled_high(low, high, unit) - scaled_low(low, high, unit) + 1 == 10 * (high - low + 1),
        scale_offset(low, high, unit) % 10 == 0,
        0 <= scale_offset(low, high, unit) <= 10 * low,
        straddle_ready(low, high, unit) ==> {
            &&& !shift_ready(low, high, unit)
            &&& unit >= 10
            &&& high / unit == low / unit + 1
            &&& scaled_low(low, high, unit) / unit == low / unit
            &&& scaled_high(low, high, unit) / unit == high / unit
        },
{
    let q = high / unit;
    let p = pivot(high, unit);
    lemma_leading(high, unit);
    lemma_leading(low, unit);
    if shift_ready(low, high, unit) {
        assert(p <= low <= high < p + unit);
        assert(scaled_low(low, high, unit) == 10 * (low - p));
        assert(scaled_high(low, high, unit) == 10 * (high - p) + 9);
    } else {
        let ql = low / unit;
        assert(unit >= 10);
        assert(unit % 10 == 0);
        assert(ql * unit + unit <= q * unit) by (nonlinear_arith)
            requires
                ql < q,
                unit >= 1,
        ;
        assert(q == ql + 1) by (nonlinear_arith)
            requires
                ql < q,
                q * unit - (ql * unit) <= unit + unit / 10,
                q * unit - (ql * unit) - unit < unit,
                unit >= 10,
                unit / 10 < unit,
        ;
        let tenth = unit / 10;
        assert(9 * p == 10 * (9 * q * tenth)) by (nonlinear_arith)
            requires
                p == q * unit,
                unit == 10 * tenth,
        ;
        let sl = scaled_low(low, high, unit);
        let sh = scaled_high(low, high, unit);
        assert(ql * unit + unit == p) by (nonlinear_arith)
            requires
                p == q * unit,
                q == ql + 1,
        ;
        assert(sl == 10 * low - 9 * p);
        assert(sh == 10 * high + 9 - 9 * p);
        assert(10 * tenth == unit);
        assert(0 <= ql * unit && q * unit <= 9 * unit) by (nonlinear_arith)
            requires
                0 <= ql,
                q <= 9,
                unit >= 1,
        ;
        assert(ql * unit <= sl < ql * unit + unit);
        assert(q * unit <= sh < q * unit + unit);
        lemma_leading_is(sl, unit, ql);
        lemma_leading_is(sh, unit, q);
    }
}

/// A number lies in the block of `unit` values that its leading digit names.
pub proof fn lemma_leading(x: int, unit: int)
    requires
        0 <= x < 10 * unit,
        unit >= 1,
    ensures
        0 <= x / unit <= 9,
        (x / unit) * unit <= x < (x / unit) * unit + unit,
{
    lemma_fundamental_div_mod(x, unit);
    lemma_mod_bound(x, unit);
    let q = x / unit;
    assert(unit * q == q * unit) by (nonlinear_arith);
    assert(0 <= q <= 9) by (nonlinear_arith)
        requires
            q * unit <= x,
            x < q * unit + unit,
            0 <= x < 10 * unit,
            unit >= 1,
    ;
}

/// A number in the block `[q * unit, q * unit + unit)` has leading digit `q`.
pub proof fn lemma_leading_is(x: int, unit: int, q: int)
    requires
        unit >= 1,
        q * unit <= x < q * unit + unit,
    ensures
        x / unit == q,
{
    lemma_fundamental_div_mod_converse_div(x, unit, q, x - q * unit);
    assert(unit * q == q * unit) by (nonlinear_arith);
}

/// Narrowing to a share that is not empty stays inside the range.
pub proof fn lemma_narrow(low: int, high: int, lower: int, upper: int, total: int)
    requires
        low <= high,
        0 <= lower <= upper <= total,
        total >= 1,
    ensures
        low <= narrowed_low(low, high, lower, total),
        narrowed_low(low, high, lower, total) <= narrowed_high(low, high, upper, total) + 1,
        narrowed_high(low, high, upper, total) <= high,
        high - low + 1 >= total && lower < upper ==> narrowed_low(low, high, lower, total)
            <= narrowed_high(low, high, upper, total),
        upper == total ==> narrowed_high(low, high, upper, total) == high,
        lower == 0 ==> narrowed_low(low, high, lower, total) == low,
{
    let w = high - low + 1;
    lemma_share(w, lower, total);
    lemma_share(w, upper, total);
    assert(w * lower <= w * upper) by (nonlinear_arith)
        requires
            w >= 0,
            lower <= upper,
    ;
    lemma_div_is_ordered(w * lower, w * upper, total);
    if w >= total && lower < upper {
        assert(w * lower + total <= w * upper) by (nonlinear_arith)
            requires
                w >= total,
                lower + 1 <= upper,
                total >= 1,
                lower >= 0,
        ;
        lemma_div_is_ordered(w * lower + total, w * upper, total);
        lemma_div_plus_one(w * lower, total);
    }
    if upper == total {
        lemma_div_multiples_vanish(w, total);
        assert(w * total == total * w) by (nonlinear_arith);
    }
    if lower == 0 {
        assert(w * lower == 0) by (nonlinear_arith)
            requires
                lower == 0,
        ;
    }
}

/// The share `part` out of `total` of a width lies between nothing and all.
pub proof fn lemma_share(width: int, part: int, total: int)
    requires
        width >= 0,
        0 <= part <= total,
        total >= 1,
    ensures
        0 <= (width * part) / total <= width,
        0 <= width * part <= width * total,
{
    assert(0 <= width * part <= width * total) by (nonlinear_arith)
        requires
            width >= 0,
            0 <= part <= total,
    ;
    lemma_div_is_ordered(0, width * part, total);
    lemma_div_is_ordered(width * part, width * total, total);
    lemma_div_multiples_vanish(width, total);
    assert(width * total == total * width) by (nonlinear_arith);
}

/// How a range can be scaled.
#[derive(Clone, Copy, Debug, PartialEq, Eq, Structural)]
pub enum Scaling {
    /// Neither scaling applies: the leading digits differ and the range is
    /// wider than a tenth of the unit.
    Settled,
    /// The leading digits agree.
    Shift,
    /// The bounds straddle a change of the leading digit.
    Straddle,
}

/// The interval `[low, high]` of code values that are still possible.
#[derive(Clone, Copy, Debug, PartialEq, Eq, Structural)]
pub struct CodingRange {
    pub low: u64,
    pub high: u64,
}

impl CodingRange {
    /// The range is not empty and lies inside the frame.
    pub open spec fn wf(&self, frame: Frame) -> bool {
        self.low <= self.high < 10 * frame.unit()
    }

    /// The number of code values in the range.
    pub open spec fn span(&self) -> int {
        self.high - self.low + 1
    }

    /// The scaling that applies to the range.
    pub open spec fn scaling_spec(&self, frame: Frame) -> Scaling {
        if shift_ready(self.low as int, self.high as int, frame.unit() as int) {
            Scaling::Shift
        } else if straddle_ready(self.low as int, self.high as int, frame.unit() as int) {
            Scaling::Straddle
        } else {
            Scaling::Settled
        }
    }

    /// The range from `low` to `high`.
    pub fn new(low: u64, high: u64) -> (range: CodingRange)
        ensures
            range.low == low,
            range.high == high,
    {
        CodingRange { low, high }
    }

    /// Narrows the range to the share `[lower, upper)` out of `total`. The
    /// range collapses when that share holds no code value.
    pub fn narrow(&self, frame: &Frame, lower: u32, upper: u32, total: u32) -> (result: Result<
        CodingRange,
        CodecError,
    >)
        requires
            frame.wf(),
            self.wf(*frame),
            lower <= upper <= total,
            total >= 1,
        ensures
            result is Ok <==> narrowed_low(
                self.low as int,
                self.high as int,
                lower as int,
                total as int,
            ) <= narrowed_high(self.low as int, self.high as int, upper as int, total as int),
            result is Err ==> result == Err::<CodingRange, CodecError>(CodecError::RangeCollapse),
            result is Ok ==> {
                let range = result->Ok_0;
                &&& range.low == narrowed_low(
                    self.low as int,
                    self.high as int,
                    lower as int,
                    total as int,
                )
                &&& range.high == narrowed_high(
                    self.low as int,
                    self.high as int,
                    upper as int,
                    total as int,
                )
                &&& range.wf(*frame)
                &&& self.low <= range.low
                &&& range.high <= self.high
            },
    {
        proof {
            frame.lemma_unit();
            lemma_narrow(
                self.low as int,
                self.high as int,
                lower as int,
                upper as int,
                total as int,
            );
            lemma_share(self.span(), lower as int, total as int);
            lemma_share(self.span(), upper as int, total as int);
            assert(self.span() * total <= 100_000_000_000 * 0x1_0000_0000) by (nonlinear_arith)
                requires
                    0 <= self.span() <= 100_000_000_000,
                    0 <= total <= 0x1_0000_0000,
            ;
        }
        let span: u128 = (self.high - self.low + 1) as u128;
        let below: u64 = ((span * (lower as u128)) / (total as u128)) as u64;
        let within: u64 = ((span * (upper as u128)) / (total as u128)) as u64;
        if within <= below {
            Err(CodecError::RangeCollapse)
        } else {
            Ok(CodingRange { low: self.low + below, high: self.low + within - 1 })
        }
    }

    /// Tells which scaling applies.
    pub fn scaling(&self, frame: &Frame) -> (kind: Scaling)
        requires
            frame.wf(),
            self.wf(*frame),
        ensures
            kind == self.scaling_spec(*frame),
    {
        let unit: u64 = frame.leading_unit();
        proof {
            frame.lemma_unit();
            lemma_leading(self.low as int, unit as int);
            lemma_leading(self.high as int, unit as int);
        }
        let lead_low: u64 = self.low / unit;
        let lead_high: u64 = self.high / unit;
        if lead_low == lead_high {
            return Scaling::Shift;
        }
        proof {
            lemma_div_is_ordered(
                self.low as int,
                self.high as int,
                unit as int,
            );
            assert(lead_low * unit + unit <= lead_high * unit) by (nonlinear_arith)
                requires
                    lead_low < lead_high,
            ;
            assert(lead_high * unit <= 9 * unit) by (nonlinear_arith)
                requires
                    lead_high <= 9,
            ;
        }
        let edge: u64 = lead_high * unit;
        let tenth: u64 = unit / 10;
        if edge - self.low <= tenth && self.high - edge < tenth {
            Scaling::Straddle
        } else {
            Scaling::Settled
        }
    }

    /// What the scaling at hand subtracts, after the multiplication by ten.
    pub fn offset(&self, frame: &Frame) -> (offset: u64)
        requires
            frame.wf(),
            self.wf(*frame),
            self.scaling_spec(*frame) != Scaling::Settled,
        ensures
            offset == scale_offset(self.low as int, self.high as int, frame.unit() as int),
            offset % 10 == 0,
            offset <= 10 * self.low,
    {
        let unit: u64 = frame.leading_unit();
        proof {
            frame.lemma_unit();
            lemma_leading(self.low as int, unit as int);
            lemma_leading(self.high as int, unit as int);
            lemma_scale(self.low as int, self.high as int, unit as int);
            assert((self.high / unit) * unit <= 9 * unit) by (nonlinear_arith)
                requires
                    self.high / unit <= 9,
            ;
        }
        let edge: u64 = (self.high / unit) * unit;
        if self.low / unit == self.high / unit {
            10 * edge
        } else {
            9 * edge
        }
    }

    /// Scales the range up by one digit.
    pub fn scaled(&self, frame: &Frame) -> (range: CodingRange)
        requires
            frame.wf(),
            self.wf(*frame),
            self.scaling_spec(*frame) != Scaling::Settled,
        ensures
            range.low == scaled_low(self.low as int, self.high as int, frame.unit() as int),
            range.high == scaled_high(self.low as int, self.high as int, frame.unit() as int),
            range.wf(*frame),
            range.span() == 10 * self.span(),
    {
        proof {
            frame.lemma_unit();
            lemma_scale(self.low as int, self.high as int, frame.unit() as int);
        }
        let offset: u64 = self.offset(frame);
        CodingRange { low: 10 * self.low - offset, high: 10 * self.high + 9 - offset }
    }
}

} // verus!
