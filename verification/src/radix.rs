//! Positional arithmetic: powers of ten, digit sequences, the fixed-width
//! frame inside which the coding range lives, little-endian bytes, and two
//! shortest forms of a number.

use vstd::prelude::*;

verus! {

/// Ten to the power `e`.
pub open spec fn pow10(e: nat) -> nat
    decreases e,
{
    if e == 0 {
        1
    } else {
        10 * pow10((e - 1) as nat)
    }
}

/// The number of decimal digits of `n`; zero has one digit.
pub open spec fn digit_width(n: nat) -> nat
    decreases n,
{
    if n < 10 {
        1
    } else {
        1 + digit_width(n / 10)
    }
}

/// The `w` lowest decimal digits of `x`, most significant first.
pub open spec fn digits(x: nat, w: nat) -> Seq<u8>
    decreases w,
{
    if w == 0 {
        Seq::empty()
    } else {
        digits(x / 10, (w - 1) as nat).push((x % 10) as u8)
    }
}

/// The number that a sequence of decimal digits writes, most significant first.
pub open spec fn digits_value(s: Seq<u8>) -> nat
    decreases s.len(),
{
    if s.len() == 0 {
        0
    } else {
        10 * digits_value(s.drop_last()) + s.last() as nat
    }
}

/// Whether every element of `s` is a decimal digit.
pub open spec fn all_digits(s: Seq<u8>) -> bool {
    forall|i: int| 0 <= i < s.len() ==> #[trigger] s[i] <= 9
}

/// A power of ten is positive, and from ten on it is ten times the one
/// before.
pub proof fn lemma_pow10_positive(e: nat)
    ensures
        pow10(e) >= 1,
        e >= 1 ==> pow10(e) % 10 == 0 && pow10(e) >= 10 && pow10(e) / 10 == pow10((e - 1) as nat),
    decreases e,
{
    if e > 0 {
        lemma_pow10_positive((e - 1) as nat);
    }
}

/// The powers of ten that a frame can have.
pub proof fn lemma_pow10_values()
    ensures
        pow10(0) == 1,
        pow10(1) == 10,
        pow10(2) == 100,
        pow10(3) == 1_000,
        pow10(4) == 10_000,
        pow10(5) == 100_000,
        pow10(6) == 1_000_000,
        pow10(7) == 10_000_000,
        pow10(8) == 100_000_000,
        pow10(9) == 1_000_000_000,
        pow10(10) == 10_000_000_000,
{
    reveal_with_fuel(pow10, 12);
}

/// A greater exponent gives no smaller power of ten.
pub proof fn lemma_pow10_monotonic(a: nat, b: nat)
    requires
        a <= b,
    ensures
        pow10(a) <= pow10(b),
    decreases b,
{
    if a < b {
        lemma_pow10_monotonic(a, (b - 1) as nat);
        lemma_pow10_positive((b - 1) as nat);
    }
}

/// A number has exactly `digit_width` digits: it lies between the two
/// neighbouring powers of ten.
pub proof fn lemma_digit_width_bounds(n: nat)
    ensures
        digit_width(n) >= 1,
        n < pow10(digit_width(n)),
        n >= 10 ==> pow10((digit_width(n) - 1) as nat) <= n,
    decreases n,
{
    if n >= 10 {
        lemma_digit_width_bounds(n / 10);
        reveal_with_fuel(pow10, 2);
    } else {
        reveal_with_fuel(pow10, 2);
    }
}

/// The `w` lowest digits of a number are `w` decimal digits.
pub proof fn lemma_digits_shape(x: nat, w: nat)
    ensures
        digits(x, w).len() == w,
        all_digits(digits(x, w)),
    decreases w,
{
    if w > 0 {
        lemma_digits_shape(x / 10, (w - 1) as nat);
    }
}

/// Writing the `w` lowest digits of a number below `10^w` and reading them
/// back gives the number.
pub proof fn lemma_digits_value(x: nat, w: nat)
    requires
        x < pow10(w),
    ensures
        digits_value(digits(x, w)) == x,
    decreases w,
{
    if w > 0 {
        let head = digits(x / 10, (w - 1) as nat);
        lemma_digits_value(x / 10, (w - 1) as nat);
        assert(digits(x, w).drop_last() =~= head);
    }
}

/// The leading digit can be split off: the digits of `d * 10^w + r` are `d`
/// followed by the `w` digits of `r`.
pub proof fn lemma_digits_leading(d: nat, r: nat, w: nat)
    requires
        d <= 9,
        r < pow10(w),
    ensures
        digits(d * pow10(w) + r, w + 1) =~= seq![d as u8] + digits(r, w),
    decreases w,
{
    if w == 0 {
        assert(digits(d, 1) =~= digits(d / 10, 0).push((d % 10) as u8));
    } else {
        let p = pow10((w - 1) as nat);
        let x = d * pow10(w) + r;
        lemma_pow10_positive((w - 1) as nat);
        assert(d * pow10(w) == 10 * (d * p)) by (nonlinear_arith)
            requires
                pow10(w) == 10 * p,
        ;
        assert(x / 10 == d * p + r / 10);
        assert(x % 10 == r % 10);
        lemma_digits_leading(d, r / 10, (w - 1) as nat);
        assert(digits(x, w + 1) =~= digits(x / 10, w).push((x % 10) as u8));
        assert(digits(r, w) =~= digits(r / 10, (w - 1) as nat).push((r % 10) as u8));
    }
}

/// The decimal frame of a coder: every bound and code value is written with
/// `width` digits, so it lies below `10 * unit`, where `unit` is the weight of
/// the leading digit.
#[derive(Clone, Copy, Debug)]
pub struct Frame {
    width: u32,
    unit: u64,
}

impl Frame {
    /// The number of digits of the frame.
    pub closed spec fn width(&self) -> nat {
        self.width as nat
    }

    /// The weight of the leading digit.
    pub closed spec fn unit(&self) -> nat {
        self.unit as nat
    }

    /// A frame has between one and ten digits, and its unit is the matching
    /// power of ten.
    pub open spec fn wf(&self) -> bool {
        &&& 1 <= self.width() <= 10
        &&& self.unit() == pow10((self.width() - 1) as nat)
    }

    /// The frame with as many digits as `upper_bound` has.
    pub fn for_bound(upper_bound: u32) -> (frame: Frame)
        ensures
            frame.wf(),
            frame.width() == digit_width(upper_bound as nat),
            upper_bound < 10 * frame.unit(),
    {
        let mut width: u32 = 1;
        let mut unit: u64 = 1;
        let mut rest: u32 = upper_bound;
        proof {
            lemma_digit_width_bounds(upper_bound as nat);
        }
        while rest >= 10
            invariant
                1 <= width <= 10,
                unit == pow10((width - 1) as nat),
                digit_width(upper_bound as nat) == (width - 1) + digit_width(rest as nat),
                rest as nat * unit <= upper_bound,
            decreases rest,
        {
            proof {
                lemma_digit_width_bounds((rest / 10) as nat);
                assert((rest / 10) as nat * (10 * unit) <= rest as nat * unit) by (nonlinear_arith)
                    requires
                        rest >= 0,
                        unit >= 0,
                ;
                assert(10 * unit <= (rest / 10) as nat * (10 * unit)) by (nonlinear_arith)
                    requires
                        rest / 10 >= 1,
                        unit >= 0,
                ;
            }
            rest = rest / 10;
            unit = unit * 10;
            width = width + 1;
            proof {
                assert(width <= 10) by {
                    // unit <= upper_bound < 2^32 bounds the width
                    if width > 10 {
                        lemma_pow10_monotonic(10, (width - 1) as nat);
                        lemma_pow10_values();
                    }
                }
            }
        }
        Frame { width, unit }
    }

    /// The unit of a frame is a power of ten from one to a thousand million.
    pub proof fn lemma_unit(&self)
        requires
            self.wf(),
        ensures
            1 <= self.unit() <= 1_000_000_000,
            self.unit() == 1 || self.unit() % 10 == 0,
            10 * self.unit() == pow10(self.width()),
    {
        lemma_pow10_values();
        lemma_pow10_monotonic((self.width() - 1) as nat, 9);
        lemma_pow10_positive((self.width() - 1) as nat);
    }

    /// The number of digits.
    pub fn digit_count(&self) -> (w: u32)
        ensures
            w == self.width(),
    {
        self.width
    }

    /// The weight of the leading digit.
    pub fn leading_unit(&self) -> (u: u64)
        ensures
            u == self.unit(),
    {
        self.unit
    }
}

/// The leading digit of `number` in a frame whose leading digit weighs `unit`.
pub fn first_digit(number: u64, unit: u64) -> (digit: u64)
    requires
        unit >= 1,
    ensures
        digit == number as int / unit as int,
{
    number / unit
}

/// Appends the `width` lowest decimal digits of `value`, most significant
/// first.
pub fn push_digits(out: &mut Vec<u8>, value: u64, width: u32)
    ensures
        final(out)@ == old(out)@ + digits(value as nat, width as nat),
    decreases width,
{
    if width == 0 {
        assert(out@ =~= old(out)@ + digits(value as nat, 0));
    } else {
        push_digits(out, value / 10, width - 1);
        out.push((value % 10) as u8);
        assert(out@ =~= old(out)@ + digits(value as nat, width as nat));
    }
}

/// A number without its trailing decimal zeros; zero stays zero.
pub open spec fn without_trailing_zeros(number: nat) -> nat
    decreases number,
{
    if number == 0 || number % 10 != 0 {
        number
    } else {
        without_trailing_zeros(number / 10)
    }
}

/// The bytes of a number, least significant first, as few as write it; zero
/// takes one byte.
pub open spec fn minimal_bytes(number: nat) -> Seq<u8>
    decreases number,
{
    if number < 256 {
        seq![number as u8]
    } else {
        seq![(number % 256) as u8] + minimal_bytes(number / 256)
    }
}

/// Drops the trailing decimal zeros of `number`.
pub fn remove_trailing_zeros(number: u32) -> (stripped: u32)
    ensures
        stripped == without_trailing_zeros(number as nat),
{
    let mut rest: u32 = number;
    while rest != 0 && rest % 10 == 0
        invariant
            without_trailing_zeros(rest as nat) == without_trailing_zeros(number as nat),
        decreases rest,
    {
        rest = rest / 10;
    }
    rest
}

/// Writes `number` in as few bytes as it takes, least significant first.
pub fn get_minimal_integer(number: u32) -> (bytes: Vec<u8>)
    ensures
        bytes@ == minimal_bytes(number as nat),
{
    let mut bytes: Vec<u8> = Vec::new();
    let mut rest: u32 = number;
    assert(bytes@ + minimal_bytes(rest as nat) =~= minimal_bytes(number as nat));
    while rest >= 256
        invariant
            bytes@ + minimal_bytes(rest as nat) == minimal_bytes(number as nat),
        decreases rest,
    {
        let ghost before = bytes@;
        bytes.push((rest % 256) as u8);
        assert(bytes@ + minimal_bytes((rest / 256) as nat) =~= before + minimal_bytes(
            rest as nat,
        ));
        rest = rest / 256;
    }
    let ghost before = bytes@;
    bytes.push(rest as u8);
    assert(bytes@ =~= before + minimal_bytes(rest as nat));
    bytes
}

/// 256 to the power `e`.
pub open spec fn pow256(e: nat) -> nat
    decreases e,
{
    if e == 0 {
        1
    } else {
        256 * pow256((e - 1) as nat)
    }
}

/// The `width` lowest bytes of `value`, least significant first.
pub open spec fn le_bytes(value: nat, width: nat) -> Seq<u8>
    decreases width,
{
    if width == 0 {
        Seq::empty()
    } else {
        seq![(value % 256) as u8] + le_bytes(value / 256, (width - 1) as nat)
    }
}

/// The number that bytes write, least significant first.
pub open spec fn le_value(bytes: Seq<u8>) -> nat
    decreases bytes.len(),
{
    if bytes.len() == 0 {
        0
    } else {
        bytes[0] as nat + 256 * le_value(bytes.skip(1))
    }
}

/// The powers of 256 up to the eighth.
pub proof fn lemma_pow256_values()
    ensures
        pow256(0) == 1,
        pow256(1) == 0x100,
        pow256(2) == 0x1_0000,
        pow256(3) == 0x100_0000,
        pow256(4) == 0x1_0000_0000,
        pow256(5) == 0x100_0000_0000,
        pow256(6) == 0x1_0000_0000_0000,
        pow256(7) == 0x100_0000_0000_0000,
        pow256(8) == 0x1_0000_0000_0000_0000,
{
    reveal_with_fuel(pow256, 10);
}

/// A number written in `width` bytes takes `width` bytes.
pub proof fn lemma_le_bytes_len(value: nat, width: nat)
    ensures
        le_bytes(value, width).len() == width,
    decreases width,
{
    if width > 0 {
        lemma_le_bytes_len(value / 256, (width - 1) as nat);
    }
}

/// Bytes write a number below the matching power of 256.
pub proof fn lemma_le_value_bound(bytes: Seq<u8>)
    ensures
        le_value(bytes) < pow256(bytes.len()),
    decreases bytes.len(),
{
    if bytes.len() > 0 {
        lemma_le_value_bound(bytes.skip(1));
    }
}

/// Writing a number in enough bytes and reading them back gives the number.
pub proof fn lemma_le_round_trip(value: nat, width: nat)
    requires
        value < pow256(width),
    ensures
        le_value(le_bytes(value, width)) == value,
    decreases width,
{
    if width > 0 {
        let bytes = le_bytes(value, width);
        lemma_le_round_trip(value / 256, (width - 1) as nat);
        assert(bytes.skip(1) =~= le_bytes(value / 256, (width - 1) as nat));
    }
}

/// Appends the `width` lowest bytes of `value`, least significant first.
pub fn push_le(out: &mut Vec<u8>, value: u64, width: u32)
    ensures
        final(out)@ == old(out)@ + le_bytes(value as nat, width as nat),
    decreases width,
{
    if width == 0 {
        assert(out@ =~= old(out)@ + le_bytes(value as nat, 0));
    } else {
        out.push((value % 256) as u8);
        let ghost middle = out@;
        push_le(out, value / 256, width - 1);
        assert(out@ =~= old(out)@ + le_bytes(value as nat, width as nat)) by {
            assert(middle == old(out)@.push((value % 256) as u8));
        }
    }
}

/// Reads the number that the `width` bytes from `at` on write, least
/// significant first.
pub fn read_le(bytes: &[u8], at: usize, width: usize) -> (value: u64)
    requires
        width <= 8,
        at + width <= bytes@.len(),
    ensures
        value == le_value(bytes@.subrange(at as int, at + width)),
{
    let mut value: u64 = 0;
    let mut left: usize = width;
    let available: usize = bytes.len();
    proof {
        lemma_pow256_values();
    }
    while left > 0
        invariant
            left <= width <= 8,
            at + width <= bytes@.len(),
            available == bytes@.len(),
            value == le_value(bytes@.subrange(at + left, at + width)),
            value < pow256((width - left) as nat),
        decreases left,
    {
        left = left - 1;
        let byte: u8 = bytes[at + left];
        proof {
            let longer = bytes@.subrange(at + left, at + width);
            assert(longer.skip(1) =~= bytes@.subrange(at + left + 1, at + width));
            assert(longer[0] == byte);
            lemma_pow256_order((width - left) as nat);
        }
        value = 256 * value + byte as u64;
    }
    value
}

/// The powers of 256 up to the eighth rise and fit in 64 bits but the last.
proof fn lemma_pow256_order(e: nat)
    requires
        1 <= e <= 8,
    ensures
        pow256(e) == 256 * pow256((e - 1) as nat),
        pow256((e - 1) as nat) <= 0x100_0000_0000_0000,
{
    lemma_pow256_values();
}

} // verus!
