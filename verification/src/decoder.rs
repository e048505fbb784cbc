//! The decoder engine: it follows the range of the encoder, reads which
//! share the code value lies in, and takes in one digit per scaling.

use vstd::arithmetic::div_mod::{
    lemma_fundamental_div_mod,
    lemma_mod_bound,
};
use vstd::prelude::*;
use vstd::slice::{slice_subrange, slice_to_vec};
use crate::codebook::{codebook, lemma_book_unit, Codebook};
use crate::cumulative::{lemma_position_unique, locate, CumulativeTable};
use crate::error::CodecError;
use crate::radix::{
    all_digits,
    digits,
    digits_value,
    le_value,
    lemma_pow10_monotonic,
    lemma_pow10_values,
    pow10,
    push_digits,
    read_le,
    Frame,
};
use crate::range::{
    lemma_scale,
    narrowed_high,
    narrowed_low,
    scale_offset,
    scale_ready,
    scaled_high,
    scaled_low,
    CodingRange,
    Scaling,
};

verus! {

/// Where the code value lies in the range `[low, high]`, on the scale of the
/// cumulative counts: the greatest count whose narrowed lower bound does not
/// exceed `code`.
pub open spec fn target_of(low: int, high: int, code: int, total: int) -> int {
    ((code - low + 1) * total - 1) / (high - low + 1)
}

/// A decoded sequence with `symbol` in front of it, where there is one.
pub open spec fn with_symbol(symbol: u8, rest: Result<(Seq<u8>, int), CodecError>) -> Result<
    (Seq<u8>, int),
    CodecError,
> {
    match rest {
        Ok((symbols, end)) => Ok((seq![symbol] + symbols, end)),
        Err(e) => Err(e),
    }
}

/// What the decoder yields from a range on, with `count` symbols to go: the
/// symbols, and the place in the stream behind the last digit taken in.
/// First the range is scaled as long as a scaling applies, and each scaling
/// takes the digit at `at` into the code value; then the next symbol is read.
///
/// The stream is truncated when a scaling finds no digit left. A byte that
/// is no decimal digit makes the artifact corrupt.
pub open spec fn read_settling(
    book: Codebook,
    low: int,
    high: int,
    code: int,
    stream: Seq<u8>,
    at: int,
    count: nat,
) -> Result<(Seq<u8>, int), CodecError>
    decreases count, 1int, 10 * book.unit() - (high - low + 1),
    when book.wf() && book.admits(low, high)
    via read_settling_decreases
{
    let unit = book.unit();
    if scale_ready(low, high, unit) {
        if at < 0 || at >= stream.len() {
            Err(CodecError::TruncatedStream)
        } else if stream[at] > 9 {
            Err(CodecError::CorruptHeader)
        } else {
            read_settling(
                book,
                scaled_low(low, high, unit),
                scaled_high(low, high, unit),
                10 * code + stream[at] - scale_offset(low, high, unit),
                stream,
                at + 1,
                count,
            )
        }
    } else {
        read_symbols(book, low, high, code, stream, at, count)
    }
}

/// What the decoder yields from a settled or initial range on: the symbol
/// in whose share the code value lies, then what follows once the range has
/// been narrowed to that share. A code value outside the range is none that
/// an encoder wrote for this header: the stream counts as truncated.
pub open spec fn read_symbols(
    book: Codebook,
    low: int,
    high: int,
    code: int,
    stream: Seq<u8>,
    at: int,
    count: nat,
) -> Result<(Seq<u8>, int), CodecError>
    decreases count, 0int, 0int,
    when book.wf() && book.admits(low, high)
    via read_symbols_decreases
{
    if count == 0 {
        Ok((Seq::empty(), at))
    } else if !(low <= code <= high) {
        Err(CodecError::TruncatedStream)
    } else {
        let symbol = book.entries[locate(
            book.entries,
            target_of(low, high, code, book.total),
        )].symbol;
        with_symbol(
            symbol,
            read_settling(
                book,
                book.narrow_low(low, high, symbol),
                book.narrow_high(low, high, symbol),
                code,
                stream,
                at,
                (count - 1) as nat,
            ),
        )
    }
}

/// A scaling widens the range, so the decoder settles after finitely many.
#[via_fn]
proof fn read_settling_decreases(
    book: Codebook,
    low: int,
    high: int,
    code: int,
    stream: Seq<u8>,
    at: int,
    count: nat,
) {
    lemma_book_unit(book);
    if scale_ready(low, high, book.unit()) {
        lemma_scale(low, high, book.unit());
    }
}

/// Each symbol read leaves one symbol less to read.
#[via_fn]
proof fn read_symbols_decreases(
    book: Codebook,
    low: int,
    high: int,
    code: int,
    stream: Seq<u8>,
    at: int,
    count: nat,
) {
}

/// What the decoder yields for a digit stream in full: the first digits,
/// as many as the frame has, are the first code value, and `count` symbols
/// are read from the range `[low, high]` on.
pub open spec fn read_digits(book: Codebook, low: int, high: int, stream: Seq<u8>, count: nat)
    -> Result<(Seq<u8>, int), CodecError> {
    if stream.len() < book.width {
        Err(CodecError::TruncatedStream)
    } else if !all_digits(stream.take(book.width as int)) {
        Err(CodecError::CorruptHeader)
    } else {
        read_symbols(
            book,
            low,
            high,
            digits_value(stream.take(book.width as int)) as int,
            stream,
            book.width as int,
            count,
        )
    }
}

/// The view of what a decoder yields: the symbols and the end of what was
/// taken in, or the failure.
pub open spec fn decoded_of(result: Result<(Vec<u8>, usize), CodecError>) -> Result<
    (Seq<u8>, int),
    CodecError,
> {
    match result {
        Ok((symbols, end)) => Ok((symbols@, end as int)),
        Err(e) => Err(e),
    }
}

/// A quotient is at most `k` exactly when the dividend is below the next
/// multiple of the divisor.
pub proof fn lemma_quotient_at_most(a: int, d: int, k: int)
    requires
        d > 0,
    ensures
        a / d <= k <==> a < (k + 1) * d,
{
    lemma_fundamental_div_mod(a, d);
    lemma_mod_bound(a, d);
    let q = a / d;
    assert(d * q == q * d) by (nonlinear_arith);
    if q <= k {
        assert(q * d + d <= (k + 1) * d) by (nonlinear_arith)
            requires
                q <= k,
                d > 0,
        ;
    } else {
        assert((k + 1) * d <= q * d) by (nonlinear_arith)
            requires
                k + 1 <= q,
                d > 0,
        ;
    }
}

/// The share of a count reaches the code value exactly when the count does
/// not exceed the target of the code value.
pub proof fn lemma_target(low: int, high: int, code: int, part: int, total: int)
    requires
        low <= code <= high,
        0 <= part <= total,
        total >= 1,
    ensures
        narrowed_low(low, high, part, total) <= code <==> part <= target_of(low, high, code, total),
        0 <= target_of(low, high, code, total) < total,
{
    let span = high - low + 1;
    let off = code - low;
    let t = target_of(low, high, code, total);
    lemma_quotient_at_most(span * part, total, off);
    // part <= t  <==>  part - 1 < t  <==>  !(t <= part - 1)
    lemma_quotient_at_most((off + 1) * total - 1, span, part - 1);
    assert(part * span == span * part) by (nonlinear_arith);
    lemma_quotient_at_most((off + 1) * total - 1, span, -1);
    lemma_quotient_at_most((off + 1) * total - 1, span, total - 1);
    assert((off + 1) * total >= 1 && (off + 1) * total <= total * span) by (nonlinear_arith)
        requires
            0 <= off < span,
            total >= 1,
    ;
}

/// The code value lies in the range narrowed to a share exactly when its
/// target lies in that share.
pub proof fn lemma_target_share(
    low: int,
    high: int,
    code: int,
    lower: int,
    upper: int,
    total: int,
)
    requires
        low <= code <= high,
        0 <= lower <= upper <= total,
        total >= 1,
    ensures
        narrowed_low(low, high, lower, total) <= code <= narrowed_high(low, high, upper, total)
            <==> lower <= target_of(low, high, code, total) < upper,
{
    lemma_target(low, high, code, lower, total);
    lemma_target(low, high, code, upper, total);
}

/// Reads the first code value: the number that the first digits of the
/// stream write, as many digits as the frame has.
fn first_code(frame: &Frame, stream: &[u8]) -> (result: Result<u64, CodecError>)
    requires
        frame.wf(),
    ensures
        match result {
            Ok(code) => {
                &&& stream@.len() >= frame.width()
                &&& all_digits(stream@.take(frame.width() as int))
                &&& code == digits_value(stream@.take(frame.width() as int))
                &&& code < 10 * frame.unit()
            },
            Err(e) => if stream@.len() < frame.width() {
                e == CodecError::TruncatedStream
            } else {
                e == CodecError::CorruptHeader && !all_digits(stream@.take(frame.width() as int))
            },
        },
{
    let width: usize = frame.digit_count() as usize;
    if stream.len() < width {
        return Err(CodecError::TruncatedStream);
    }
    let mut code: u64 = 0;
    let mut at: usize = 0;
    while at < width
        invariant
            at <= width <= stream@.len(),
            width == frame.width(),
            width <= 10,
            all_digits(stream@.take(at as int)),
            code == digits_value(stream@.take(at as int)),
            code < pow10(at as nat),
        decreases width - at,
    {
        let digit: u8 = stream[at];
        proof {
            let next = stream@.take(at + 1);
            assert(next.drop_last() =~= stream@.take(at as int));
            assert(next.last() == digit);
            lemma_pow10_values();
            lemma_pow10_monotonic(at as nat, 9);
            if digit > 9 {
                assert(stream@.take(width as int)[at as int] == digit);
            }
        }
        if digit > 9 {
            return Err(CodecError::CorruptHeader);
        }
        code = 10 * code + digit as u64;
        at = at + 1;
        proof {
            assert forall|k: int| 0 <= k < at implies #[trigger] stream@.take(at as int)[k] <= 9 by {
                if k < at - 1 {
                    assert(stream@.take(at - 1)[k] <= 9);
                }
            }
        }
    }
    proof {
        frame.lemma_unit();
    }
    Ok(code)
}

/// Scales the range until it has settled, taking one digit of the stream
/// into the code value with each scaling.
fn take_in(
    frame: &Frame,
    range: &mut CodingRange,
    code: &mut u64,
    stream: &[u8],
    at: &mut usize,
    Ghost(book): Ghost<Codebook>,
    Ghost(left): Ghost<nat>,
) -> (result: Result<(), CodecError>)
    requires
        frame.wf(),
        book.wf(),
        book.width == frame.width(),
        old(range).wf(*frame),
        old(range).low <= *old(code) <= old(range).high,
    ensures
        result is Ok ==> {
            &&& final(range).wf(*frame)
            &&& final(range).low <= *final(code) <= final(range).high
            &&& *old(at) <= *final(at)
            &&& read_settling(
                book,
                old(range).low as int,
                old(range).high as int,
                *old(code) as int,
                stream@,
                *old(at) as int,
                left,
            ) == read_symbols(
                book,
                final(range).low as int,
                final(range).high as int,
                *final(code) as int,
                stream@,
                *final(at) as int,
                left,
            )
        },
        result is Err ==> read_settling(
            book,
            old(range).low as int,
            old(range).high as int,
            *old(code) as int,
            stream@,
            *old(at) as int,
            left,
        ) == Err::<(Seq<u8>, int), CodecError>(result->Err_0),
{
    let ghost goal = read_settling(
        book,
        range.low as int,
        range.high as int,
        *code as int,
        stream@,
        *at as int,
        left,
    );
    proof {
        frame.lemma_unit();
        lemma_book_unit(book);
    }
    loop
        invariant
            frame.wf(),
            book.wf(),
            book.width == frame.width(),
            frame.unit() <= 1_000_000_000,
            range.wf(*frame),
            range.low <= *code <= range.high,
            *old(at) <= *at,
            goal == read_settling(
                book,
                old(range).low as int,
                old(range).high as int,
                *old(code) as int,
                stream@,
                *old(at) as int,
                left,
            ),
            goal == read_settling(
                book,
                range.low as int,
                range.high as int,
                *code as int,
                stream@,
                *at as int,
                left,
            ),
        ensures
            range.wf(*frame),
            range.low <= *code <= range.high,
            *old(at) <= *at,
            goal == read_symbols(
                book,
                range.low as int,
                range.high as int,
                *code as int,
                stream@,
                *at as int,
                left,
            ),
        decreases 10 * frame.unit() - range.span(),
    {
        let kind: Scaling = range.scaling(frame);
        if kind == Scaling::Settled {
            break ;
        }
        proof {
            lemma_scale(range.low as int, range.high as int, frame.unit() as int);
        }
        if *at >= stream.len() {
            return Err(CodecError::TruncatedStream);
        }
        let digit: u8 = stream[*at];
        if digit > 9 {
            return Err(CodecError::CorruptHeader);
        }
        let offset: u64 = range.offset(frame);
        *code = 10 * *code + digit as u64 - offset;
        *range = range.scaled(frame);
        *at = *at + 1;
    }
    Ok(())
}

/// Reads `count` symbols from a digit stream in full, starting from the
/// range `[lower_bound, upper_bound]`. Returns the symbols and the number of
/// digits that were taken in.
pub fn decode_digits(
    table: &CumulativeTable,
    frame: &Frame,
    lower_bound: u32,
    upper_bound: u32,
    count: u32,
    stream: &[u8],
) -> (result: Result<(Vec<u8>, usize), CodecError>)
    requires
        table.wf(),
        frame.wf(),
        lower_bound <= upper_bound < 10 * frame.unit(),
    ensures
        decoded_of(result) == read_digits(
            codebook(*table, *frame),
            lower_bound as int,
            upper_bound as int,
            stream@,
            count as nat,
        ),
{
    let ghost book = codebook(*table, *frame);
    let ghost goal = read_digits(
        book,
        lower_bound as int,
        upper_bound as int,
        stream@,
        count as nat,
    );
    let total: u32 = table.symbol_count();
    let mut code: u64 = match first_code(frame, stream) {
        Ok(code) => code,
        Err(e) => {
            return Err(e);
        },
    };
    let mut at: usize = frame.digit_count() as usize;
    let mut range: CodingRange = CodingRange::new(lower_bound as u64, upper_bound as u64);
    let mut symbols: Vec<u8> = Vec::new();
    let mut left: u32 = count;
    proof {
        frame.lemma_unit();
        assert(Seq::<u8>::empty() + Seq::<u8>::empty() =~= Seq::<u8>::empty());
    }
    while left > 0
        invariant
            table.wf(),
            frame.wf(),
            book == codebook(*table, *frame),
            total == table.total(),
            range.wf(*frame),
            frame.unit() <= 1_000_000_000,
            goal == read_digits(
                book,
                lower_bound as int,
                upper_bound as int,
                stream@,
                count as nat,
            ),
            goal == ahead(
                symbols@,
                read_symbols(
                    book,
                    range.low as int,
                    range.high as int,
                    code as int,
                    stream@,
                    at as int,
                    left as nat,
                ),
            ),
        decreases left,
    {
        if code < range.low || code > range.high {
            return Err(CodecError::TruncatedStream);
        }
        proof {
            lemma_target(range.low as int, range.high as int, code as int, 0, total as int);
            assert(1 <= (code - range.low + 1) * total <= 100_000_000_000 * 0x1_0000_0000)
                by (nonlinear_arith)
                requires
                    1 <= code - range.low + 1 <= 100_000_000_000,
                    1 <= total <= 0x1_0000_0000,
            ;
        }
        let offset: u128 = (code - range.low + 1) as u128;
        let span: u128 = (range.high - range.low + 1) as u128;
        let target: u32 = ((offset * (total as u128) - 1) / span) as u32;
        let (place, upper, lower): (usize, u32, u32) = table.find_share(target);
        let symbol: u8 = table.symbol_at(place);
        proof {
            lemma_position_unique(book.entries, place as int);
            lemma_target_share(
                range.low as int,
                range.high as int,
                code as int,
                lower as int,
                upper as int,
                total as int,
            );
        }
        range = match range.narrow(frame, lower, upper, total) {
            Ok(narrowed) => narrowed,
            Err(e) => {
                return Err(e);
            },
        };
        proof {
            lemma_ahead_symbol(
                symbols@,
                symbol,
                read_settling(
                    book,
                    range.low as int,
                    range.high as int,
                    code as int,
                    stream@,
                    at as int,
                    (left - 1) as nat,
                ),
            );
        }
        symbols.push(symbol);
        left = left - 1;
        match take_in(frame, &mut range, &mut code, stream, &mut at, Ghost(book), Ghost(left as nat)) {
            Ok(()) => {},
            Err(e) => {
                return Err(e);
            },
        }
    }
    Ok((symbols, at))
}

/// What is decoded in all, once `done` has been decoded and `rest` is what
/// follows.
pub open spec fn ahead(done: Seq<u8>, rest: Result<(Seq<u8>, int), CodecError>) -> Result<
    (Seq<u8>, int),
    CodecError,
> {
    match rest {
        Ok((symbols, end)) => Ok((done + symbols, end)),
        Err(e) => Err(e),
    }
}

/// A symbol that has been decoded moves from the front of what follows to
/// the end of what is done.
pub proof fn lemma_ahead_symbol(
    done: Seq<u8>,
    symbol: u8,
    rest: Result<(Seq<u8>, int), CodecError>,
)
    ensures
        ahead(done, with_symbol(symbol, rest)) == ahead(done.push(symbol), rest),
{
    match rest {
        Ok((symbols, end)) => {
            assert(done + (seq![symbol] + symbols) =~= done.push(symbol) + symbols);
        },
        Err(_) => {},
    }
}

/// The flush value of a stream: the number that its last four bytes write,
/// least significant first.
pub open spec fn flush_value(stream: Seq<u8>) -> nat {
    le_value(stream.skip(stream.len() - 4))
}

/// Whether the flush value of a stream is a value of the frame.
pub open spec fn flush_fits(width: nat, stream: Seq<u8>) -> bool {
    flush_value(stream) < pow10(width)
}

/// The digits that a stream holds: its digit bytes, followed by the digits
/// of its flush value, as many as the frame has.
pub open spec fn unpacked(width: nat, stream: Seq<u8>) -> Seq<u8> {
    stream.take(stream.len() - 4) + digits(flush_value(stream), width)
}

/// What the decoder yields for a stream: `count` symbols read from the
/// digits that the stream holds, which must be taken in to the last.
///
/// The stream is truncated where it does not hold what the header
/// promises: where it has no room for the flush value, where its digits run
/// out, and where its last four bytes are not the flush value that belongs
/// to its digits, because they write no value of the frame, or a code value
/// outside the range, or leave digits over. A stream that has lost bytes at
/// its end shows in one of these ways, unless what is left is the stream of
/// other data. A digit byte above nine makes the artifact corrupt.
pub open spec fn decode_stream(book: Codebook, low: int, high: int, stream: Seq<u8>, count: nat)
    -> Result<Seq<u8>, CodecError> {
    if stream.len() < 4 {
        Err(CodecError::TruncatedStream)
    } else if !flush_fits(book.width, stream) {
        Err(CodecError::TruncatedStream)
    } else {
        match read_digits(book, low, high, unpacked(book.width, stream), count) {
            Ok((symbols, end)) => if end == unpacked(book.width, stream).len() {
                Ok(symbols)
            } else {
                Err(CodecError::TruncatedStream)
            },
            Err(e) => Err(e),
        }
    }
}

/// The view of what decoding a stream yields: the symbols, or the failure.
pub open spec fn symbols_of(result: Result<Vec<u8>, CodecError>) -> Result<Seq<u8>, CodecError> {
    match result {
        Ok(symbols) => Ok(symbols@),
        Err(e) => Err(e),
    }
}

/// Reads `count` symbols from the stream, starting from the range
/// `[lower_bound, upper_bound]`: the digit bytes and the digits of the
/// flush value feed the code value, and all of them must be taken in.
pub fn decode_process(
    table: &CumulativeTable,
    frame: &Frame,
    lower_bound: u32,
    upper_bound: u32,
    count: u32,
    stream: &[u8],
) -> (result: Result<Vec<u8>, CodecError>)
    requires
        table.wf(),
        frame.wf(),
        lower_bound <= upper_bound < 10 * frame.unit(),
    ensures
        symbols_of(result) == decode_stream(
            codebook(*table, *frame),
            lower_bound as int,
            upper_bound as int,
            stream@,
            count as nat,
        ),
{
    let length: usize = stream.len();
    if length < 4 {
        return Err(CodecError::TruncatedStream);
    }
    let flush: u64 = read_le(stream, length - 4, 4);
    let width: u32 = frame.digit_count();
    let mut full: Vec<u8> = slice_to_vec(slice_subrange(stream, 0, length - 4));
    proof {
        frame.lemma_unit();
        assert(stream@.subrange(length - 4, length as int) =~= stream@.skip(length - 4));
        assert(stream@.subrange(0, length - 4) =~= stream@.take(length - 4));
    }
    if flush >= 10 * frame.leading_unit() {
        return Err(CodecError::TruncatedStream);
    }
    push_digits(&mut full, flush, width);
    match decode_digits(table, frame, lower_bound, upper_bound, count, full.as_slice()) {
        Ok((symbols, end)) => {
            if end == full.len() {
                Ok(symbols)
            } else {
                Err(CodecError::TruncatedStream)
            }
        },
        Err(e) => Err(e),
    }
}

} // verus!
