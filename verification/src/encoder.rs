//! The encoder engine: it narrows the coding range symbol by symbol and
//! writes out every decimal digit that has settled.

use vstd::prelude::*;
use crate::codebook::{codebook, lemma_book_unit, lemma_narrow_symbol, Codebook};
use crate::cumulative::CumulativeTable;
use crate::error::CodecError;
use crate::model::holds;
use crate::radix::{
    first_digit,
    le_bytes,
    lemma_pow10_monotonic,
    lemma_pow10_positive,
    pow10,
    push_le,
    Frame,
};
use crate::range::{
    lemma_leading,
    lemma_scale,
    scale_ready,
    scaled_high,
    scaled_low,
    shift_ready,
    straddle_ready,
    CodingRange,
    Scaling,
};

verus! {

/// The leading digit of a value of the frame, as a digit of the stream.
pub open spec fn leading_digit(value: int, unit: int) -> u8 {
    ((value / unit) % 10) as u8
}

/// `count` times the digit `digit`.
pub open spec fn repeat(digit: u8, count: nat) -> Seq<u8> {
    Seq::new(count, |i: int| digit)
}

/// The digit that stands for each dropped second digit once the leading
/// digit has settled: nines when it settled on the lower side, which is the
/// leading digit `anchor` that the lower bound had, zeros otherwise.
pub open spec fn filler(digit: int, anchor: int) -> u8 {
    if digit == anchor {
        9
    } else {
        0
    }
}

/// A stream with `head` in front of it, where there is a stream.
pub open spec fn prepend(head: Seq<u8>, rest: Result<Seq<u8>, CodecError>) -> Result<
    Seq<u8>,
    CodecError,
> {
    match rest {
        Ok(tail) => Ok(head + tail),
        Err(e) => Err(e),
    }
}

/// The last lower bound as it is flushed. Pending digits are resolved
/// towards the lower bound: each stands for a nine behind the leading digit,
/// and the last of these nines leads the flush value in place of the
/// leading digit, which is written as a digit byte.
pub open spec fn flush_number(book: Codebook, low: int, pending: nat) -> int {
    if pending == 0 {
        low
    } else {
        9 * book.unit() + low % book.unit()
    }
}

/// What ends a stream: for pending digits the leading digit of the lower
/// bound and all nines but one, as digit bytes, and then the flush value in
/// four little-endian bytes.
pub open spec fn flush_bytes(book: Codebook, low: int, pending: nat) -> Seq<u8> {
    if pending == 0 {
        le_bytes(low as nat, 4)
    } else {
        seq![leading_digit(low, book.unit())] + repeat(9, (pending - 1) as nat) + le_bytes(
            flush_number(book, low, pending) as nat,
            4,
        )
    }
}

/// The bytes that the encoder writes from a range on, for the symbols that
/// are left: first the range is scaled as long as a scaling applies, then the
/// next symbol narrows it, and after the last symbol the stream is flushed.
///
/// A shift writes the settled leading digit and then resolves the pending
/// dropped digits. A straddle drops the second digit and counts it as
/// pending, with the leading digit of `low` as the anchor.
pub open spec fn emit_settling(
    book: Codebook,
    low: int,
    high: int,
    pending: nat,
    anchor: int,
    symbols: Seq<u8>,
) -> Result<Seq<u8>, CodecError>
    decreases symbols.len(), 1int, 10 * book.unit() - (high - low + 1),
    when book.wf() && book.admits(low, high)
    via emit_settling_decreases
{
    let unit = book.unit();
    if shift_ready(low, high, unit) {
        prepend(
            seq![leading_digit(low, unit)] + repeat(filler(low / unit, anchor), pending),
            emit_settling(
                book,
                scaled_low(low, high, unit),
                scaled_high(low, high, unit),
                0,
                anchor,
                symbols,
            ),
        )
    } else if straddle_ready(low, high, unit) {
        emit_settling(
            book,
            scaled_low(low, high, unit),
            scaled_high(low, high, unit),
            pending + 1,
            low / unit,
            symbols,
        )
    } else {
        emit_symbols(book, low, high, pending, anchor, symbols)
    }
}

/// The bytes that the encoder writes from a settled or initial range on:
/// the next symbol narrows the range, which is then scaled; without a symbol
/// left, the stream is flushed. A symbol without an entry is unknown, and a
/// share without a code value collapses the range. So does a flush value
/// that four bytes cannot hold, which a frame of ten digits allows: the
/// precision of the stream is exhausted.
pub open spec fn emit_symbols(
    book: Codebook,
    low: int,
    high: int,
    pending: nat,
    anchor: int,
    symbols: Seq<u8>,
) -> Result<Seq<u8>, CodecError>
    decreases symbols.len(), 0int, 0int,
    when book.wf() && book.admits(low, high)
    via emit_symbols_decreases
{
    if symbols.len() == 0 {
        if flush_number(book, low, pending) > u32::MAX {
            Err(CodecError::RangeCollapse)
        } else {
            Ok(flush_bytes(book, low, pending))
        }
    } else if !holds(book.entries, symbols[0]) {
        Err(CodecError::UnknownSymbol)
    } else if book.narrow_low(low, high, symbols[0]) > book.narrow_high(low, high, symbols[0]) {
        Err(CodecError::RangeCollapse)
    } else {
        emit_settling(
            book,
            book.narrow_low(low, high, symbols[0]),
            book.narrow_high(low, high, symbols[0]),
            pending,
            anchor,
            symbols.skip(1),
        )
    }
}

/// A scaling widens the range, so the encoder settles after finitely many.
#[via_fn]
proof fn emit_settling_decreases(
    book: Codebook,
    low: int,
    high: int,
    pending: nat,
    anchor: int,
    symbols: Seq<u8>,
) {
    lemma_book_unit(book);
    if scale_ready(low, high, book.unit()) {
        lemma_scale(low, high, book.unit());
    }
}

/// Each symbol encoded leaves one symbol less to encode.
#[via_fn]
proof fn emit_symbols_decreases(
    book: Codebook,
    low: int,
    high: int,
    pending: nat,
    anchor: int,
    symbols: Seq<u8>,
) {
}

/// Where every symbol has an entry, the encoder can only fail by a collapse
/// of the range.
pub proof fn lemma_emit_settling_errors(
    book: Codebook,
    low: int,
    high: int,
    pending: nat,
    anchor: int,
    symbols: Seq<u8>,
)
    requires
        book.wf(),
        book.admits(low, high),
        forall|i: int| 0 <= i < symbols.len() ==> holds(book.entries, #[trigger] symbols[i]),
    ensures
        emit_settling(book, low, high, pending, anchor, symbols) is Err ==> emit_settling(
            book,
            low,
            high,
            pending,
            anchor,
            symbols,
        )->Err_0 == CodecError::RangeCollapse,
    decreases symbols.len(), 1int, 10 * book.unit() - (high - low + 1),
{
    let unit = book.unit();
    lemma_book_unit(book);
    if scale_ready(low, high, unit) {
        lemma_scale(low, high, unit);
        let sl = scaled_low(low, high, unit);
        let sh = scaled_high(low, high, unit);
        if shift_ready(low, high, unit) {
            lemma_emit_settling_errors(book, sl, sh, 0, anchor, symbols);
        } else {
            lemma_emit_settling_errors(book, sl, sh, pending + 1, low / unit, symbols);
        }
    } else {
        lemma_emit_symbols_errors(book, low, high, pending, anchor, symbols);
    }
}

/// Where every symbol has an entry, the encoder can only fail by a collapse
/// of the range.
pub proof fn lemma_emit_symbols_errors(
    book: Codebook,
    low: int,
    high: int,
    pending: nat,
    anchor: int,
    symbols: Seq<u8>,
)
    requires
        book.wf(),
        book.admits(low, high),
        forall|i: int| 0 <= i < symbols.len() ==> holds(book.entries, #[trigger] symbols[i]),
    ensures
        emit_symbols(book, low, high, pending, anchor, symbols) is Err ==> emit_symbols(
            book,
            low,
            high,
            pending,
            anchor,
            symbols,
        )->Err_0 == CodecError::RangeCollapse,
    decreases symbols.len(), 0int, 0int,
{
    if symbols.len() > 0 {
        let symbol = symbols[0];
        assert(holds(book.entries, symbol));
        lemma_narrow_symbol(book, low, high, symbol);
        let rest = symbols.skip(1);
        assert forall|i: int| 0 <= i < rest.len() implies holds(book.entries, #[trigger] rest[i]) by {
            assert(rest[i] == symbols[i + 1]);
        }
        if book.narrow_low(low, high, symbol) <= book.narrow_high(low, high, symbol) {
            lemma_emit_settling_errors(
                book,
                book.narrow_low(low, high, symbol),
                book.narrow_high(low, high, symbol),
                pending,
                anchor,
                rest,
            );
        }
    }
}

/// Putting two heads in front of a stream, one after the other, is putting
/// their concatenation in front of it.
pub proof fn lemma_prepend_twice(a: Seq<u8>, b: Seq<u8>, rest: Result<Seq<u8>, CodecError>)
    ensures
        prepend(a, prepend(b, rest)) == prepend(a + b, rest),
        prepend(Seq::empty(), rest) == rest,
{
    match rest {
        Ok(tail) => {
            assert(a + (b + tail) =~= (a + b) + tail);
            assert(Seq::<u8>::empty() + tail =~= tail);
        },
        Err(_) => {},
    }
}

/// An exponent with a smaller power of ten is smaller.
proof fn lemma_pow10_order(a: nat, b: nat)
    requires
        pow10(a) <= pow10(b),
    ensures
        a <= b,
{
    if a > b {
        lemma_pow10_monotonic(b + 1, a);
        lemma_pow10_positive(b);
        reveal_with_fuel(pow10, 2);
    }
}

/// The view of what an encoder yields: the digits of the stream, or the
/// failure.
pub open spec fn stream_of(result: Result<Vec<u8>, CodecError>) -> Result<Seq<u8>, CodecError> {
    match result {
        Ok(stream) => Ok(stream@),
        Err(e) => Err(e),
    }
}

/// Appends `count` times the digit `digit`.
fn push_repeated(out: &mut Vec<u8>, digit: u8, count: u64)
    ensures
        final(out)@ == old(out)@ + repeat(digit, count as nat),
{
    let mut done: u64 = 0;
    assert(out@ =~= old(out)@ + repeat(digit, 0));
    while done < count
        invariant
            done <= count,
            out@ == old(out)@ + repeat(digit, done as nat),
        decreases count - done,
    {
        out.push(digit);
        done = done + 1;
        assert(out@ =~= old(out)@ + repeat(digit, done as nat));
    }
}

/// Scales the range until it has settled, writing each digit that settles
/// and counting each second digit that is dropped.
fn settle(
    frame: &Frame,
    range: &mut CodingRange,
    pending: &mut u64,
    anchor: &mut u64,
    out: &mut Vec<u8>,
    Ghost(book): Ghost<Codebook>,
    Ghost(symbols): Ghost<Seq<u8>>,
)
    requires
        frame.wf(),
        book.wf(),
        book.width == frame.width(),
        old(range).wf(*frame),
        *old(pending) <= u64::MAX - 10,
    ensures
        final(range).wf(*frame),
        final(range).scaling_spec(*frame) == Scaling::Settled,
        *final(pending) <= *old(pending) + 10,
        final(out)@.len() >= old(out)@.len(),
        prepend(
            old(out)@,
            emit_settling(
                book,
                old(range).low as int,
                old(range).high as int,
                *old(pending) as nat,
                *old(anchor) as int,
                symbols,
            ),
        ) == prepend(
            final(out)@,
            emit_symbols(
                book,
                final(range).low as int,
                final(range).high as int,
                *final(pending) as nat,
                *final(anchor) as int,
                symbols,
            ),
        ),
{
    let unit: u64 = frame.leading_unit();
    let ghost goal = prepend(
        out@,
        emit_settling(
            book,
            range.low as int,
            range.high as int,
            *pending as nat,
            *anchor as int,
            symbols,
        ),
    );
    let ghost steps: nat = 0;
    proof {
        lemma_book_unit(book);
        reveal_with_fuel(pow10, 2);
    }
    loop
        invariant
            frame.wf(),
            book.wf(),
            book.width == frame.width(),
            unit == frame.unit(),
            unit == book.unit(),
            range.wf(*frame),
            steps <= frame.width(),
            pow10(steps) <= range.span(),
            *pending <= *old(pending) + steps,
            *old(pending) <= u64::MAX - 10,
            out@.len() >= old(out)@.len(),
            goal == prepend(
                old(out)@,
                emit_settling(
                    book,
                    old(range).low as int,
                    old(range).high as int,
                    *old(pending) as nat,
                    *old(anchor) as int,
                    symbols,
                ),
            ),
            goal == prepend(
                out@,
                emit_settling(
                    book,
                    range.low as int,
                    range.high as int,
                    *pending as nat,
                    *anchor as int,
                    symbols,
                ),
            ),
        ensures
            range.wf(*frame),
            range.scaling_spec(*frame) == Scaling::Settled,
            *pending <= *old(pending) + 10,
            out@.len() >= old(out)@.len(),
            goal == prepend(
                out@,
                emit_symbols(
                    book,
                    range.low as int,
                    range.high as int,
                    *pending as nat,
                    *anchor as int,
                    symbols,
                ),
            ),
        decreases 10 * unit - range.span(),
    {
        let kind: Scaling = range.scaling(frame);
        proof {
            lemma_leading(range.low as int, unit as int);
            if kind != Scaling::Settled {
                lemma_scale(range.low as int, range.high as int, unit as int);
                assert(pow10(steps + 1) <= 10 * range.span());
                assert(10 * unit == pow10(frame.width())) by {
                    reveal_with_fuel(pow10, 2);
                }
                lemma_pow10_order(steps + 1, frame.width());
            }
        }
        match kind {
            Scaling::Settled => {
                break ;
            },
            Scaling::Shift => {
                let digit: u64 = first_digit(range.low, unit);
                let fill: u8 = if digit == *anchor {
                    9
                } else {
                    0
                };
                let ghost before = out@;
                let ghost head = seq![leading_digit(range.low as int, unit as int)] + repeat(
                    filler(range.low as int / unit as int, *anchor as int),
                    *pending as nat,
                );
                out.push(digit as u8);
                push_repeated(out, fill, *pending);
                proof {
                    assert(out@ =~= before + head);
                    lemma_prepend_twice(
                        before,
                        head,
                        emit_settling(
                            book,
                            scaled_low(range.low as int, range.high as int, unit as int),
                            scaled_high(range.low as int, range.high as int, unit as int),
                            0,
                            *anchor as int,
                            symbols,
                        ),
                    );
                }
                *pending = 0;
                *range = range.scaled(frame);
            },
            Scaling::Straddle => {
                *anchor = first_digit(range.low, unit);
                *pending = *pending + 1;
                *range = range.scaled(frame);
            },
        }
        proof {
            steps = steps + 1;
        }
    }
}

/// Encodes `data` against `table`, starting from the range
/// `[lower_bound, upper_bound]`: the digits that settle while the range is
/// narrowed symbol by symbol, one byte each, then the last lower bound in
/// four little-endian bytes. Fails where a symbol has no entry, where the
/// range collapses, and where the last lower bound exceeds four bytes.
pub fn encode_process(
    table: &CumulativeTable,
    frame: &Frame,
    lower_bound: u32,
    upper_bound: u32,
    data: &[u8],
) -> (result: Result<Vec<u8>, CodecError>)
    requires
        table.wf(),
        frame.wf(),
        lower_bound <= upper_bound < 10 * frame.unit(),
        data@.len() <= u32::MAX,
    ensures
        stream_of(result) == emit_symbols(
            codebook(*table, *frame),
            lower_bound as int,
            upper_bound as int,
            0,
            0,
            data@,
        ),
{
    let ghost book = codebook(*table, *frame);
    let ghost goal = emit_symbols(book, lower_bound as int, upper_bound as int, 0, 0, data@);
    let total: u32 = table.symbol_count();
    let unit: u64 = frame.leading_unit();
    let mut out: Vec<u8> = Vec::new();
    let mut range: CodingRange = CodingRange::new(lower_bound as u64, upper_bound as u64);
    let mut pending: u64 = 0;
    let mut anchor: u64 = 0;
    let mut i: usize = 0;
    proof {
        lemma_book_unit(book);
        lemma_prepend_twice(Seq::empty(), Seq::empty(), goal);
        assert(data@.skip(0) =~= data@);
    }
    while i < data.len()
        invariant
            i <= data@.len(),
            data@.len() <= u32::MAX,
            table.wf(),
            frame.wf(),
            book == codebook(*table, *frame),
            book.wf(),
            total == table.total(),
            unit == frame.unit(),
            range.wf(*frame),
            pending <= 10 * i,
            goal == emit_symbols(book, lower_bound as int, upper_bound as int, 0, 0, data@),
            goal == prepend(
                out@,
                emit_symbols(
                    book,
                    range.low as int,
                    range.high as int,
                    pending as nat,
                    anchor as int,
                    data@.skip(i as int),
                ),
            ),
        decreases data@.len() - i,
    {
        let ghost rest = data@.skip(i as int);
        let symbol: u8 = data[i];
        assert(rest[0] == symbol);
        assert(rest.skip(1) =~= data@.skip(i + 1));
        proof {
            assert(book.admits(range.low as int, range.high as int));
            if holds(book.entries, symbol) {
                lemma_narrow_symbol(book, range.low as int, range.high as int, symbol);
            }
        }
        let (lower, upper): (u32, u32) = match table.find_byte_data(symbol) {
            Ok((_, upper, lower)) => (lower, upper),
            Err(e) => {
                return Err(e);
            },
        };
        range = match range.narrow(frame, lower, upper, total) {
            Ok(narrowed) => narrowed,
            Err(e) => {
                return Err(e);
            },
        };
        settle(
            frame,
            &mut range,
            &mut pending,
            &mut anchor,
            &mut out,
            Ghost(book),
            Ghost(data@.skip(i + 1)),
        );
        i = i + 1;
    }
    proof {
        lemma_leading(range.low as int, unit as int);
        assert(data@.skip(i as int).len() == 0);
    }
    proof {
        frame.lemma_unit();
    }
    let ghost before = out@;
    let flush: u64 = if pending == 0 {
        range.low
    } else {
        9 * unit + range.low % unit
    };
    if flush > 0xFFFF_FFFF {
        return Err(CodecError::RangeCollapse);
    }
    if pending > 0 {
        out.push(first_digit(range.low, unit) as u8);
        push_repeated(&mut out, 9, pending - 1);
    }
    push_le(&mut out, flush, 4);
    proof {
        assert(out@ =~= before + flush_bytes(book, range.low as int, pending as nat));
    }
    Ok(out)
}

} // verus!
