//! Why decoding undoes encoding. The stream of the encoder is a digit
//! stream in full, with its last digits packed into the flush value; and the
//! digit stream in full is the sequence of code values that the decoder
//! holds, written out digit by digit.

use vstd::arithmetic::div_mod::{
    lemma_div_is_ordered,
    lemma_fundamental_div_mod,
    lemma_mod_bound,
};
use vstd::prelude::*;
use crate::codebook::{lemma_book_unit, lemma_narrow_symbol, Codebook};
use crate::cumulative::{
    lemma_cumulative_increasing,
    lemma_locate_exists,
    lemma_locate_unique,
    lemma_position_unique,
    locate,
    position_of,
};
use crate::decoder::{
    decode_stream,
    flush_fits,
    flush_value,
    unpacked,
    read_digits,
    lemma_target,
    lemma_target_share,
    read_settling,
    read_symbols,
    target_of,
};
use crate::encoder::{
    emit_settling,
    emit_symbols,
    filler,
    flush_bytes,
    flush_number,
    leading_digit,
    prepend,
    repeat,
};
use crate::error::CodecError;
use crate::model::{holds, prefix_total};
use crate::radix::{
    all_digits,
    le_bytes,
    lemma_le_bytes_len,
    lemma_le_round_trip,
    lemma_pow256_values,
    digits,
    digits_value,
    lemma_digits_leading,
    lemma_digits_shape,
    lemma_digits_value,
    lemma_pow10_positive,
    pow10,
};
use crate::range::{
    straddle_ready,
    lemma_leading,
    lemma_leading_is,
    lemma_scale,
    pivot,
    scale_offset,
    scale_ready,
    scaled_high,
    scaled_low,
    shift_ready,
};

verus! {

/// All digits of `low`, with a nine for each pending dropped digit behind
/// the leading one.
pub open spec fn flush_digits(book: Codebook, low: int, pending: nat) -> Seq<u8> {
    seq![leading_digit(low, book.unit())] + repeat(9, pending) + digits(
        (low % book.unit()) as nat,
        (book.width - 1) as nat,
    )
}

/// The digit stream in full: what the encoder would write if the last
/// lower bound were written digit by digit as well. A shift writes the
/// settled digit and resolves the pending ones, a straddle counts a pending
/// digit, a symbol narrows the range, and the end writes all digits of the
/// lower bound.
pub open spec fn digit_settling(
    book: Codebook,
    low: int,
    high: int,
    pending: nat,
    anchor: int,
    symbols: Seq<u8>,
) -> Result<Seq<u8>, CodecError>
    decreases symbols.len(), 1int, 10 * book.unit() - (high - low + 1),
    when book.wf() && book.admits(low, high)
    via digit_settling_decreases
{
    let unit = book.unit();
    if shift_ready(low, high, unit) {
        prepend(
            seq![leading_digit(low, unit)] + repeat(filler(low / unit, anchor), pending),
            digit_settling(
                book,
                scaled_low(low, high, unit),
                scaled_high(low, high, unit),
                0,
                anchor,
                symbols,
            ),
        )
    } else if straddle_ready(low, high, unit) {
        digit_settling(
            book,
            scaled_low(low, high, unit),
            scaled_high(low, high, unit),
            pending + 1,
            low / unit,
            symbols,
        )
    } else {
        digit_symbols(book, low, high, pending, anchor, symbols)
    }
}

/// The digit stream in full from a settled or initial range on.
pub open spec fn digit_symbols(
    book: Codebook,
    low: int,
    high: int,
    pending: nat,
    anchor: int,
    symbols: Seq<u8>,
) -> Result<Seq<u8>, CodecError>
    decreases symbols.len(), 0int, 0int,
    when book.wf() && book.admits(low, high)
    via digit_symbols_decreases
{
    if symbols.len() == 0 {
        Ok(flush_digits(book, low, pending))
    } else if !holds(book.entries, symbols[0]) {
        Err(CodecError::UnknownSymbol)
    } else if book.narrow_low(low, high, symbols[0]) > book.narrow_high(low, high, symbols[0]) {
        Err(CodecError::RangeCollapse)
    } else {
        digit_settling(
            book,
            book.narrow_low(low, high, symbols[0]),
            book.narrow_high(low, high, symbols[0]),
            pending,
            anchor,
            symbols.skip(1),
        )
    }
}

/// A scaling widens the range, so the digits settle after finitely many.
#[via_fn]
proof fn digit_settling_decreases(
    book: Codebook,
    low: int,
    high: int,
    pending: nat,
    anchor: int,
    symbols: Seq<u8>,
) {
    lemma_book_unit(book);
    if scale_ready(low, high, book.unit()) {
        lemma_scale(low, high, book.unit());
    }
}

/// Each symbol leaves one symbol less.
#[via_fn]
proof fn digit_symbols_decreases(
    book: Codebook,
    low: int,
    high: int,
    pending: nat,
    anchor: int,
    symbols: Seq<u8>,
) {
}

/// The number that the last digits of a digit stream in full write, as
/// many digits as the frame has.
pub open spec fn last_number(width: nat, full: Seq<u8>) -> nat {
    digits_value(full.skip(full.len() - width))
}

/// A digit stream in full with its last digits, as many as the frame has,
/// gathered into the four little-endian bytes of the number they write.
pub open spec fn pack(width: nat, full: Seq<u8>) -> Seq<u8> {
    full.take(full.len() - width) + le_bytes(last_number(width, full), 4)
}

/// A packed stream, where there is a stream and four bytes hold the number
/// that its last digits write.
pub open spec fn seal(width: nat, full: Result<Seq<u8>, CodecError>) -> Result<
    Seq<u8>,
    CodecError,
> {
    match full {
        Ok(digits) => if last_number(width, digits) > u32::MAX {
            Err(CodecError::RangeCollapse)
        } else {
            Ok(pack(width, digits))
        },
        Err(e) => Err(e),
    }
}

/// The code value that the decoder must hold at a range so that it reads
/// `symbols` from there, together with the digits that it takes in after
/// that. Each scaling of the range is undone on the code value of the scaled
/// range: its last digit is the digit taken in, and the rest, with the
/// offset of the scaling added back, is the code value before.
pub open spec fn register_settling(book: Codebook, low: int, high: int, symbols: Seq<u8>) -> (
    int,
    Seq<u8>,
)
    decreases symbols.len(), 1int, 10 * book.unit() - (high - low + 1),
    when book.wf() && book.admits(low, high)
    via register_settling_decreases
{
    let unit = book.unit();
    if scale_ready(low, high, unit) {
        let next = register_settling(
            book,
            scaled_low(low, high, unit),
            scaled_high(low, high, unit),
            symbols,
        );
        ((next.0 + scale_offset(low, high, unit)) / 10, seq![(next.0 % 10) as u8] + next.1)
    } else {
        register_symbols(book, low, high, symbols)
    }
}

/// The code value and the digits after it at a settled or initial range:
/// those of the range narrowed to the next symbol, and at the end the lower
/// bound itself.
pub open spec fn register_symbols(book: Codebook, low: int, high: int, symbols: Seq<u8>) -> (
    int,
    Seq<u8>,
)
    decreases symbols.len(), 0int, 0int,
    when book.wf() && book.admits(low, high)
    via register_symbols_decreases
{
    if symbols.len() == 0 {
        (low, Seq::empty())
    } else {
        register_settling(
            book,
            book.narrow_low(low, high, symbols[0]),
            book.narrow_high(low, high, symbols[0]),
            symbols.skip(1),
        )
    }
}

/// A scaling widens the range, so only finitely many are undone.
#[via_fn]
proof fn register_settling_decreases(book: Codebook, low: int, high: int, symbols: Seq<u8>) {
    lemma_book_unit(book);
    if scale_ready(low, high, book.unit()) {
        lemma_scale(low, high, book.unit());
    }
}

/// Each symbol leaves one symbol less.
#[via_fn]
proof fn register_symbols_decreases(book: Codebook, low: int, high: int, symbols: Seq<u8>) {
}

/// How a code value appears in the stream while `pending` second digits have
/// been dropped from it: its leading digit, a filler for each dropped digit,
/// then its other digits.
pub open spec fn written(book: Codebook, code: int, pending: nat, anchor: int) -> Seq<u8> {
    seq![leading_digit(code, book.unit())] + repeat(
        filler(code / book.unit(), anchor),
        pending,
    ) + digits((code % book.unit()) as nat, (book.width - 1) as nat)
}

/// While digits are pending, the range lies within the two leading digits
/// that it straddled.
pub open spec fn anchored(book: Codebook, low: int, high: int, pending: nat, anchor: int) -> bool {
    pending > 0 ==> anchor <= low / book.unit() && high / book.unit() <= anchor + 1
}

/// The code value at a range lies in the range.
pub proof fn lemma_register_settling_range(
    book: Codebook,
    low: int,
    high: int,
    pending: nat,
    anchor: int,
    symbols: Seq<u8>,
)
    requires
        book.wf(),
        book.admits(low, high),
        digit_settling(book, low, high, pending, anchor, symbols) is Ok,
    ensures
        low <= register_settling(book, low, high, symbols).0 <= high,
    decreases symbols.len(), 1int, 10 * book.unit() - (high - low + 1),
{
    let unit = book.unit();
    lemma_book_unit(book);
    if scale_ready(low, high, unit) {
        lemma_scale(low, high, unit);
        let sl = scaled_low(low, high, unit);
        let sh = scaled_high(low, high, unit);
        if shift_ready(low, high, unit) {
            lemma_register_settling_range(book, sl, sh, 0, anchor, symbols);
        } else {
            lemma_register_settling_range(book, sl, sh, pending + 1, low / unit, symbols);
        }
    } else {
        lemma_register_symbols_range(book, low, high, pending, anchor, symbols);
    }
}

/// The code value at a settled or initial range lies in the range.
pub proof fn lemma_register_symbols_range(
    book: Codebook,
    low: int,
    high: int,
    pending: nat,
    anchor: int,
    symbols: Seq<u8>,
)
    requires
        book.wf(),
        book.admits(low, high),
        digit_symbols(book, low, high, pending, anchor, symbols) is Ok,
    ensures
        low <= register_symbols(book, low, high, symbols).0 <= high,
    decreases symbols.len(), 0int, 0int,
{
    if symbols.len() > 0 {
        lemma_narrow_symbol(book, low, high, symbols[0]);
        lemma_register_settling_range(
            book,
            book.narrow_low(low, high, symbols[0]),
            book.narrow_high(low, high, symbols[0]),
            pending,
            anchor,
            symbols.skip(1),
        );
    }
}

/// A decoder that holds the code value of a range, in front of the digits
/// that belong to it, reads the symbols that were encoded and takes in every
/// digit.
#[verifier::rlimit(30)]
pub proof fn lemma_read_settling(
    book: Codebook,
    low: int,
    high: int,
    pending: nat,
    anchor: int,
    symbols: Seq<u8>,
    stream: Seq<u8>,
    at: int,
)
    requires
        book.wf(),
        book.admits(low, high),
        digit_settling(book, low, high, pending, anchor, symbols) is Ok,
        0 <= at <= stream.len(),
        stream.skip(at) == register_settling(book, low, high, symbols).1,
    ensures
        read_settling(
            book,
            low,
            high,
            register_settling(book, low, high, symbols).0,
            stream,
            at,
            symbols.len(),
        ) == Ok::<(Seq<u8>, int), CodecError>((symbols, stream.len() as int)),
    decreases symbols.len(), 1int, 10 * book.unit() - (high - low + 1),
{
    let unit = book.unit();
    lemma_book_unit(book);
    if scale_ready(low, high, unit) {
        lemma_scale(low, high, unit);
        let sl = scaled_low(low, high, unit);
        let sh = scaled_high(low, high, unit);
        let next = register_settling(book, sl, sh, symbols);
        let here = register_settling(book, low, high, symbols);
        let offset = scale_offset(low, high, unit);
        assert(here.1 == seq![(next.0 % 10) as u8] + next.1);
        assert(here.0 == (next.0 + offset) / 10);
        assert(at < stream.len() && stream[at] == (next.0 % 10) as u8) by {
            assert(stream.skip(at).len() > 0);
            assert(stream.skip(at)[0] == (next.0 % 10) as u8);
        }
        assert(stream.skip(at + 1) == next.1) by {
            assert(stream.skip(at + 1) =~= stream.skip(at).skip(1));
            assert((seq![(next.0 % 10) as u8] + next.1).skip(1) =~= next.1);
        }
        if shift_ready(low, high, unit) {
            lemma_read_settling(book, sl, sh, 0, anchor, symbols, stream, at + 1);
        } else {
            lemma_read_settling(book, sl, sh, pending + 1, low / unit, symbols, stream, at + 1);
        }
        assert(10 * here.0 + stream[at] - offset == next.0);
        lemma_read_scaling(book, low, high, here.0, stream, at, symbols.len());
    } else {
        lemma_read_symbols(book, low, high, pending, anchor, symbols, stream, at);
    }
}

/// One scaling of the decoder: the digit at hand joins the code value.
pub proof fn lemma_read_scaling(
    book: Codebook,
    low: int,
    high: int,
    code: int,
    stream: Seq<u8>,
    at: int,
    count: nat,
)
    requires
        book.wf(),
        book.admits(low, high),
        scale_ready(low, high, book.unit()),
        0 <= at < stream.len(),
        stream[at] <= 9,
    ensures
        read_settling(book, low, high, code, stream, at, count) == read_settling(
            book,
            scaled_low(low, high, book.unit()),
            scaled_high(low, high, book.unit()),
            10 * code + stream[at] - scale_offset(low, high, book.unit()),
            stream,
            at + 1,
            count,
        ),
{
    lemma_book_unit(book);
    lemma_scale(low, high, book.unit());
}

/// A decoder at a settled or initial range reads the next symbol that was
/// encoded, and then the others.
pub proof fn lemma_read_symbols(
    book: Codebook,
    low: int,
    high: int,
    pending: nat,
    anchor: int,
    symbols: Seq<u8>,
    stream: Seq<u8>,
    at: int,
)
    requires
        book.wf(),
        book.admits(low, high),
        digit_symbols(book, low, high, pending, anchor, symbols) is Ok,
        0 <= at <= stream.len(),
        stream.skip(at) == register_symbols(book, low, high, symbols).1,
    ensures
        read_symbols(
            book,
            low,
            high,
            register_symbols(book, low, high, symbols).0,
            stream,
            at,
            symbols.len(),
        ) == Ok::<(Seq<u8>, int), CodecError>((symbols, stream.len() as int)),
    decreases symbols.len(), 0int, 0int,
{
    if symbols.len() == 0 {
        assert(stream.skip(at).len() == 0);
        assert(symbols =~= Seq::empty());
    } else {
        let symbol = symbols[0];
        let nl = book.narrow_low(low, high, symbol);
        let nh = book.narrow_high(low, high, symbol);
        let code = register_symbols(book, low, high, symbols).0;
        let place = position_of(book.entries, symbol);
        lemma_narrow_symbol(book, low, high, symbol);
        lemma_register_settling_range(book, nl, nh, pending, anchor, symbols.skip(1));
        lemma_read_settling(book, nl, nh, pending, anchor, symbols.skip(1), stream, at);
        lemma_cumulative_increasing(book.entries, book.total);
        assert(prefix_total(book.entries, place) < prefix_total(book.entries, place + 1));
        lemma_target_share(
            low,
            high,
            code,
            prefix_total(book.entries, place),
            prefix_total(book.entries, place + 1),
            book.total,
        );
        lemma_locate_unique(book.entries, target_of(low, high, code, book.total), place);
        assert(seq![symbol] + symbols.skip(1) =~= symbols);
    }
}

/// Without pending digits, a code value is written as its digits.
pub proof fn lemma_written_plain(book: Codebook, code: int, anchor: int)
    requires
        book.width >= 1,
        0 <= code < 10 * book.unit(),
    ensures
        written(book, code, 0, anchor) == digits(code as nat, book.width),
{
    let unit = book.unit();
    let lead = code / unit;
    let rest = code % unit;
    let shorter = (book.width - 1) as nat;
    lemma_book_unit(book);
    lemma_leading(code, unit);
    lemma_fundamental_div_mod(code, unit);
    lemma_mod_bound(code, unit);
    assert(unit * lead == lead * unit) by (nonlinear_arith);
    assert(code == lead * unit + rest);
    assert(unit == pow10(shorter));
    assert(0 <= lead <= 9 && 0 <= rest < pow10(shorter));
    lemma_digits_leading(lead as nat, rest as nat, shorter);
    assert((lead as nat) * pow10(shorter) + (rest as nat) == code);
    assert(digits(code as nat, book.width) == seq![lead as u8] + digits(rest as nat, shorter));
    assert(leading_digit(code, unit) == lead as u8);
    assert(repeat(filler(lead, anchor), 0) =~= Seq::empty());
    assert(written(book, code, 0, anchor) =~= seq![lead as u8] + digits(rest as nat, shorter));
}

/// The code value before a shift, followed by the digit that the shift takes
/// in, is written as the settled digit, the resolved pending digits, and
/// the code value after the shift.
pub proof fn lemma_written_shift(
    book: Codebook,
    digit: int,
    next: int,
    pending: nat,
    anchor: int,
)
    requires
        book.width >= 1,
        0 <= digit <= 9,
        0 <= next < 10 * book.unit(),
    ensures
        written(book, digit * book.unit() + next / 10, pending, anchor).push((next % 10) as u8)
            == seq![digit as u8] + repeat(filler(digit, anchor), pending) + written(
            book,
            next,
            0,
            anchor,
        ),
{
    let unit = book.unit();
    let code = digit * unit + next / 10;
    lemma_book_unit(book);
    assert(0 <= next / 10 < unit);
    lemma_leading_is(code, unit, digit);
    lemma_fundamental_div_mod(code, unit);
    assert(unit * digit == digit * unit) by (nonlinear_arith);
    assert(code % unit == next / 10);
    lemma_written_plain(book, next, anchor);
    assert(digits(next as nat, book.width) == digits((next / 10) as nat, (book.width - 1) as nat).push(
        (next % 10) as u8,
    ));
    assert(written(book, code, pending, anchor).push((next % 10) as u8) =~= seq![digit as u8]
        + repeat(filler(digit, anchor), pending) + written(book, next, 0, anchor));
}

/// The arithmetic of undoing a straddle: the code value before it has the
/// leading digit of the code value after it, then a nine on the lower side
/// or a zero on the upper side, then the other digits but the last.
pub proof fn lemma_straddle_code(unit: int, tenth: int, lead: int, next: int)
    requires
        unit == 10 * tenth,
        tenth >= 1,
        0 <= lead <= 8,
        lead * unit <= next < (lead + 2) * unit,
    ensures
        next / unit == lead || next / unit == lead + 1,
        0 <= (next % unit) / 10 < tenth,
        (next % unit) % 10 == next % 10,
        (next + 9 * ((lead + 1) * unit)) / 10 == (next / unit) * unit + (if next / unit == lead {
            9int
        } else {
            0int
        }) * tenth + (next % unit) / 10,
{
    let top = next / unit;
    let rest = next % unit;
    lemma_fundamental_div_mod(next, unit);
    lemma_mod_bound(next, unit);
    assert(unit * top == top * unit) by (nonlinear_arith);
    assert(top == lead || top == lead + 1) by (nonlinear_arith)
        requires
            lead * unit <= next < (lead + 2) * unit,
            top * unit <= next < top * unit + unit,
            unit >= 1,
    ;
    assert(top * unit == 10 * (top * tenth)) by (nonlinear_arith)
        requires
            unit == 10 * tenth,
    ;
    assert((lead + 1) * unit == 10 * ((lead + 1) * tenth)) by (nonlinear_arith)
        requires
            unit == 10 * tenth,
    ;
    let a = top * tenth;
    let b = (lead + 1) * tenth;
    assert(next == 10 * a + rest);
    assert((next + 9 * (10 * b)) / 10 == a + rest / 10 + 9 * b);
    assert(rest % 10 == next % 10);
    if top == lead {
        assert(a + 9 * b == top * unit + 9 * tenth) by (nonlinear_arith)
            requires
                a == top * tenth,
                b == (lead + 1) * tenth,
                top == lead,
                unit == 10 * tenth,
        ;
    } else {
        assert(a + 9 * b == top * unit) by (nonlinear_arith)
            requires
                a == top * tenth,
                b == (lead + 1) * tenth,
                top == lead + 1,
                unit == 10 * tenth,
        ;
    }
}

/// The code value before a straddle, followed by the digit that the straddle
/// takes in, is written as the code value after it with one more pending
/// digit.
pub proof fn lemma_written_straddle(
    book: Codebook,
    lead: int,
    next: int,
    pending: nat,
    anchor: int,
)
    requires
        book.width >= 1,
        book.unit() >= 10,
        0 <= lead <= 8,
        lead * book.unit() <= next < (lead + 2) * book.unit(),
        pending > 0 ==> anchor == lead,
    ensures
        written(book, (next + 9 * ((lead + 1) * book.unit())) / 10, pending, anchor).push(
            (next % 10) as u8,
        ) == written(book, next, pending + 1, lead),
{
    let unit = book.unit();
    let tenth = unit / 10;
    let code = (next + 9 * ((lead + 1) * unit)) / 10;
    let top = next / unit;
    let rest = next % unit;
    let second: int = if top == lead {
        9
    } else {
        0
    };
    let shorter = (book.width - 2) as nat;
    assert(book.width >= 2 && unit == 10 * tenth && tenth == pow10(shorter)) by {
        lemma_book_unit(book);
        lemma_pow10_positive((book.width - 1) as nat);
    }
    lemma_straddle_code(unit, tenth, lead, next);
    let inner = second * tenth + rest / 10;
    assert(0 <= inner < unit) by (nonlinear_arith)
        requires
            0 <= second <= 9,
            0 <= rest / 10 < tenth,
            inner == second * tenth + rest / 10,
            unit == 10 * tenth,
    ;
    assert(code / unit == top && code % unit == inner) by {
        lemma_leading_is(code, unit, top);
        lemma_fundamental_div_mod(code, unit);
        assert(unit * top == top * unit) by (nonlinear_arith);
    }
    let kept = digits((rest / 10) as nat, shorter);
    assert(digits(rest as nat, (book.width - 1) as nat) == kept.push((rest % 10) as u8));
    assert(digits(inner as nat, (book.width - 1) as nat) == seq![second as u8] + kept) by {
        lemma_digits_leading(second as nat, (rest / 10) as nat, shorter);
    }
    assert(repeat(filler(top, anchor), pending).push(second as u8) =~= repeat(
        filler(top, lead),
        pending + 1,
    ));
    let front = seq![leading_digit(next, unit)];
    assert(leading_digit(code, unit) == leading_digit(next, unit));
    assert(written(book, code, pending, anchor) == front + repeat(filler(top, anchor), pending)
        + (seq![second as u8] + kept));
    assert(written(book, next, pending + 1, lead) == front + repeat(
        filler(top, lead),
        pending + 1,
    ) + kept.push((next % 10) as u8));
    assert((front + repeat(filler(top, anchor), pending) + (seq![second as u8] + kept)).push(
        (next % 10) as u8,
    ) =~= front + repeat(filler(top, anchor), pending).push(second as u8) + kept.push(
        (next % 10) as u8,
    ));
}

/// The digits that the encoder writes from a range on are the code value of
/// that range, written with the pending digits, and the digits after it.
pub proof fn lemma_written_settling(
    book: Codebook,
    low: int,
    high: int,
    pending: nat,
    anchor: int,
    symbols: Seq<u8>,
)
    requires
        book.wf(),
        book.admits(low, high),
        anchored(book, low, high, pending, anchor),
        digit_settling(book, low, high, pending, anchor, symbols) is Ok,
    ensures
        digit_settling(book, low, high, pending, anchor, symbols)->Ok_0 == written(
            book,
            register_settling(book, low, high, symbols).0,
            pending,
            anchor,
        ) + register_settling(book, low, high, symbols).1,
    decreases symbols.len(), 1int, 10 * book.unit() - (high - low + 1),
{
    let unit = book.unit();
    lemma_book_unit(book);
    lemma_leading(low, unit);
    lemma_leading(high, unit);
    if scale_ready(low, high, unit) {
        lemma_scale(low, high, unit);
        let sl = scaled_low(low, high, unit);
        let sh = scaled_high(low, high, unit);
        let next = register_settling(book, sl, sh, symbols);
        let here = register_settling(book, low, high, symbols);
        let digit = (next.0 % 10) as u8;
        if shift_ready(low, high, unit) {
            let lead = low / unit;
            lemma_register_settling_range(book, sl, sh, 0, anchor, symbols);
            lemma_written_settling(book, sl, sh, 0, anchor, symbols);
            lemma_written_shift(book, lead, next.0, pending, anchor);
            assert(here.0 == lead * unit + next.0 / 10);
            let head = seq![leading_digit(low, unit)] + repeat(filler(lead, anchor), pending);
            assert(head + (written(book, next.0, 0, anchor) + next.1) =~= written(
                book,
                here.0,
                pending,
                anchor,
            ).push(digit) + next.1);
            assert(written(book, here.0, pending, anchor).push(digit) + next.1 =~= written(
                book,
                here.0,
                pending,
                anchor,
            ) + (seq![digit] + next.1));
        } else {
            let lead = low / unit;
            lemma_register_settling_range(book, sl, sh, pending + 1, lead, symbols);
            lemma_written_settling(book, sl, sh, pending + 1, lead, symbols);
            assert(pivot(high, unit) == (lead + 1) * unit);
            assert(lead * unit <= sl && sh < (lead + 2) * unit) by {
                lemma_leading(sl, unit);
                lemma_leading(sh, unit);
                assert((lead + 2) * unit == (lead + 1) * unit + unit) by (nonlinear_arith);
            }
            lemma_written_straddle(book, lead, next.0, pending, anchor);
            assert(written(book, here.0, pending, anchor).push(digit) + next.1 =~= written(
                book,
                here.0,
                pending,
                anchor,
            ) + (seq![digit] + next.1));
        }
    } else {
        lemma_written_symbols(book, low, high, pending, anchor, symbols);
    }
}

/// The digits that the encoder writes from a settled or initial range on
/// are the code value of that range, written with the pending digits, and
/// the digits after it.
pub proof fn lemma_written_symbols(
    book: Codebook,
    low: int,
    high: int,
    pending: nat,
    anchor: int,
    symbols: Seq<u8>,
)
    requires
        book.wf(),
        book.admits(low, high),
        anchored(book, low, high, pending, anchor),
        pending > 0 ==> !shift_ready(low, high, book.unit()),
        digit_symbols(book, low, high, pending, anchor, symbols) is Ok,
    ensures
        digit_symbols(book, low, high, pending, anchor, symbols)->Ok_0 == written(
            book,
            register_symbols(book, low, high, symbols).0,
            pending,
            anchor,
        ) + register_symbols(book, low, high, symbols).1,
    decreases symbols.len(), 0int, 0int,
{
    let unit = book.unit();
    lemma_book_unit(book);
    if symbols.len() == 0 {
        assert(flush_digits(book, low, pending) =~= written(book, low, pending, anchor)
            + Seq::empty()) by {
            lemma_div_is_ordered(low, high, unit);
            if pending == 0 {
                assert(repeat(9, 0) =~= repeat(filler(low / unit, anchor), 0));
            }
        }
    } else {
        let symbol = symbols[0];
        let nl = book.narrow_low(low, high, symbol);
        let nh = book.narrow_high(low, high, symbol);
        lemma_narrow_symbol(book, low, high, symbol);
        lemma_div_is_ordered(low, nl, unit);
        lemma_div_is_ordered(nh, high, unit);
        lemma_written_settling(book, nl, nh, pending, anchor, symbols.skip(1));
    }
}

/// Decoding the digit stream in full, with the same codebook and from the
/// same range, gives back the symbols that were encoded and takes in every
/// digit.
pub proof fn lemma_digits_round_trip(book: Codebook, low: int, high: int, data: Seq<u8>)
    requires
        book.wf(),
        book.admits(low, high),
        digit_symbols(book, low, high, 0, 0, data) is Ok,
    ensures
        read_digits(book, low, high, digit_symbols(book, low, high, 0, 0, data)->Ok_0, data.len())
            == Ok::<(Seq<u8>, int), CodecError>(
            (data, digit_symbols(book, low, high, 0, 0, data)->Ok_0.len() as int),
        ),
        digit_symbols(book, low, high, 0, 0, data)->Ok_0.len() >= book.width,
{
    let stream = digit_symbols(book, low, high, 0, 0, data)->Ok_0;
    let start = register_symbols(book, low, high, data);
    let width = book.width as int;
    lemma_book_unit(book);
    lemma_pow10_positive((book.width - 1) as nat);
    lemma_written_symbols(book, low, high, 0, 0, data);
    lemma_register_symbols_range(book, low, high, 0, 0, data);
    lemma_written_plain(book, start.0, 0);
    lemma_digits_shape(start.0 as nat, book.width);
    lemma_digits_value(start.0 as nat, book.width);
    assert(stream == digits(start.0 as nat, book.width) + start.1);
    assert(stream.take(width) =~= digits(start.0 as nat, book.width));
    assert(stream.skip(width) =~= start.1);
    lemma_read_symbols(book, low, high, 0, 0, data, stream, width);
}

/// Decimal digits write a number below the matching power of ten, and the
/// digits of that number are the digits that wrote it.
pub proof fn lemma_value_digits(written: Seq<u8>)
    requires
        all_digits(written),
    ensures
        digits_value(written) < pow10(written.len()),
        digits(digits_value(written), written.len()) == written,
    decreases written.len(),
{
    if written.len() > 0 {
        let front = written.drop_last();
        assert(all_digits(front)) by {
            assert forall|i: int| 0 <= i < front.len() implies #[trigger] front[i] <= 9 by {
                assert(front[i] == written[i]);
            }
        }
        lemma_value_digits(front);
        assert(written.last() <= 9);
        assert(digits(digits_value(written), written.len()) =~= written);
    } else {
        assert(digits(0, 0) =~= written);
    }
}

/// Digits in front of a digit stream stay in front of it when it is packed,
/// and leave the number of its last digits as it is.
pub proof fn lemma_pack_prepend(width: nat, head: Seq<u8>, full: Seq<u8>)
    requires
        full.len() >= width,
    ensures
        pack(width, head + full) == head + pack(width, full),
        last_number(width, head + full) == last_number(width, full),
{
    let all = head + full;
    let kept = full.len() - width;
    assert(all.take(all.len() - width) =~= head + full.take(kept));
    assert(all.skip(all.len() - width) =~= full.skip(kept));
    assert(pack(width, all) =~= head + pack(width, full));
}

/// Packing the digits that end a digit stream in full gives the bytes that
/// end the stream, and their last digits write the flush value.
pub proof fn lemma_pack_flush(book: Codebook, low: int, pending: nat)
    requires
        book.width >= 1,
        0 <= low < 10 * book.unit(),
    ensures
        last_number(book.width, flush_digits(book, low, pending)) == flush_number(
            book,
            low,
            pending,
        ),
        pack(book.width, flush_digits(book, low, pending)) == flush_bytes(book, low, pending),
        flush_digits(book, low, pending).len() >= book.width,
        all_digits(flush_digits(book, low, pending)),
{
    let unit = book.unit();
    let shorter = (book.width - 1) as nat;
    let rest = (low % unit) as nat;
    let full = flush_digits(book, low, pending);
    lemma_book_unit(book);
    lemma_leading(low, unit);
    lemma_mod_bound(low, unit);
    lemma_digits_shape(rest, shorter);
    assert(full.len() == pending + book.width);
    assert(all_digits(full));
    let last = full.skip(full.len() - book.width);
    if pending == 0 {
        assert(repeat(9, 0) =~= Seq::empty());
        lemma_written_plain(book, low, 0);
        assert(full =~= written(book, low, 0, 0));
        assert(last =~= digits(low as nat, book.width));
        lemma_digits_value(low as nat, book.width);
        assert(full.take(0) =~= Seq::empty());
        assert(pack(book.width, full) =~= flush_bytes(book, low, pending));
    } else {
        lemma_digits_leading(9, rest, shorter);
        assert(9 * pow10(shorter) + rest < pow10(book.width));
        lemma_digits_value((9 * unit + rest) as nat, book.width);
        assert(last =~= seq![9u8] + digits(rest, shorter));
        assert(full.take(full.len() - book.width) =~= seq![leading_digit(low, unit)] + repeat(
            9,
            (pending - 1) as nat,
        ));
    }
}

/// The stream of the encoder is its digit stream in full, packed; and the
/// digit stream in full holds decimal digits, at least as many as the frame
/// has.
pub proof fn lemma_sealed_settling(
    book: Codebook,
    low: int,
    high: int,
    pending: nat,
    anchor: int,
    symbols: Seq<u8>,
)
    requires
        book.wf(),
        book.admits(low, high),
    ensures
        emit_settling(book, low, high, pending, anchor, symbols) == seal(
            book.width,
            digit_settling(book, low, high, pending, anchor, symbols),
        ),
        digit_settling(book, low, high, pending, anchor, symbols) is Ok ==> {
            &&& digit_settling(book, low, high, pending, anchor, symbols)->Ok_0.len() >= book.width
            &&& all_digits(digit_settling(book, low, high, pending, anchor, symbols)->Ok_0)
        },
    decreases symbols.len(), 1int, 10 * book.unit() - (high - low + 1),
{
    let unit = book.unit();
    lemma_book_unit(book);
    if scale_ready(low, high, unit) {
        lemma_scale(low, high, unit);
        let sl = scaled_low(low, high, unit);
        let sh = scaled_high(low, high, unit);
        if shift_ready(low, high, unit) {
            let head = seq![leading_digit(low, unit)] + repeat(filler(low / unit, anchor), pending);
            lemma_sealed_settling(book, sl, sh, 0, anchor, symbols);
            let next = digit_settling(book, sl, sh, 0, anchor, symbols);
            if next is Ok {
                lemma_pack_prepend(book.width, head, next->Ok_0);
                assert(all_digits(head + next->Ok_0));
            }
        } else {
            lemma_sealed_settling(book, sl, sh, pending + 1, low / unit, symbols);
        }
    } else {
        lemma_sealed_symbols(book, low, high, pending, anchor, symbols);
    }
}

/// The stream of the encoder from a settled or initial range on is its
/// digit stream in full, packed.
pub proof fn lemma_sealed_symbols(
    book: Codebook,
    low: int,
    high: int,
    pending: nat,
    anchor: int,
    symbols: Seq<u8>,
)
    requires
        book.wf(),
        book.admits(low, high),
    ensures
        emit_symbols(book, low, high, pending, anchor, symbols) == seal(
            book.width,
            digit_symbols(book, low, high, pending, anchor, symbols),
        ),
        digit_symbols(book, low, high, pending, anchor, symbols) is Ok ==> {
            &&& digit_symbols(book, low, high, pending, anchor, symbols)->Ok_0.len() >= book.width
            &&& all_digits(digit_symbols(book, low, high, pending, anchor, symbols)->Ok_0)
        },
    decreases symbols.len(), 0int, 0int,
{
    if symbols.len() == 0 {
        lemma_pack_flush(book, low, pending);
    } else if holds(book.entries, symbols[0]) {
        let symbol = symbols[0];
        lemma_narrow_symbol(book, low, high, symbol);
        if book.narrow_low(low, high, symbol) <= book.narrow_high(low, high, symbol) {
            lemma_sealed_settling(
                book,
                book.narrow_low(low, high, symbol),
                book.narrow_high(low, high, symbol),
                pending,
                anchor,
                symbols.skip(1),
            );
        }
    }
}

/// A packed digit stream holds the digits that were packed.
pub proof fn lemma_unpack(width: nat, full: Seq<u8>)
    requires
        width >= 1,
        full.len() >= width,
        all_digits(full),
        last_number(width, full) <= u32::MAX,
    ensures
        pack(width, full).len() == full.len() - width + 4,
        all_digits(pack(width, full).take(pack(width, full).len() - 4)),
        flush_value(pack(width, full)) == last_number(width, full),
        flush_fits(width, pack(width, full)),
        unpacked(width, pack(width, full)) == full,
{
    let stream = pack(width, full);
    let front = full.take(full.len() - width);
    let last = full.skip(full.len() - width);
    let value = digits_value(last);
    lemma_pow256_values();
    assert(all_digits(last)) by {
        assert forall|i: int| 0 <= i < last.len() implies #[trigger] last[i] <= 9 by {
            assert(last[i] == full[full.len() - width + i]);
        }
    }
    lemma_value_digits(last);
    lemma_le_bytes_len(value, 4);
    lemma_le_round_trip(value, 4);
    assert(stream.skip(stream.len() - 4) =~= le_bytes(value, 4));
    assert(stream.take(stream.len() - 4) =~= front);
    assert(front + last =~= full);
    assert(all_digits(front)) by {
        assert forall|i: int| 0 <= i < front.len() implies #[trigger] front[i] <= 9 by {
            assert(front[i] == full[i]);
        }
    }
}

/// Decoding the stream of an encoder, with the same codebook and from the
/// same range, gives back the symbols that were encoded. The stream is
/// digit bytes followed by the four bytes of the flush value.
pub proof fn lemma_stream_round_trip(book: Codebook, low: int, high: int, data: Seq<u8>)
    requires
        book.wf(),
        book.admits(low, high),
        emit_symbols(book, low, high, 0, 0, data) is Ok,
    ensures
        decode_stream(book, low, high, emit_symbols(book, low, high, 0, 0, data)->Ok_0, data.len())
            == Ok::<Seq<u8>, CodecError>(data),
        emit_symbols(book, low, high, 0, 0, data)->Ok_0.len() >= 4,
        all_digits(
            emit_symbols(book, low, high, 0, 0, data)->Ok_0.take(
                emit_symbols(book, low, high, 0, 0, data)->Ok_0.len() - 4,
            ),
        ),
{
    lemma_sealed_symbols(book, low, high, 0, 0, data);
    let full = digit_symbols(book, low, high, 0, 0, data)->Ok_0;
    lemma_digits_round_trip(book, low, high, data);
    lemma_unpack(book.width, full);
}

/// What a decoder at a settled or initial range does with a code value in
/// the range: the symbol it reads has an entry, and the range narrowed to
/// its share holds the code value.
pub proof fn lemma_read_step(book: Codebook, low: int, high: int, code: int)
    requires
        book.wf(),
        book.admits(low, high),
        low <= code <= high,
    ensures
        0 <= locate(book.entries, target_of(low, high, code, book.total)) < book.entries.len(),
        holds(
            book.entries,
            book.entries[locate(book.entries, target_of(low, high, code, book.total))].symbol,
        ),
        book.admits(
            book.narrow_low(
                low,
                high,
                book.entries[locate(book.entries, target_of(low, high, code, book.total))].symbol,
            ),
            book.narrow_high(
                low,
                high,
                book.entries[locate(book.entries, target_of(low, high, code, book.total))].symbol,
            ),
        ),
{
    let target = target_of(low, high, code, book.total);
    let place = locate(book.entries, target);
    let symbol = book.entries[place].symbol;
    lemma_cumulative_increasing(book.entries, book.total);
    lemma_target(low, high, code, 0, book.total);
    lemma_locate_exists(book.entries, book.total, target);
    lemma_position_unique(book.entries, place);
    lemma_target_share(
        low,
        high,
        code,
        prefix_total(book.entries, place),
        prefix_total(book.entries, place + 1),
        book.total,
    );
    lemma_narrow_symbol(book, low, high, symbol);
}

/// How many digits a decoder takes in depends on the symbols it reads
/// alone: two runs from one range that read the same symbols take in
/// equally many digits. Every run reads as many symbols as it was asked for.
pub proof fn lemma_digits_taken_settling(
    book: Codebook,
    low: int,
    high: int,
    count: nat,
    first_code: int,
    first: Seq<u8>,
    first_at: int,
    second_code: int,
    second: Seq<u8>,
    second_at: int,
)
    requires
        book.wf(),
        book.admits(low, high),
        read_settling(book, low, high, first_code, first, first_at, count) is Ok,
        read_settling(book, low, high, second_code, second, second_at, count) is Ok,
    ensures
        read_settling(book, low, high, first_code, first, first_at, count)->Ok_0.0.len() == count,
        read_settling(book, low, high, first_code, first, first_at, count)->Ok_0.0 == read_settling(
            book,
            low,
            high,
            second_code,
            second,
            second_at,
            count,
        )->Ok_0.0 ==> read_settling(book, low, high, first_code, first, first_at, count)->Ok_0.1
            - first_at == read_settling(
            book,
            low,
            high,
            second_code,
            second,
            second_at,
            count,
        )->Ok_0.1 - second_at,
    decreases count, 1int, 10 * book.unit() - (high - low + 1),
{
    let unit = book.unit();
    lemma_book_unit(book);
    if scale_ready(low, high, unit) {
        lemma_scale(low, high, unit);
        lemma_digits_taken_settling(
            book,
            scaled_low(low, high, unit),
            scaled_high(low, high, unit),
            count,
            10 * first_code + first[first_at] - scale_offset(low, high, unit),
            first,
            first_at + 1,
            10 * second_code + second[second_at] - scale_offset(low, high, unit),
            second,
            second_at + 1,
        );
    } else {
        lemma_digits_taken_symbols(
            book,
            low,
            high,
            count,
            first_code,
            first,
            first_at,
            second_code,
            second,
            second_at,
        );
    }
}

/// How many digits a decoder takes in from a settled or initial range on
/// depends on the symbols it reads alone.
pub proof fn lemma_digits_taken_symbols(
    book: Codebook,
    low: int,
    high: int,
    count: nat,
    first_code: int,
    first: Seq<u8>,
    first_at: int,
    second_code: int,
    second: Seq<u8>,
    second_at: int,
)
    requires
        book.wf(),
        book.admits(low, high),
        read_symbols(book, low, high, first_code, first, first_at, count) is Ok,
        read_symbols(book, low, high, second_code, second, second_at, count) is Ok,
    ensures
        read_symbols(book, low, high, first_code, first, first_at, count)->Ok_0.0.len() == count,
        read_symbols(book, low, high, first_code, first, first_at, count)->Ok_0.0 == read_symbols(
            book,
            low,
            high,
            second_code,
            second,
            second_at,
            count,
        )->Ok_0.0 ==> read_symbols(book, low, high, first_code, first, first_at, count)->Ok_0.1
            - first_at == read_symbols(
            book,
            low,
            high,
            second_code,
            second,
            second_at,
            count,
        )->Ok_0.1 - second_at,
    decreases count, 0int, 0int,
{
    if count > 0 {
        let one = book.entries[locate(
            book.entries,
            target_of(low, high, first_code, book.total),
        )].symbol;
        let two = book.entries[locate(
            book.entries,
            target_of(low, high, second_code, book.total),
        )].symbol;
        lemma_read_step(book, low, high, first_code);
        lemma_read_step(book, low, high, second_code);
        let left = (count - 1) as nat;
        let one_rest = read_settling(
            book,
            book.narrow_low(low, high, one),
            book.narrow_high(low, high, one),
            first_code,
            first,
            first_at,
            left,
        );
        let two_rest = read_settling(
            book,
            book.narrow_low(low, high, two),
            book.narrow_high(low, high, two),
            second_code,
            second,
            second_at,
            left,
        );
        let one_all = seq![one] + one_rest->Ok_0.0;
        let two_all = seq![two] + two_rest->Ok_0.0;
        if one == two {
            lemma_digits_taken_settling(
                book,
                book.narrow_low(low, high, one),
                book.narrow_high(low, high, one),
                left,
                first_code,
                first,
                first_at,
                second_code,
                second,
                second_at,
            );
            if one_all == two_all {
                assert(one_rest->Ok_0.0 =~= one_all.skip(1));
                assert(two_rest->Ok_0.0 =~= two_all.skip(1));
            }
        } else {
            lemma_digits_taken_settling(
                book,
                book.narrow_low(low, high, one),
                book.narrow_high(low, high, one),
                left,
                first_code,
                first,
                first_at,
                first_code,
                first,
                first_at,
            );
            assert(one_all[0] != two_all[0]);
        }
    }
}

/// On decimal digits a decoder either reads its symbols or finds the
/// stream truncated.
pub proof fn lemma_digits_read_settling(
    book: Codebook,
    low: int,
    high: int,
    code: int,
    stream: Seq<u8>,
    at: int,
    count: nat,
)
    requires
        book.wf(),
        book.admits(low, high),
        all_digits(stream),
    ensures
        read_settling(book, low, high, code, stream, at, count) is Err ==> read_settling(
            book,
            low,
            high,
            code,
            stream,
            at,
            count,
        )->Err_0 == CodecError::TruncatedStream,
    decreases count, 1int, 10 * book.unit() - (high - low + 1),
{
    let unit = book.unit();
    lemma_book_unit(book);
    if scale_ready(low, high, unit) {
        lemma_scale(low, high, unit);
        if 0 <= at < stream.len() {
            lemma_digits_read_settling(
                book,
                scaled_low(low, high, unit),
                scaled_high(low, high, unit),
                10 * code + stream[at] - scale_offset(low, high, unit),
                stream,
                at + 1,
                count,
            );
        }
    } else {
        lemma_digits_read_symbols(book, low, high, code, stream, at, count);
    }
}

/// On decimal digits a decoder at a settled or initial range either reads
/// its symbols or finds the stream truncated.
pub proof fn lemma_digits_read_symbols(
    book: Codebook,
    low: int,
    high: int,
    code: int,
    stream: Seq<u8>,
    at: int,
    count: nat,
)
    requires
        book.wf(),
        book.admits(low, high),
        all_digits(stream),
    ensures
        read_symbols(book, low, high, code, stream, at, count) is Err ==> read_symbols(
            book,
            low,
            high,
            code,
            stream,
            at,
            count,
        )->Err_0 == CodecError::TruncatedStream,
    decreases count, 0int, 0int,
{
    if count > 0 && low <= code <= high {
        let symbol = book.entries[locate(
            book.entries,
            target_of(low, high, code, book.total),
        )].symbol;
        lemma_read_step(book, low, high, code);
        lemma_digits_read_settling(
            book,
            book.narrow_low(low, high, symbol),
            book.narrow_high(low, high, symbol),
            code,
            stream,
            at,
            (count - 1) as nat,
        );
    }
}

/// A stream that has lost bytes at its end is refused as truncated, unless
/// what is left decodes to other data. It never decodes to the data that it
/// was encoded from.
pub proof fn lemma_stream_cut(book: Codebook, low: int, high: int, data: Seq<u8>, keep: int)
    requires
        book.wf(),
        book.admits(low, high),
        emit_symbols(book, low, high, 0, 0, data) is Ok,
        0 <= keep < emit_symbols(book, low, high, 0, 0, data)->Ok_0.len(),
    ensures
        decode_stream(
            book,
            low,
            high,
            emit_symbols(book, low, high, 0, 0, data)->Ok_0.take(keep),
            data.len(),
        ) != Ok::<Seq<u8>, CodecError>(data),
        decode_stream(
            book,
            low,
            high,
            emit_symbols(book, low, high, 0, 0, data)->Ok_0.take(keep),
            data.len(),
        ) is Err ==> decode_stream(
            book,
            low,
            high,
            emit_symbols(book, low, high, 0, 0, data)->Ok_0.take(keep),
            data.len(),
        )->Err_0 == CodecError::TruncatedStream,
{
    let stream = emit_symbols(book, low, high, 0, 0, data)->Ok_0;
    let full = digit_symbols(book, low, high, 0, 0, data)->Ok_0;
    let cut = stream.take(keep);
    let width = book.width as int;
    lemma_sealed_symbols(book, low, high, 0, 0, data);
    lemma_digits_round_trip(book, low, high, data);
    lemma_unpack(book.width, full);
    if keep >= 4 && flush_fits(book.width, cut) {
        let held = unpacked(book.width, cut);
        let front = stream.take(stream.len() - 4);
        lemma_digits_shape(flush_value(cut), book.width);
        assert(held.len() < full.len());
        assert(all_digits(held)) by {
            assert forall|i: int| 0 <= i < held.len() implies #[trigger] held[i] <= 9 by {
                if i < keep - 4 {
                    assert(held[i] == front[i]);
                } else {
                    assert(held[i] == digits(flush_value(cut), book.width)[i - (keep - 4)]);
                }
            }
        }
        let answer = read_digits(book, low, high, held, data.len());
        if held.len() >= width {
            assert(all_digits(held.take(width))) by {
                assert forall|i: int| 0 <= i < width implies #[trigger] held.take(width)[i]
                    <= 9 by {
                    assert(held.take(width)[i] == held[i]);
                }
            }
            lemma_digits_read_symbols(
                book,
                low,
                high,
                digits_value(held.take(width)) as int,
                held,
                width,
                data.len(),
            );
        }
        if answer is Ok && answer->Ok_0.0 == data {
            lemma_digits_taken_symbols(
                book,
                low,
                high,
                data.len(),
                digits_value(held.take(width)) as int,
                held,
                width,
                digits_value(full.take(width)) as int,
                full,
                width,
            );
        }
    }
}

/// A stream that decodes gives exactly as many symbols as were asked for.
pub proof fn lemma_decoded_count(book: Codebook, low: int, high: int, stream: Seq<u8>, count: nat)
    requires
        book.wf(),
        book.admits(low, high),
        decode_stream(book, low, high, stream, count) is Ok,
    ensures
        decode_stream(book, low, high, stream, count)->Ok_0.len() == count,
{
    let held = unpacked(book.width, stream);
    let code = digits_value(held.take(book.width as int)) as int;
    lemma_digits_taken_symbols(
        book,
        low,
        high,
        count,
        code,
        held,
        book.width as int,
        code,
        held,
        book.width as int,
    );
}

} // verus!
