//! The decoding laws: what holds of every configuration and every input,
//! stated over the spec-level decode models and proved once and for all.

use vstd::prelude::*;
use crate::error::{Endianness, ErrorKind, ParseError, ValueType};
use crate::num_parsers::{
    encode_binary, raw_binary_value, spec_float_decode, spec_int_decode, spec_uint_decode,
    spec_usize_decode, FloatDecoder, FloatRaw, IntDecoder, UintDecoder, UsizeDecoder,
};
use crate::repr::{
    lemma_be_bytes_len, lemma_be_bytes_value, lemma_le_bytes_len, lemma_le_bytes_value,
    lemma_signed_of_twos, pow256, twos,
};
use crate::scan::{
    dec_digits, dec_value, int_digits, is_digit, is_ws, lemma_dec_digits,
    lemma_dec_digits_len_u128, lemma_digit_run_all, lemma_digit_run_range,
    lemma_float_lit_len_range, lemma_skip_ws_range, lemma_skip_ws_through, sign_len, skip_ws,
};

verus! {

/// Encoding a value and reading it back in the same byte order is the
/// identity, for every value that fits the field.
pub proof fn lemma_encode_binary_value(order: Endianness, v: nat, w: nat)
    requires
        v < pow256(w),
    ensures
        encode_binary(order, v, w).len() == w,
        raw_binary_value(order, encode_binary(order, v, w)) == v,
{
    match order {
        Endianness::Little => {
            lemma_le_bytes_len(v, w);
            lemma_le_bytes_value(v, w);
        },
        Endianness::Big => {
            lemma_be_bytes_len(v, w);
            lemma_be_bytes_value(v, w);
        },
    }
}

/// Round trip within range, binary: every value representable in the
/// destination, encoded at the configured width in the configured byte
/// order, decodes back to exactly itself, consuming the whole field.
pub proof fn lemma_uint_round_trip_binary(d: UintDecoder, order: Endianness, v: u128)
    requires
        d.wf(),
        d.order == Some(order),
        v < pow256(d.width as nat),
        v <= d.max,
    ensures
        spec_uint_decode(d, encode_binary(order, v as nat, d.width as nat), 0)
            == Ok::<(usize, u128), ParseError>((d.width, v)),
{
    let s = encode_binary(order, v as nat, d.width as nat);
    lemma_encode_binary_value(order, v as nat, d.width as nat);
    assert(s.subrange(0, d.width as int) =~= s);
}

/// Round trip within range, textual: a bare digit string decodes to the
/// value it denotes whenever that value is within the destination range,
/// consuming the whole string.
pub proof fn lemma_uint_round_trip_text(d: UintDecoder, s: Seq<u8>, v: u128)
    requires
        d.order is None,
        1 <= s.len() <= usize::MAX,
        forall|j: int| 0 <= j < s.len() ==> is_digit(s[j]),
        dec_value(s) == v,
        v <= d.max,
    ensures
        spec_uint_decode(d, s, 0) == Ok::<(usize, u128), ParseError>((s.len() as usize, v)),
{
    lemma_digit_run_all(s, 0);
    assert(s.subrange(0, s.len() as int) =~= s);
}

/// Round trip within range, textual, with the decimal encoding made
/// explicit: the digit string of any value within the destination range
/// decodes back to exactly that value, consuming the whole string.
pub proof fn lemma_uint_round_trip_digits(d: UintDecoder, v: u128)
    requires
        d.order is None,
        v <= d.max,
    ensures
        ({
            let s = dec_digits(v as nat);
            spec_uint_decode(d, s, 0) == Ok::<(usize, u128), ParseError>((s.len() as usize, v))
        }),
{
    lemma_dec_digits(v as nat);
    lemma_dec_digits_len_u128(v as nat);
    lemma_uint_round_trip_text(d, dec_digits(v as nat), v);
}

/// Overflow rejection, binary: a value that fits the field but exceeds the
/// destination range is refused with a range violation of the unsigned
/// category, and no value is yielded.
pub proof fn lemma_uint_overflow_binary(d: UintDecoder, order: Endianness, v: nat)
    requires
        d.wf(),
        d.order == Some(order),
        v < pow256(d.width as nat),
        v > d.max,
    ensures
        spec_uint_decode(d, encode_binary(order, v, d.width as nat), 0)
            == Err::<(usize, u128), ParseError>(
            (ParseError { kind: ErrorKind::ValueOutOfRange(ValueType::UnsignedInt), pos: 0 }),
        ),
{
    let s = encode_binary(order, v, d.width as nat);
    lemma_encode_binary_value(order, v, d.width as nat);
    assert(s.subrange(0, d.width as int) =~= s);
}

/// Overflow rejection, textual: a digit string denoting a value beyond the
/// destination range is refused with the same range violation.
pub proof fn lemma_uint_overflow_text(d: UintDecoder, s: Seq<u8>)
    requires
        d.order is None,
        1 <= s.len() <= usize::MAX,
        forall|j: int| 0 <= j < s.len() ==> is_digit(s[j]),
        dec_value(s) > d.max,
    ensures
        spec_uint_decode(d, s, 0) == Err::<(usize, u128), ParseError>(
            (ParseError { kind: ErrorKind::ValueOutOfRange(ValueType::UnsignedInt), pos: 0 }),
        ),
{
    lemma_digit_run_all(s, 0);
    assert(s.subrange(0, s.len() as int) =~= s);
}

/// Exact fit acceptance: the largest value of the destination range,
/// encoded at the configured width, decodes successfully and unchanged.
pub proof fn lemma_uint_exact_fit(d: UintDecoder, order: Endianness)
    requires
        d.wf(),
        d.order == Some(order),
        d.max < pow256(d.width as nat),
    ensures
        spec_uint_decode(d, encode_binary(order, d.max as nat, d.width as nat), 0)
            == Ok::<(usize, u128), ParseError>((d.width, d.max)),
{
    lemma_uint_round_trip_binary(d, order, d.max);
}

/// Insufficient input: with fewer bytes left than the configured width the
/// unsigned decoder fails with `InsufficientInput` at the cursor position.
pub proof fn lemma_uint_insufficient(d: UintDecoder, s: Seq<u8>, pos: usize)
    requires
        d.order is Some,
        s.len() - pos < d.width,
    ensures
        spec_uint_decode(d, s, pos as int) == Err::<(usize, u128), ParseError>(
            (ParseError { kind: ErrorKind::InsufficientInput, pos }),
        ),
{
}

/// Insufficient input for the signed decoder.
pub proof fn lemma_int_insufficient(d: IntDecoder, s: Seq<u8>, pos: usize)
    requires
        d.order is Some,
        s.len() - pos < d.width,
    ensures
        spec_int_decode(d, s, pos as int) == Err::<(usize, i128), ParseError>(
            (ParseError { kind: ErrorKind::InsufficientInput, pos }),
        ),
{
}

/// Insufficient input for the float decoder.
pub proof fn lemma_float_insufficient(d: FloatDecoder, s: Seq<u8>, pos: usize)
    requires
        d.order is Some,
        s.len() - pos < d.width,
    ensures
        spec_float_decode(d, s, pos as int) == Err::<(usize, FloatRaw), ParseError>(
            (ParseError { kind: ErrorKind::InsufficientInput, pos }),
        ),
{
}

/// Whitespace tolerance: leading whitespace changes neither the outcome of
/// a textual unsigned decode nor what it consumes past the whitespace.
pub proof fn lemma_uint_leading_ws(d: UintDecoder, s: Seq<u8>, k: usize)
    requires
        d.order is None,
        k <= s.len(),
        forall|j: int| 0 <= j < k ==> is_ws(s[j]),
    ensures
        spec_uint_decode(d, s, 0) == spec_uint_decode(d, s, k as int),
{
    lemma_skip_ws_through(s, 0, k as nat);
}

/// Whitespace tolerance for the signed decoder.
pub proof fn lemma_int_leading_ws(d: IntDecoder, s: Seq<u8>, k: usize)
    requires
        d.order is None,
        k <= s.len(),
        forall|j: int| 0 <= j < k ==> is_ws(s[j]),
    ensures
        spec_int_decode(d, s, 0) == spec_int_decode(d, s, k as int),
{
    lemma_skip_ws_through(s, 0, k as nat);
}

/// Whitespace tolerance for the float decoder.
pub proof fn lemma_float_leading_ws(d: FloatDecoder, s: Seq<u8>, k: usize)
    requires
        d.order is None,
        k <= s.len(),
        forall|j: int| 0 <= j < k ==> is_ws(s[j]),
    ensures
        spec_float_decode(d, s, 0) == spec_float_decode(d, s, k as int),
{
    lemma_skip_ws_through(s, 0, k as nat);
}

/// An input of whitespace alone holds no literal: the textual unsigned
/// decoder fails with `MalformedLiteral` at the end of the whitespace.
pub proof fn lemma_uint_only_ws(d: UintDecoder, s: Seq<u8>)
    requires
        d.order is None,
        s.len() <= usize::MAX,
        forall|j: int| 0 <= j < s.len() ==> is_ws(s[j]),
    ensures
        spec_uint_decode(d, s, 0) == Err::<(usize, u128), ParseError>(
            (ParseError { kind: ErrorKind::MalformedLiteral, pos: s.len() as usize }),
        ),
{
    lemma_skip_ws_through(s, 0, s.len());
}

/// An input of whitespace alone holds no literal for the signed decoder
/// either.
pub proof fn lemma_int_only_ws(d: IntDecoder, s: Seq<u8>)
    requires
        d.order is None,
        s.len() <= usize::MAX,
        forall|j: int| 0 <= j < s.len() ==> is_ws(s[j]),
    ensures
        spec_int_decode(d, s, 0) == Err::<(usize, i128), ParseError>(
            (ParseError { kind: ErrorKind::MalformedLiteral, pos: s.len() as usize }),
        ),
{
    lemma_skip_ws_through(s, 0, s.len());
}

/// An input of whitespace alone holds no literal for the float decoder
/// either.
pub proof fn lemma_float_only_ws(d: FloatDecoder, s: Seq<u8>)
    requires
        d.order is None,
        s.len() <= usize::MAX,
        forall|j: int| 0 <= j < s.len() ==> is_ws(s[j]),
    ensures
        spec_float_decode(d, s, 0) == Err::<(usize, FloatRaw), ParseError>(
            (ParseError { kind: ErrorKind::MalformedLiteral, pos: s.len() as usize }),
        ),
{
    lemma_skip_ws_through(s, 0, s.len());
}

/// Round trip within range for signed values, binary: every value inside
/// the destination range that a `w`-byte two's-complement field can hold
/// decodes back to exactly itself.
pub proof fn lemma_int_round_trip_binary(d: IntDecoder, order: Endianness, v: i128)
    requires
        d.wf(),
        d.order == Some(order),
        -(pow256(d.width as nat) / 2) <= v < pow256(d.width as nat) / 2,
        d.min <= v <= d.max,
    ensures
        spec_int_decode(d, encode_binary(order, twos(v as int, d.width as nat), d.width as nat), 0)
            == Ok::<(usize, i128), ParseError>((d.width, v)),
{
    let w = d.width as nat;
    lemma_signed_of_twos(v as int, w);
    let s = encode_binary(order, twos(v as int, w), w);
    lemma_encode_binary_value(order, twos(v as int, w), w);
    assert(s.subrange(0, d.width as int) =~= s);
}

/// Overflow rejection for signed values, binary: a field value whose
/// two's-complement reading falls outside the destination range is refused
/// with a range violation of the signed category.
pub proof fn lemma_int_overflow_binary(d: IntDecoder, order: Endianness, v: int)
    requires
        d.wf(),
        d.order == Some(order),
        -(pow256(d.width as nat) / 2) <= v < pow256(d.width as nat) / 2,
        v < d.min || v > d.max,
    ensures
        spec_int_decode(d, encode_binary(order, twos(v, d.width as nat), d.width as nat), 0)
            == Err::<(usize, i128), ParseError>(
            (ParseError { kind: ErrorKind::ValueOutOfRange(ValueType::Int), pos: 0 }),
        ),
{
    let w = d.width as nat;
    lemma_signed_of_twos(v, w);
    let s = encode_binary(order, twos(v, w), w);
    lemma_encode_binary_value(order, twos(v, w), w);
    assert(s.subrange(0, d.width as int) =~= s);
}

/// Exact fit acceptance for signed values: the largest value of the
/// destination range, encoded two's complement at the configured width,
/// decodes successfully and unchanged.
pub proof fn lemma_int_exact_fit(d: IntDecoder, order: Endianness)
    requires
        d.wf(),
        d.order == Some(order),
        -(pow256(d.width as nat) / 2) <= d.max < pow256(d.width as nat) / 2,
        d.min <= d.max,
    ensures
        spec_int_decode(
            d,
            encode_binary(order, twos(d.max as int, d.width as nat), d.width as nat),
            0,
        ) == Ok::<(usize, i128), ParseError>((d.width, d.max)),
{
    lemma_int_round_trip_binary(d, order, d.max);
}

/// Overflow rejection for signed values, textual: a signed digit string
/// denoting a value outside the destination range is refused with a range
/// violation of the signed category.
pub proof fn lemma_int_overflow_text(d: IntDecoder, s: Seq<u8>, v: int)
    requires
        d.order is None,
        s.len() <= usize::MAX,
        v >= 0 ==> {
            &&& s.len() >= 1
            &&& forall|j: int| 0 <= j < s.len() ==> is_digit(s[j])
            &&& dec_value(s) == v
        },
        v < 0 ==> {
            &&& s.len() >= 2
            &&& s[0] == 45
            &&& forall|j: int| 1 <= j < s.len() ==> is_digit(s[j])
            &&& dec_value(s.subrange(1, s.len() as int)) == -v
        },
        v < d.min || v > d.max,
    ensures
        spec_int_decode(d, s, 0) == Err::<(usize, i128), ParseError>(
            (ParseError { kind: ErrorKind::ValueOutOfRange(ValueType::Int), pos: 0 }),
        ),
{
    if v >= 0 {
        lemma_digit_run_all(s, 0);
        assert(s.subrange(0, s.len() as int) =~= s);
    } else {
        lemma_digit_run_all(s, 1);
    }
}

/// Round trip within range for signed values, textual: a digit string with
/// an optional leading minus decodes to the signed value it denotes
/// whenever that value is within the destination range.
pub proof fn lemma_int_round_trip_text(d: IntDecoder, s: Seq<u8>, v: i128)
    requires
        d.order is None,
        s.len() <= usize::MAX,
        v >= 0 ==> {
            &&& s.len() >= 1
            &&& forall|j: int| 0 <= j < s.len() ==> is_digit(s[j])
            &&& dec_value(s) == v
        },
        v < 0 ==> {
            &&& s.len() >= 2
            &&& s[0] == 45
            &&& forall|j: int| 1 <= j < s.len() ==> is_digit(s[j])
            &&& dec_value(s.subrange(1, s.len() as int)) == -(v as int)
        },
        d.min <= v <= d.max,
    ensures
        spec_int_decode(d, s, 0) == Ok::<(usize, i128), ParseError>((s.len() as usize, v)),
{
    if v >= 0 {
        lemma_digit_run_all(s, 0);
        assert(s.subrange(0, s.len() as int) =~= s);
    } else {
        lemma_digit_run_all(s, 1);
    }
}

/// Round trip within range for signed values, textual, with the decimal
/// encoding made explicit: the signed digit string of any value within the
/// destination range decodes back to exactly that value.
pub proof fn lemma_int_round_trip_digits(d: IntDecoder, v: i128)
    requires
        d.order is None,
        d.min <= v <= d.max,
    ensures
        ({
            let s = int_digits(v as int);
            spec_int_decode(d, s, 0) == Ok::<(usize, i128), ParseError>((s.len() as usize, v))
        }),
{
    let s = int_digits(v as int);
    if v >= 0 {
        lemma_dec_digits(v as nat);
        lemma_dec_digits_len_u128(v as nat);
        lemma_int_round_trip_text(d, s, v);
    } else {
        let mag = dec_digits((-(v as int)) as nat);
        lemma_dec_digits((-(v as int)) as nat);
        lemma_dec_digits_len_u128((-(v as int)) as nat);
        assert(s.subrange(1, s.len() as int) =~= mag);
        lemma_int_round_trip_text(d, s, v);
    }
}

/// Size adaptation, success: when the underlying unsigned decode yields a
/// value the platform can index, the adapter yields it as a `usize` at the
/// same position.
pub proof fn lemma_size_fits(d: UsizeDecoder, s: Seq<u8>, pos: usize, np: usize, v: u128)
    requires
        spec_uint_decode(d.inner, s, pos as int) == Ok::<(usize, u128), ParseError>((np, v)),
        v <= usize::MAX,
    ensures
        spec_usize_decode(d, s, pos as int) == Ok::<(usize, usize), ParseError>((np, v as usize)),
{
}

/// Size adaptation, failure: a decoded count beyond the platform's
/// addressable range fails with `TooManyEntities` — a kind of its own,
/// distinct from every `ValueOutOfRange` — and not with a range violation.
pub proof fn lemma_size_too_many(d: UsizeDecoder, s: Seq<u8>, pos: usize, np: usize, v: u128)
    requires
        spec_uint_decode(d.inner, s, pos as int) == Ok::<(usize, u128), ParseError>((np, v)),
        v > usize::MAX,
    ensures
        spec_usize_decode(d, s, pos as int) == Err::<(usize, usize), ParseError>(
            (ParseError { kind: ErrorKind::TooManyEntities, pos }),
        ),
        forall|c: ValueType| (ParseError { kind: ErrorKind::TooManyEntities, pos }).kind
            != ErrorKind::ValueOutOfRange(c),
{
}

/// Bytes are consumed strictly in source order: a successful unsigned
/// decode lands at or after the cursor and never past the end of the
/// input, so repeated decoding re-reads nothing and reads nothing out of
/// bounds.
pub proof fn lemma_uint_consumes_forward(d: UintDecoder, s: Seq<u8>, pos: usize, np: usize, v: u128)
    requires
        pos <= s.len() <= usize::MAX,
        spec_uint_decode(d, s, pos as int) == Ok::<(usize, u128), ParseError>((np, v)),
    ensures
        pos <= np <= s.len(),
{
    if d.order is None {
        lemma_skip_ws_range(s, pos as nat);
        lemma_digit_run_range(s, skip_ws(s, pos as nat));
    }
}

/// Bytes are consumed strictly in source order by the signed decoder.
pub proof fn lemma_int_consumes_forward(d: IntDecoder, s: Seq<u8>, pos: usize, np: usize, v: i128)
    requires
        pos <= s.len() <= usize::MAX,
        spec_int_decode(d, s, pos as int) == Ok::<(usize, i128), ParseError>((np, v)),
    ensures
        pos <= np <= s.len(),
{
    if d.order is None {
        lemma_skip_ws_range(s, pos as nat);
        let t = skip_ws(s, pos as nat);
        lemma_digit_run_range(s, t + sign_len(s, t));
    }
}

/// Bytes are consumed strictly in source order by the float decoder.
pub proof fn lemma_float_consumes_forward(
    d: FloatDecoder,
    s: Seq<u8>,
    pos: usize,
    np: usize,
    v: FloatRaw,
)
    requires
        d.wf(),
        pos <= s.len() <= usize::MAX,
        spec_float_decode(d, s, pos as int) == Ok::<(usize, FloatRaw), ParseError>((np, v)),
    ensures
        pos <= np <= s.len(),
{
    if d.order is None {
        lemma_skip_ws_range(s, pos as nat);
        lemma_float_lit_len_range(s, skip_ws(s, pos as nat));
    }
}

/// Round trip for binary float fields: the field's bit pattern is handed
/// on exactly, whichever byte order encoded it.
pub proof fn lemma_float_bits_round_trip(d: FloatDecoder, order: Endianness, v: u128)
    requires
        d.wf(),
        d.order == Some(order),
        v < pow256(d.width as nat),
    ensures
        spec_float_decode(d, encode_binary(order, v as nat, d.width as nat), 0)
            == Ok::<(usize, FloatRaw), ParseError>(
            (
                d.width,
                if d.width == 4 {
                    FloatRaw::Bits32(v as u32)
                } else {
                    FloatRaw::Bits64(v as u64)
                },
            ),
        ),
{
    let s = encode_binary(order, v as nat, d.width as nat);
    lemma_encode_binary_value(order, v as nat, d.width as nat);
    assert(s.subrange(0, d.width as int) =~= s);
}

} // verus!
