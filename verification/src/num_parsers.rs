//! Decoder construction: the dispatch over (value kind, source width,
//! byte order) into one concrete decoding routine per configuration.
//!
//! A decoder is built once per field of the file being read and then run
//! once per scalar against a byte cursor `(input, pos)`. On success it
//! returns the position just past the consumed bytes and the value; on
//! failure the cursor is not advanced and the error carries the position
//! where the failing token or byte run starts. The exec `decode` methods
//! are proved equal to the spec-level models `spec_uint_decode`,
//! `spec_int_decode`, `spec_float_decode` and `spec_usize_decode`, which
//! state the behaviour closed-form.

use vstd::prelude::*;
use crate::error::{ConfigError, Endianness, ErrorKind, ParseError, ValueType};
use crate::repr::{
    be_value, le_value, lemma_be_value_bound, lemma_le_value_bound, lemma_pow256_16,
    lemma_pow256_increases, pow256, signed_of,
};
use crate::scan::{
    dec_value, digit_run, is_digit, lemma_digit_run_chars, lemma_dec_value_prefix, scan_digits,
    scan_ws, sign_len, skip_ws, float_lit_len, scan_float_lit,
};

verus! {

/// The physical widths for which a fixed-width integer reader exists.
pub open spec fn valid_int_width(w: usize) -> bool {
    w == 1 || w == 2 || w == 4 || w == 8 || w == 16
}

/// The physical widths for which a fixed-width float reader exists.
pub open spec fn valid_float_width(w: usize) -> bool {
    w == 4 || w == 8
}

/// The raw unsigned denotation of a binary field in the given byte order.
pub open spec fn raw_binary_value(order: Endianness, s: Seq<u8>) -> nat {
    match order {
        Endianness::Little => le_value(s),
        Endianness::Big => be_value(s),
    }
}

/// The `w`-byte encoding of a raw value in the given byte order: the
/// inverse of `raw_binary_value` on values that fit in `w` bytes.
pub open spec fn encode_binary(order: Endianness, v: nat, w: nat) -> Seq<u8> {
    match order {
        Endianness::Little => crate::repr::le_bytes(v, w),
        Endianness::Big => crate::repr::be_bytes(v, w),
    }
}

/// Read the `width`-byte little-endian field at `pos`.
fn read_le(input: &[u8], pos: usize, width: usize) -> (r: u128)
    requires
        width <= 16,
        pos + width <= input.len(),
    ensures
        r == le_value(input@.subrange(pos as int, pos + width)),
{
    let mut acc: u128 = 0;
    let mut k: usize = width;
    proof {
        assert(input@.subrange(pos + width, pos + width) =~= Seq::<u8>::empty());
    }
    while k > 0
        invariant
            k <= width <= 16,
            pos + width <= input.len(),
            acc == le_value(input@.subrange(pos + k, pos + width)),
            acc < pow256((width - k) as nat),
        decreases k,
    {
        proof {
            let m = (width - k) as nat;
            assert(pow256(m + 1) == 256 * pow256(m));
            lemma_pow256_increases(m + 1, 16);
            lemma_pow256_16();
            let s1 = input@.subrange(pos + k - 1, pos + width);
            assert(s1.drop_first() =~= input@.subrange(pos + k, pos + width));
            assert(le_value(s1) == (s1[0] as nat) + 256 * le_value(s1.drop_first()));
        }
        let b = input[pos + k - 1];
        acc = (b as u128) + acc * 256;
        k = k - 1;
    }
    acc
}

/// Read the `width`-byte big-endian field at `pos`.
fn read_be(input: &[u8], pos: usize, width: usize) -> (r: u128)
    requires
        width <= 16,
        pos + width <= input.len(),
    ensures
        r == be_value(input@.subrange(pos as int, pos + width)),
{
    let mut acc: u128 = 0;
    let mut k: usize = 0;
    proof {
        assert(input@.subrange(pos as int, pos as int) =~= Seq::<u8>::empty());
    }
    while k < width
        invariant
            k <= width <= 16,
            pos + width <= input.len(),
            acc == be_value(input@.subrange(pos as int, pos + k)),
            acc < pow256(k as nat),
        decreases width - k,
    {
        proof {
            assert(pow256((k + 1) as nat) == 256 * pow256(k as nat));
            lemma_pow256_increases((k + 1) as nat, 16);
            lemma_pow256_16();
            let s1 = input@.subrange(pos as int, pos + k + 1);
            assert(s1.drop_last() =~= input@.subrange(pos as int, pos + k));
            assert(be_value(s1) == 256 * be_value(s1.drop_last()) + (s1.last() as nat));
        }
        let b = input[pos + k];
        acc = acc * 256 + (b as u128);
        k = k + 1;
    }
    acc
}

/// Read the binary field at `pos` in the configured order.
fn read_binary(input: &[u8], pos: usize, width: usize, order: Endianness) -> (r: u128)
    requires
        width <= 16,
        pos + width <= input.len(),
    ensures
        r == raw_binary_value(order, input@.subrange(pos as int, pos + width)),
{
    match order {
        Endianness::Little => read_le(input, pos, width),
        Endianness::Big => read_be(input, pos, width),
    }
}

/// Accumulate the digit run `input[start .. start + count]` into a `u128`,
/// or report that its value exceeds every unsigned destination.
fn parse_digits_u128(input: &[u8], start: usize, count: usize) -> (r: Option<u128>)
    requires
        start + count <= input.len(),
        forall|j: int| start <= j < start + count ==> is_digit(input@[j]),
    ensures
        match r {
            Some(v) => v == dec_value(input@.subrange(start as int, start + count)),
            None => dec_value(input@.subrange(start as int, start + count)) > u128::MAX,
        },
{
    let mut acc: u128 = 0;
    let mut j: usize = 0;
    proof {
        assert(input@.subrange(start as int, start as int) =~= Seq::<u8>::empty());
    }
    while j < count
        invariant
            j <= count,
            start + count <= input.len(),
            forall|jj: int| start <= jj < start + count ==> is_digit(input@[jj]),
            acc == dec_value(input@.subrange(start as int, start + j)),
        decreases count - j,
    {
        let b = input[start + j];
        let d: u128 = (b - 48) as u128;
        proof {
            let pre = input@.subrange(start as int, start + j);
            let pre1 = input@.subrange(start as int, start + j + 1);
            assert(pre1.drop_last() =~= pre);
            assert(pre1.last() == input@[start + j]);
            vstd::arithmetic::div_mod::lemma_fundamental_div_mod(
                (u128::MAX - d) as int,
                10,
            );
            vstd::arithmetic::div_mod::lemma_mod_bound((u128::MAX - d) as int, 10);
        }
        if acc > (u128::MAX - d) / 10 {
            proof {
                let full = input@.subrange(start as int, start + count);
                let pre1 = input@.subrange(start as int, start + j + 1);
                assert(full.take(j + 1) =~= pre1);
                lemma_dec_value_prefix(full, (j + 1) as nat);
            }
            return None;
        }
        acc = acc * 10 + d;
        j = j + 1;
    }
    Some(acc)
}

/// What the unsigned decoder with configuration `d` yields on the cursor
/// `(s, pos)`: the whole behaviour, success and failure alike.
pub open spec fn spec_uint_decode(d: UintDecoder, s: Seq<u8>, pos: int) -> Result<
    (usize, u128),
    ParseError,
> {
    match d.order {
        Some(order) => {
            if s.len() - pos < d.width {
                Err(ParseError { kind: ErrorKind::InsufficientInput, pos: pos as usize })
            } else {
                let raw = raw_binary_value(order, s.subrange(pos, pos + d.width));
                if raw <= d.max {
                    Ok(((pos + d.width) as usize, raw as u128))
                } else {
                    Err(
                        ParseError {
                            kind: ErrorKind::ValueOutOfRange(ValueType::UnsignedInt),
                            pos: pos as usize,
                        },
                    )
                }
            }
        },
        None => {
            let t = skip_ws(s, pos as nat);
            let n = digit_run(s, t);
            if n == 0 {
                Err(ParseError { kind: ErrorKind::MalformedLiteral, pos: t as usize })
            } else {
                let v = dec_value(s.subrange(t as int, (t + n) as int));
                if v <= d.max {
                    Ok(((t + n) as usize, v as u128))
                } else {
                    Err(
                        ParseError {
                            kind: ErrorKind::ValueOutOfRange(ValueType::UnsignedInt),
                            pos: t as usize,
                        },
                    )
                }
            }
        },
    }
}

/// An unsigned-integer decoder: reads one field of `width` bytes in `order`
/// (or one textual token when `order` is `None`) and narrows it into the
/// destination range `0 ..= max`.
#[derive(Clone, Copy, Debug)]
pub struct UintDecoder {
    pub width: usize,
    pub order: Option<Endianness>,
    pub max: u128,
}

impl UintDecoder {
    /// A binary configuration carries a width a physical reader exists for.
    pub open spec fn wf(self) -> bool {
        self.order is Some ==> valid_int_width(self.width)
    }

    /// Decode one unsigned scalar at `pos`. The result is exactly what
    /// `spec_uint_decode` states for this configuration and cursor.
    pub fn decode(&self, input: &[u8], pos: usize) -> (r: Result<(usize, u128), ParseError>)
        requires
            self.wf(),
            pos <= input.len(),
        ensures
            r == spec_uint_decode(*self, input@, pos as int),
    {
        match self.order {
            Some(order) => {
                if input.len() - pos < self.width {
                    Err(ParseError { kind: ErrorKind::InsufficientInput, pos })
                } else {
                    let raw = read_binary(input, pos, self.width, order);
                    if raw <= self.max {
                        Ok((pos + self.width, raw))
                    } else {
                        Err(
                            ParseError {
                                kind: ErrorKind::ValueOutOfRange(ValueType::UnsignedInt),
                                pos,
                            },
                        )
                    }
                }
            },
            None => {
                let t = scan_ws(input, pos);
                let n = scan_digits(input, t);
                if n == 0 {
                    Err(ParseError { kind: ErrorKind::MalformedLiteral, pos: t })
                } else {
                    proof {
                        lemma_digit_run_chars(input@, t as nat);
                    }
                    match parse_digits_u128(input, t, n) {
                        Some(v) => {
                            if v <= self.max {
                                Ok((t + n, v))
                            } else {
                                Err(
                                    ParseError {
                                        kind: ErrorKind::ValueOutOfRange(ValueType::UnsignedInt),
                                        pos: t,
                                    },
                                )
                            }
                        },
                        None => {
                            Err(
                                ParseError {
                                    kind: ErrorKind::ValueOutOfRange(ValueType::UnsignedInt),
                                    pos: t,
                                },
                            )
                        },
                    }
                }
            },
        }
    }
}

/// Build the unsigned decoder for one configuration: `source_size` bytes in
/// `endianness`, textual when `endianness` is `None`, narrowing into
/// `0 ..= target_max`. In binary mode an unsupported width is refused here,
/// before any input is read.
pub fn uint_parser(source_size: usize, endianness: Option<Endianness>, target_max: u128) -> (r:
    Result<UintDecoder, ConfigError>)
    ensures
        match r {
            Ok(d) => {
                &&& endianness is Some ==> valid_int_width(source_size)
                &&& d == (UintDecoder { width: source_size, order: endianness, max: target_max })
                &&& d.wf()
            },
            Err(e) => {
                &&& endianness is Some
                &&& !valid_int_width(source_size)
                &&& e == (ConfigError::UnsupportedWidth { width: source_size })
            },
        },
{
    if endianness.is_some() && !(source_size == 1 || source_size == 2 || source_size == 4
        || source_size == 8 || source_size == 16) {
        Err(ConfigError::UnsupportedWidth { width: source_size })
    } else {
        Ok(UintDecoder { width: source_size, order: endianness, max: target_max })
    }
}

/// What the size adapter yields: the underlying unsigned decode, further
/// narrowed into the platform's addressable size type. A value the platform
/// cannot index is a distinct failure, `TooManyEntities`, not a generic
/// range violation.
pub open spec fn spec_usize_decode(d: UsizeDecoder, s: Seq<u8>, pos: int) -> Result<
    (usize, usize),
    ParseError,
> {
    match spec_uint_decode(d.inner, s, pos) {
        Ok((np, v)) => {
            if v <= usize::MAX {
                Ok((np, v as usize))
            } else {
                Err(ParseError { kind: ErrorKind::TooManyEntities, pos: pos as usize })
            }
        },
        Err(e) => Err(e),
    }
}

/// A decoder for counts and indices: an unsigned decoder whose result must
/// also fit the platform's `usize`.
#[derive(Clone, Copy, Debug)]
pub struct UsizeDecoder {
    pub inner: UintDecoder,
}

impl UsizeDecoder {
    pub open spec fn wf(self) -> bool {
        self.inner.wf()
    }

    /// Decode one count at `pos`, exactly as `spec_usize_decode` states.
    pub fn decode(&self, input: &[u8], pos: usize) -> (r: Result<(usize, usize), ParseError>)
        requires
            self.wf(),
            pos <= input.len(),
        ensures
            r == spec_usize_decode(*self, input@, pos as int),
    {
        match self.inner.decode(input, pos) {
            Ok((np, v)) => {
                if v <= usize::MAX as u128 {
                    Ok((np, v as usize))
                } else {
                    Err(ParseError { kind: ErrorKind::TooManyEntities, pos })
                }
            },
            Err(e) => Err(e),
        }
    }
}

/// Adapt an unsigned decoder into a count decoder.
pub fn construct_usize_parser(inner: UintDecoder) -> (r: UsizeDecoder)
    ensures
        r == (UsizeDecoder { inner }),
{
    UsizeDecoder { inner }
}

/// Reinterpret a raw `width`-byte unsigned value as two's complement.
fn to_signed(raw: u128, width: usize) -> (r: i128)
    requires
        valid_int_width(width),
        raw < pow256(width as nat),
    ensures
        r == signed_of(raw as nat, width as nat),
{
    proof {
        reveal_with_fuel(pow256, 9);
        lemma_pow256_16();
    }
    if width == 16 {
        let half: u128 = 0x80000000000000000000000000000000;
        if raw >= half {
            i128::MIN + ((raw - half) as i128)
        } else {
            raw as i128
        }
    } else {
        let pow: u128 = if width == 1 {
            0x100
        } else if width == 2 {
            0x10000
        } else if width == 4 {
            0x100000000
        } else {
            0x10000000000000000
        };
        let half: u128 = pow / 2;
        if raw >= half {
            -((pow - raw) as i128)
        } else {
            raw as i128
        }
    }
}

/// What the signed decoder with configuration `d` yields on the cursor
/// `(s, pos)`.
pub open spec fn spec_int_decode(d: IntDecoder, s: Seq<u8>, pos: int) -> Result<
    (usize, i128),
    ParseError,
> {
    match d.order {
        Some(order) => {
            if s.len() - pos < d.width {
                Err(ParseError { kind: ErrorKind::InsufficientInput, pos: pos as usize })
            } else {
                let raw = raw_binary_value(order, s.subrange(pos, pos + d.width));
                let v = signed_of(raw, d.width as nat);
                if d.min <= v && v <= d.max {
                    Ok(((pos + d.width) as usize, v as i128))
                } else {
                    Err(
                        ParseError {
                            kind: ErrorKind::ValueOutOfRange(ValueType::Int),
                            pos: pos as usize,
                        },
                    )
                }
            }
        },
        None => {
            let t = skip_ws(s, pos as nat);
            let sl = sign_len(s, t);
            let neg = t < s.len() && s[t as int] == 45;
            let n = digit_run(s, (t + sl) as nat);
            if n == 0 {
                Err(ParseError { kind: ErrorKind::MalformedLiteral, pos: t as usize })
            } else {
                let mag = dec_value(s.subrange((t + sl) as int, (t + sl + n) as int));
                let v: int = if neg {
                    -(mag as int)
                } else {
                    mag as int
                };
                if d.min <= v && v <= d.max {
                    Ok(((t + sl + n) as usize, v as i128))
                } else {
                    Err(
                        ParseError {
                            kind: ErrorKind::ValueOutOfRange(ValueType::Int),
                            pos: t as usize,
                        },
                    )
                }
            }
        },
    }
}

/// A signed-integer decoder: reads one field of `width` bytes in `order`
/// (two's complement; or one optionally-signed textual token when `order`
/// is `None`) and narrows it into the destination range `min ..= max`.
#[derive(Clone, Copy, Debug)]
pub struct IntDecoder {
    pub width: usize,
    pub order: Option<Endianness>,
    pub min: i128,
    pub max: i128,
}

impl IntDecoder {
    /// A binary configuration carries a width a physical reader exists for.
    pub open spec fn wf(self) -> bool {
        self.order is Some ==> valid_int_width(self.width)
    }

    /// Decode one signed scalar at `pos`. The result is exactly what
    /// `spec_int_decode` states for this configuration and cursor.
    pub fn decode(&self, input: &[u8], pos: usize) -> (r: Result<(usize, i128), ParseError>)
        requires
            self.wf(),
            pos <= input.len(),
        ensures
            r == spec_int_decode(*self, input@, pos as int),
    {
        match self.order {
            Some(order) => {
                if input.len() - pos < self.width {
                    Err(ParseError { kind: ErrorKind::InsufficientInput, pos })
                } else {
                    let raw = read_binary(input, pos, self.width, order);
                    proof {
                        let sb = input@.subrange(pos as int, pos + self.width);
                        lemma_le_value_bound(sb);
                        lemma_be_value_bound(sb);
                    }
                    let v = to_signed(raw, self.width);
                    if self.min <= v && v <= self.max {
                        Ok((pos + self.width, v))
                    } else {
                        Err(
                            ParseError { kind: ErrorKind::ValueOutOfRange(ValueType::Int), pos },
                        )
                    }
                }
            },
            None => {
                let t = scan_ws(input, pos);
                let mut sl: usize = 0;
                let mut neg = false;
                if t < input.len() && (input[t] == 43 || input[t] == 45) {
                    sl = 1;
                    neg = input[t] == 45;
                }
                let n = scan_digits(input, t + sl);
                if n == 0 {
                    Err(ParseError { kind: ErrorKind::MalformedLiteral, pos: t })
                } else {
                    proof {
                        lemma_digit_run_chars(input@, (t + sl) as nat);
                    }
                    let oor = Err(
                        ParseError { kind: ErrorKind::ValueOutOfRange(ValueType::Int), pos: t },
                    );
                    match parse_digits_u128(input, t + sl, n) {
                        Some(mag) => {
                            if neg {
                                if mag <= i128::MAX as u128 {
                                    let v = -(mag as i128);
                                    if self.min <= v && v <= self.max {
                                        Ok((t + sl + n, v))
                                    } else {
                                        oor
                                    }
                                } else if mag == (i128::MAX as u128) + 1 {
                                    let v = i128::MIN;
                                    if self.min <= v && v <= self.max {
                                        Ok((t + sl + n, v))
                                    } else {
                                        oor
                                    }
                                } else {
                                    oor
                                }
                            } else {
                                if mag <= i128::MAX as u128 {
                                    let v = mag as i128;
                                    if self.min <= v && v <= self.max {
                                        Ok((t + sl + n, v))
                                    } else {
                                        oor
                                    }
                                } else {
                                    oor
                                }
                            }
                        },
                        None => oor,
                    }
                }
            },
        }
    }
}

/// Build the signed decoder for one configuration, narrowing into
/// `target_min ..= target_max`. In binary mode an unsupported width is
/// refused here, before any input is read.
pub fn int_parser(
    source_size: usize,
    endianness: Option<Endianness>,
    target_min: i128,
    target_max: i128,
) -> (r: Result<IntDecoder, ConfigError>)
    ensures
        match r {
            Ok(d) => {
                &&& endianness is Some ==> valid_int_width(source_size)
                &&& d == (IntDecoder {
                    width: source_size,
                    order: endianness,
                    min: target_min,
                    max: target_max,
                })
                &&& d.wf()
            },
            Err(e) => {
                &&& endianness is Some
                &&& !valid_int_width(source_size)
                &&& e == (ConfigError::UnsupportedWidth { width: source_size })
            },
        },
{
    if endianness.is_some() && !(source_size == 1 || source_size == 2 || source_size == 4
        || source_size == 8 || source_size == 16) {
        Err(ConfigError::UnsupportedWidth { width: source_size })
    } else {
        Ok(IntDecoder { width: source_size, order: endianness, min: target_min, max: target_max })
    }
}

/// What a float decoder hands on: the undecoded physical form of one
/// floating-point scalar. Binary fields come out as their IEEE bit
/// patterns; a textual field comes out as the byte range of the literal.
/// Turning either into an actual floating-point value, and narrowing it
/// into the destination float type, is the unverified caller's final step.
#[derive(Clone, Copy, PartialEq, Eq, Structural, Debug)]
pub enum FloatRaw {
    Bits32(u32),
    Bits64(u64),
    Text { start: usize, end: usize },
}

/// What the float decoder with configuration `d` yields on the cursor
/// `(s, pos)`.
pub open spec fn spec_float_decode(d: FloatDecoder, s: Seq<u8>, pos: int) -> Result<
    (usize, FloatRaw),
    ParseError,
> {
    match d.order {
        Some(order) => {
            if s.len() - pos < d.width {
                Err(ParseError { kind: ErrorKind::InsufficientInput, pos: pos as usize })
            } else {
                let raw = raw_binary_value(order, s.subrange(pos, pos + d.width));
                if d.width == 4 {
                    Ok(((pos + 4) as usize, FloatRaw::Bits32(raw as u32)))
                } else {
                    Ok(((pos + 8) as usize, FloatRaw::Bits64(raw as u64)))
                }
            }
        },
        None => {
            let t = skip_ws(s, pos as nat);
            let n = float_lit_len(s, t);
            if n == 0 {
                Err(ParseError { kind: ErrorKind::MalformedLiteral, pos: t as usize })
            } else {
                Ok(((t + n) as usize, FloatRaw::Text { start: t as usize, end: (t + n) as usize }))
            }
        },
    }
}

/// A floating-point decoder: reads one field of `width` bytes in `order`
/// (or one maximal textual float literal when `order` is `None`).
#[derive(Clone, Copy, Debug)]
pub struct FloatDecoder {
    pub width: usize,
    pub order: Option<Endianness>,
}

impl FloatDecoder {
    /// A binary configuration carries a width a physical reader exists for.
    pub open spec fn wf(self) -> bool {
        self.order is Some ==> valid_float_width(self.width)
    }

    /// Decode one float field at `pos`. The result is exactly what
    /// `spec_float_decode` states for this configuration and cursor.
    pub fn decode(&self, input: &[u8], pos: usize) -> (r: Result<(usize, FloatRaw), ParseError>)
        requires
            self.wf(),
            pos <= input.len(),
        ensures
            r == spec_float_decode(*self, input@, pos as int),
    {
        match self.order {
            Some(order) => {
                if input.len() - pos < self.width {
                    Err(ParseError { kind: ErrorKind::InsufficientInput, pos })
                } else {
                    let raw = read_binary(input, pos, self.width, order);
                    proof {
                        let sb = input@.subrange(pos as int, pos + self.width);
                        lemma_le_value_bound(sb);
                        lemma_be_value_bound(sb);
                        reveal_with_fuel(pow256, 9);
                    }
                    if self.width == 4 {
                        Ok((pos + 4, FloatRaw::Bits32(raw as u32)))
                    } else {
                        Ok((pos + 8, FloatRaw::Bits64(raw as u64)))
                    }
                }
            },
            None => {
                let t = scan_ws(input, pos);
                let n = scan_float_lit(input, t);
                if n == 0 {
                    Err(ParseError { kind: ErrorKind::MalformedLiteral, pos: t })
                } else {
                    Ok((t + n, FloatRaw::Text { start: t, end: t + n }))
                }
            },
        }
    }
}

/// Build the float decoder for one configuration. In binary mode an
/// unsupported width is refused here, before any input is read.
pub fn float_parser(source_size: usize, endianness: Option<Endianness>) -> (r: Result<
    FloatDecoder,
    ConfigError,
>)
    ensures
        match r {
            Ok(d) => {
                &&& endianness is Some ==> valid_float_width(source_size)
                &&& d == (FloatDecoder { width: source_size, order: endianness })
                &&& d.wf()
            },
            Err(e) => {
                &&& endianness is Some
                &&& !valid_float_width(source_size)
                &&& e == (ConfigError::UnsupportedWidth { width: source_size })
            },
        },
{
    if endianness.is_some() && !(source_size == 4 || source_size == 8) {
        Err(ConfigError::UnsupportedWidth { width: source_size })
    } else {
        Ok(FloatDecoder { width: source_size, order: endianness })
    }
}

} // verus!
