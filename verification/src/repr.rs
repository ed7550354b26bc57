//! The mathematical reading of a byte run as a number.
//!
//! `le_value` and `be_value` say what a fixed-width binary field denotes in
//! each byte order; `signed_of` reads an unsigned raw value as two's
//! complement. `le_bytes`, `be_bytes` and `dec_digits` are the matching
//! encodings, with round-trip lemmas.

use vstd::prelude::*;
use vstd::arithmetic::div_mod::{lemma_fundamental_div_mod, lemma_multiply_divide_lt};

verus! {

/// 256 to the power `n`: the number of values of an `n`-byte field.
pub open spec fn pow256(n: nat) -> nat
    decreases n,
{
    if n == 0 {
        1
    } else {
        256 * pow256((n - 1) as nat)
    }
}

/// Little-endian reading: the first byte is least significant.
pub open spec fn le_value(s: Seq<u8>) -> nat
    decreases s.len(),
{
    if s.len() == 0 {
        0
    } else {
        (s[0] as nat) + 256 * le_value(s.drop_first())
    }
}

/// Big-endian reading: the last byte is least significant.
pub open spec fn be_value(s: Seq<u8>) -> nat
    decreases s.len(),
{
    if s.len() == 0 {
        0
    } else {
        256 * be_value(s.drop_last()) + (s.last() as nat)
    }
}

/// Two's-complement reading of a raw `w`-byte unsigned value.
pub open spec fn signed_of(raw: nat, w: nat) -> int {
    if raw < pow256(w) / 2 {
        raw as int
    } else {
        raw - pow256(w)
    }
}

/// The two's-complement encoding of a signed value in a `w`-byte field:
/// the raw unsigned value whose `signed_of` reading is `v`.
pub open spec fn twos(v: int, w: nat) -> nat {
    if v >= 0 {
        v as nat
    } else {
        (v + pow256(w)) as nat
    }
}

/// Half of the value space of a `w`-byte field, for `w >= 1`: the split
/// point between the nonnegative and the negative two's-complement values.
pub proof fn lemma_pow256_half(w: nat)
    requires
        w >= 1,
    ensures
        pow256(w) / 2 == 128 * pow256((w - 1) as nat),
        pow256(w) == 2 * (128 * pow256((w - 1) as nat)),
{
    vstd::arithmetic::div_mod::lemma_div_multiples_vanish(
        128 * pow256((w - 1) as nat) as int,
        2,
    );
}

/// `signed_of` inverts `twos` on every value a `w`-byte signed field can
/// hold.
pub proof fn lemma_signed_of_twos(v: int, w: nat)
    requires
        w >= 1,
        -(pow256(w) / 2) <= v < pow256(w) / 2,
    ensures
        twos(v, w) < pow256(w),
        signed_of(twos(v, w), w) == v,
{
    lemma_pow256_half(w);
}

pub proof fn lemma_pow256_pos(n: nat)
    ensures
        pow256(n) >= 1,
    decreases n,
{
    if n > 0 {
        lemma_pow256_pos((n - 1) as nat);
    }
}

pub proof fn lemma_pow256_increases(m: nat, n: nat)
    requires
        m <= n,
    ensures
        pow256(m) <= pow256(n),
    decreases n,
{
    if m < n {
        lemma_pow256_increases(m, (n - 1) as nat);
        lemma_pow256_pos((n - 1) as nat);
    }
}

/// The value of `pow256` at the largest supported width.
pub proof fn lemma_pow256_16()
    ensures
        pow256(16) == 0x100000000000000000000000000000000,
{
    reveal_with_fuel(pow256, 17);
}

/// A `w`-byte field, read little-endian, denotes a value below `256^w`.
pub proof fn lemma_le_value_bound(s: Seq<u8>)
    ensures
        le_value(s) < pow256(s.len()),
    decreases s.len(),
{
    if s.len() == 0 {
    } else {
        let rest = s.drop_first();
        lemma_le_value_bound(rest);
        assert(256 * le_value(rest) <= 256 * (pow256(rest.len()) - 1)) by (nonlinear_arith)
            requires
                le_value(rest) <= pow256(rest.len()) - 1,
        ;
    }
}

/// A `w`-byte field, read big-endian, denotes a value below `256^w`.
pub proof fn lemma_be_value_bound(s: Seq<u8>)
    ensures
        be_value(s) < pow256(s.len()),
    decreases s.len(),
{
    if s.len() == 0 {
    } else {
        let rest = s.drop_last();
        lemma_be_value_bound(rest);
        assert(256 * be_value(rest) <= 256 * (pow256(rest.len()) - 1)) by (nonlinear_arith)
            requires
                be_value(rest) <= pow256(rest.len()) - 1,
        ;
    }
}

/// The little-endian encoding of `v` in `w` bytes.
pub open spec fn le_bytes(v: nat, w: nat) -> Seq<u8>
    decreases w,
{
    if w == 0 {
        Seq::empty()
    } else {
        seq![(v % 256) as u8].add(le_bytes(v / 256, (w - 1) as nat))
    }
}

/// The big-endian encoding of `v` in `w` bytes.
pub open spec fn be_bytes(v: nat, w: nat) -> Seq<u8>
    decreases w,
{
    if w == 0 {
        Seq::empty()
    } else {
        be_bytes(v / 256, (w - 1) as nat).push((v % 256) as u8)
    }
}

pub proof fn lemma_le_bytes_len(v: nat, w: nat)
    ensures
        le_bytes(v, w).len() == w,
    decreases w,
{
    if w > 0 {
        lemma_le_bytes_len(v / 256, (w - 1) as nat);
    }
}

pub proof fn lemma_be_bytes_len(v: nat, w: nat)
    ensures
        be_bytes(v, w).len() == w,
    decreases w,
{
    if w > 0 {
        lemma_be_bytes_len(v / 256, (w - 1) as nat);
    }
}

/// Round trip at the byte level: encoding `v` little-endian in `w` bytes and
/// reading the result back yields `v`, for every `v` that fits in `w` bytes.
pub proof fn lemma_le_bytes_value(v: nat, w: nat)
    requires
        v < pow256(w),
    ensures
        le_value(le_bytes(v, w)) == v,
    decreases w,
{
    if w == 0 {
    } else {
        let q = v / 256;
        let tail = le_bytes(q, (w - 1) as nat);
        lemma_multiply_divide_lt(v as int, 256, pow256((w - 1) as nat) as int);
        lemma_le_bytes_value(q, (w - 1) as nat);
        let s = le_bytes(v, w);
        lemma_le_bytes_len(q, (w - 1) as nat);
        assert(s.drop_first() =~= tail);
        assert(s[0] == (v % 256) as u8);
        lemma_fundamental_div_mod(v as int, 256);
    }
}

/// Round trip at the byte level, big-endian.
pub proof fn lemma_be_bytes_value(v: nat, w: nat)
    requires
        v < pow256(w),
    ensures
        be_value(be_bytes(v, w)) == v,
    decreases w,
{
    if w == 0 {
    } else {
        let q = v / 256;
        let front = be_bytes(q, (w - 1) as nat);
        lemma_multiply_divide_lt(v as int, 256, pow256((w - 1) as nat) as int);
        lemma_be_bytes_value(q, (w - 1) as nat);
        let s = be_bytes(v, w);
        lemma_be_bytes_len(q, (w - 1) as nat);
        assert(s.drop_last() =~= front);
        assert(s.last() == (v % 256) as u8);
        lemma_fundamental_div_mod(v as int, 256);
    }
}

} // verus!
