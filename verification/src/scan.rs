//! Token scanning for the textual mode.
//!
//! The textual grammar: leading insignificant whitespace, then the maximal
//! run of characters forming a decimal integer literal (optionally signed)
//! or a decimal/exponential floating-point literal. The spec functions here
//! define the grammar; the exec scanners are proved to compute exactly it.

use vstd::prelude::*;

verus! {

/// Insignificant whitespace between textual tokens.
pub open spec fn is_ws(b: u8) -> bool {
    b == 32 || b == 9 || b == 10 || b == 13
}

/// An ASCII decimal digit.
pub open spec fn is_digit(b: u8) -> bool {
    48 <= b && b <= 57
}

/// A sign character of a textual literal.
pub open spec fn is_sign(b: u8) -> bool {
    b == 43 || b == 45
}

/// The numeric value of one digit byte.
pub open spec fn digit_val(b: u8) -> nat {
    if is_digit(b) {
        (b - 48) as nat
    } else {
        0
    }
}

/// The first position at or after `i` holding a non-whitespace byte, or the
/// end of the input.
pub open spec fn skip_ws(s: Seq<u8>, i: nat) -> nat
    decreases s.len() - i,
{
    if i < s.len() && is_ws(s[i as int]) {
        skip_ws(s, i + 1)
    } else {
        i
    }
}

/// The length of the maximal digit run starting at `i`.
pub open spec fn digit_run(s: Seq<u8>, i: nat) -> nat
    decreases s.len() - i,
{
    if i < s.len() && is_digit(s[i as int]) {
        1 + digit_run(s, i + 1)
    } else {
        0
    }
}

/// The value denoted by a run of decimal digits, most significant first.
pub open spec fn dec_value(s: Seq<u8>) -> nat
    decreases s.len(),
{
    if s.len() == 0 {
        0
    } else {
        10 * dec_value(s.drop_last()) + digit_val(s.last())
    }
}

/// The decimal digit string of `v`, without sign or leading zeros.
pub open spec fn dec_digits(v: nat) -> Seq<u8>
    decreases v,
{
    if v < 10 {
        seq![(48 + v) as u8]
    } else {
        dec_digits(v / 10).push((48 + v % 10) as u8)
    }
}

/// Length of the sign prefix (zero or one characters) at `i`.
pub open spec fn sign_len(s: Seq<u8>, i: nat) -> nat {
    if i < s.len() && is_sign(s[i as int]) {
        1
    } else {
        0
    }
}

/// Length of a well-formed exponent part at `i`: `e` or `E`, an optional
/// sign, and at least one digit. Zero if no such part starts at `i`; an
/// incomplete exponent (no digits) is not consumed.
pub open spec fn exp_len(s: Seq<u8>, i: nat) -> nat {
    if i < s.len() && (s[i as int] == 101 || s[i as int] == 69) {
        let es = sign_len(s, i + 1);
        let d = digit_run(s, i + 1 + es);
        if d > 0 {
            1 + es + d
        } else {
            0
        }
    } else {
        0
    }
}

/// Length of the maximal floating-point literal at `i`: an optional sign,
/// a mantissa (`digits`, `digits.digits`, `digits.` or `.digits`), and an
/// optional exponent part. Zero if no literal starts at `i`.
pub open spec fn float_lit_len(s: Seq<u8>, i: nat) -> nat {
    let sl = sign_len(s, i);
    let d1 = digit_run(s, i + sl);
    if d1 > 0 {
        let frac =
            if i + sl + d1 < s.len() && s[(i + sl + d1) as int] == 46 {
                1 + digit_run(s, i + sl + d1 + 1)
            } else {
                0
            };
        let base = sl + d1 + frac;
        base + exp_len(s, i + base)
    } else {
        if i + sl < s.len() && s[(i + sl) as int] == 46 && digit_run(s, i + sl + 1) > 0 {
            let base = sl + 1 + digit_run(s, i + sl + 1);
            base + exp_len(s, i + base)
        } else {
            0
        }
    }
}

pub proof fn lemma_skip_ws_range(s: Seq<u8>, i: nat)
    requires
        i <= s.len(),
    ensures
        i <= skip_ws(s, i) <= s.len(),
    decreases s.len() - i,
{
    if i < s.len() && is_ws(s[i as int]) {
        lemma_skip_ws_range(s, i + 1);
    }
}

pub proof fn lemma_digit_run_range(s: Seq<u8>, i: nat)
    requires
        i <= s.len(),
    ensures
        i + digit_run(s, i) <= s.len(),
    decreases s.len() - i,
{
    if i < s.len() && is_digit(s[i as int]) {
        lemma_digit_run_range(s, i + 1);
    }
}

/// Every byte inside the maximal digit run is a digit, and the byte just
/// after it (if any) is not.
pub proof fn lemma_digit_run_chars(s: Seq<u8>, i: nat)
    requires
        i <= s.len(),
    ensures
        forall|j: int| i <= j < i + digit_run(s, i) ==> is_digit(s[j]),
        i + digit_run(s, i) < s.len() ==> !is_digit(s[(i + digit_run(s, i)) as int]),
    decreases s.len() - i,
{
    if i < s.len() && is_digit(s[i as int]) {
        lemma_digit_run_chars(s, i + 1);
    }
}

/// A digit run covers the whole remainder exactly when every remaining byte
/// is a digit.
pub proof fn lemma_digit_run_all(s: Seq<u8>, i: nat)
    requires
        i <= s.len(),
        forall|j: int| i <= j < s.len() ==> is_digit(s[j]),
    ensures
        digit_run(s, i) == s.len() - i,
    decreases s.len() - i,
{
    if i < s.len() {
        lemma_digit_run_all(s, i + 1);
    }
}

/// Whitespace before `k` does not change where scanning settles.
pub proof fn lemma_skip_ws_through(s: Seq<u8>, i: nat, k: nat)
    requires
        i <= k <= s.len(),
        forall|j: int| i <= j < k ==> is_ws(s[j]),
    ensures
        skip_ws(s, i) == skip_ws(s, k),
    decreases k - i,
{
    if i < k {
        lemma_skip_ws_through(s, i + 1, k);
    }
}

/// Digit strings denote values monotonically in their prefixes: dropping
/// trailing digits can only shrink the value.
pub proof fn lemma_dec_value_prefix(s: Seq<u8>, k: nat)
    requires
        k <= s.len(),
    ensures
        dec_value(s.take(k as int)) <= dec_value(s),
    decreases s.len(),
{
    if k < s.len() {
        let front = s.drop_last();
        assert(s.take(k as int) =~= front.take(k as int));
        lemma_dec_value_prefix(front, k);
    } else {
        assert(s.take(k as int) =~= s);
    }
}

/// The digit string of `v` consists of digits and denotes `v`.
pub proof fn lemma_dec_digits(v: nat)
    ensures
        dec_digits(v).len() >= 1,
        forall|j: int| 0 <= j < dec_digits(v).len() ==> is_digit(#[trigger] dec_digits(v)[j]),
        dec_value(dec_digits(v)) == v,
    decreases v,
{
    if v < 10 {
        let s = dec_digits(v);
        assert(s.drop_last() =~= Seq::<u8>::empty());
        assert(dec_value(Seq::<u8>::empty()) == 0);
        assert(s.last() == (48 + v) as u8);
    } else {
        lemma_dec_digits(v / 10);
        let s = dec_digits(v);
        let front = dec_digits(v / 10);
        assert(s.drop_last() =~= front);
        assert(s.last() == (48 + v % 10) as u8);
        vstd::arithmetic::div_mod::lemma_fundamental_div_mod(v as int, 10);
    }
}

/// 10 to the power `n`: the bound under which `n` digits suffice.
pub open spec fn pow10(n: nat) -> nat
    decreases n,
{
    if n == 0 {
        1
    } else {
        10 * pow10((n - 1) as nat)
    }
}

/// A value below `10^k` needs at most `k` decimal digits.
pub proof fn lemma_dec_digits_len(v: nat, k: nat)
    requires
        k >= 1,
        v < pow10(k),
    ensures
        dec_digits(v).len() <= k,
    decreases v,
{
    if v < 10 {
    } else {
        if k == 1 {
            reveal_with_fuel(pow10, 2);
            assert(false);
        } else {
            vstd::arithmetic::div_mod::lemma_multiply_divide_lt(
                v as int,
                10,
                pow10((k - 1) as nat) as int,
            );
            lemma_dec_digits_len(v / 10, (k - 1) as nat);
        }
    }
}

/// No unsigned value a decoder can yield needs more than 39 digits.
pub proof fn lemma_dec_digits_len_u128(v: nat)
    requires
        v <= u128::MAX,
    ensures
        dec_digits(v).len() <= 39,
{
    assert(pow10(39) > u128::MAX) by {
        reveal_with_fuel(pow10, 40);
    };
    lemma_dec_digits_len(v, 39);
}

/// The decimal digit string of a signed value, with a leading minus for
/// negative values.
pub open spec fn int_digits(v: int) -> Seq<u8> {
    if v >= 0 {
        dec_digits(v as nat)
    } else {
        seq![45u8].add(dec_digits((-v) as nat))
    }
}

pub proof fn lemma_exp_len_range(s: Seq<u8>, i: nat)
    requires
        i <= s.len(),
    ensures
        i + exp_len(s, i) <= s.len(),
{
    if i < s.len() && (s[i as int] == 101 || s[i as int] == 69) {
        let es = sign_len(s, i + 1);
        lemma_digit_run_range(s, i + 1 + es);
    }
}

/// A recognized float literal never reaches past the end of the input.
pub proof fn lemma_float_lit_len_range(s: Seq<u8>, i: nat)
    requires
        i <= s.len(),
    ensures
        i + float_lit_len(s, i) <= s.len(),
{
    let sl = sign_len(s, i);
    lemma_digit_run_range(s, i + sl);
    let d1 = digit_run(s, i + sl);
    if d1 > 0 {
        if i + sl + d1 < s.len() && s[(i + sl + d1) as int] == 46 {
            lemma_digit_run_range(s, i + sl + d1 + 1);
        }
        let frac =
            if i + sl + d1 < s.len() && s[(i + sl + d1) as int] == 46 {
                (1 + digit_run(s, i + sl + d1 + 1)) as nat
            } else {
                0
            };
        lemma_exp_len_range(s, i + sl + d1 + frac);
    } else {
        if i + sl < s.len() && s[(i + sl) as int] == 46 && digit_run(s, i + sl + 1) > 0 {
            lemma_digit_run_range(s, i + sl + 1);
            lemma_exp_len_range(s, i + sl + 1 + digit_run(s, i + sl + 1));
        }
    }
}

/// Scan past leading whitespace, landing on `skip_ws`.
pub fn scan_ws(input: &[u8], pos: usize) -> (r: usize)
    requires
        pos <= input.len(),
    ensures
        r == skip_ws(input@, pos as nat),
        pos <= r <= input.len(),
{
    let mut i: usize = pos;
    while i < input.len() && (input[i] == 32 || input[i] == 9 || input[i] == 10 || input[i] == 13)
        invariant
            pos <= i <= input.len(),
            skip_ws(input@, pos as nat) == skip_ws(input@, i as nat),
        decreases input.len() - i,
    {
        i = i + 1;
    }
    proof {
        lemma_skip_ws_range(input@, i as nat);
    }
    i
}

/// Measure the maximal digit run at `pos`, landing on `digit_run`.
pub fn scan_digits(input: &[u8], pos: usize) -> (r: usize)
    requires
        pos <= input.len(),
    ensures
        r == digit_run(input@, pos as nat),
        pos + r <= input.len(),
{
    let mut i: usize = pos;
    while i < input.len() && 48 <= input[i] && input[i] <= 57
        invariant
            pos <= i <= input.len(),
            digit_run(input@, pos as nat) == (i - pos) + digit_run(input@, i as nat),
        decreases input.len() - i,
    {
        i = i + 1;
    }
    i - pos
}

/// Measure a well-formed exponent part at `pos`, landing on `exp_len`.
fn scan_exp(input: &[u8], pos: usize) -> (r: usize)
    requires
        pos <= input.len(),
    ensures
        r == exp_len(input@, pos as nat),
        pos + r <= input.len(),
{
    if pos < input.len() && (input[pos] == 101 || input[pos] == 69) {
        let es: usize = if pos + 1 < input.len() && (input[pos + 1] == 43 || input[pos + 1] == 45) {
            1
        } else {
            0
        };
        let d = scan_digits(input, pos + 1 + es);
        if d > 0 {
            1 + es + d
        } else {
            0
        }
    } else {
        0
    }
}

/// Measure the maximal floating-point literal at `pos`, landing on
/// `float_lit_len`.
pub fn scan_float_lit(input: &[u8], pos: usize) -> (r: usize)
    requires
        pos <= input.len(),
    ensures
        r == float_lit_len(input@, pos as nat),
        pos + r <= input.len(),
{
    let sl: usize = if pos < input.len() && (input[pos] == 43 || input[pos] == 45) {
        1
    } else {
        0
    };
    let d1 = scan_digits(input, pos + sl);
    if d1 > 0 {
        let after = pos + sl + d1;
        let frac: usize = if after < input.len() && input[after] == 46 {
            1 + scan_digits(input, after + 1)
        } else {
            0
        };
        let base = sl + d1 + frac;
        base + scan_exp(input, pos + base)
    } else {
        if pos + sl < input.len() && input[pos + sl] == 46 {
            let d2 = scan_digits(input, pos + sl + 1);
            if d2 > 0 {
                let base = sl + 1 + d2;
                base + scan_exp(input, pos + base)
            } else {
                0
            }
        } else {
            0
        }
    }
}

} // verus!
