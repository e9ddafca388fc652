//! The order of keys.
//!
//! Keys are ordered as text: character by character, a text before every
//! longer text that it starts. For decimal texts this is not the order of
//! the numbers they write: `10` comes before `2`.
//!
//! The index files each entry under its order key, an integer that grows
//! exactly as the text of the entry's number does in that order. The key is
//! made of the number's digits moved to the left end of a field of
//! [`KEY_WIDTH`] digits, followed by the count of its digits.

use vstd::prelude::*;
use crate::decimal::{
    all_digits, decimal_text, decimal_value, digit_value, is_digit, lemma_decimal_text_writes,
};

verus! {

/// The number of digits in the longest decimal text of a `u64`.
pub const KEY_WIDTH: u32 = 20;

/// The factor that makes room for the digit count at the low end of an
/// order key.
pub const LENGTH_RADIX: u128 = 32;

/// Whether the text `a` comes strictly before the text `b`.
pub open spec fn text_before(a: Seq<char>, b: Seq<char>) -> bool
    decreases a.len(),
{
    if b.len() == 0 {
        false
    } else if a.len() == 0 {
        true
    } else if a[0] != b[0] {
        a[0] < b[0]
    } else {
        text_before(a.drop_first(), b.drop_first())
    }
}

/// Ten to the power `e`.
pub open spec fn pow10(e: nat) -> nat
    decreases e,
{
    if e == 0 {
        1
    } else {
        10 * pow10((e - 1) as nat)
    }
}

/// The number of digits in the decimal text of `n`.
pub open spec fn digit_count(n: nat) -> nat {
    decimal_text(n).len()
}

/// The digits `s` read as a number and moved to the left end of a field of
/// `width` digits.
pub open spec fn left_aligned(s: Seq<char>, width: nat) -> nat
    recommends
        s.len() <= width,
{
    decimal_value(s) * pow10((width - s.len()) as nat)
}

/// The order key of `n`.
pub open spec fn order_key(n: u64) -> nat {
    left_aligned(decimal_text(n as nat), KEY_WIDTH as nat) * (LENGTH_RADIX as nat) + digit_count(
        n as nat,
    )
}

/// Powers of ten are positive.
pub proof fn lemma_pow10_positive(e: nat)
    ensures
        pow10(e) >= 1,
    decreases e,
{
    if e > 0 {
        lemma_pow10_positive((e - 1) as nat);
    }
}

/// Powers of ten multiply by adding their exponents.
pub proof fn lemma_pow10_adds(a: nat, b: nat)
    ensures
        pow10(a) * pow10(b) == pow10(a + b),
    decreases a,
{
    if a == 0 {
        assert(pow10(0) == 1);
    } else {
        lemma_pow10_adds((a - 1) as nat, b);
        let x = pow10((a - 1) as nat);
        let y = pow10(b);
        assert((10 * x) * y == 10 * (x * y)) by (nonlinear_arith);
    }
}

/// Powers of ten grow with their exponent.
pub proof fn lemma_pow10_grows(a: nat, b: nat)
    requires
        a <= b,
    ensures
        pow10(a) <= pow10(b),
    decreases b,
{
    if a < b {
        lemma_pow10_grows(a, (b - 1) as nat);
    }
}

/// The value of the largest field: ten to the power [`KEY_WIDTH`].
pub proof fn lemma_pow10_key_width()
    ensures
        pow10(KEY_WIDTH as nat) == 100_000_000_000_000_000_000,
{
    reveal_with_fuel(pow10, 21);
}

/// Digits write a number below ten to the power of their count.
pub proof fn lemma_decimal_value_bound(s: Seq<char>)
    requires
        all_digits(s),
    ensures
        decimal_value(s) < pow10(s.len()),
    decreases s.len(),
{
    if s.len() > 0 {
        let head = s.drop_last();
        assert forall|i: int| 0 <= i < head.len() implies is_digit(#[trigger] head[i]) by {}
        lemma_decimal_value_bound(head);
    }
}

/// A number below ten to the power `k` has at most `k` digits.
pub proof fn lemma_digit_count_bound(n: nat, k: nat)
    requires
        k >= 1,
        n < pow10(k),
    ensures
        1 <= digit_count(n) <= k,
    decreases n,
{
    if n >= 10 {
        assert(k >= 2) by {
            if k == 1 {
                reveal_with_fuel(pow10, 2);
            }
        }
        lemma_digit_count_bound(n / 10, (k - 1) as nat);
    }
}

/// The digits `s` write their first digit times a power of ten, plus what
/// the digits after it write.
pub proof fn lemma_decimal_value_by_first(s: Seq<char>)
    requires
        s.len() > 0,
        all_digits(s),
    ensures
        decimal_value(s) == digit_value(s[0]) * pow10((s.len() - 1) as nat) + decimal_value(
            s.drop_first(),
        ),
    decreases s.len(),
{
    let tail = s.drop_first();
    if s.len() == 1 {
        assert(s.drop_last() =~= Seq::<char>::empty());
        assert(tail =~= Seq::<char>::empty());
        assert(digit_value(s[0]) * 1 == digit_value(s[0])) by (nonlinear_arith);
    } else {
        let head = s.drop_last();
        assert forall|i: int| 0 <= i < head.len() implies is_digit(#[trigger] head[i]) by {}
        lemma_decimal_value_by_first(head);
        assert(head.drop_first() =~= tail.drop_last());
        let p = pow10((s.len() - 2) as nat);
        let d = digit_value(s[0]);
        assert((d * p + decimal_value(tail.drop_last())) * 10 == d * (10 * p) + decimal_value(
            tail.drop_last(),
        ) * 10) by (nonlinear_arith);
    }
}

/// Left-aligned digits are their first digit at the head of the field, and
/// the digits after it left-aligned in the rest of the field.
pub proof fn lemma_left_aligned_by_first(s: Seq<char>, width: nat)
    requires
        0 < s.len() <= width,
        all_digits(s),
    ensures
        left_aligned(s, width) == digit_value(s[0]) * pow10((width - 1) as nat) + left_aligned(
            s.drop_first(),
            (width - 1) as nat,
        ),
        left_aligned(s.drop_first(), (width - 1) as nat) < pow10((width - 1) as nat),
        all_digits(s.drop_first()),
{
    let tail = s.drop_first();
    let d = digit_value(s[0]);
    let high = pow10((s.len() - 1) as nat);
    let pad = pow10((width - s.len()) as nat);
    let rest = decimal_value(tail);
    assert forall|i: int| 0 <= i < tail.len() implies is_digit(#[trigger] tail[i]) by {}
    lemma_decimal_value_by_first(s);
    lemma_decimal_value_bound(tail);
    lemma_pow10_adds((s.len() - 1) as nat, (width - s.len()) as nat);
    lemma_pow10_positive((width - s.len()) as nat);
    assert((d * high + rest) * pad == d * (high * pad) + rest * pad) by (nonlinear_arith);
    assert(rest * pad < high * pad) by (nonlinear_arith)
        requires
            rest < high,
            pad >= 1,
    ;
}

/// Left-aligned in one field, digits come in the order of their texts: the
/// text that comes first has the smaller value, or the same value and fewer
/// digits.
pub proof fn lemma_left_aligned_follows_text(a: Seq<char>, b: Seq<char>, width: nat)
    requires
        all_digits(a),
        all_digits(b),
        a.len() <= width,
        b.len() <= width,
    ensures
        text_before(a, b) <==> (left_aligned(a, width) < left_aligned(b, width) || (left_aligned(
            a,
            width,
        ) == left_aligned(b, width) && a.len() < b.len())),
    decreases a.len(),
{
    if b.len() == 0 {
        assert(left_aligned(b, width) == 0) by (nonlinear_arith)
            requires
                left_aligned(b, width) == 0 * pow10((width - b.len()) as nat),
        ;
    } else if a.len() == 0 {
        assert(left_aligned(a, width) == 0) by (nonlinear_arith)
            requires
                left_aligned(a, width) == 0 * pow10((width - a.len()) as nat),
        ;
    } else {
        let unit = pow10((width - 1) as nat);
        let x = digit_value(a[0]);
        let y = digit_value(b[0]);
        let ra = left_aligned(a.drop_first(), (width - 1) as nat);
        let rb = left_aligned(b.drop_first(), (width - 1) as nat);
        lemma_left_aligned_by_first(a, width);
        lemma_left_aligned_by_first(b, width);
        if a[0] != b[0] {
            if x < y {
                assert(x * unit + ra < y * unit + rb) by (nonlinear_arith)
                    requires
                        x < y,
                        ra < unit,
                        rb >= 0,
                ;
            } else {
                assert(y * unit + rb < x * unit + ra) by (nonlinear_arith)
                    requires
                        y < x,
                        rb < unit,
                        ra >= 0,
                ;
            }
        } else {
            lemma_left_aligned_follows_text(a.drop_first(), b.drop_first(), (width - 1) as nat);
        }
    }
}

/// A `u64` has between one and [`KEY_WIDTH`] digits, and its order key
/// fits well within a `u128`.
pub proof fn lemma_order_key_bound(n: u64)
    ensures
        1 <= digit_count(n as nat) <= KEY_WIDTH,
        left_aligned(decimal_text(n as nat), KEY_WIDTH as nat) == n * pow10(
            (KEY_WIDTH - digit_count(n as nat)) as nat,
        ),
        left_aligned(decimal_text(n as nat), KEY_WIDTH as nat) < pow10(KEY_WIDTH as nat),
        order_key(n) < 0x1_0000_0000_0000_0000_0000,
{
    let s = decimal_text(n as nat);
    let pad = pow10((KEY_WIDTH - s.len()) as nat);
    lemma_pow10_key_width();
    lemma_digit_count_bound(n as nat, KEY_WIDTH as nat);
    lemma_decimal_text_writes(n as nat);
    lemma_decimal_value_bound(s);
    lemma_pow10_adds(s.len(), (KEY_WIDTH - s.len()) as nat);
    lemma_pow10_positive((KEY_WIDTH - s.len()) as nat);
    assert(n * pad < pow10(s.len()) * pad) by (nonlinear_arith)
        requires
            n < pow10(s.len()),
            pad >= 1,
    ;
}

/// Order keys grow exactly as the texts of their numbers do.
pub proof fn lemma_order_key_follows_text(m: u64, n: u64)
    ensures
        order_key(m) < order_key(n) <==> text_before(decimal_text(m as nat), decimal_text(n as nat)),
{
    lemma_order_key_bound(m);
    lemma_order_key_bound(n);
    lemma_decimal_text_writes(m as nat);
    lemma_decimal_text_writes(n as nat);
    lemma_left_aligned_follows_text(
        decimal_text(m as nat),
        decimal_text(n as nat),
        KEY_WIDTH as nat,
    );
}

/// Two numbers with the same order key are the same number.
pub proof fn lemma_order_key_injective(m: u64, n: u64)
    requires
        order_key(m) == order_key(n),
    ensures
        m == n,
{
    lemma_order_key_bound(m);
    lemma_order_key_bound(n);
    let pad = pow10((KEY_WIDTH - digit_count(m as nat)) as nat);
    lemma_pow10_positive((KEY_WIDTH - digit_count(m as nat)) as nat);
    assert(m == n) by (nonlinear_arith)
        requires
            m * pad == n * pad,
            pad >= 1,
    ;
}

/// Computes the order key of `n`.
pub fn order_key_of(n: u64) -> (key: u128)
    ensures
        key == order_key(n),
{
    let mut digits: u32 = 1;
    let mut rest: u64 = n;
    proof {
        lemma_order_key_bound(n);
    }
    while rest >= 10
        invariant
            digits >= 1,
            digit_count(n as nat) == digit_count(rest as nat) + digits - 1,
            digit_count(n as nat) <= KEY_WIDTH,
            digit_count(rest as nat) >= 1,
        decreases rest,
    {
        proof {
            lemma_decimal_text_writes((rest / 10) as nat);
        }
        rest = rest / 10;
        digits = digits + 1;
    }
    let mut scale: u128 = 1;
    let mut width: u32 = digits;
    while width < KEY_WIDTH
        invariant
            digits <= width <= KEY_WIDTH,
            scale == pow10((width - digits) as nat),
            digits >= 1,
        decreases KEY_WIDTH - width,
    {
        proof {
            lemma_pow10_grows((width - digits) as nat, 19);
            reveal_with_fuel(pow10, 20);
        }
        scale = scale * 10;
        width = width + 1;
    }
    proof {
        lemma_pow10_key_width();
    }
    (n as u128) * scale * LENGTH_RADIX + (digits as u128)
}

} // verus!
