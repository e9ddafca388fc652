//! Decimal text: how an entry's number is written as its key.
//!
//! A number is written with the digits `0` to `9`, most significant first,
//! with no sign and no padding, so every number has exactly one text and the
//! text of zero is `0`.

use vstd::prelude::*;
use vstd::string::StringSliceAdditionalSpecFns;

verus! {

/// The byte of the character `0`.
pub const ZERO_BYTE: u8 = 48;

/// The byte of the character `9`.
pub const NINE_BYTE: u8 = 57;

/// The character that writes the digit `d`.
pub open spec fn digit_char(d: nat) -> char
    recommends
        d < 10,
{
    ((d + 48) as u8) as char
}

/// Whether `c` is one of the characters `0` to `9`.
pub open spec fn is_digit(c: char) -> bool {
    '0' <= c <= '9'
}

/// The digit that the character `c` writes.
pub open spec fn digit_value(c: char) -> nat
    recommends
        is_digit(c),
{
    (c as int - 48) as nat
}

/// The decimal text of `n`.
pub open spec fn decimal_text(n: nat) -> Seq<char>
    decreases n,
{
    if n < 10 {
        seq![digit_char(n)]
    } else {
        decimal_text(n / 10).push(digit_char(n % 10))
    }
}

/// Whether every character of `s` is a digit.
pub open spec fn all_digits(s: Seq<char>) -> bool {
    forall|i: int| 0 <= i < s.len() ==> is_digit(#[trigger] s[i])
}

/// Whether `s` is the decimal text of some number: digits only, at least
/// one, and no leading `0` before another digit.
pub open spec fn is_decimal_text(s: Seq<char>) -> bool {
    &&& s.len() > 0
    &&& all_digits(s)
    &&& s.len() > 1 ==> s[0] != '0'
}

/// The number that the digits of `s` write, leading zeros allowed.
pub open spec fn decimal_value(s: Seq<char>) -> nat
    decreases s.len(),
{
    if s.len() == 0 {
        0
    } else {
        decimal_value(s.drop_last()) * 10 + digit_value(s.last())
    }
}

/// The text of a number is well formed and writes that number.
pub proof fn lemma_decimal_text_writes(n: nat)
    ensures
        is_decimal_text(decimal_text(n)),
        decimal_value(decimal_text(n)) == n,
    decreases n,
{
    let s = decimal_text(n);
    if n < 10 {
        assert(decimal_value(s.drop_last()) == 0);
    } else {
        lemma_decimal_text_writes(n / 10);
        let head = decimal_text(n / 10);
        assert(s.drop_last() =~= head);
        if head.len() == 1 {
            assert(decimal_value(head.drop_last()) == 0);
        }
        assert forall|i: int| 0 <= i < s.len() implies is_digit(#[trigger] s[i]) by {}
    }
}

/// Digits that do not start with `0` write a positive number.
pub proof fn lemma_decimal_value_positive(s: Seq<char>)
    requires
        s.len() > 0,
        all_digits(s),
        s[0] != '0',
    ensures
        decimal_value(s) >= 1,
    decreases s.len(),
{
    if s.len() > 1 {
        lemma_decimal_value_positive(s.drop_last());
    }
}

/// A well-formed text is the text of the number it writes.
pub proof fn lemma_decimal_text_of_value(s: Seq<char>)
    requires
        is_decimal_text(s),
    ensures
        decimal_text(decimal_value(s)) == s,
    decreases s.len(),
{
    let head = s.drop_last();
    if s.len() == 1 {
        assert(decimal_value(head) == 0);
    } else {
        lemma_decimal_value_positive(head);
        lemma_decimal_text_of_value(head);
    }
}

/// Two numbers with the same text are the same number.
pub proof fn lemma_decimal_text_injective(m: nat, n: nat)
    requires
        decimal_text(m) == decimal_text(n),
    ensures
        m == n,
{
    lemma_decimal_text_writes(m);
    lemma_decimal_text_writes(n);
}

/// The first `k` digits of `s` write no more than all of `s` does.
pub proof fn lemma_decimal_value_of_prefix(s: Seq<char>, k: int)
    requires
        all_digits(s),
        0 <= k <= s.len(),
    ensures
        decimal_value(s.take(k)) <= decimal_value(s),
    decreases s.len() - k,
{
    if k == s.len() {
        assert(s.take(k) =~= s);
    } else {
        let head = s.drop_last();
        assert(head.take(k) =~= s.take(k));
        lemma_decimal_value_of_prefix(head, k);
    }
}

/// A text that is not well formed is the text of no number.
pub proof fn lemma_ill_formed_is_no_text(s: Seq<char>)
    requires
        !is_decimal_text(s),
    ensures
        forall|n: nat| s != #[trigger] decimal_text(n),
{
    assert forall|n: nat| s != #[trigger] decimal_text(n) by {
        lemma_decimal_text_writes(n);
    }
}

/// Digits whose first `k` write more than `u64::MAX` are the text of no
/// `u64`.
pub proof fn lemma_too_large_is_no_text(s: Seq<char>, k: int)
    requires
        0 <= k <= s.len(),
        decimal_value(s.take(k)) > u64::MAX,
    ensures
        forall|n: u64| s != #[trigger] decimal_text(n as nat),
{
    assert forall|n: u64| s != #[trigger] decimal_text(n as nat) by {
        lemma_decimal_text_writes(n as nat);
        if s == decimal_text(n as nat) {
            lemma_decimal_value_of_prefix(s, k);
        }
    }
}

/// Reads `text` as the decimal text of a `u64`.
///
/// Returns the number whose text `text` is, and `None` where `text` is the
/// text of no `u64`: where it is empty, holds anything but digits, starts
/// with a `0` that another digit follows, or writes a number above
/// `u64::MAX`.
pub fn parse_decimal(text: &str) -> (parsed: Option<u64>)
    ensures
        match parsed {
            Some(n) => text@ == decimal_text(n as nat),
            None => forall|n: u64| text@ != decimal_text(n as nat),
        },
{
    if !text.is_ascii() {
        proof {
            lemma_ill_formed_is_no_text(text@);
        }
        return None;
    }
    let bytes = text.as_bytes();
    let len = bytes.len();
    proof {
        vstd::string::is_ascii_spec_bytes(text);
    }
    if len == 0 {
        proof {
            lemma_ill_formed_is_no_text(text@);
        }
        return None;
    }
    if len > 1 && bytes[0] == ZERO_BYTE {
        proof {
            lemma_ill_formed_is_no_text(text@);
        }
        return None;
    }
    let mut value: u64 = 0;
    let mut at: usize = 0;
    while at < len
        invariant
            vstd::utf8::is_ascii_chars(text@),
            len == text@.len(),
            bytes@.len() == len,
            forall|i: int| 0 <= i < len ==> #[trigger] bytes@[i] == text@[i] as u8,
            at <= len,
            all_digits(text@.take(at as int)),
            value == decimal_value(text@.take(at as int)),
        decreases len - at,
    {
        let byte = bytes[at];
        if byte < ZERO_BYTE || byte > NINE_BYTE {
            proof {
                lemma_ill_formed_is_no_text(text@);
            }
            return None;
        }
        let digit: u64 = (byte - ZERO_BYTE) as u64;
        let ghost seen = text@.take(at as int + 1);
        proof {
            assert(seen.drop_last() =~= text@.take(at as int));
            assert forall|i: int| 0 <= i < seen.len() implies is_digit(#[trigger] seen[i]) by {
                if i < at {
                }
            }
        }
        let next = match value.checked_mul(10) {
            Some(tens) => tens.checked_add(digit),
            None => None,
        };
        match next {
            Some(v) => {
                value = v;
            },
            None => {
                proof {
                    lemma_too_large_is_no_text(text@, at as int + 1);
                }
                return None;
            },
        }
        at = at + 1;
    }
    proof {
        assert(text@.take(at as int) =~= text@);
        lemma_decimal_text_of_value(text@);
    }
    Some(value)
}

} // verus!
