//! Decimal numbers as text.

use vstd::prelude::*;
use vstd::string::StringExecFns;

verus! {

/// Whether a byte is a decimal digit.
pub open spec fn is_digit(b: u8) -> bool {
    0x30 <= b <= 0x39
}

/// Whether a text is a number: digits, at least one.
pub open spec fn is_decimal(text: Seq<u8>) -> bool {
    text.len() > 0 && forall|i: int| 0 <= i < text.len() ==> is_digit(#[trigger] text[i])
}

/// The value of a text of digits.
pub open spec fn decimal_value(text: Seq<u8>) -> nat
    decreases text.len(),
{
    if text.len() == 0 {
        0
    } else {
        10 * decimal_value(text.drop_last()) + (text.last() - 0x30) as nat
    }
}

/// A text without a leading plus sign.
pub open spec fn without_plus(text: Seq<u8>) -> Seq<u8> {
    if text.len() > 0 && text[0] == 0x2b {
        text.subrange(1, text.len() as int)
    } else {
        text
    }
}

/// The number that a text stands for: digits with at most one plus sign before them, and a
/// value that fits in a `usize`.
pub open spec fn parsed(text: Seq<u8>) -> Option<usize> {
    let digits = without_plus(text);
    if is_decimal(digits) && decimal_value(digits) <= usize::MAX {
        Some(decimal_value(digits) as usize)
    } else {
        None
    }
}

/// The digit for a number below ten.
pub open spec fn digit_char(d: nat) -> char {
    (0x30 + d) as char
}

/// A number as text: its decimal digits, without leading zeros.
pub open spec fn decimal_text(n: nat) -> Seq<char>
    decreases n,
{
    if n < 10 {
        seq![digit_char(n)]
    } else {
        decimal_text(n / 10).push(digit_char(n % 10))
    }
}

/// A longer text of digits has no smaller value.
proof fn lemma_value_of_prefix(text: Seq<u8>, i: int)
    requires
        0 <= i <= text.len(),
        forall|j: int| 0 <= j < text.len() ==> is_digit(#[trigger] text[j]),
    ensures
        decimal_value(text.subrange(0, i)) <= decimal_value(text),
    decreases text.len() - i,
{
    if i == text.len() {
        assert(text.subrange(0, i) =~= text);
    } else {
        lemma_value_of_prefix(text, i + 1);
        let longer = text.subrange(0, i + 1);
        assert(longer.drop_last() =~= text.subrange(0, i));
        assert(longer.last() == text[i]);
    }
}

/// Parses the bytes from `start` up to `end` as a number.
pub fn parse_usize(bytes: &[u8], start: usize, end: usize) -> (number: Option<usize>)
    requires
        start <= end <= bytes@.len(),
    ensures
        number == parsed(bytes@.subrange(start as int, end as int)),
{
    let ghost text = bytes@.subrange(start as int, end as int);
    let first: usize = if start < end && bytes[start] == 0x2b {
        start + 1
    } else {
        start
    };
    let ghost digits = bytes@.subrange(first as int, end as int);
    assert(digits =~= without_plus(text));
    if first == end {
        return None;
    }
    let mut value: usize = 0;
    let mut i: usize = first;
    assert(digits.subrange(0, 0) =~= Seq::<u8>::empty());
    while i < end
        invariant
            first <= i <= end <= bytes@.len(),
            first < end,
            digits == bytes@.subrange(first as int, end as int),
            digits == without_plus(text),
            text == bytes@.subrange(start as int, end as int),
            forall|j: int| 0 <= j < i - first ==> is_digit(#[trigger] digits[j]),
            value == decimal_value(digits.subrange(0, i - first)),
        decreases end - i,
    {
        let b: u8 = bytes[i];
        assert(b == digits[i - first]);
        if b < 0x30 || b > 0x39 {
            return None;
        }
        let digit: usize = (b - 0x30) as usize;
        proof {
            let longer = digits.subrange(0, i - first + 1);
            assert(longer.drop_last() =~= digits.subrange(0, i - first));
            assert(longer.last() == b);
            assert(decimal_value(longer) == 10 * value + digit);
            if is_decimal(digits) {
                lemma_value_of_prefix(digits, i - first + 1);
            }
        }
        if value > (usize::MAX - digit) / 10 {
            return None;
        }
        value = 10 * value + digit;
        i = i + 1;
    }
    assert(digits.subrange(0, i - first) =~= digits);
    Some(value)
}

/// The digit for a number below ten, as text.
fn digit_text(d: usize) -> (text: &'static str)
    requires
        d < 10,
    ensures
        text@ == seq![digit_char(d as nat)],
{
    proof {
        reveal_strlit("0");
        reveal_strlit("1");
        reveal_strlit("2");
        reveal_strlit("3");
        reveal_strlit("4");
        reveal_strlit("5");
        reveal_strlit("6");
        reveal_strlit("7");
        reveal_strlit("8");
        reveal_strlit("9");
    }
    let text = match d {
        0 => "0",
        1 => "1",
        2 => "2",
        3 => "3",
        4 => "4",
        5 => "5",
        6 => "6",
        7 => "7",
        8 => "8",
        _ => "9",
    };
    assert(text@ =~= seq![digit_char(d as nat)]);
    text
}

/// Appends a number to a text.
pub fn push_decimal(out: &mut String, n: usize)
    ensures
        final(out)@ == old(out)@ + decimal_text(n as nat),
    decreases n,
{
    if n >= 10 {
        push_decimal(out, n / 10);
    }
    out.append(digit_text(n % 10));
    assert(out@ =~= old(out)@ + decimal_text(n as nat));
}

/// The bytes of a text of digits.
pub open spec fn digit_bytes(text: Seq<char>) -> Seq<u8> {
    text.map_values(|c: char| c as u8)
}

/// A number written as text and parsed again is that number.
pub proof fn law_decimal_round_trip(n: usize)
    ensures
        parsed(digit_bytes(decimal_text(n as nat))) == Some(n),
{
    lemma_decimal_text(n as nat);
    let text = digit_bytes(decimal_text(n as nat));
    assert(is_digit(text[0]));
}

/// What a text stands for. The text is `digits`, or a plus sign and `digits`. It stands for `n`
/// exactly where `digits` are digits, at least one, and their value, each digit on top of ten
/// times what came before, is `n`.
pub proof fn law_parsed_number(text: Seq<u8>, digits: Seq<u8>, n: usize)
    requires
        text == seq![0x2bu8] + digits || (text == digits && (text.len() == 0 || text[0] != 0x2b)),
    ensures
        parsed(text) == Some(n) <==> {
            &&& digits.len() > 0
            &&& forall|i: int| 0 <= i < digits.len() ==> 0x30 <= #[trigger] digits[i] <= 0x39
            &&& digits.fold_left(0int, |value: int, b: u8| 10 * value + (b - 0x30)) == n
        },
{
    assert(without_plus(text) =~= digits);
    if forall|i: int| 0 <= i < digits.len() ==> 0x30 <= #[trigger] digits[i] <= 0x39 {
        lemma_value_is_fold(digits);
    } else {
        let i = choose|i: int|
            0 <= i < digits.len() && !(0x30 <= #[trigger] digits[i] <= 0x39);
        assert(!is_digit(digits[i]));
    }
}

/// The text of a number: digits, without a leading zero unless the number is zero, and their
/// value, each digit on top of ten times what came before, is the number.
pub proof fn law_decimal_digits(n: nat)
    ensures
        decimal_text(n).len() > 0,
        forall|i: int|
            0 <= i < decimal_text(n).len() ==> '0' <= #[trigger] decimal_text(n)[i] <= '9',
        decimal_text(n)[0] == '0' ==> n == 0 && decimal_text(n).len() == 1,
        decimal_text(n).fold_left(0int, |value: int, c: char| 10 * value + (c as int - 0x30)) == n,
    decreases n,
{
    let text = decimal_text(n);
    let add = |value: int, c: char| 10 * value + (c as int - 0x30);
    if n < 10 {
        assert(text.drop_last() =~= Seq::<char>::empty());
        assert(text.drop_last().fold_left(0int, add) == 0);
    } else {
        law_decimal_digits(n / 10);
        let shorter = decimal_text(n / 10);
        assert(text.drop_last() =~= shorter);
        assert(text[0] == shorter[0]);
        assert forall|i: int| 0 <= i < text.len() implies '0' <= #[trigger] text[i] <= '9' by {
            if i < shorter.len() {
                assert(text[i] == shorter[i]);
            }
        }
        assert(shorter.fold_left(0int, add) == n / 10);
    }
}

/// The value of digits, as a fold.
pub(crate) proof fn lemma_value_is_fold(text: Seq<u8>)
    requires
        forall|i: int| 0 <= i < text.len() ==> 0x30 <= #[trigger] text[i] <= 0x39,
    ensures
        decimal_value(text) == text.fold_left(0int, |value: int, b: u8| 10 * value + (b - 0x30)),
    decreases text.len(),
{
    if text.len() > 0 {
        assert forall|i: int| 0 <= i < text.drop_last().len() implies 0x30
            <= #[trigger] text.drop_last()[i] <= 0x39 by {
            assert(text.drop_last()[i] == text[i]);
        }
        assert(text.last() == text[text.len() - 1]);
        lemma_value_is_fold(text.drop_last());
    }
}

/// The text of a number is digits, and has its value.
pub(crate) proof fn lemma_decimal_text(n: nat)
    ensures
        is_decimal(digit_bytes(decimal_text(n))),
        decimal_value(digit_bytes(decimal_text(n))) == n,
    decreases n,
{
    let text = digit_bytes(decimal_text(n));
    if n < 10 {
        assert(text.drop_last() =~= Seq::<u8>::empty());
        assert(decimal_value(text.drop_last()) == 0);
        assert(text.last() == (0x30 + n) as u8);
    } else {
        lemma_decimal_text(n / 10);
        let shorter = digit_bytes(decimal_text(n / 10));
        assert(text.drop_last() =~= shorter);
        assert(text.last() == (0x30 + n % 10) as u8);
        assert forall|i: int| 0 <= i < text.len() implies is_digit(#[trigger] text[i]) by {
            if i < text.len() - 1 {
                assert(text[i] == shorter[i]);
            }
        }
    }
}

} // verus!
