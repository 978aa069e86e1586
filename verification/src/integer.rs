//! Whole numbers as decimal text.

use vstd::prelude::*;
use vstd::string::*;

use crate::text::chars_of;

verus! {

/// Whether a text is a run of decimal digits.
pub open spec fn all_digits(text: Seq<char>) -> bool {
    text.len() > 0 && forall|i: int| 0 <= i < text.len() ==> '0' <= #[trigger] text[i] <= '9'
}

/// The number that a run of decimal digits stands for.
pub open spec fn digits_value(text: Seq<char>) -> int
    decreases text.len(),
{
    if text.len() == 0 {
        0
    } else {
        10 * digits_value(text.drop_last()) + (text.last() as int - 48)
    }
}

/// The number that a text stands for: digits, perhaps behind a sign. Zeros in front do not count.
pub open spec fn integer_of(text: Seq<char>) -> Option<int> {
    if text.len() > 0 && text[0] == '-' {
        if all_digits(text.skip(1)) {
            Some(-digits_value(text.skip(1)))
        } else {
            None
        }
    } else {
        let digits = if text.len() > 0 && text[0] == '+' {
            text.skip(1)
        } else {
            text
        };
        if all_digits(digits) {
            Some(digits_value(digits))
        } else {
            None
        }
    }
}

/// The number that a text stands for, where it lies within the bounds.
pub open spec fn integer_within(text: Seq<char>, min: i64, max: i64) -> Option<i64> {
    match integer_of(text) {
        Some(value) => if min <= value <= max {
            Some(value as i64)
        } else {
            None
        },
        None => None,
    }
}

/// The decimal digits of a number, without zeros in front.
pub open spec fn decimal_digits(value: nat) -> Seq<char>
    decreases value,
{
    if value < 10 {
        seq![(48 + value) as u8 as char]
    } else {
        decimal_digits(value / 10).push((48 + value % 10) as u8 as char)
    }
}

/// A number in decimal text.
pub open spec fn decimal(value: int) -> Seq<char> {
    if value < 0 {
        seq!['-'] + decimal_digits((-value) as nat)
    } else {
        decimal_digits(value as nat)
    }
}

proof fn lemma_decimal_digits(value: nat)
    ensures
        all_digits(decimal_digits(value)),
        digits_value(decimal_digits(value)) == value,
    decreases value,
{
    let text = decimal_digits(value);
    if value < 10 {
        assert(text.drop_last() =~= Seq::empty());
        assert(digits_value(text.drop_last()) == 0);
    } else {
        lemma_decimal_digits(value / 10);
        assert(text.drop_last() =~= decimal_digits(value / 10));
    }
}

/// The decimal text of a number stands for that number.
pub proof fn law_decimal_reads_back(value: int)
    ensures
        integer_of(decimal(value)) == Some(value),
{
    let text = decimal(value);
    if value < 0 {
        lemma_decimal_digits((-value) as nat);
        assert(text.skip(1) =~= decimal_digits((-value) as nat));
    } else {
        lemma_decimal_digits(value as nat);
        assert('0' <= text[0] <= '9');
    }
}

/// Reads the digits from a place on, as far as they stay below a bound that no `i64` reaches.
fn read_digits(chars: &Vec<char>, from: usize) -> (r: Option<i128>)
    requires
        from <= chars@.len(),
    ensures
        match r {
            Some(value) => all_digits(chars@.skip(from as int)) && value == digits_value(
                chars@.skip(from as int),
            ) && 0 <= value <= 0x1_0000_0000_0000_0000,
            None => !all_digits(chars@.skip(from as int)) || digits_value(chars@.skip(from as int))
                > 0x1_0000_0000_0000_0000,
        },
{
    let ghost digits = chars@.skip(from as int);
    if from == chars.len() {
        return None;
    }
    let mut value: i128 = 0;
    let mut large = false;
    let mut i: usize = from;
    assert(digits.take(0) =~= Seq::empty());
    while i < chars.len()
        invariant
            from <= i <= chars@.len(),
            digits == chars@.skip(from as int),
            forall|j: int| 0 <= j < i - from ==> '0' <= #[trigger] digits[j] <= '9',
            large ==> digits_value(digits.take(i - from)) > 0x1_0000_0000_0000_0000,
            !large ==> value == digits_value(digits.take(i - from)),
            0 <= value <= 0x1_0000_0000_0000_0000,
        decreases chars@.len() - i,
    {
        let c = chars[i];
        let ghost at = i - from;
        assert(digits[at] == c);
        if c < '0' || '9' < c {
            return None;
        }
        proof {
            assert(digits.take(at + 1).drop_last() =~= digits.take(at));
            assert(digits.take(at + 1).last() == c);
        }
        if !large {
            let next = 10 * value + (c as u32 as i128 - 48);
            if next > 0x1_0000_0000_0000_0000 {
                large = true;
            } else {
                value = next;
            }
        }
        i = i + 1;
    }
    assert(digits.take(i - from) =~= digits);
    if large {
        None
    } else {
        Some(value)
    }
}

/// Reads a whole number within the bounds.
pub(crate) fn read_integer(text: &str, min: i64, max: i64) -> (r: Option<i64>)
    ensures
        r == integer_within(text@, min, max),
{
    let chars = chars_of(text);
    let negative = chars.len() > 0 && chars[0] == '-';
    let from: usize = if chars.len() > 0 && (chars[0] == '-' || chars[0] == '+') {
        1
    } else {
        0
    };
    assert(chars@.skip(0) =~= chars@);
    match read_digits(&chars, from) {
        None => None,
        Some(digits) => {
            let value: i128 = if negative {
                0 - digits
            } else {
                digits
            };
            if min as i128 <= value && value <= max as i128 {
                Some(value as i64)
            } else {
                None
            }
        },
    }
}

/// Writes the decimal digits of a number.
fn write_digits(value: u64) -> (r: String)
    ensures
        r@ == decimal_digits(value as nat),
    decreases value,
{
    if value < 10 {
        let mut r = String::new();
        r.push((48 + value as u8) as char);
        assert(r@ =~= decimal_digits(value as nat));
        r
    } else {
        let mut r = write_digits(value / 10);
        r.push((48 + (value % 10) as u8) as char);
        r
    }
}

/// Writes a number in decimal text.
pub(crate) fn write_integer(value: i64) -> (r: String)
    ensures
        r@ == decimal(value as int),
{
    if value < 0 {
        let mut r = String::new();
        r.push('-');
        let size: i128 = 0 - value as i128;
        r.append(write_digits(size as u64).as_str());
        assert(r@ =~= decimal(value as int));
        r
    } else {
        write_digits(value as u64)
    }
}

/// A digit more makes a number ten times as large, and adds the digit.
pub proof fn law_digits_are_decimal(text: Seq<char>, digit: char)
    requires
        '0' <= digit <= '9',
    ensures
        digits_value(text.push(digit)) == 10 * digits_value(text) + (digit as int - '0' as int),
        digits_value(Seq::empty()) == 0,
{
    assert(text.push(digit).drop_last() =~= text);
}

/// How a text stands for a number: digits stand for what they are worth, a minus sign makes it
/// negative, a plus sign does nothing, and zeros in front do not count.
pub proof fn law_signs_and_zeros(digits: Seq<char>)
    requires
        digits.len() > 0,
        forall|i: int| 0 <= i < digits.len() ==> '0' <= #[trigger] digits[i] <= '9',
    ensures
        integer_of(digits) == Some(digits_value(digits)),
        integer_of(seq!['-'] + digits) == Some(-digits_value(digits)),
        integer_of(seq!['+'] + digits) == Some(digits_value(digits)),
        integer_of(seq!['0'] + digits) == Some(digits_value(digits)),
{
    assert('0' <= digits[0]);
    assert((seq!['-'] + digits).skip(1) =~= digits);
    assert((seq!['+'] + digits).skip(1) =~= digits);
    lemma_zero_in_front(digits);
    let padded = seq!['0'] + digits;
    assert forall|i: int| 0 <= i < padded.len() implies '0' <= #[trigger] padded[i] <= '9' by {
        if i > 0 {
            assert(padded[i] == digits[i - 1]);
        }
    }
}

proof fn lemma_zero_in_front(digits: Seq<char>)
    ensures
        digits_value(seq!['0'] + digits) == digits_value(digits),
    decreases digits.len(),
{
    let padded = seq!['0'] + digits;
    if digits.len() == 0 {
        assert(padded.drop_last() =~= Seq::empty());
        assert(digits_value(padded.drop_last()) == 0);
    } else {
        lemma_zero_in_front(digits.drop_last());
        assert(padded.drop_last() =~= seq!['0'] + digits.drop_last());
    }
}

/// A text with anything else in it than digits behind a sign stands for no number.
pub proof fn law_other_texts_are_no_numbers(text: Seq<char>, i: int)
    requires
        0 <= i < text.len(),
        !('0' <= text[i] <= '9'),
        i > 0 || (text[0] != '-' && text[0] != '+') || text.len() == 1,
    ensures
        integer_of(text) is None,
{
    if text[0] == '-' || text[0] == '+' {
        let rest = text.skip(1);
        if i > 0 {
            assert(rest[i - 1] == text[i]);
        }
    }
}

/// A number that lies within the bounds is one, and no other is.
pub proof fn law_bounds(text: Seq<char>, min: i64, max: i64)
    ensures
        integer_within(text, min, max) matches Some(value) ==> min <= value <= max
            && integer_of(text) == Some(value as int),
        integer_of(text) matches Some(value) ==> (integer_within(text, min, max) is Some <==> min
            <= value <= max),
        integer_of(text) is None ==> integer_within(text, min, max) is None,
{
}

/// The decimal text of a number from ten on is that of its tenth, with one digit more; a negative
/// number has a minus sign in front.
pub proof fn law_decimal_text(value: nat)
    ensures
        value < 10 ==> decimal(value as int) == seq![('0' as u8 + value) as u8 as char],
        value >= 10 ==> decimal(value as int) == decimal((value / 10) as int).push(
            ('0' as u8 + value % 10) as u8 as char,
        ),
        value > 0 ==> decimal(-(value as int)) == seq!['-'] + decimal(value as int),
{
}

} // verus!
