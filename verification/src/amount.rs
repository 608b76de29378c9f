use vstd::prelude::*;
use vstd::string::StringExecFns;
use vstd::utf8::is_ascii_chars;
use crate::decimal::{decimal, decimal_string, digit_char, digit_str};

verus! {

/// An amount without its sign.
pub open spec fn magnitude(value: int) -> nat {
    if value < 0 {
        (-value) as nat
    } else {
        value as nat
    }
}

/// The four digits behind the point, for a number of ten-thousandths below 10000.
pub open spec fn fraction_text(fraction: nat) -> Seq<char> {
    seq![
        digit_char(fraction / 1000 % 10),
        digit_char(fraction / 100 % 10),
        digit_char(fraction / 10 % 10),
        digit_char(fraction % 10),
    ]
}

/// An amount of ten-thousandths as a decimal number with four fractional digits.
pub open spec fn amount_text(value: int) -> Seq<char> {
    let sign = if value < 0 {
        seq!['-']
    } else {
        Seq::<char>::empty()
    };
    sign + decimal(magnitude(value) / 10000) + seq!['.'] + fraction_text(magnitude(value) % 10000)
}

/// Writes an amount of ten-thousandths with four fractional digits.
pub fn format_amount(value: i128) -> (text: String)
    ensures
        text@ == amount_text(value as int),
{
    let size: u128 = if value >= 0 {
        value as u128
    } else {
        (-(value + 1)) as u128 + 1
    };
    assert(size == magnitude(value as int));
    let mut text = if value < 0 {
        String::from_str("-")
    } else {
        String::new()
    };
    let whole = decimal_string(size / 10000);
    let fraction: u128 = size % 10000;
    text.append(whole.as_str());
    text.append(".");
    text.append(digit_str(fraction / 1000 % 10));
    text.append(digit_str(fraction / 100 % 10));
    text.append(digit_str(fraction / 10 % 10));
    text.append(digit_str(fraction % 10));
    proof {
        reveal_strlit("-");
        reveal_strlit(".");
        assert("-"@ =~= seq!['-']);
        assert("."@ =~= seq!['.']);
        assert(text@ =~= amount_text(value as int));
    }
    text
}

pub open spec fn is_digit(c: char) -> bool {
    '0' <= c <= '9'
}

pub open spec fn digit_value(c: char) -> nat {
    (c as u32 - 48) as nat
}

/// The number that a run of digits writes.
pub open spec fn digits_value(digits: Seq<char>) -> nat
    decreases digits.len(),
{
    if digits.len() == 0 {
        0
    } else {
        digits_value(digits.drop_last()) * 10 + digit_value(digits.last())
    }
}

pub open spec fn all_digits(text: Seq<char>) -> bool {
    forall|i: int| 0 <= i < text.len() ==> is_digit(#[trigger] text[i])
}

/// Where the run of digits that starts at `from` ends.
pub open spec fn digits_end(text: Seq<char>, from: int) -> int
    decreases text.len() - from,
{
    if 0 <= from < text.len() && is_digit(text[from]) {
        digits_end(text, from + 1)
    } else {
        from
    }
}

/// What one unit of a fraction of `len` digits is worth, in ten-thousandths.
pub open spec fn fraction_scale(len: nat) -> nat {
    if len == 0 {
        10000
    } else if len == 1 {
        1000
    } else if len == 2 {
        100
    } else if len == 3 {
        10
    } else {
        1
    }
}

/// `value`, if a 64-bit integer holds it.
pub open spec fn in_range(value: int) -> Option<int> {
    if i64::MIN <= value <= i64::MAX {
        Some(value)
    } else {
        None
    }
}

/// The amount that `text` writes, in ten-thousandths: an optional minus
/// sign, at least one digit, and then nothing more or a point with up to
/// four digits behind it. Any other text, and an amount that a 64-bit
/// integer does not hold, gives nothing.
pub open spec fn amount_value(text: Seq<char>) -> Option<int> {
    let negative = text.len() > 0 && text[0] == '-';
    let start = if negative { 1int } else { 0int };
    let point = digits_end(text, start);
    let whole = (digits_value(text.subrange(start, point)) * 10000) as int;
    if point == start {
        None
    } else if point == text.len() {
        in_range(if negative { -whole } else { whole })
    } else if text[point] != '.' {
        None
    } else {
        let fraction = text.subrange(point + 1, text.len() as int);
        if fraction.len() <= 4 && all_digits(fraction) {
            let size = whole + (digits_value(fraction) * fraction_scale(fraction.len())) as int;
            in_range(if negative { -size } else { size })
        } else {
            None
        }
    }
}

/// The run of digits from `from` holds digits only and ends at the end of
/// the text or before a character that is no digit.
pub proof fn lemma_digits_end(text: Seq<char>, from: int)
    requires
        0 <= from <= text.len(),
    ensures
        from <= digits_end(text, from) <= text.len(),
        forall|i: int| from <= i < digits_end(text, from) ==> is_digit(#[trigger] text[i]),
        digits_end(text, from) < text.len() ==> !is_digit(text[digits_end(text, from)]),
    decreases text.len() - from,
{
    if from < text.len() && is_digit(text[from]) {
        lemma_digits_end(text, from + 1);
    }
}

/// A longer run of digits from the same start writes no smaller number.
pub proof fn lemma_digits_value_grows(text: Seq<char>, from: int, middle: int, to: int)
    requires
        0 <= from <= middle <= to <= text.len(),
    ensures
        digits_value(text.subrange(from, middle)) <= digits_value(text.subrange(from, to)),
    decreases to - middle,
{
    if middle < to {
        lemma_digits_value_grows(text, from, middle, to - 1);
        assert(text.subrange(from, to).drop_last() =~= text.subrange(from, to - 1));
    }
}

/// A run of at most four digits writes a number below ten thousand.
pub proof fn lemma_digits_value_bound(digits: Seq<char>)
    requires
        all_digits(digits),
        digits.len() <= 4,
    ensures
        digits_value(digits) * fraction_scale(digits.len()) < 10000,
        digits.len() == 0 ==> digits_value(digits) == 0,
        digits.len() == 1 ==> digits_value(digits) < 10,
        digits.len() == 2 ==> digits_value(digits) < 100,
        digits.len() == 3 ==> digits_value(digits) < 1000,
        digits.len() == 4 ==> digits_value(digits) < 10000,
    decreases digits.len(),
{
    if digits.len() > 0 {
        assert(is_digit(digits.last()));
        assert forall|i: int| 0 <= i < digits.drop_last().len() implies is_digit(
            #[trigger] digits.drop_last()[i],
        ) by {
            assert(digits.drop_last()[i] == digits[i]);
        }
        lemma_digits_value_bound(digits.drop_last());
    }
}

/// The character of a digit is a digit and is worth that digit.
pub proof fn lemma_digit_char(d: nat)
    requires
        d < 10,
    ensures
        is_digit(digit_char(d)),
        digit_value(digit_char(d)) == d,
{
}

/// A number in decimal notation is a run of digits that writes that number.
pub proof fn lemma_decimal_digits(n: nat)
    ensures
        decimal(n).len() >= 1,
        all_digits(decimal(n)),
        digits_value(decimal(n)) == n,
    decreases n,
{
    if n < 10 {
        lemma_digit_char(n);
        assert(decimal(n).drop_last() =~= Seq::<char>::empty());
        assert(digits_value(decimal(n).drop_last()) == 0);
    } else {
        lemma_decimal_digits(n / 10);
        lemma_digit_char(n % 10);
        assert(decimal(n).drop_last() =~= decimal(n / 10));
        assert forall|i: int| 0 <= i < decimal(n).len() implies is_digit(
            #[trigger] decimal(n)[i],
        ) by {
            if i < decimal(n / 10).len() {
                assert(decimal(n)[i] == decimal(n / 10)[i]);
            }
        }
    }
}

/// A run of digits ends where the text ends or where a character is no digit.
pub proof fn lemma_digits_end_at(text: Seq<char>, from: int, to: int)
    requires
        0 <= from <= to <= text.len(),
        forall|i: int| from <= i < to ==> is_digit(#[trigger] text[i]),
        to == text.len() || !is_digit(text[to]),
    ensures
        digits_end(text, from) == to,
    decreases to - from,
{
    if from < to {
        lemma_digits_end_at(text, from + 1, to);
    }
}

/// An amount that is written and read again is the same amount.
pub proof fn lemma_written_amount_reads_back(value: int)
    requires
        i64::MIN <= value <= i64::MAX,
    ensures
        amount_value(amount_text(value)) == Some(value),
{
    let size = magnitude(value);
    let whole = decimal(size / 10000);
    let part = size % 10000;
    let behind = fraction_text(part);
    let text = amount_text(value);
    let start = if value < 0 { 1int } else { 0int };
    let point = start + whole.len();
    lemma_decimal_digits(size / 10000);
    lemma_digit_char(part / 1000 % 10);
    lemma_digit_char(part / 100 % 10);
    lemma_digit_char(part / 10 % 10);
    lemma_digit_char(part % 10);
    assert(text.len() == point + 5);
    assert forall|i: int| start <= i < point implies is_digit(#[trigger] text[i]) by {
        assert(text[i] == whole[i - start]);
    }
    assert(text[point] == '.');
    if value >= 0 {
        assert(text[0] == whole[0]);
        assert(is_digit(whole[0]));
    } else {
        assert(text[0] == '-');
    }
    lemma_digits_end_at(text, start, point);
    assert(text.subrange(start, point) =~= whole);
    let fraction = text.subrange(point + 1, text.len() as int);
    assert(fraction =~= behind);
    assert(all_digits(fraction));
    let three = behind.drop_last();
    let two = three.drop_last();
    let one = two.drop_last();
    assert(one.drop_last() =~= Seq::<char>::empty());
    assert(digits_value(one.drop_last()) == 0);
    assert(digits_value(one) == part / 1000 % 10);
    assert(digits_value(two) == (part / 1000 % 10) * 10 + part / 100 % 10);
    assert(digits_value(three) == ((part / 1000 % 10) * 10 + part / 100 % 10) * 10 + part / 10
        % 10);
    assert(digits_value(behind) == part);
}

/// Reads an amount of ten-thousandths from its decimal notation.
pub fn parse_amount(text: &str) -> (amount: Option<i64>)
    ensures
        amount is Some <==> amount_value(text@) is Some,
        amount matches Some(value) ==> amount_value(text@) == Some(value as int),
{
    broadcast use vstd::string::is_ascii_spec_bytes;

    let ghost s = text@;
    let ghost negative_s = s.len() > 0 && s[0] == '-';
    let ghost start_s = if negative_s { 1int } else { 0int };
    proof {
        lemma_digits_end(s, start_s);
    }
    if !text.is_ascii() {
        proof {
            let k = choose|k: int| 0 <= k < s.len() && !('\0' <= #[trigger] s[k] <= '\u{7f}');
            let point = digits_end(s, start_s);
            if point != start_s && point < s.len() && s[point] == '.' {
                assert(k != point);
                if k < point {
                    if k >= start_s {
                        assert(is_digit(s[k]));
                    }
                } else {
                    let fraction = s.subrange(point + 1, s.len() as int);
                    assert(fraction[k - point - 1] == s[k]);
                    assert(!is_digit(fraction[k - point - 1]));
                }
            } else if point == s.len() && point != start_s {
                if k >= start_s {
                    assert(is_digit(s[k]));
                }
            }
        }
        return None;
    }
    let bytes = text.as_bytes();
    let n = bytes.len();
    assert(n == s.len());
    assert(forall|i: int| 0 <= i < n ==> bytes@[i] == #[trigger] s[i] as u8);
    let negative = n > 0 && bytes[0] == 45;
    assert(negative == negative_s);
    let start: usize = if negative { 1 } else { 0 };
    let mut i: usize = start;
    let mut whole: u128 = 0;
    while i < n && 48 <= bytes[i] && bytes[i] <= 57
        invariant
            start <= i <= n,
            s == text@,
            start_s == if s.len() > 0 && s[0] == '-' { 1int } else { 0int },
            n == s.len(),
            n == bytes@.len(),
            start == start_s,
            forall|k: int| 0 <= k < n ==> bytes@[k] == #[trigger] s[k] as u8,
            is_ascii_chars(s),
            digits_end(s, start as int) == digits_end(s, i as int),
            whole == digits_value(s.subrange(start as int, i as int)),
            whole <= 1_000_000_000_000_000,
        decreases n - i,
    {
        assert(is_digit(s[i as int]));
        let digit: u128 = (bytes[i] - 48) as u128;
        assert(digit == digit_value(s[i as int]));
        proof {
            assert(s.subrange(start as int, i + 1).drop_last() =~= s.subrange(
                start as int,
                i as int,
            ));
        }
        whole = whole * 10 + digit;
        if whole > 1_000_000_000_000_000 {
            proof {
                let point = digits_end(s, start_s);
                lemma_digits_end(s, i + 1);
                assert(point == digits_end(s, i + 1));
                assert(whole == digits_value(s.subrange(start_s, i + 1)));
                lemma_digits_value_grows(s, start_s, i + 1, point);
                assert(digits_value(s.subrange(start_s, point)) * 10000 > i64::MAX + 1);
                assert(amount_value(s) is None);
            }
            return None;
        }
        i += 1;
    }
    proof {
        if i < n {
            assert(!is_digit(s[i as int]));
        }
        assert(digits_end(s, start_s) == i);
    }
    if i == start {
        return None;
    }
    let mut size: u128 = whole * 10000;
    if i < n {
        if bytes[i] != 46 {
            assert(s[i as int] != '.');
            return None;
        }
        assert(s[i as int] == '.');
        let ghost fraction = s.subrange(i + 1, n as int);
        if n - i - 1 > 4 {
            return None;
        }
        let mut j: usize = i + 1;
        let mut part: u128 = 0;
        while j < n
            invariant
                i + 1 <= j <= n,
                n - i - 1 <= 4,
                s == text@,
                start_s == if s.len() > 0 && s[0] == '-' { 1int } else { 0int },
                n == s.len(),
                n == bytes@.len(),
                fraction == s.subrange(i + 1, n as int),
                start_s < i < n,
                digits_end(s, start_s) == i,
                s[i as int] == '.',
                forall|k: int| 0 <= k < n ==> bytes@[k] == #[trigger] s[k] as u8,
                is_ascii_chars(s),
                all_digits(fraction.subrange(0, j - i - 1)),
                part == digits_value(fraction.subrange(0, j - i - 1)),
                part < 10000,
            decreases n - j,
        {
            if !(48 <= bytes[j] && bytes[j] <= 57) {
                proof {
                    assert(fraction[j - i - 1] == s[j as int]);
                    assert(!is_digit(fraction[j - i - 1]));
                }
                return None;
            }
            let digit: u128 = (bytes[j] - 48) as u128;
            proof {
                let longer = fraction.subrange(0, j - i);
                assert(longer.drop_last() =~= fraction.subrange(0, j - i - 1));
                assert(longer.last() == s[j as int]);
                assert(is_digit(s[j as int]));
                assert(digit == digit_value(s[j as int]));
                assert forall|k: int| 0 <= k < longer.len() implies is_digit(
                    #[trigger] longer[k],
                ) by {
                    if k < j - i - 1 {
                        assert(longer[k] == fraction.subrange(0, j - i - 1)[k]);
                    }
                }
                lemma_digits_value_bound(longer);
            }
            part = part * 10 + digit;
            j += 1;
        }
        proof {
            assert(fraction.subrange(0, n - i - 1) =~= fraction);
            lemma_digits_value_bound(fraction);
        }
        let digits = n - i - 1;
        let scale: u128 = if digits == 0 {
            10000
        } else if digits == 1 {
            1000
        } else if digits == 2 {
            100
        } else if digits == 3 {
            10
        } else {
            1
        };
        assert(scale == fraction_scale(fraction.len()));
        assert(part * scale < 10000) by (nonlinear_arith)
            requires
                part * scale == digits_value(fraction) * fraction_scale(fraction.len()),
                digits_value(fraction) * fraction_scale(fraction.len()) < 10000,
        ;
        size = size + part * scale;
    }
    if negative {
        if size > 9_223_372_036_854_775_808 {
            return None;
        }
        let value: i128 = -(size as i128);
        Some(value as i64)
    } else {
        if size > 9_223_372_036_854_775_807 {
            return None;
        }
        Some(size as i64)
    }
}

} // verus!
