//! Decimal numbers as text.

use vstd::prelude::*;

verus! {

/// The character of a decimal digit.
pub open spec fn digit_char(d: nat) -> char {
    (48 + d) as char
}

/// The value of a decimal digit.
pub open spec fn digit_value(c: char) -> Option<nat> {
    if '0' <= c <= '9' {
        Some((c as nat - 48) as nat)
    } else {
        None
    }
}

/// The decimal digits of a number, without leading zeros.
pub open spec fn decimal(n: nat) -> Seq<char>
    decreases n,
{
    if n < 10 {
        seq![digit_char(n)]
    } else {
        decimal(n / 10).push(digit_char(n % 10))
    }
}

/// The value of a row of decimal digits.
pub open spec fn digits_value(s: Seq<char>) -> Option<nat>
    decreases s.len(),
{
    if s.len() == 0 {
        Some(0)
    } else {
        match (digits_value(s.drop_last()), digit_value(s.last())) {
            (Some(v), Some(d)) => Some(v * 10 + d),
            _ => None,
        }
    }
}

/// The unsigned decimal number that a text denotes: an optional plus sign and
/// at least one digit, up to `max`.
pub open spec fn unsigned_value(s: Seq<char>, max: nat) -> Option<nat> {
    let digits = if s.len() > 0 && s[0] == '+' {
        s.drop_first()
    } else {
        s
    };
    if digits.len() == 0 {
        None
    } else {
        match digits_value(digits) {
            Some(v) => if v <= max {
                Some(v)
            } else {
                None
            },
            None => None,
        }
    }
}

fn digit_text(d: u128) -> (r: &'static str)
    requires
        d < 10,
    ensures
        r@ == seq![digit_char(d as nat)],
{
    proof {
        reveal_strlit("0");
        reveal_strlit("1");
        reveal_strlit("2");
        reveal_strlit("3");
        reveal_strlit("4");
        reveal_strlit("5");
        reveal_strlit("6");
        reveal_strlit("7");
        reveal_strlit("8");
        reveal_strlit("9");
    }
    if d == 0 {
        "0"
    } else if d == 1 {
        "1"
    } else if d == 2 {
        "2"
    } else if d == 3 {
        "3"
    } else if d == 4 {
        "4"
    } else if d == 5 {
        "5"
    } else if d == 6 {
        "6"
    } else if d == 7 {
        "7"
    } else if d == 8 {
        "8"
    } else {
        "9"
    }
}

/// Appends a number in decimal.
pub fn push_decimal(out: &mut String, n: u128)
    ensures
        final(out)@ == old(out)@ + decimal(n as nat),
    decreases n,
{
    if n >= 10 {
        push_decimal(out, n / 10);
    }
    out.append(digit_text(n % 10));
    assert(out@ =~= old(out)@ + decimal(n as nat));
}

/// Reads an unsigned decimal number from a stretch of a text.
pub fn read_unsigned_in(s: &str, from: usize, to: usize, max: u64) -> (r: Option<u64>)
    requires
        from <= to <= s@.len(),
    ensures
        r is Some <==> unsigned_value(s@.subrange(from as int, to as int), max as nat) is Some,
        r matches Some(v) ==> unsigned_value(s@.subrange(from as int, to as int), max as nat)
            == Some(v as nat),
{
    let ghost whole = s@.subrange(from as int, to as int);
    if from == to {
        return None;
    }
    let start: usize = if s.get_char(from) == '+' {
        from + 1
    } else {
        from
    };
    let ghost digits = s@.subrange(start as int, to as int);
    proof {
        if start == from + 1 {
            assert(digits =~= whole.drop_first());
        }
    }
    if start == to {
        return None;
    }
    let mut value: u128 = 0;
    let mut i: usize = start;
    while i < to
        invariant
            from < to <= s@.len(),
            start <= i <= to,
            whole == s@.subrange(from as int, to as int),
            digits == s@.subrange(start as int, to as int),
            digits.len() > 0,
            digits == (if whole[0] == '+' {
                whole.drop_first()
            } else {
                whole
            }),
            value <= max as u128,
            digits_value(digits.subrange(0, i - start)) == Some(value as nat),
        decreases to - i,
    {
        let c: u32 = s.get_char(i) as u32;
        let ghost here = digits.subrange(0, i - start);
        let ghost next = digits.subrange(0, i + 1 - start);
        proof {
            assert(next.drop_last() =~= here);
            assert(next.last() == s@[i as int]);
        }
        if c < 48 || c > 57 {
            proof {
                lemma_bad_digit(digits, i - start);
            }
            return None;
        }
        value = value * 10 + (c - 48) as u128;
        i = i + 1;
        if value > max as u128 {
            proof {
                if digits_value(digits) is Some {
                    lemma_prefix_value(digits, i - start);
                }
            }
            return None;
        }
    }
    proof {
        assert(digits.subrange(0, to - start) =~= digits);
    }
    Some(value as u64)
}

/// Reads an unsigned decimal number.
pub fn read_unsigned(s: &str, max: u64) -> (r: Option<u64>)
    ensures
        r is Some <==> unsigned_value(s@, max as nat) is Some,
        r matches Some(v) ==> unsigned_value(s@, max as nat) == Some(v as nat),
{
    let len: usize = s.unicode_len();
    proof {
        assert(s@.subrange(0, len as int) =~= s@);
    }
    read_unsigned_in(s, 0, len, max)
}

/// What is written in decimal reads back as the same number, and is made of
/// digits alone.
pub proof fn law_decimal_reads_back(n: nat, max: nat)
    requires
        n <= max,
    ensures
        unsigned_value(decimal(n), max) == Some(n),
        forall|i: int| 0 <= i < decimal(n).len() ==> '0' <= #[trigger] decimal(n)[i] <= '9',
{
    lemma_decimal_value(n);
}

proof fn lemma_decimal_value(n: nat)
    ensures
        decimal(n).len() > 0,
        digits_value(decimal(n)) == Some(n),
        forall|i: int| 0 <= i < decimal(n).len() ==> '0' <= #[trigger] decimal(n)[i] <= '9',
    decreases n,
{
    assert(decimal(n).last() == digit_char(n % 10));
    assert(digit_value(digit_char(n % 10)) == Some(n % 10));
    if n < 10 {
        assert(decimal(n).drop_last() =~= Seq::empty());
        assert(digits_value(Seq::empty()) == Some(0nat));
    } else {
        lemma_decimal_value(n / 10);
        assert(decimal(n).drop_last() =~= decimal(n / 10));
    }
}

/// A row with a bad digit has no value.
proof fn lemma_bad_digit(s: Seq<char>, i: int)
    requires
        0 <= i < s.len(),
        digit_value(s[i]) is None,
    ensures
        digits_value(s) is None,
    decreases s.len(),
{
    if i < s.len() - 1 {
        lemma_bad_digit(s.drop_last(), i);
    }
}

/// A row has at least the value of each of its prefixes.
proof fn lemma_prefix_value(s: Seq<char>, i: int)
    requires
        0 <= i <= s.len(),
        digits_value(s) is Some,
    ensures
        digits_value(s.subrange(0, i)) is Some,
        digits_value(s.subrange(0, i))->0 <= digits_value(s)->0,
    decreases s.len(),
{
    if i == s.len() {
        assert(s.subrange(0, i) =~= s);
    } else {
        let front = s.drop_last();
        lemma_prefix_value(front, i);
        assert(front.subrange(0, i) =~= s.subrange(0, i));
    }
}

/// Every further digit multiplies a number by ten and adds itself, and anything
/// but a digit makes it none.
pub proof fn law_digits_are_places(front: Seq<char>, c: char)
    ensures
        digits_value(front) matches Some(v) ==> '0' <= c <= '9' ==> digits_value(front.push(c))
            == Some((10 * v + (c as nat - '0' as nat)) as nat),
        !('0' <= c <= '9') ==> digits_value(front.push(c)) is None,
        digits_value(front) is None ==> digits_value(front.push(c)) is None,
{
    assert(front.push(c).drop_last() =~= front);
}

/// A number in decimal has no leading zero, unless it is zero.
pub proof fn law_decimal_has_no_leading_zero(n: nat)
    ensures
        decimal(n).len() > 0,
        n > 0 ==> decimal(n)[0] != '0',
        n == 0 ==> decimal(n) == seq!['0'],
    decreases n,
{
    if n >= 10 {
        law_decimal_has_no_leading_zero(n / 10);
    }
}

/// A text denotes a number exactly where it is made of digits, behind a plus
/// sign or none, and that number is what the digits denote, up to the maximum.
pub proof fn law_numbers_are_digits(digits: Seq<char>, max: nat)
    requires
        digits.len() > 0,
        digits[0] != '+',
    ensures
        unsigned_value(digits, max) is Some <==> digits_value(digits) is Some && digits_value(
            digits,
        )->0 <= max,
        unsigned_value(digits, max) is Some ==> unsigned_value(digits, max) == digits_value(digits),
        unsigned_value(seq!['+'] + digits, max) == unsigned_value(digits, max),
        unsigned_value(Seq::empty(), max) is None,
        unsigned_value(seq!['+'], max) is None,
{
    assert((seq!['+'] + digits).drop_first() =~= digits);
    assert(seq!['+'].drop_first() =~= Seq::empty());
}

/// The digits are the characters from zero to nine, in order.
pub proof fn law_digits_in_order(d: nat)
    requires
        d < 10,
    ensures
        digit_value(digit_char(d)) == Some(d),
        digit_char(d) as nat == '0' as nat + d,
{
}

} // verus!
