//! Decimal numerals: reading them and writing them.

use crate::text::{is_digit, suffix};
use vstd::arithmetic::power::pow;
use vstd::prelude::*;

verus! {

/// The number that a digit stands for.
pub open spec fn digit_value(c: char) -> int {
    c as int - '0' as int
}

/// The digit that stands for `d`.
pub open spec fn digit_of(d: int) -> char {
    (d + '0' as int) as char
}

/// Whether every character is a digit.
pub open spec fn all_digits(s: Seq<char>) -> bool {
    forall|i: int| 0 <= i < s.len() ==> is_digit(#[trigger] s[i])
}

/// The number that a run of digits stands for.
pub open spec fn value_of(s: Seq<char>) -> int
    decreases s.len(),
{
    if s.len() == 0 {
        0
    } else {
        10 * value_of(s.drop_last()) + digit_value(s.last())
    }
}

/// The number that a text stands for when it is made of digits alone, at least
/// one of them.
pub open spec fn number_of(s: Seq<char>) -> Option<int> {
    if s.len() > 0 && all_digits(s) {
        Some(value_of(s))
    } else {
        None
    }
}

/// Digits after an optional plus sign.
pub open spec fn unsigned_of(s: Seq<char>) -> Option<int> {
    if s.len() > 0 && s[0] == '+' {
        number_of(s.drop_first())
    } else {
        number_of(s)
    }
}

/// Digits after an optional plus or minus sign.
pub open spec fn signed_of(s: Seq<char>) -> Option<int> {
    if s.len() > 0 && s[0] == '-' {
        match number_of(s.drop_first()) {
            Some(v) => Some(-v),
            None => None,
        }
    } else {
        unsigned_of(s)
    }
}

/// An unsigned numeral whose value fits in 32 bits.
pub open spec fn u32_of(s: Seq<char>) -> Option<u32> {
    match unsigned_of(s) {
        Some(v) => if v <= u32::MAX {
            Some(v as u32)
        } else {
            None
        },
        None => None,
    }
}

/// A signed numeral whose value fits in 32 bits.
pub open spec fn i32_of(s: Seq<char>) -> Option<i32> {
    match signed_of(s) {
        Some(v) => if i32::MIN <= v <= i32::MAX {
            Some(v as i32)
        } else {
            None
        },
        None => None,
    }
}

/// The decimal numeral of `n`, without leading zeros.
pub open spec fn numeral(n: nat) -> Seq<char>
    decreases n,
{
    if n < 10 {
        seq![digit_of(n as int)]
    } else {
        numeral(n / 10).push(digit_of((n % 10) as int))
    }
}

/// The decimal numeral of `n`, after a minus sign when `n` is negative.
pub open spec fn signed_numeral(n: int) -> Seq<char> {
    if n < 0 {
        seq!['-'] + numeral((-n) as nat)
    } else {
        numeral(n as nat)
    }
}

/// Digits never stand for a negative number.
pub proof fn lemma_value_not_negative(s: Seq<char>)
    requires
        all_digits(s),
    ensures
        value_of(s) >= 0,
    decreases s.len(),
{
    if s.len() > 0 {
        assert(is_digit(s[s.len() - 1]));
        assert(all_digits(s.drop_last()));
        lemma_value_not_negative(s.drop_last());
    }
}

/// Reading the numeral of a number gives that number back.
pub proof fn law_numeral_reads_back(n: nat)
    ensures
        number_of(numeral(n)) == Some(n as int),
    decreases n,
{
    if n >= 10 {
        law_numeral_reads_back(n / 10);
        let s = numeral(n);
        assert(s.drop_last() =~= numeral(n / 10));
        assert(all_digits(s)) by {
            assert forall|i: int| 0 <= i < s.len() implies is_digit(#[trigger] s[i]) by {
                if i < s.len() - 1 {
                    assert(s[i] == numeral(n / 10)[i]);
                }
            }
        }
    } else {
        let s = numeral(n);
        assert(s.drop_last() =~= Seq::<char>::empty());
        reveal_with_fuel(value_of, 2);
    }
}

/// Reading the numeral of a 32-bit number gives that number back.
pub proof fn law_u32_numeral_reads_back(n: u32)
    ensures
        u32_of(numeral(n as nat)) == Some(n),
{
    law_numeral_reads_back(n as nat);
    let s = numeral(n as nat);
    assert(is_digit(s[0]));
}

/// Reading the numeral of a signed 32-bit number gives that number back.
pub proof fn law_i32_numeral_reads_back(n: i32)
    ensures
        i32_of(signed_numeral(n as int)) == Some(n),
{
    let s = signed_numeral(n as int);
    if n < 0 {
        law_numeral_reads_back((-n) as nat);
        assert(s.drop_first() =~= numeral((-n) as nat));
    } else {
        law_numeral_reads_back(n as nat);
        assert(is_digit(s[0]));
    }
}

/// Reads a text of digits whose value is at most `limit`.
fn parse_number(s: &str, limit: u64) -> (number: Option<u64>)
    requires
        limit <= u32::MAX,
    ensures
        number == (match number_of(s@) {
            Some(v) => if v <= limit {
                Some(v as u64)
            } else {
                None
            },
            None => None,
        }),
{
    if s.is_empty() {
        return None;
    }
    let mut value: u64 = 0;
    let mut over: bool = false;
    assert(s@.take(0) =~= Seq::<char>::empty());
    for c in it: s.chars()
        invariant
            it.seq() == s@,
            limit <= u32::MAX,
            forall|k: int| 0 <= k < it.index() ==> is_digit(#[trigger] s@[k]),
            !over ==> value == value_of(s@.take(it.index() as int)) && value <= limit,
            over ==> value_of(s@.take(it.index() as int)) > limit,
    {
        if !('0' <= c && c <= '9') {
            assert(!is_digit(s@[it.index() as int]));
            return None;
        }
        proof {
            let i = it.index() as int;
            assert(s@.take(i + 1).drop_last() =~= s@.take(i));
            assert(s@.take(i + 1).last() == c);
        }
        if !over {
            value = value * 10 + (c as u32 - '0' as u32) as u64;
            over = value > limit;
        }
    }
    assert(s@.take(s@.len() as int) =~= s@);
    if over {
        None
    } else {
        Some(value)
    }
}

/// Reads an unsigned 32-bit number: digits after an optional plus sign.
pub fn parse_u32(s: &str) -> (number: Option<u32>)
    ensures
        number == u32_of(s@),
{
    let digits = if !s.is_empty() && s.get_char(0) == '+' {
        suffix(s, 1)
    } else {
        s
    };
    assert(s@.len() > 0 ==> s@.skip(1) =~= s@.drop_first());
    proof {
        if all_digits(digits@) {
            lemma_value_not_negative(digits@);
        }
    }
    match parse_number(digits, u32::MAX as u64) {
        Some(v) => Some(v as u32),
        None => None,
    }
}

/// Reads a signed 32-bit number: digits after an optional plus or minus sign.
pub fn parse_i32(s: &str) -> (number: Option<i32>)
    ensures
        number == i32_of(s@),
{
    assert(s@.len() > 0 ==> s@.skip(1) =~= s@.drop_first());
    let signed = !s.is_empty() && (s.get_char(0) == '+' || s.get_char(0) == '-');
    let negative = !s.is_empty() && s.get_char(0) == '-';
    let digits = if signed {
        suffix(s, 1)
    } else {
        s
    };
    proof {
        if all_digits(digits@) {
            lemma_value_not_negative(digits@);
        }
    }
    if negative {
        match parse_number(digits, 2_147_483_648) {
            Some(v) => Some((0 - v as i64) as i32),
            None => None,
        }
    } else {
        match parse_number(digits, 2_147_483_647) {
            Some(v) => Some(v as i32),
            None => None,
        }
    }
}

/// The one-digit numeral of `d`.
fn digit(d: u64) -> (s: &'static str)
    requires
        d < 10,
    ensures
        s@ == seq![digit_of(d as int)],
{
    proof {
        reveal_strlit("0");
        reveal_strlit("1");
        reveal_strlit("2");
        reveal_strlit("3");
        reveal_strlit("4");
        reveal_strlit("5");
        reveal_strlit("6");
        reveal_strlit("7");
        reveal_strlit("8");
        reveal_strlit("9");
    }
    let s = match d {
        0 => "0",
        1 => "1",
        2 => "2",
        3 => "3",
        4 => "4",
        5 => "5",
        6 => "6",
        7 => "7",
        8 => "8",
        _ => "9",
    };
    assert(s@ =~= seq![digit_of(d as int)]);
    s
}

/// Writes the decimal numeral of `n`.
pub fn format_number(n: u64) -> (s: String)
    ensures
        s@ == numeral(n as nat),
    decreases n,
{
    if n < 10 {
        digit(n).to_owned()
    } else {
        let mut s = format_number(n / 10);
        s.append(digit(n % 10));
        assert(s@ =~= numeral(n as nat));
        s
    }
}

/// Writes the decimal numeral of `n`, after a minus sign when `n` is negative.
pub fn format_signed(n: i64) -> (s: String)
    requires
        n > i64::MIN,
    ensures
        s@ == signed_numeral(n as int),
{
    if n < 0 {
        let mut s = "-".to_owned();
        s.append(format_number((0 - n) as u64).as_str());
        proof {
            reveal_strlit("-");
        }
        assert(s@ =~= signed_numeral(n as int));
        s
    } else {
        format_number(n as u64)
    }
}

/// Digits are read by place: each digit counts ten times as much as the one
/// after it, wherever the run is cut.
pub proof fn law_digits_are_read_by_place(a: Seq<char>, b: Seq<char>)
    ensures
        value_of(a + b) == value_of(a) * pow(10, b.len()) + value_of(b),
    decreases b.len(),
{
    reveal(pow);
    if b.len() == 0 {
        assert(a + b =~= a);
    } else {
        let rest = b.drop_last();
        law_digits_are_read_by_place(a, rest);
        assert((a + b).drop_last() =~= a + rest);
        assert((a + b).last() == b.last());
        let place = pow(10, rest.len());
        assert(pow(10, b.len()) == 10 * place);
        assert(10 * (value_of(a) * place) == value_of(a) * (10 * place)) by (nonlinear_arith);
    }
}

/// A single digit stands for its distance from zero.
pub proof fn law_single_digit(c: char)
    ensures
        value_of(seq![c]) == c as int - '0' as int,
        number_of(seq![c]) == (if '0' <= c <= '9' {
            Some(c as int - '0' as int)
        } else {
            None
        }),
{
    reveal_with_fuel(value_of, 2);
    assert(seq![c].drop_last() =~= Seq::<char>::empty());
    if '0' <= c <= '9' {
        assert(all_digits(seq![c]));
    } else {
        assert(!is_digit(seq![c][0]));
    }
}

/// A text is a number just when it holds digits, at least one, and nothing else.
pub proof fn law_numbers_are_digits(s: Seq<char>)
    ensures
        number_of(s) is Some <==> s.len() > 0 && forall|i: int|
            0 <= i < s.len() ==> '0' <= #[trigger] s[i] <= '9',
        number_of(s) matches Some(v) ==> v == value_of(s) && v >= 0,
{
    if number_of(s) is Some {
        lemma_value_not_negative(s);
        assert forall|i: int| 0 <= i < s.len() implies '0' <= #[trigger] s[i] <= '9' by {
            assert(is_digit(s[i]));
        }
    }
    if s.len() > 0 && forall|i: int| 0 <= i < s.len() ==> '0' <= #[trigger] s[i] <= '9' {
        assert(all_digits(s));
    }
}

/// A sign in front of digits: a plus changes nothing, a minus is for signed
/// numbers only and negates. A number that does not fit is no number.
pub proof fn law_signs_of_numbers(digits: Seq<char>)
    requires
        digits.len() > 0,
        forall|i: int| 0 <= i < digits.len() ==> '0' <= #[trigger] digits[i] <= '9',
    ensures
        u32_of(digits) is Some <==> value_of(digits) <= u32::MAX,
        u32_of(digits) matches Some(v) ==> v == value_of(digits),
        u32_of(seq!['+'] + digits) == u32_of(digits),
        u32_of(seq!['-'] + digits) is None,
        i32_of(digits) is Some <==> value_of(digits) <= i32::MAX,
        i32_of(digits) matches Some(v) ==> v == value_of(digits),
        i32_of(seq!['+'] + digits) == i32_of(digits),
        i32_of(seq!['-'] + digits) is Some <==> -value_of(digits) >= i32::MIN,
        i32_of(seq!['-'] + digits) matches Some(v) ==> v == -value_of(digits),
{
    law_numbers_are_digits(digits);
    assert('0' <= digits[0] <= '9');
    assert((seq!['+'] + digits).drop_first() =~= digits);
    assert((seq!['-'] + digits).drop_first() =~= digits);
    let minus = seq!['-'] + digits;
    assert(!is_digit(minus[0]));
}

/// Text that is not digits behind at most one sign is no number.
pub proof fn law_other_text_is_no_number(s: Seq<char>)
    requires
        number_of(s) is None,
        s.len() > 0 && (s[0] == '+' || s[0] == '-') ==> number_of(s.drop_first()) is None,
    ensures
        u32_of(s) is None,
        i32_of(s) is None,
{
}

/// Numerals are written without needless zeros in front.
pub proof fn law_numerals_have_no_leading_zero(n: nat)
    ensures
        numeral(n).len() > 0,
        numeral(n).len() > 1 ==> numeral(n)[0] != '0',
        n > 0 ==> numeral(n)[0] != '0',
    decreases n,
{
    if n >= 10 {
        law_numerals_have_no_leading_zero(n / 10);
        assert(numeral(n)[0] == numeral(n / 10)[0]);
    }
}

/// A negative number is written as a minus sign and its opposite, any other as
/// it is.
pub proof fn law_signed_numerals(n: nat)
    ensures
        signed_numeral(n as int) == numeral(n),
        n > 0 ==> signed_numeral(-(n as int)) == seq!['-'] + numeral(n),
{
}

} // verus!
