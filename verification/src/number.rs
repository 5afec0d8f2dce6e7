//! Decimal numbers as text: what is printed, what is read, and that reading undoes printing.
use vstd::prelude::*;
use vstd::string::*;

use crate::text::after_prefix;

verus! {

/// The decimal digit `d` as a character.
pub open spec fn digit(d: int) -> char {
    (48 + d) as char
}

/// The decimal digits of `n`, most significant first, without leading zeros.
pub open spec fn decimal(n: nat) -> Seq<char>
    decreases n,
{
    if n < 10 {
        seq![digit(n as int)]
    } else {
        decimal(n / 10).push(digit((n % 10) as int))
    }
}

/// `n` in decimal, with a leading `-` when it is negative.
pub open spec fn signed_decimal(n: int) -> Seq<char> {
    if n < 0 {
        "-"@ + decimal((-n) as nat)
    } else {
        decimal(n as nat)
    }
}

/// An exit code as the error messages show it: `Some(1)`, or `None` for a process ended by a
/// signal.
pub open spec fn exit_code(code: Option<i32>) -> Seq<char> {
    match code {
        Some(n) => "Some("@ + signed_decimal(n as int) + ")"@,
        None => "None"@,
    }
}

pub open spec fn is_digit(c: char) -> bool {
    '0' <= c <= '9'
}

/// The number that a string of decimal digits denotes.
pub open spec fn value(s: Seq<char>) -> int
    decreases s.len(),
{
    if s.len() == 0 {
        0
    } else {
        value(s.drop_last()) * 10 + (s.last() as int - 48)
    }
}

/// The digits of a number: what follows an optional `+`.
pub open spec fn unsigned_digits(s: Seq<char>) -> Seq<char> {
    if s.len() > 0 && s[0] == '+' {
        s.skip(1)
    } else {
        s
    }
}

/// `s` reads as a `u32`: an optional `+`, then one digit or more, the number not too large.
pub open spec fn reads_as_u32(s: Seq<char>) -> bool {
    let d = unsigned_digits(s);
    &&& d.len() > 0
    &&& forall|i: int| 0 <= i < d.len() ==> is_digit(#[trigger] d[i])
    &&& value(d) <= u32::MAX
}

/// The `u32` that `s` reads as.
pub open spec fn read_u32(s: Seq<char>) -> Option<u32> {
    if reads_as_u32(s) {
        Some(value(unsigned_digits(s)) as u32)
    } else {
        None
    }
}

/// A string of digits denotes at least what any prefix of it denotes.
proof fn lemma_value_grows(s: Seq<char>, n: int)
    requires
        0 <= n <= s.len(),
        forall|i: int| 0 <= i < s.len() ==> is_digit(#[trigger] s[i]),
    ensures
        0 <= value(s.take(n)) <= value(s),
    decreases s.len(),
{
    if n == s.len() {
        assert(s.take(n) =~= s);
        if n > 0 {
            lemma_value_grows(s.drop_last(), n - 1);
        }
    } else {
        lemma_value_grows(s.drop_last(), n);
        assert(s.drop_last().take(n) =~= s.take(n));
        assert(is_digit(s[s.len() - 1]));
    }
}

/// What is printed consists of digits and denotes the number printed.
pub proof fn lemma_decimal(n: nat)
    ensures
        decimal(n).len() > 0,
        forall|i: int| 0 <= i < decimal(n).len() ==> is_digit(#[trigger] decimal(n)[i]),
        value(decimal(n)) == n,
    decreases n,
{
    if n < 10 {
        assert(decimal(n).drop_last() =~= Seq::<char>::empty());
        assert(value(decimal(n).drop_last()) == 0);
    } else {
        lemma_decimal(n / 10);
        assert(decimal(n).drop_last() =~= decimal(n / 10));
    }
}

/// Reading a printed number gives the number back.
pub proof fn law_read_undoes_print(n: u32)
    ensures
        read_u32(decimal(n as nat)) == Some(n),
{
    lemma_decimal(n as nat);
    assert(is_digit(decimal(n as nat)[0]));
}

/// A string of digits counts in tens: a digit behind it makes ten times as much, and the digit.
pub proof fn law_digits_count_in_tens(s: Seq<char>, d: int)
    requires
        0 <= d <= 9,
    ensures
        value(Seq::empty()) == 0,
        value(s.push("0123456789"@[d])) == 10 * value(s) + d,
{
    reveal_strlit("0123456789");
    assert(s.push("0123456789"@[d]).drop_last() =~= s);
    assert("0123456789"@[d] as int == 48 + d);
}

/// A number is printed with the decimal digits that denote it, and without leading zeros.
pub proof fn law_decimal_is_the_shortest(n: nat)
    ensures
        value(decimal(n)) == n,
        forall|i: int| 0 <= i < decimal(n).len() ==> '0' <= #[trigger] decimal(n)[i] <= '9',
        decimal(n).len() > 0,
        decimal(n).len() > 1 ==> decimal(n)[0] != '0',
    decreases n,
{
    lemma_decimal(n);
    assert forall|i: int| 0 <= i < decimal(n).len() implies '0' <= #[trigger] decimal(n)[i]
        <= '9' by {
        assert(is_digit(decimal(n)[i]));
    }
    if n >= 10 {
        law_decimal_is_the_shortest(n / 10);
        assert(decimal(n)[0] == decimal(n / 10)[0]);
        if n / 10 < 10 {
            assert(decimal(n / 10)[0] as int == 48 + n / 10);
        } else {
            lemma_decimal(n / 10 / 10);
            assert(decimal(n / 10).len() == decimal(n / 10 / 10).len() + 1);
        }
    }
}

/// Digits, with or without one `+` in front, read as the number that they denote, unless it is
/// larger than a `u32` can be.
pub proof fn law_digits_read_as_their_number(digits: Seq<char>)
    requires
        digits.len() > 0,
        forall|i: int| 0 <= i < digits.len() ==> '0' <= #[trigger] digits[i] <= '9',
    ensures
        value(digits) <= 4_294_967_295 ==> read_u32(digits) == Some(value(digits) as u32)
            && read_u32("+"@ + digits) == Some(value(digits) as u32),
        value(digits) > 4_294_967_295 ==> read_u32(digits) is None && read_u32(
            "+"@ + digits,
        ) is None,
        value(digits) >= 0,
{
    reveal_strlit("+");
    assert(digits[0] != '+');
    assert forall|i: int| 0 <= i < digits.len() implies is_digit(#[trigger] digits[i]) by {}
    assert(("+"@ + digits).skip(1) =~= digits);
    lemma_value_grows(digits, 0);
    assert(digits.take(0).len() == 0);
}

/// Nothing else reads as a number: not the empty text, not a `+` alone, not a text with anything but
/// digits behind its first character, and not one that starts with anything but a digit or `+`.
pub proof fn law_only_digits_read_as_a_number(s: Seq<char>, i: int)
    ensures
        s.len() == 0 ==> read_u32(s) is None,
        s == "+"@ ==> read_u32(s) is None,
        0 < i < s.len() && !('0' <= s[i] <= '9') ==> read_u32(s) is None,
        0 < s.len() && !('0' <= s[0] <= '9') && s[0] != '+' ==> read_u32(s) is None,
{
    reveal_strlit("+");
    let d = unsigned_digits(s);
    if 0 < i < s.len() && !('0' <= s[i] <= '9') {
        if s[0] == '+' {
            assert(d[i - 1] == s[i]);
            assert(!is_digit(d[i - 1]));
        } else {
            assert(!is_digit(d[i]));
        }
    }
    if 0 < s.len() && !('0' <= s[0] <= '9') && s[0] != '+' {
        assert(!is_digit(d[0]));
    }
}

/// How an exit code is shown.
pub proof fn law_exit_codes_are_shown_as_options(n: i32)
    ensures
        exit_code(None) == "None"@,
        n >= 0 ==> exit_code(Some(n)) == "Some("@ + decimal(n as nat) + ")"@,
        n < 0 ==> exit_code(Some(n)) == "Some(-"@ + decimal((-n) as nat) + ")"@,
{
    reveal_strlit("Some(");
    reveal_strlit("Some(-");
    reveal_strlit("-");
    if n < 0 {
        let d = decimal((-n) as nat);
        assert("Some("@ + ("-"@ + d) + ")"@ =~= "Some(-"@ + d + ")"@);
    }
}

/// Reads a `u32` written in decimal.
pub fn parse_u32(s: &str) -> (r: Option<u32>)
    ensures
        r == read_u32(s@),
{
    proof {
        reveal_strlit("+");
        if s@.len() > 0 {
            assert(s@.subrange(0, 1) =~= seq![s@[0]]);
            assert("+"@ =~= seq!['+']);
            assert(seq![s@[0]][0] == s@[0]);
            assert(seq!['+'][0] == '+');
        }
    }
    let digits: &str = match after_prefix(s, "+") {
        Some(rest) => rest,
        None => s,
    };
    let ghost d = unsigned_digits(s@);
    assert(digits@ == d);
    if digits.is_empty() {
        return None;
    }
    let mut total: u64 = 0;
    let ghost mut n: int = 0;
    for c in it: digits.chars()
        invariant
            it.seq() == d,
            n == it.index(),
            d == unsigned_digits(s@),
            0 <= n <= d.len(),
            forall|i: int| 0 <= i < n ==> is_digit(#[trigger] d[i]),
            total == value(d.take(n)),
            total <= u32::MAX,
    {
        proof {
            assert(d.take(n + 1).drop_last() =~= d.take(n));
            assert(d[n] == c);
        }
        if c < '0' || c > '9' {
            return None;
        }
        total = total * 10 + (c as u64 - 48);
        if total > u32::MAX as u64 {
            proof {
                if reads_as_u32(s@) {
                    lemma_value_grows(d, n + 1);
                }
            }
            return None;
        }
        proof {
            n = n + 1;
        }
    }
    proof {
        assert(d.take(n) =~= d);
    }
    Some(total as u32)
}

fn digit_text(d: u32) -> (r: &'static str)
    requires
        d < 10,
    ensures
        r@ == seq![digit(d as int)],
{
    proof {
        reveal_strlit("0");
        reveal_strlit("1");
        reveal_strlit("2");
        reveal_strlit("3");
        reveal_strlit("4");
        reveal_strlit("5");
        reveal_strlit("6");
        reveal_strlit("7");
        reveal_strlit("8");
        reveal_strlit("9");
    }
    let r: &'static str = match d {
        0 => "0",
        1 => "1",
        2 => "2",
        3 => "3",
        4 => "4",
        5 => "5",
        6 => "6",
        7 => "7",
        8 => "8",
        _ => "9",
    };
    assert(r@ =~= seq![digit(d as int)]);
    r
}

/// `n` in decimal.
pub fn u32_text(n: u32) -> (r: String)
    ensures
        r@ == decimal(n as nat),
    decreases n,
{
    if n < 10 {
        digit_text(n).to_owned()
    } else {
        let mut r: String = u32_text(n / 10);
        let last: &str = digit_text(n % 10);
        r.append(last);
        proof {
            assert(r@ =~= decimal(n as nat));
        }
        r
    }
}

/// `n` in decimal, with its sign when it is negative.
pub fn i32_text(n: i32) -> (r: String)
    ensures
        r@ == signed_decimal(n as int),
{
    if n < 0 {
        let magnitude: i64 = -(n as i64);
        let mut r: String = "-".to_owned();
        r.append(u32_text(magnitude as u32).as_str());
        r
    } else {
        u32_text(n as u32)
    }
}

/// An exit code as the error messages show it.
pub fn exit_code_text(code: Option<i32>) -> (r: String)
    ensures
        r@ == exit_code(code),
{
    match code {
        Some(n) => {
            let mut r: String = "Some(".to_owned();
            r.append(i32_text(n).as_str());
            r.append(")");
            r
        },
        None => "None".to_owned(),
    }
}

} // verus!
