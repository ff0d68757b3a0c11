//! Numbers written out in decimal.
use vstd::prelude::*;
use vstd::string::*;

verus! {

/// The decimal digit for `d`, from 0 to 9.
pub open spec fn digit_char(d: int) -> char {
    if d == 0 {
        '0'
    } else if d == 1 {
        '1'
    } else if d == 2 {
        '2'
    } else if d == 3 {
        '3'
    } else if d == 4 {
        '4'
    } else if d == 5 {
        '5'
    } else if d == 6 {
        '6'
    } else if d == 7 {
        '7'
    } else if d == 8 {
        '8'
    } else {
        '9'
    }
}

/// `n` in decimal, without leading zeros ("0" for zero).
pub open spec fn decimal(n: nat) -> Seq<char>
    decreases n,
{
    if n < 10 {
        seq![digit_char(n as int)]
    } else {
        decimal(n / 10).push(digit_char((n % 10) as int))
    }
}

/// `n` in decimal, at least two digits wide, padded with a zero.
pub open spec fn two_digits(n: nat) -> Seq<char> {
    if n < 10 {
        seq!['0', digit_char(n as int)]
    } else {
        decimal(n)
    }
}

/// The text of digit `d`.
fn digit_text(d: u128) -> (text: &'static str)
    requires
        d < 10,
    ensures
        text@ == seq![digit_char(d as int)],
{
    proof {
        reveal_strlit("0");
        reveal_strlit("1");
        reveal_strlit("2");
        reveal_strlit("3");
        reveal_strlit("4");
        reveal_strlit("5");
        reveal_strlit("6");
        reveal_strlit("7");
        reveal_strlit("8");
        reveal_strlit("9");
    }
    if d == 0 {
        "0"
    } else if d == 1 {
        "1"
    } else if d == 2 {
        "2"
    } else if d == 3 {
        "3"
    } else if d == 4 {
        "4"
    } else if d == 5 {
        "5"
    } else if d == 6 {
        "6"
    } else if d == 7 {
        "7"
    } else if d == 8 {
        "8"
    } else {
        "9"
    }
}

/// Writes `n` in decimal at the end of `s`.
pub fn push_decimal(s: &mut String, n: u128)
    ensures
        final(s)@ == old(s)@ + decimal(n as nat),
    decreases n,
{
    if n >= 10 {
        push_decimal(s, n / 10);
    }
    s.append(digit_text(n % 10));
    proof {
        if n >= 10 {
            assert(decimal(n as nat) == decimal((n / 10) as nat).push(digit_char((n % 10) as int)));
        }
    }
}

/// Writes `n` in decimal, at least two digits wide, at the end of `s`.
pub fn push_two_digits(s: &mut String, n: u128)
    ensures
        final(s)@ == old(s)@ + two_digits(n as nat),
{
    if n < 10 {
        s.append(digit_text(0));
        s.append(digit_text(n));
    } else {
        push_decimal(s, n);
    }
}

/// `c` is a decimal digit.
pub open spec fn is_digit(c: char) -> bool {
    '0' <= c <= '9'
}

/// The value of the decimal digits `s`.
pub open spec fn digits_value(s: Seq<char>) -> int
    decreases s.len(),
{
    if s.len() == 0 {
        0
    } else {
        digits_value(s.drop_last()) * 10 + (s.last() as int - '0' as int)
    }
}

/// Every character of `s` is a decimal digit.
pub open spec fn all_digits(s: Seq<char>) -> bool {
    forall|i: int| 0 <= i < s.len() ==> is_digit(#[trigger] s[i])
}

/// The length of the sign in front of `s`: one for `+` or `-`, else none.
pub open spec fn sign_len(s: Seq<char>) -> int {
    if s.len() > 0 && (s[0] == '-' || s[0] == '+') {
        1
    } else {
        0
    }
}

/// `s` without its sign.
pub open spec fn unsigned_part(s: Seq<char>) -> Seq<char> {
    s.subrange(sign_len(s), s.len() as int)
}

/// The value `s` is written as, sign included, if its digits are well formed.
pub open spec fn signed_value(s: Seq<char>) -> int {
    if s.len() > 0 && s[0] == '-' {
        -digits_value(unsigned_part(s))
    } else {
        digits_value(unsigned_part(s))
    }
}

/// The `i32` that `s` is written as, the way Rust reads one: an optional `+`
/// or `-`, then at least one decimal digit and nothing else, the value fitting
/// in an `i32`; `None` otherwise.
pub open spec fn parsed_i32(s: Seq<char>) -> Option<i32> {
    if unsigned_part(s).len() > 0 && all_digits(unsigned_part(s)) && i32::MIN <= signed_value(s) <= i32::MAX {
        Some(signed_value(s) as i32)
    } else {
        None
    }
}

/// A value past which an `i32` cannot lie.
const CAP: i64 = 4_294_967_296;

/// One more digit: the value of the first `k + 1` digits of `s`.
proof fn lemma_digits_step(s: Seq<char>, k: int)
    requires
        0 <= k < s.len(),
    ensures
        digits_value(s.take(k + 1)) == digits_value(s.take(k)) * 10 + (s[k] as int - '0' as int),
{
    assert(s.take(k + 1).drop_last() =~= s.take(k));
}

/// Digits only add to the value.
proof fn lemma_digits_nonneg(s: Seq<char>)
    requires
        all_digits(s),
    ensures
        digits_value(s) >= 0,
    decreases s.len(),
{
    if s.len() > 0 {
        assert(all_digits(s.drop_last())) by {
            assert forall|i: int| 0 <= i < s.drop_last().len() implies is_digit(#[trigger] s.drop_last()[i]) by {
                assert(s.drop_last()[i] == s[i]);
            }
        }
        lemma_digits_nonneg(s.drop_last());
        assert(is_digit(s[s.len() - 1]));
    }
}

/// Reads `text` as an `i32`, the way Rust's `str::parse::<i32>` does.
pub fn parse_i32(text: &str) -> (value: Option<i32>)
    ensures
        value == parsed_i32(text@),
{
    let n = text.unicode_len();
    let mut start: usize = 0;
    let mut neg = false;
    if n > 0 {
        let c = text.get_char(0);
        if c == '-' {
            neg = true;
            start = 1;
        } else if c == '+' {
            start = 1;
        }
    }
    let ghost body = unsigned_part(text@);
    assert(start == sign_len(text@));
    if start == n {
        return None;
    }
    let mut acc: i64 = 0;
    let mut i: usize = start;
    while i < n
        invariant
            start <= i <= n,
            n == text@.len(),
            start == sign_len(text@),
            body == unsigned_part(text@),
            all_digits(body.take(i - start)),
            digits_value(body.take(i - start)) >= 0,
            acc == if digits_value(body.take(i - start)) < CAP {
                digits_value(body.take(i - start))
            } else {
                CAP as int
            },
        decreases n - i,
    {
        let c = text.get_char(i);
        assert(c == body[i - start]);
        if !('0' <= c && c <= '9') {
            assert(!is_digit(body[i - start]));
            assert(!all_digits(body));
            return None;
        }
        let d = (c as u32 - '0' as u32) as i64;
        proof {
            lemma_digits_step(body, i - start);
            assert(all_digits(body.take(i - start + 1))) by {
                assert forall|k: int| 0 <= k < i - start + 1 implies is_digit(#[trigger] body.take(i - start + 1)[k]) by {
                    if k < i - start {
                        assert(body.take(i - start + 1)[k] == body.take(i - start)[k]);
                    }
                }
            }
        }
        let next = acc * 10 + d;
        acc = if next < CAP {
            next
        } else {
            CAP
        };
        i = i + 1;
    }
    assert(body.take(n - start) =~= body);
    let value: i64 = if neg {
        -acc
    } else {
        acc
    };
    if i32::MIN as i64 <= value && value <= i32::MAX as i64 {
        Some(value as i32)
    } else {
        None
    }
}

} // verus!
