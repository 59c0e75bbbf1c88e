//! Calendar periods. An activity period arrives as text in `YYYYMM`
//! form: four year digits followed by the month digits. A period is
//! malformed when it is shorter than five characters, when either
//! segment holds a non-digit, or when the month value is not a calendar
//! month (1 through 12). Canonical `YYYY-MM` keys are produced for the
//! monthly aggregate and the forecast table.

use vstd::prelude::*;
use vstd::string::*;
use crate::error::AnalysisError;

verus! {

/// Whether a character is a decimal digit.
pub open spec fn is_digit(c: char) -> bool {
    48 <= c as u32 <= 57
}

/// The value of one decimal digit character.
pub open spec fn digit_val(c: char) -> int {
    c as u32 - 48
}

/// Whether every character of the sequence is a decimal digit.
pub open spec fn all_digits(s: Seq<char>) -> bool {
    forall|i: int| 0 <= i < s.len() ==> is_digit(#[trigger] s[i])
}

/// The numeric value of a sequence of decimal digit characters.
pub open spec fn digits_val(s: Seq<char>) -> int
    decreases s.len(),
{
    if s.len() == 0 {
        0
    } else {
        digits_val(s.drop_last()) * 10 + digit_val(s.last())
    }
}

/// Whether a period field is well-formed: at least five characters,
/// both segments all digits, and a month value of 1 through 12.
pub open spec fn period_ok(p: Seq<char>) -> bool {
    &&& p.len() >= 5
    &&& all_digits(p.take(4))
    &&& all_digits(p.skip(4))
    &&& 1 <= digits_val(p.skip(4)) <= 12
}

/// The year segment's value: the first four digits.
pub open spec fn period_year(p: Seq<char>) -> int {
    digits_val(p.take(4))
}

/// The month segment's value: the remaining digits.
pub open spec fn period_month(p: Seq<char>) -> int {
    digits_val(p.skip(4))
}

/// Powers of ten.
pub open spec fn pow10(k: int) -> int
    decreases k,
{
    if k <= 0 {
        1
    } else {
        10 * pow10(k - 1)
    }
}

/// Parses a period field: the year value and the month value, or
/// `MalformedPeriod` exactly when the field is not well-formed. The year
/// is four digits, so at most 9999.
pub fn parse_period(p: &str) -> (r: Result<(u32, u32), AnalysisError>)
    ensures
        r is Ok <==> period_ok(p@),
        r matches Ok(ym) ==> ym.0 == period_year(p@) && ym.1 == period_month(p@) && ym.0 <= 9999
            && 1 <= ym.1 <= 12,
        r is Err ==> r == Err::<(u32, u32), AnalysisError>(AnalysisError::MalformedPeriod),
{
    let n = p.unicode_len();
    if n < 5 {
        return Err(AnalysisError::MalformedPeriod);
    }
    let mut year: u32 = 0;
    let mut i: usize = 0;
    while i < 4
        invariant
            n == p@.len(),
            n >= 5,
            0 <= i <= 4,
            all_digits(p@.take(4).take(i as int)),
            year == digits_val(p@.take(4).take(i as int)),
            year < pow10(i as int),
        decreases 4 - i,
    {
        let c = p.get_char(i);
        let cv = c as u32;
        if cv < 48 || cv > 57 {
            proof {
                assert(p@.take(4)[i as int] == p@[i as int]);
                assert(!all_digits(p@.take(4)));
            }
            return Err(AnalysisError::MalformedPeriod);
        }
        proof {
            crate::graph::lemma_take_succ(p@.take(4), i as int);
            assert(p@.take(4).take(i as int + 1).drop_last() =~= p@.take(4).take(i as int));
            assert(p@.take(4)[i as int] == p@[i as int]);
            assert forall|j: int| 0 <= j < i + 1 implies is_digit(#[trigger] p@.take(4).take(i as int + 1)[j]) by {
                if j < i {
                    assert(p@.take(4).take(i as int + 1)[j] == p@.take(4).take(i as int)[j]);
                }
            }
        }
        proof {
            assert(pow10(0) == 1);
            assert(pow10(1) == 10);
            assert(pow10(2) == 100);
            assert(pow10(3) == 1000);
        }
        year = year * 10 + (cv - 48);
        i = i + 1;
    }
    proof {
        assert(p@.take(4).take(4) =~= p@.take(4));
        assert(pow10(0) == 1);
        assert(pow10(1) == 10);
        assert(pow10(2) == 100);
        assert(pow10(3) == 1000);
        assert(pow10(4) == 10000);
    }
    let ghost ms = p@.skip(4);
    let mut m: u32 = 0;
    let mut k: usize = 4;
    while k < n
        invariant
            n == p@.len(),
            n >= 5,
            ms == p@.skip(4),
            4 <= k <= n,
            all_digits(ms.take(k as int - 4)),
            digits_val(ms.take(k as int - 4)) >= 0,
            m == if digits_val(ms.take(k as int - 4)) >= 13 {
                13int
            } else {
                digits_val(ms.take(k as int - 4))
            },
        decreases n - k,
    {
        let c = p.get_char(k);
        let cv = c as u32;
        if cv < 48 || cv > 57 {
            proof {
                assert(ms[k as int - 4] == p@[k as int]);
                assert(!all_digits(ms));
            }
            return Err(AnalysisError::MalformedPeriod);
        }
        proof {
            crate::graph::lemma_take_succ(ms, k as int - 4);
            assert(ms.take(k as int - 3).drop_last() =~= ms.take(k as int - 4));
            assert(ms[k as int - 4] == p@[k as int]);
            assert forall|j: int| 0 <= j < k - 3 implies is_digit(#[trigger] ms.take(k as int - 3)[j]) by {
                if j < k - 4 {
                    assert(ms.take(k as int - 3)[j] == ms.take(k as int - 4)[j]);
                }
            }
        }
        m = m * 10 + (cv - 48);
        if m > 12 {
            m = 13;
        }
        k = k + 1;
    }
    proof {
        assert(ms.take(n as int - 4) =~= ms);
    }
    if m == 0 || m == 13 {
        return Err(AnalysisError::MalformedPeriod);
    }
    Ok((year, m))
}

/// The character of one decimal digit.
pub open spec fn digit_char(d: int) -> char {
    if d == 0 {
        '0'
    } else if d == 1 {
        '1'
    } else if d == 2 {
        '2'
    } else if d == 3 {
        '3'
    } else if d == 4 {
        '4'
    } else if d == 5 {
        '5'
    } else if d == 6 {
        '6'
    } else if d == 7 {
        '7'
    } else if d == 8 {
        '8'
    } else {
        '9'
    }
}

/// The decimal digits of `n`, zero-padded on the left to at least
/// `width` characters.
pub open spec fn dec_seq(n: nat, width: nat) -> Seq<char>
    decreases n, width,
{
    if n < 10 && width <= 1 {
        seq![digit_char(n as int)]
    } else {
        dec_seq(
            n / 10,
            if width == 0 {
                0nat
            } else {
                (width - 1) as nat
            },
        ).push(digit_char((n % 10) as int))
    }
}

/// The canonical `YYYY-MM` key of a calendar month: four year digits,
/// a hyphen, two month digits (each segment wider only if its value
/// needs more digits).
pub open spec fn month_key(y: nat, m: nat) -> Seq<char> {
    dec_seq(y, 4) + seq!['-'] + dec_seq(m, 2)
}

/// Appends one decimal digit character.
fn push_digit(s: &mut String, d: u32)
    requires
        d < 10,
    ensures
        final(s)@ == old(s)@.push(digit_char(d as int)),
{
    let c: &str = if d == 0 {
        "0"
    } else if d == 1 {
        "1"
    } else if d == 2 {
        "2"
    } else if d == 3 {
        "3"
    } else if d == 4 {
        "4"
    } else if d == 5 {
        "5"
    } else if d == 6 {
        "6"
    } else if d == 7 {
        "7"
    } else if d == 8 {
        "8"
    } else {
        "9"
    };
    proof {
        reveal_strlit("0");
        reveal_strlit("1");
        reveal_strlit("2");
        reveal_strlit("3");
        reveal_strlit("4");
        reveal_strlit("5");
        reveal_strlit("6");
        reveal_strlit("7");
        reveal_strlit("8");
        reveal_strlit("9");
        assert(c@ =~= seq![digit_char(d as int)]);
    }
    s.append(c);
    proof {
        assert(s@ =~= old(s)@.push(digit_char(d as int)));
    }
}

/// Appends the decimal digits of `n`, zero-padded to at least `width`
/// characters.
fn push_decimal(s: &mut String, n: u32, width: u32)
    ensures
        final(s)@ == old(s)@ + dec_seq(n as nat, width as nat),
    decreases n, width,
{
    if n < 10 && width <= 1 {
        push_digit(s, n);
        proof {
            assert(s@ =~= old(s)@ + dec_seq(n as nat, width as nat));
        }
    } else {
        let w2 = if width == 0 {
            0
        } else {
            width - 1
        };
        push_decimal(s, n / 10, w2);
        push_digit(s, n % 10);
        proof {
            assert(s@ =~= old(s)@ + dec_seq(n as nat, width as nat));
        }
    }
}

/// The canonical `YYYY-MM` key of the calendar month (y, m).
pub fn format_month_key(y: u32, m: u32) -> (s: String)
    ensures
        s@ == month_key(y as nat, m as nat),
{
    let mut s = String::new();
    push_decimal(&mut s, y, 4);
    proof {
        reveal_strlit("-");
    }
    s.append("-");
    push_decimal(&mut s, m, 2);
    proof {
        assert("-"@ =~= seq!['-']);
        assert(s@ =~= month_key(y as nat, m as nat));
    }
    s
}

} // verus!
