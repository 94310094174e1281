use vstd::prelude::*;
use vstd::arithmetic::div_mod::lemma_fundamental_div_mod;

verus! {

/// True when `c` is a decimal digit.
pub open spec fn is_digit(c: char) -> bool {
    '0' as u32 <= c as u32 <= '9' as u32
}

/// The value of a decimal digit.
pub open spec fn digit_val(c: char) -> nat {
    (c as u32 - '0' as u32) as nat
}

/// True when every character of `s` is a decimal digit.
pub open spec fn all_digits(s: Seq<char>) -> bool {
    forall|i: int| 0 <= i < s.len() ==> is_digit(#[trigger] s[i])
}

/// The value of `s` read as a decimal numeral.
pub open spec fn digits_val(s: Seq<char>) -> nat
    decreases s.len(),
{
    if s.len() == 0 {
        0
    } else {
        digits_val(s.drop_last()) * 10 + digit_val(s.last())
    }
}

/// The value of a numeral is at least the value of any of its prefixes.
pub proof fn lemma_digits_val_prefix_le(s: Seq<char>, m: int)
    requires
        0 <= m <= s.len(),
    ensures
        digits_val(s.take(m)) <= digits_val(s),
    decreases s.len() - m,
{
    if m < s.len() {
        lemma_digits_val_prefix_le(s, m + 1);
        assert(s.take(m + 1).drop_last() =~= s.take(m));
        assert(digits_val(s.take(m)) * 10 >= digits_val(s.take(m))) by (nonlinear_arith);
    } else {
        assert(s.take(m) =~= s);
    }
}

/// The character of one decimal digit.
pub open spec fn digit_char(d: nat) -> char {
    if d == 0 {
        '0'
    } else if d == 1 {
        '1'
    } else if d == 2 {
        '2'
    } else if d == 3 {
        '3'
    } else if d == 4 {
        '4'
    } else if d == 5 {
        '5'
    } else if d == 6 {
        '6'
    } else if d == 7 {
        '7'
    } else if d == 8 {
        '8'
    } else {
        '9'
    }
}

/// The decimal numeral of `n`, most significant digit first, with no
/// leading zero except for `n == 0` itself.
pub open spec fn decimal_of(n: nat) -> Seq<char>
    decreases n,
{
    if n < 10 {
        seq![digit_char(n)]
    } else {
        decimal_of(n / 10).push(digit_char(n % 10))
    }
}

/// A numeral written by `decimal_of` is all digits and reads back as the
/// number it was written from.
pub proof fn lemma_decimal_of_val(n: nat)
    ensures
        decimal_of(n).len() >= 1,
        all_digits(decimal_of(n)),
        digits_val(decimal_of(n)) == n,
    decreases n,
{
    if n < 10 {
        assert(decimal_of(n) == seq![digit_char(n)]);
        assert(seq![digit_char(n)].drop_last() =~= Seq::<char>::empty());
        assert(digits_val(Seq::<char>::empty()) == 0);
        assert(seq![digit_char(n)].last() == digit_char(n));
        assert(digits_val(decimal_of(n)) == digit_val(digit_char(n)));
    } else {
        lemma_decimal_of_val(n / 10);
        let d = decimal_of(n / 10);
        let c = digit_char(n % 10);
        assert(d.push(c).drop_last() =~= d);
        assert(d.push(c).last() == c);
        assert(digits_val(decimal_of(n)) == digits_val(d) * 10 + digit_val(c));
        assert(digit_val(c) == n % 10);
        lemma_fundamental_div_mod(n as int, 10);
        assert(all_digits(d.push(c))) by {
            assert forall|i: int| 0 <= i < d.push(c).len() implies is_digit(
                #[trigger] d.push(c)[i],
            ) by {
                if i < d.len() {
                    assert(d.push(c)[i] == d[i]);
                }
            }
        }
    }
}

/// The one-character string of a decimal digit.
fn digit_str(d: usize) -> (s: &'static str)
    requires
        d < 10,
    ensures
        s@ == seq![digit_char(d as nat)],
{
    let s: &'static str = if d == 0 {
        "0"
    } else if d == 1 {
        "1"
    } else if d == 2 {
        "2"
    } else if d == 3 {
        "3"
    } else if d == 4 {
        "4"
    } else if d == 5 {
        "5"
    } else if d == 6 {
        "6"
    } else if d == 7 {
        "7"
    } else if d == 8 {
        "8"
    } else {
        "9"
    };
    proof {
        reveal_strlit("0");
        reveal_strlit("1");
        reveal_strlit("2");
        reveal_strlit("3");
        reveal_strlit("4");
        reveal_strlit("5");
        reveal_strlit("6");
        reveal_strlit("7");
        reveal_strlit("8");
        reveal_strlit("9");
        assert(s@ =~= seq![digit_char(d as nat)]);
    }
    s
}

/// Writes `n` as a decimal numeral.
pub fn decimal_string(n: usize) -> (s: String)
    ensures
        s@ == decimal_of(n as nat),
    decreases n,
{
    if n < 10 {
        String::from_str(digit_str(n))
    } else {
        let mut s = decimal_string(n / 10);
        s.append(digit_str(n % 10));
        proof {
            assert(s@ =~= decimal_of(n as nat));
        }
        s
    }
}

} // verus!
