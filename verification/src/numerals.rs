//! Numbers as text, in the bases from two to sixteen.

use vstd::prelude::*;
use vstd::string::StringExecFns;

verus! {

/// The character of a digit: `0` to `9`, then `a` to `f`.
pub open spec fn digit_char(d: nat) -> char {
    if d == 0 {
        '0'
    } else if d == 1 {
        '1'
    } else if d == 2 {
        '2'
    } else if d == 3 {
        '3'
    } else if d == 4 {
        '4'
    } else if d == 5 {
        '5'
    } else if d == 6 {
        '6'
    } else if d == 7 {
        '7'
    } else if d == 8 {
        '8'
    } else if d == 9 {
        '9'
    } else if d == 10 {
        'a'
    } else if d == 11 {
        'b'
    } else if d == 12 {
        'c'
    } else if d == 13 {
        'd'
    } else if d == 14 {
        'e'
    } else {
        'f'
    }
}

/// A number that is no digit of the base is larger than its quotient by the
/// base, and is that quotient times the base and the remainder.
pub proof fn lemma_quotient_smaller(n: nat, base: nat)
    requires
        2 <= base <= n,
    ensures
        n / base < n,
        n == base * (n / base) + n % base,
        n % base < base,
{
    assert(n / base < n && n == base * (n / base) + n % base && n % base < base)
        by (nonlinear_arith)
        requires
            2 <= base <= n,
    ;
}

/// The number in digits of the base, without leading zeros.
pub open spec fn numeral(n: nat, base: nat) -> Seq<char>
    decreases n,
{
    if n < base || base < 2 {
        seq![digit_char(n)]
    } else {
        proof {
            lemma_quotient_smaller(n, base);
        }
        numeral(n / base, base).push(digit_char(n % base))
    }
}

/// The number in decimal digits.
pub open spec fn decimal(n: nat) -> Seq<char> {
    numeral(n, 10)
}

/// The number in hexadecimal digits, in lower case.
pub open spec fn hexadecimal(n: nat) -> Seq<char> {
    numeral(n, 16)
}

/// Every number has a digit, and a number that is no digit has two.
pub proof fn lemma_numeral_len(n: nat, base: nat)
    requires
        2 <= base <= 16,
    ensures
        numeral(n, base).len() >= 1,
        n >= base ==> numeral(n, base).len() >= 2,
    decreases n,
{
    if n >= base {
        lemma_quotient_smaller(n, base);
        lemma_numeral_len(n / base, base);
    }
}

/// Different numbers have different digits.
pub proof fn lemma_numeral_injective(a: nat, b: nat, base: nat)
    requires
        2 <= base <= 16,
        numeral(a, base) == numeral(b, base),
    ensures
        a == b,
    decreases a,
{
    lemma_numeral_len(a, base);
    lemma_numeral_len(b, base);
    if a >= base && b >= base {
        lemma_quotient_smaller(a, base);
        lemma_quotient_smaller(b, base);
        assert(numeral(a, base).last() == digit_char(a % base));
        assert(numeral(b, base).last() == digit_char(b % base));
        assert(numeral(a, base).drop_last() =~= numeral(a / base, base));
        assert(numeral(b, base).drop_last() =~= numeral(b / base, base));
        lemma_numeral_injective(a / base, b / base, base);
        assert(a % base == b % base);
    } else if a < base && b < base {
        assert(numeral(a, base)[0] == digit_char(a));
        assert(numeral(b, base)[0] == digit_char(b));
    }
}

/// The text of one digit.
fn digit_str(d: u64) -> (r: &'static str)
    requires
        d < 16,
    ensures
        r@ == seq![digit_char(d as nat)],
{
    proof {
        reveal_strlit("0");
        reveal_strlit("1");
        reveal_strlit("2");
        reveal_strlit("3");
        reveal_strlit("4");
        reveal_strlit("5");
        reveal_strlit("6");
        reveal_strlit("7");
        reveal_strlit("8");
        reveal_strlit("9");
        reveal_strlit("a");
        reveal_strlit("b");
        reveal_strlit("c");
        reveal_strlit("d");
        reveal_strlit("e");
        reveal_strlit("f");
    }
    let r = if d == 0 {
        "0"
    } else if d == 1 {
        "1"
    } else if d == 2 {
        "2"
    } else if d == 3 {
        "3"
    } else if d == 4 {
        "4"
    } else if d == 5 {
        "5"
    } else if d == 6 {
        "6"
    } else if d == 7 {
        "7"
    } else if d == 8 {
        "8"
    } else if d == 9 {
        "9"
    } else if d == 10 {
        "a"
    } else if d == 11 {
        "b"
    } else if d == 12 {
        "c"
    } else if d == 13 {
        "d"
    } else if d == 14 {
        "e"
    } else {
        "f"
    };
    assert(r@ =~= seq![digit_char(d as nat)]);
    r
}

/// Writes the number behind the text, in digits of the base.
pub fn push_numeral(out: &mut String, n: u64, base: u64)
    requires
        2 <= base <= 16,
    ensures
        final(out)@ == old(out)@ + numeral(n as nat, base as nat),
    decreases n,
{
    if n >= base {
        proof {
            lemma_quotient_smaller(n as nat, base as nat);
        }
        push_numeral(out, n / base, base);
    }
    out.append(digit_str(n % base));
    proof {
        if n >= base {
            assert(old(out)@ + numeral((n / base) as nat, base as nat) + seq![
                digit_char((n % base) as nat),
            ] =~= old(out)@ + numeral(n as nat, base as nat));
        } else {
            assert(n % base == n) by (nonlinear_arith)
                requires
                    0 <= n < base,
            ;
        }
    }
}

} // verus!
