//! Building the texts that plans and errors are shown as.

use vstd::prelude::*;
use vstd::string::*;

verus! {

/// The character of a decimal digit.
pub open spec fn digit(d: nat) -> char {
    (48 + d) as char
}

/// The decimal digits of a number, with no leading zero.
pub open spec fn digits(n: nat) -> Seq<char>
    decreases n,
{
    if n < 10 {
        seq![digit(n)]
    } else {
        digits(n / 10).push(digit(n % 10))
    }
}

fn digit_str(d: usize) -> (s: &'static str)
    requires
        d < 10,
    ensures
        s@ == seq![digit(d as nat)],
{
    proof {
        reveal_strlit("0");
        reveal_strlit("1");
        reveal_strlit("2");
        reveal_strlit("3");
        reveal_strlit("4");
        reveal_strlit("5");
        reveal_strlit("6");
        reveal_strlit("7");
        reveal_strlit("8");
        reveal_strlit("9");
    }
    match d {
        0 => "0",
        1 => "1",
        2 => "2",
        3 => "3",
        4 => "4",
        5 => "5",
        6 => "6",
        7 => "7",
        8 => "8",
        _ => "9",
    }
}

/// Returns the decimal digits of a number.
pub fn decimal(n: usize) -> (s: String)
    ensures
        s@ == digits(n as nat),
    decreases n,
{
    if n < 10 {
        digit_str(n).to_owned()
    } else {
        let mut s = decimal(n / 10);
        s.append(digit_str(n % 10));
        assert(s@ =~= digits(n as nat));
        s
    }
}

/// Returns `before`, the decimal digits of `n`, and `after`, one after the other.
pub fn around(before: &str, n: usize, after: &str) -> (s: String)
    ensures
        s@ == before@ + digits(n as nat) + after@,
{
    let mut s = before.to_owned();
    s.append(decimal(n).as_str());
    s.append(after);
    s
}

/// Returns two texts one after the other.
pub fn joined(first: &str, second: &str) -> (s: String)
    ensures
        s@ == first@ + second@,
{
    let mut s = first.to_owned();
    s.append(second);
    s
}

/// The number that some decimal digits stand for.
pub open spec fn number(s: Seq<char>) -> nat
    decreases s.len(),
{
    if s.len() == 0 {
        0
    } else {
        (10 * number(s.drop_last()) + (s.last() as nat - '0' as nat)) as nat
    }
}

/// The digits of a number are decimal, stand for it, and start with no 0 but for the number 0.
pub proof fn lemma_digits(n: nat)
    ensures
        number(digits(n)) == n,
        digits(n).len() > 0,
        forall|i: int| 0 <= i < digits(n).len() ==> '0' <= #[trigger] digits(n)[i] <= '9',
        digits(n)[0] == '0' ==> digits(n).len() == 1,
    decreases n,
{
    let s = digits(n);
    if n < 10 {
        assert(s.drop_last() =~= seq![]);
        assert(number(seq![]) == 0);
    } else {
        lemma_digits(n / 10);
        assert(s.drop_last() =~= digits(n / 10));
        assert(forall|i: int| 0 <= i < s.len() - 1 ==> #[trigger] s[i] == digits(n / 10)[i]);
        if n / 10 < 10 {
            assert(digits(n / 10)[0] != '0');
        } else {
            assert(digits(n / 10).len() > 1) by {
                assert(digits(n / 10 / 10).len() > 0) by {
                    lemma_digits(n / 10 / 10);
                }
            }
        }
    }
}

} // verus!
