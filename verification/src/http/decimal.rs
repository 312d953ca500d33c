//! Decimal numerals: how a number is written and how a numeral is read.

use vstd::prelude::*;
use vstd::string::{StrSliceExecFns, StringExecFns};

verus! {

/// The character of a decimal digit.
pub open spec fn digit(d: nat) -> char {
    if d == 0 {
        '0'
    } else if d == 1 {
        '1'
    } else if d == 2 {
        '2'
    } else if d == 3 {
        '3'
    } else if d == 4 {
        '4'
    } else if d == 5 {
        '5'
    } else if d == 6 {
        '6'
    } else if d == 7 {
        '7'
    } else if d == 8 {
        '8'
    } else {
        '9'
    }
}

/// The decimal numeral of `n`, without leading zeros.
pub open spec fn decimal(n: nat) -> Seq<char>
    decreases n,
{
    if n < 10 {
        seq![digit(n)]
    } else {
        decimal(n / 10).push(digit(n % 10))
    }
}

/// The text of one decimal digit.
fn digit_str(d: u64) -> (s: &'static str)
    requires
        d < 10,
    ensures
        s@ == seq![digit(d as nat)],
{
    proof {
        reveal_strlit("0");
        reveal_strlit("1");
        reveal_strlit("2");
        reveal_strlit("3");
        reveal_strlit("4");
        reveal_strlit("5");
        reveal_strlit("6");
        reveal_strlit("7");
        reveal_strlit("8");
        reveal_strlit("9");
    }
    let s = if d == 0 {
        "0"
    } else if d == 1 {
        "1"
    } else if d == 2 {
        "2"
    } else if d == 3 {
        "3"
    } else if d == 4 {
        "4"
    } else if d == 5 {
        "5"
    } else if d == 6 {
        "6"
    } else if d == 7 {
        "7"
    } else if d == 8 {
        "8"
    } else {
        "9"
    };
    assert(s@ =~= seq![digit(d as nat)]);
    s
}

/// Writes `n` as a decimal numeral.
pub fn to_decimal(n: u64) -> (s: String)
    ensures
        s@ == decimal(n as nat),
{
    let mut s = String::from_str(digit_str(n % 10));
    let mut rest = n / 10;
    let ghost mut low: Seq<char> = seq![digit((n % 10) as nat)];
    proof {
        assert(n < 10 ==> decimal(n as nat) =~= low);
    }
    while rest > 0
        invariant
            s@ == low,
            low.len() > 0,
            rest > 0 ==> decimal(n as nat) == decimal(rest as nat) + low,
            rest == 0 ==> decimal(n as nat) == low,
        decreases rest,
    {
        let d = rest % 10;
        let ghost r = rest;
        s = String::from_str(digit_str(d)).concat(s.as_str());
        rest = rest / 10;
        proof {
            let next = seq![digit(d as nat)] + low;
            if r >= 10 {
                assert(decimal(r as nat) == decimal(rest as nat).push(digit(d as nat)));
                assert(decimal(rest as nat).push(digit(d as nat)) + low =~= decimal(rest as nat) + next);
            } else {
                assert(decimal(r as nat) =~= seq![digit(d as nat)]);
            }
            low = next;
        }
    }
    s
}

/// Whether `c` is a decimal digit.
pub open spec fn is_digit(c: char) -> bool {
    c == '0' || c == '1' || c == '2' || c == '3' || c == '4' || c == '5' || c == '6' || c == '7'
        || c == '8' || c == '9'
}

/// The number that the digit `c` stands for.
pub open spec fn digit_value(c: char) -> nat {
    if c == '0' {
        0
    } else if c == '1' {
        1
    } else if c == '2' {
        2
    } else if c == '3' {
        3
    } else if c == '4' {
        4
    } else if c == '5' {
        5
    } else if c == '6' {
        6
    } else if c == '7' {
        7
    } else if c == '8' {
        8
    } else {
        9
    }
}

/// The number that the digits of `s` stand for, read as a decimal numeral.
pub open spec fn number_of(s: Seq<char>) -> nat
    decreases s.len(),
{
    if s.len() == 0 {
        0
    } else {
        number_of(s.drop_last()) * 10 + digit_value(s.last())
    }
}

/// Whether `s` is a decimal numeral as `decimal` writes it: digits only, at
/// least one, and no zero in front of another digit.
pub open spec fn canonical(s: Seq<char>) -> bool {
    &&& s.len() > 0
    &&& forall|i: int| 0 <= i < s.len() ==> is_digit(#[trigger] s[i])
    &&& s.len() == 1 || s[0] != '0'
}

/// The number below `2^64` of which `s` is the decimal numeral, if there
/// is one.
pub open spec fn numeral_value(s: Seq<char>) -> Option<u64> {
    if canonical(s) && number_of(s) <= u64::MAX {
        Some(number_of(s) as u64)
    } else {
        None
    }
}

/// A numeral that starts with a digit other than zero stands for a number
/// other than zero.
proof fn lemma_number_positive(s: Seq<char>)
    requires
        s.len() > 0,
        is_digit(s[0]),
        s[0] != '0',
    ensures
        number_of(s) > 0,
    decreases s.len(),
{
    if s.len() > 1 {
        assert(s.drop_last()[0] == s[0]);
        lemma_number_positive(s.drop_last());
    }
}

/// What `decimal` writes is canonical and stands for the number written.
pub proof fn lemma_decimal_is_read_back(n: nat)
    ensures
        canonical(decimal(n)),
        number_of(decimal(n)) == n,
        n > 0 ==> decimal(n)[0] != '0',
    decreases n,
{
    let s = decimal(n);
    if n < 10 {
        assert(s.drop_last() =~= Seq::<char>::empty());
        assert(number_of(s.drop_last()) == 0);
    } else {
        lemma_decimal_is_read_back(n / 10);
        let t = decimal(n / 10);
        assert(s.drop_last() =~= t);
        assert(s.last() == digit(n % 10));
        assert forall|i: int| 0 <= i < s.len() implies is_digit(#[trigger] s[i]) by {
            if i < t.len() {
                assert(s[i] == t[i]);
            }
        }
        assert(s[0] == t[0]);
    }
}

/// A canonical numeral is what `decimal` writes for the number it stands
/// for.
pub proof fn lemma_canonical_is_written(s: Seq<char>)
    requires
        canonical(s),
    ensures
        decimal(number_of(s)) == s,
    decreases s.len(),
{
    let n = number_of(s);
    let t = s.drop_last();
    if s.len() == 1 {
        assert(t =~= Seq::<char>::empty());
        assert(number_of(t) == 0);
        assert(n == digit_value(s[0]));
        assert(decimal(n) =~= s);
    } else {
        assert(t[0] == s[0]);
        assert forall|i: int| 0 <= i < t.len() implies is_digit(#[trigger] t[i]) by {
            assert(t[i] == s[i]);
        }
        lemma_number_positive(t);
        lemma_canonical_is_written(t);
        let d = digit_value(s.last());
        assert(is_digit(s[s.len() - 1]));
        assert(d < 10);
        assert(n == number_of(t) * 10 + d);
        assert(n / 10 == number_of(t) && n % 10 == d);
        assert(digit(d) == s.last());
        assert(decimal(n) =~= s);
    }
}

/// Reading is the inverse of writing: a text is the numeral of a number
/// below `2^64` exactly when it reads as that number.
pub proof fn lemma_numeral_value(s: Seq<char>, n: u64)
    ensures
        numeral_value(s) == Some(n) <==> s == decimal(n as nat),
        numeral_value(decimal(n as nat)) == Some(n),
{
    lemma_decimal_is_read_back(n as nat);
    if numeral_value(s) == Some(n) {
        lemma_canonical_is_written(s);
    }
}

/// A numeral stands for no less than any of its beginnings.
proof fn lemma_number_grows(s: Seq<char>, i: int)
    requires
        0 <= i <= s.len(),
    ensures
        number_of(s.take(i)) <= number_of(s),
    decreases s.len() - i,
{
    if i < s.len() {
        lemma_number_grows(s, i + 1);
        assert(s.take(i + 1).drop_last() =~= s.take(i));
    } else {
        assert(s.take(i) =~= s);
    }
}

/// The number that a digit stands for, or `None` for another character.
fn digit_of(c: char) -> (r: Option<u64>)
    ensures
        r is Some <==> is_digit(c),
        r is Some ==> r.unwrap() == digit_value(c),
{
    if c == '0' {
        Some(0)
    } else if c == '1' {
        Some(1)
    } else if c == '2' {
        Some(2)
    } else if c == '3' {
        Some(3)
    } else if c == '4' {
        Some(4)
    } else if c == '5' {
        Some(5)
    } else if c == '6' {
        Some(6)
    } else if c == '7' {
        Some(7)
    } else if c == '8' {
        Some(8)
    } else if c == '9' {
        Some(9)
    } else {
        None
    }
}

/// Reads `s` as the decimal numeral of a number below `2^64`. Only what
/// `to_decimal` writes is read: no sign, no blank, no zero in front.
pub fn parse_decimal(s: &str) -> (r: Option<u64>)
    ensures
        r == numeral_value(s@),
{
    let len = s.unicode_len();
    if len == 0 {
        return None;
    }
    let mut acc: u64 = 0;
    let mut i: usize = 0;
    while i < len
        invariant
            len == s@.len(),
            0 <= i <= len,
            acc == number_of(s@.take(i as int)),
            forall|j: int| 0 <= j < i ==> is_digit(#[trigger] s@[j]),
            i > 1 ==> s@[0] != '0',
        decreases len - i,
    {
        let c = s.get_char(i);
        proof {
            assert(s@.take(i + 1).drop_last() =~= s@.take(i as int));
            assert(s@.take(i + 1).last() == s@[i as int]);
            lemma_number_grows(s@, i + 1);
        }
        let d = match digit_of(c) {
            Some(d) => d,
            None => {
                return None;
            },
        };
        proof {
            if i == 1 {
                assert(s@.take(1).drop_last() =~= Seq::<char>::empty());
                assert(number_of(s@.take(1).drop_last()) == 0);
                assert(s@.take(1).last() == s@[0]);
                assert(number_of(s@.take(1)) == digit_value(s@[0]));
            }
        }
        if i == 1 && acc == 0 {
            return None;
        }
        if acc > (u64::MAX - d) / 10 {
            return None;
        }
        acc = acc * 10 + d;
        i = i + 1;
    }
    proof {
        assert(s@.take(len as int) =~= s@);
    }
    Some(acc)
}

} // verus!
