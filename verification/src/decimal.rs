//! Rendering a 64-bit integer as its decimal string.

use vstd::prelude::*;
use vstd::string::StringExecFns;
use vstd::string::StrSliceExecFns;

verus! {

pub open spec fn digit_char(d: int) -> char {
    if d == 0 {
        '0'
    } else if d == 1 {
        '1'
    } else if d == 2 {
        '2'
    } else if d == 3 {
        '3'
    } else if d == 4 {
        '4'
    } else if d == 5 {
        '5'
    } else if d == 6 {
        '6'
    } else if d == 7 {
        '7'
    } else if d == 8 {
        '8'
    } else {
        '9'
    }
}

/// The decimal digits of a non-negative integer, most significant first,
/// with no leading zeros (a lone zero for 0).
pub open spec fn dec_digits(n: int) -> Seq<char>
    decreases n,
{
    if n < 10 {
        seq![digit_char(n)]
    } else {
        dec_digits(n / 10).push(digit_char(n % 10))
    }
}

/// The decimal string of an integer: a minus sign for negative values,
/// then the digits of its magnitude.
pub open spec fn dec_str(v: int) -> Seq<char> {
    if v >= 0 {
        dec_digits(v)
    } else {
        seq!['-'] + dec_digits(-v)
    }
}

/// The characters of a digit sequence, least significant first, read back
/// most significant first.
pub open spec fn digits_chars(ds: Seq<u64>) -> Seq<char> {
    ds.map_values(|d: u64| digit_char(d as int))
}

/// One decimal digit as a string slice.
fn digit_str(d: u64) -> (r: &'static str)
    requires
        d < 10,
    ensures
        r@ == seq![digit_char(d as int)],
{
    proof {
        reveal_strlit("0");
        reveal_strlit("1");
        reveal_strlit("2");
        reveal_strlit("3");
        reveal_strlit("4");
        reveal_strlit("5");
        reveal_strlit("6");
        reveal_strlit("7");
        reveal_strlit("8");
        reveal_strlit("9");
    }
    if d == 0 {
        "0"
    } else if d == 1 {
        "1"
    } else if d == 2 {
        "2"
    } else if d == 3 {
        "3"
    } else if d == 4 {
        "4"
    } else if d == 5 {
        "5"
    } else if d == 6 {
        "6"
    } else if d == 7 {
        "7"
    } else if d == 8 {
        "8"
    } else {
        "9"
    }
}

/// The decimal rendering of `v`, exactly `dec_str(v)`.
#[verifier::loop_isolation(false)]
pub fn i64_to_decimal(v: i64) -> (s: String)
    ensures
        s@ == dec_str(v as int),
{
    let mut s = String::from_str("");
    proof {
        reveal_strlit("");
        reveal_strlit("-");
    }
    if v < 0 {
        s.append("-");
    }
    let mut m: u64 = if v >= 0 {
        v as u64
    } else if v == i64::MIN {
        9223372036854775808u64
    } else {
        (-v) as u64
    };
    let ghost m0: int = m as int;
    assert(m0 == if v >= 0 { v as int } else { -(v as int) });
    let mut digits: Vec<u64> = Vec::new();
    if m == 0 {
        digits.push(0);
        proof {
            assert(digits@.reverse() =~= seq![0u64]);
            assert(digits_chars(digits@.reverse()) =~= seq![digit_char(0)]);
        }
    } else {
        while m > 0
            invariant
                forall|j: int| 0 <= j < digits@.len() ==> #[trigger] digits@[j] < 10,
                dec_digits(m0) =~= if m > 0 {
                    dec_digits(m as int) + digits_chars(digits@.reverse())
                } else {
                    digits_chars(digits@.reverse())
                },
            decreases m,
        {
            let ghost pre = digits@;
            let d = m % 10;
            digits.push(d);
            m = m / 10;
            proof {
                assert(digits@.reverse() =~= seq![d] + pre.reverse());
                assert(digits_chars(digits@.reverse()) =~= seq![digit_char(d as int)]
                    + digits_chars(pre.reverse()));
            }
        }
    }
    let ghost sign: Seq<char> = if v < 0 { seq!['-'] } else { Seq::<char>::empty() };
    assert(s@ == sign);
    assert(dec_digits(m0) == digits_chars(digits@.reverse()));
    let mut k = digits.len();
    while k > 0
        invariant
            k <= digits@.len(),
            s@ =~= sign + digits_chars(digits@.reverse()).take(digits@.len() - k),
        decreases k,
    {
        k = k - 1;
        let d = digits[k];
        let ghost before = s@;
        s.append(digit_str(d));
        proof {
            let rev = digits_chars(digits@.reverse());
            assert(rev[digits@.len() - k - 1] == digit_char(digits@[k as int] as int));
            assert(rev.take(digits@.len() - k) =~= rev.take(digits@.len() - k - 1).push(
                rev[digits@.len() - k - 1],
            ));
        }
    }
    proof {
        let rev = digits_chars(digits@.reverse());
        assert(rev.take(digits@.len() as int) =~= rev);
        assert(s@ =~= sign + dec_digits(m0));
        if v >= 0 {
            assert(sign + dec_digits(m0) =~= dec_digits(v as int));
        }
    }
    s
}

} // verus!
