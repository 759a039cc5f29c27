//! Decimal rendering of signed integers, used in structured error
//! contexts.

use vstd::prelude::*;
use vstd::string::StringExecFns;

verus! {

/// The character of one decimal digit.
pub open spec fn digit_char(d: int) -> char {
    if d == 0 {
        '0'
    } else if d == 1 {
        '1'
    } else if d == 2 {
        '2'
    } else if d == 3 {
        '3'
    } else if d == 4 {
        '4'
    } else if d == 5 {
        '5'
    } else if d == 6 {
        '6'
    } else if d == 7 {
        '7'
    } else if d == 8 {
        '8'
    } else {
        '9'
    }
}

/// The decimal digits of a non-negative value, most significant first.
pub open spec fn dec_digits(n: int) -> Seq<char>
    decreases n,
{
    if n < 10 {
        seq![digit_char(n)]
    } else {
        dec_digits(n / 10).push(digit_char(n % 10))
    }
}

/// The decimal rendering of a signed value.
pub open spec fn dec_str(x: int) -> Seq<char> {
    if x < 0 {
        seq!['-'] + dec_digits(-x)
    } else {
        dec_digits(x)
    }
}

/// Appends the decimal digits of `n`.
fn push_dec_u64(s: &mut String, n: u64)
    ensures
        final(s)@ == old(s)@ + dec_digits(n as int),
    decreases n,
{
    if n >= 10 {
        push_dec_u64(s, n / 10);
    }
    let m = n % 10;
    let ds: &str;
    if m == 0 {
        ds = "0";
        proof {
            reveal_strlit("0");
            assert(ds@ =~= seq![digit_char(m as int)]);
        }
    } else if m == 1 {
        ds = "1";
        proof {
            reveal_strlit("1");
            assert(ds@ =~= seq![digit_char(m as int)]);
        }
    } else if m == 2 {
        ds = "2";
        proof {
            reveal_strlit("2");
            assert(ds@ =~= seq![digit_char(m as int)]);
        }
    } else if m == 3 {
        ds = "3";
        proof {
            reveal_strlit("3");
            assert(ds@ =~= seq![digit_char(m as int)]);
        }
    } else if m == 4 {
        ds = "4";
        proof {
            reveal_strlit("4");
            assert(ds@ =~= seq![digit_char(m as int)]);
        }
    } else if m == 5 {
        ds = "5";
        proof {
            reveal_strlit("5");
            assert(ds@ =~= seq![digit_char(m as int)]);
        }
    } else if m == 6 {
        ds = "6";
        proof {
            reveal_strlit("6");
            assert(ds@ =~= seq![digit_char(m as int)]);
        }
    } else if m == 7 {
        ds = "7";
        proof {
            reveal_strlit("7");
            assert(ds@ =~= seq![digit_char(m as int)]);
        }
    } else if m == 8 {
        ds = "8";
        proof {
            reveal_strlit("8");
            assert(ds@ =~= seq![digit_char(m as int)]);
        }
    } else {
        ds = "9";
        proof {
            reveal_strlit("9");
            assert(ds@ =~= seq![digit_char(m as int)]);
        }
    }
    s.append(ds);
    proof {
        if n >= 10 {
            assert(dec_digits(n as int) == dec_digits(n as int / 10).push(
                digit_char(n as int % 10),
            ));
            assert(dec_digits(n as int / 10).push(digit_char(n as int % 10)) =~= dec_digits(
                n as int / 10,
            ) + seq![digit_char(n as int % 10)]);
        } else {
            assert(dec_digits(n as int) =~= seq![digit_char(n as int)]);
        }
    }
}

/// The decimal rendering of a signed 64-bit value.
pub fn dec_i64(x: i64) -> (r: String)
    ensures
        r@ == dec_str(x as int),
{
    let mut s = String::new();
    if x >= 0 {
        push_dec_u64(&mut s, x as u64);
        proof {
            assert(s@ =~= dec_str(x as int));
        }
    } else {
        s.append("-");
        let m: u64 = ((-(x + 1)) as u64) + 1;
        proof {
            assert(m as int == -(x as int));
        }
        push_dec_u64(&mut s, m);
        proof {
            reveal_strlit("-");
            assert("-"@ =~= seq!['-']);
            assert(s@ =~= dec_str(x as int));
        }
    }
    s
}

} // verus!
