//! Numbers as text.

use crate::decimal::{digit_char, whole_digits};
use vstd::prelude::*;

verus! {

/// A digit as text.
fn digit_text(d: u64) -> (r: &'static str)
    requires
        d < 10,
    ensures
        r@ == seq![digit_char(d as int)],
{
    proof {
        reveal_strlit("0");
        reveal_strlit("1");
        reveal_strlit("2");
        reveal_strlit("3");
        reveal_strlit("4");
        reveal_strlit("5");
        reveal_strlit("6");
        reveal_strlit("7");
        reveal_strlit("8");
        reveal_strlit("9");
    }
    let r: &'static str = match d {
        0 => "0",
        1 => "1",
        2 => "2",
        3 => "3",
        4 => "4",
        5 => "5",
        6 => "6",
        7 => "7",
        8 => "8",
        _ => "9",
    };
    assert(r@ =~= seq![digit_char(d as int)]);
    r
}

/// A number as text, in decimal digits.
pub fn number_text(n: u64) -> (r: String)
    ensures
        r@ == whole_digits(n as int),
    decreases n,
{
    if n < 10 {
        String::from_str(digit_text(n))
    } else {
        let mut r = number_text(n / 10);
        r.append(digit_text(n % 10));
        assert(r@ =~= whole_digits(n as int));
        r
    }
}

} // verus!
