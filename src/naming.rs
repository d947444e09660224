use vstd::prelude::*;
use vstd::string::StringExecFns;

verus! {

pub open spec fn digit_char(d: nat) -> char {
    (('0' as nat) + d % 10) as char
}

/// A natural number in decimal, most significant digit first, no leading zero.
pub open spec fn decimal_text(n: nat) -> Seq<char>
    decreases n,
{
    if n < 10 {
        seq![digit_char(n)]
    } else {
        decimal_text(n / 10).push(digit_char(n % 10))
    }
}

/// The digit `d` as a one-character text.
fn digit_text(d: usize) -> (r: &'static str)
    requires
        d < 10,
    ensures
        r@ == seq![digit_char(d as nat)],
{
    match d {
        0 => {
            proof {
                reveal_strlit("0");
            }
            "0"
        },
        1 => {
            proof {
                reveal_strlit("1");
            }
            "1"
        },
        2 => {
            proof {
                reveal_strlit("2");
            }
            "2"
        },
        3 => {
            proof {
                reveal_strlit("3");
            }
            "3"
        },
        4 => {
            proof {
                reveal_strlit("4");
            }
            "4"
        },
        5 => {
            proof {
                reveal_strlit("5");
            }
            "5"
        },
        6 => {
            proof {
                reveal_strlit("6");
            }
            "6"
        },
        7 => {
            proof {
                reveal_strlit("7");
            }
            "7"
        },
        8 => {
            proof {
                reveal_strlit("8");
            }
            "8"
        },
        _ => {
            proof {
                reveal_strlit("9");
            }
            "9"
        },
    }
}

/// The number in decimal.
pub(crate) fn usize_text(n: usize) -> (r: String)
    ensures
        r@ == decimal_text(n as nat),
    decreases n,
{
    let digit = digit_text(n % 10);
    if n < 10 {
        String::from_str(digit)
    } else {
        let r = usize_text(n / 10).concat(digit);
        r
    }
}

/// `{left}_{right}`.
pub open spec fn joined(left: Seq<char>, right: Seq<char>) -> Seq<char> {
    left + seq!['_'] + right
}

/// `{n}_{right}`, the number in decimal.
pub fn number_joined(n: usize, right: &str) -> (r: String)
    ensures
        r@ == joined(decimal_text(n as nat), right@),
{
    let r = usize_text(n).concat("_").concat(right);
    proof {
        reveal_strlit("_");
    }
    assert(r@ =~= joined(decimal_text(n as nat), right@));
    r
}

/// `{left}_{suffix}`.
pub fn text_joined(left: &str, suffix: &str) -> (r: String)
    ensures
        r@ == joined(left@, suffix@),
{
    let r = String::from_str(left).concat("_").concat(suffix);
    proof {
        reveal_strlit("_");
    }
    assert(r@ =~= joined(left@, suffix@));
    r
}

/// `{a}_{b}`, both numbers in decimal.
pub fn numbers_joined(a: usize, b: usize) -> (r: String)
    ensures
        r@ == joined(decimal_text(a as nat), decimal_text(b as nat)),
{
    let right = usize_text(b);
    number_joined(a, right.as_str())
}

} // verus!
