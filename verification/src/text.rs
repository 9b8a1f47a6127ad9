//! Numbers written for people.
use vstd::prelude::*;

verus! {

pub open spec fn digit_char(d: nat) -> char
    recommends
        d < 10,
{
    seq!['0', '1', '2', '3', '4', '5', '6', '7', '8', '9'][d as int]
}

/// `n` in decimal, without leading zeros.
pub open spec fn decimal(n: nat) -> Seq<char>
    decreases n,
{
    if n < 10 {
        seq![digit_char(n)]
    } else {
        decimal(n / 10).push(digit_char(n % 10))
    }
}

/// `b / d` in tenths, rounded to the nearest tenth, an exact half going to
/// the even tenth.
pub open spec fn tenths(b: nat, d: nat) -> nat
    recommends
        d > 0,
{
    let q = 10 * b / d;
    let r = 10 * b % d;
    if 2 * r > d || (2 * r == d && q % 2 == 1) {
        q + 1
    } else {
        q
    }
}

/// A count of tenths written with one decimal place: `123` is `12.3`.
pub open spec fn one_decimal(t: nat) -> Seq<char> {
    decimal(t / 10).push('.').push(digit_char(t % 10))
}

pub const KIB: u64 = 1024;
pub const MIB: u64 = 1048576;

/// A byte count in bytes, KB or MB, whichever keeps the number small:
/// whole bytes below one KB, otherwise one decimal place.
pub open spec fn spec_human(b: nat) -> Seq<char> {
    if b < KIB {
        decimal(b) + seq![' ', 'B']
    } else if b < MIB {
        one_decimal(tenths(b, KIB as nat)) + seq![' ', 'K', 'B']
    } else {
        one_decimal(tenths(b, MIB as nat)) + seq![' ', 'M', 'B']
    }
}

fn digit_str(d: u64) -> (s: &'static str)
    requires
        d < 10,
    ensures
        s@ == seq![digit_char(d as nat)],
{
    match d {
        0 => {
            proof {
                reveal_strlit("0");
            }
            "0"
        },
        1 => {
            proof {
                reveal_strlit("1");
            }
            "1"
        },
        2 => {
            proof {
                reveal_strlit("2");
            }
            "2"
        },
        3 => {
            proof {
                reveal_strlit("3");
            }
            "3"
        },
        4 => {
            proof {
                reveal_strlit("4");
            }
            "4"
        },
        5 => {
            proof {
                reveal_strlit("5");
            }
            "5"
        },
        6 => {
            proof {
                reveal_strlit("6");
            }
            "6"
        },
        7 => {
            proof {
                reveal_strlit("7");
            }
            "7"
        },
        8 => {
            proof {
                reveal_strlit("8");
            }
            "8"
        },
        _ => {
            proof {
                reveal_strlit("9");
            }
            "9"
        },
    }
}

/// `n` in decimal.
pub fn decimal_string(n: u64) -> (s: String)
    ensures
        s@ == decimal(n as nat),
    decreases n,
{
    if n < 10 {
        String::from_str(digit_str(n))
    } else {
        let mut s = decimal_string(n / 10);
        s.append(digit_str(n % 10));
        s
    }
}

/// `t` tenths with one decimal place.
fn one_decimal_string(t: u64) -> (s: String)
    ensures
        s@ == one_decimal(t as nat),
{
    let mut s = decimal_string(t / 10);
    proof {
        reveal_strlit(".");
    }
    s.append(".");
    s.append(digit_str(t % 10));
    s
}

/// `b / d` in tenths, rounded half to even.
fn tenths_of(b: u64, d: u64) -> (t: u64)
    requires
        d >= KIB,
    ensures
        t as nat == tenths(b as nat, d as nat),
{
    let ten_b: u128 = 10 * (b as u128);
    let q: u128 = ten_b / (d as u128);
    let r: u128 = ten_b % (d as u128);
    assert(q <= ten_b / (KIB as u128)) by {
        vstd::arithmetic::div_mod::lemma_div_is_ordered_by_denominator(
            ten_b as int,
            KIB as int,
            d as int,
        );
    }
    assert(ten_b as int / 1024 <= 184467440737095516150int / 1024) by {
        vstd::arithmetic::div_mod::lemma_div_is_ordered(ten_b as int, 184467440737095516150int, 1024);
    }
    assert(q < 0x1000_0000_0000_0000u128);
    if 2 * r > d as u128 || (2 * r == d as u128 && q % 2 == 1) {
        (q + 1) as u64
    } else {
        q as u64
    }
}

/// A byte count for people: `512 B`, `1.5 KB`, `2.0 MB`.
pub fn human(b: u64) -> (s: String)
    ensures
        s@ == spec_human(b as nat),
{
    if b < KIB {
        let mut s = decimal_string(b);
        proof {
            reveal_strlit(" B");
        }
        s.append(" B");
        s
    } else if b < MIB {
        let mut s = one_decimal_string(tenths_of(b, KIB));
        proof {
            reveal_strlit(" KB");
        }
        s.append(" KB");
        s
    } else {
        let mut s = one_decimal_string(tenths_of(b, MIB));
        proof {
            reveal_strlit(" MB");
        }
        s.append(" MB");
        s
    }
}

} // verus!
