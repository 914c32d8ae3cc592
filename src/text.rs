use vstd::prelude::*;
use vstd::string::*;

verus! {

/// The decimal digit for `d < 10`.
pub open spec fn digit_char(d: nat) -> char {
    if d == 0 {
        '0'
    } else if d == 1 {
        '1'
    } else if d == 2 {
        '2'
    } else if d == 3 {
        '3'
    } else if d == 4 {
        '4'
    } else if d == 5 {
        '5'
    } else if d == 6 {
        '6'
    } else if d == 7 {
        '7'
    } else if d == 8 {
        '8'
    } else {
        '9'
    }
}

/// Decimal notation of `n`, without leading zeros.
pub open spec fn decimal(n: nat) -> Seq<char>
    decreases n,
{
    if n < 10 {
        seq![digit_char(n)]
    } else {
        decimal(n / 10) + seq![digit_char(n % 10)]
    }
}

/// `lines / total` in tenths of a percent, rounded to nearest with ties to even.
pub open spec fn share_tenths(lines: nat, total: nat) -> nat
    recommends
        total > 0,
{
    let q = (lines * 1000) / total;
    let r = (lines * 1000) % total;
    if 2 * r > total || (2 * r == total && q % 2 == 1) {
        q + 1
    } else {
        q
    }
}

/// A share as a percentage with one decimal, `NaN` for an empty total.
pub open spec fn share_text(lines: nat, total: nat) -> Seq<char> {
    if total == 0 {
        seq!['N', 'a', 'N']
    } else {
        let t = share_tenths(lines, total);
        decimal(t / 10) + seq!['.'] + decimal(t % 10)
    }
}

fn digit_str(d: u64) -> (r: &'static str)
    requires
        d < 10,
    ensures
        r@ == seq![digit_char(d as nat)],
{
    proof {
        reveal_strlit("0");
        reveal_strlit("1");
        reveal_strlit("2");
        reveal_strlit("3");
        reveal_strlit("4");
        reveal_strlit("5");
        reveal_strlit("6");
        reveal_strlit("7");
        reveal_strlit("8");
        reveal_strlit("9");
    }
    match d {
        0 => "0",
        1 => "1",
        2 => "2",
        3 => "3",
        4 => "4",
        5 => "5",
        6 => "6",
        7 => "7",
        8 => "8",
        _ => "9",
    }
}

/// Appends the decimal notation of `n` to `s`.
pub fn push_decimal(s: &mut String, n: u64)
    ensures
        final(s)@ == old(s)@ + decimal(n as nat),
    decreases n,
{
    if n < 10 {
        s.append(digit_str(n));
    } else {
        push_decimal(s, n / 10);
        s.append(digit_str(n % 10));
        proof {
            assert(old(s)@ + decimal(n as nat) == old(s)@ + decimal((n / 10) as nat) + seq![
                digit_char((n % 10) as nat),
            ]);
        }
    }
}

/// Appends the percentage text of `lines / total` to `s`.
pub fn push_share(s: &mut String, lines: usize, total: usize)
    requires
        lines <= total,
    ensures
        final(s)@ == old(s)@ + share_text(lines as nat, total as nat),
{
    if total == 0 {
        proof {
            reveal_strlit("NaN");
        }
        s.append("NaN");
    } else {
        let scaled: u128 = lines as u128 * 1000;
        let q: u128 = scaled / (total as u128);
        let r: u128 = scaled % (total as u128);
        let t: u128 = if 2 * r > total as u128 || (2 * r == total as u128 && q % 2 == 1) {
            q + 1
        } else {
            q
        };
        proof {
            assert(q <= 1000) by (nonlinear_arith)
                requires
                    q == (lines as int * 1000) / (total as int),
                    lines <= total,
                    total > 0,
            ;
        }
        push_decimal(s, (t / 10) as u64);
        proof {
            reveal_strlit(".");
        }
        s.append(".");
        push_decimal(s, (t % 10) as u64);
        proof {
            assert(t == share_tenths(lines as nat, total as nat));
            assert(final(s)@ == old(s)@ + share_text(lines as nat, total as nat));
        }
    }
}

} // verus!
