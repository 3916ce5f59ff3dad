//! The server's request targets: the fixed full-snapshot path and the
//! incremental path carrying the last observed sequence in decimal.

use vstd::prelude::*;

verus! {

/// The decimal digit character for `d < 10`.
pub open spec fn digit_char(d: nat) -> char {
    if d == 0 {
        '0'
    } else if d == 1 {
        '1'
    } else if d == 2 {
        '2'
    } else if d == 3 {
        '3'
    } else if d == 4 {
        '4'
    } else if d == 5 {
        '5'
    } else if d == 6 {
        '6'
    } else if d == 7 {
        '7'
    } else if d == 8 {
        '8'
    } else {
        '9'
    }
}

/// The usual decimal rendering of `n`: no sign, no leading zeros (a single
/// `'0'` for zero).
pub open spec fn decimal_of(n: nat) -> Seq<char>
    decreases n,
{
    if n < 10 {
        seq![digit_char(n)]
    } else {
        decimal_of(n / 10).push(digit_char(n % 10))
    }
}

/// Appends the decimal rendering of `n` to `s`.
fn push_decimal(s: &mut String, n: u64)
    ensures
        final(s)@ == old(s)@ + decimal_of(n as nat),
    decreases n,
{
    if n >= 10 {
        push_decimal(s, n / 10);
    }
    let d: u64 = n % 10;
    match d {
        0 => s.append("0"),
        1 => s.append("1"),
        2 => s.append("2"),
        3 => s.append("3"),
        4 => s.append("4"),
        5 => s.append("5"),
        6 => s.append("6"),
        7 => s.append("7"),
        8 => s.append("8"),
        _ => s.append("9"),
    }
    proof {
        reveal_strlit("0");
        reveal_strlit("1");
        reveal_strlit("2");
        reveal_strlit("3");
        reveal_strlit("4");
        reveal_strlit("5");
        reveal_strlit("6");
        reveal_strlit("7");
        reveal_strlit("8");
        reveal_strlit("9");
        if n < 10 {
            assert(old(s)@ + decimal_of(n as nat) =~= old(s)@.push(digit_char(n as nat)));
            assert(final(s)@ =~= old(s)@.push(digit_char(n as nat)));
        } else {
            assert(final(s)@ =~= (old(s)@ + decimal_of((n / 10) as nat)).push(
                digit_char((n % 10) as nat),
            ));
            assert(old(s)@ + decimal_of(n as nat) =~= (old(s)@ + decimal_of(
                (n / 10) as nat,
            )).push(digit_char((n % 10) as nat)));
        }
    }
}

/// The request path of the full-snapshot fetch.
pub fn snapshot_path() -> (r: String)
    ensures
        r@ == "/mempoolServer/txsdata"@,
{
    String::from_str("/mempoolServer/txsdata")
}

/// The request path of an incremental fetch: the fixed prefix with the last
/// observed sequence rendered in decimal.
pub fn incremental_path(from: u64) -> (r: String)
    ensures
        r@ == "/mempoolServer/txsdatafrom/"@ + decimal_of(from as nat),
{
    let mut r: String = String::from_str("/mempoolServer/txsdatafrom/");
    push_decimal(&mut r, from);
    r
}

} // verus!
