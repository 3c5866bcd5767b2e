//! The output line for one match: `<file>:<line>:<start>-<end>: <highlighted line>`,
//! with line and offsets counted from 1.

use vstd::prelude::*;
use vstd::string::*;

use crate::matcher::Match;

verus! {

/// The character of the decimal digit `d`.
pub open spec fn digit_char(d: nat) -> char
    recommends
        d < 10,
{
    seq!['0', '1', '2', '3', '4', '5', '6', '7', '8', '9'][d as int]
}

/// The decimal form of `n`, without leading zeros.
pub open spec fn decimal(n: nat) -> Seq<char>
    decreases n,
{
    if n < 10 {
        seq![digit_char(n)]
    } else {
        decimal(n / 10).push(digit_char(n % 10))
    }
}

/// The text of one decimal digit.
fn digit_text(d: u128) -> (r: &'static str)
    requires
        d < 10,
    ensures
        r@ == seq![digit_char(d as nat)],
{
    proof {
        reveal_strlit("0");
        reveal_strlit("1");
        reveal_strlit("2");
        reveal_strlit("3");
        reveal_strlit("4");
        reveal_strlit("5");
        reveal_strlit("6");
        reveal_strlit("7");
        reveal_strlit("8");
        reveal_strlit("9");
    }
    let r = match d {
        0 => "0",
        1 => "1",
        2 => "2",
        3 => "3",
        4 => "4",
        5 => "5",
        6 => "6",
        7 => "7",
        8 => "8",
        _ => "9",
    };
    assert(r@ =~= seq![digit_char(d as nat)]);
    r
}

/// Appends the decimal form of `n` to `out`.
fn push_decimal(out: &mut String, n: u128)
    ensures
        final(out)@ == old(out)@ + decimal(n as nat),
    decreases n,
{
    if n >= 10 {
        push_decimal(out, n / 10);
    }
    out.append(digit_text(n % 10));
    assert(final(out)@ =~= old(out)@ + decimal(n as nat));
}

/// The decimal form of `n`.
pub fn decimal_text(n: u128) -> (r: String)
    ensures
        r@ == decimal(n as nat),
{
    let mut out = String::new();
    push_decimal(&mut out, n);
    assert(out@ =~= decimal(n as nat));
    out
}

/// The output line for `m` found in `filename`: the file name, the line
/// number, the start and end offsets (all three counted from 1) and the
/// highlighted line.
pub open spec fn rendered(filename: Seq<char>, m: Match) -> Seq<char> {
    filename + seq![':'] + decimal((m.line + 1) as nat) + seq![':'] + decimal((m.start + 1) as nat) + seq!['-']
        + decimal((m.end + 1) as nat) + seq![':', ' '] + m.highlight_content@
}

/// Renders `m`, found in `filename`, as one line of output (without the
/// line ending).
pub fn render_match(filename: &str, m: &Match) -> (r: String)
    ensures
        r@ == rendered(filename@, *m),
{
    proof {
        reveal_strlit(":");
        reveal_strlit("-");
        reveal_strlit(": ");
    }
    let mut out = String::from_str(filename);
    out.append(":");
    push_decimal(&mut out, m.line as u128 + 1);
    out.append(":");
    push_decimal(&mut out, m.start as u128 + 1);
    out.append("-");
    push_decimal(&mut out, m.end as u128 + 1);
    out.append(": ");
    out.append(m.highlight_content.as_str());
    assert(out@ =~= rendered(filename@, *m));
    out
}

} // verus!
