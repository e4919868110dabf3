//! Numbers written out in text.
use vstd::prelude::*;
use vstd::string::StringExecFns;

verus! {

/// The digit that stands for a number below ten.
pub open spec fn digit(d: int) -> Seq<char> {
    if d == 0 {
        "0"@
    } else if d == 1 {
        "1"@
    } else if d == 2 {
        "2"@
    } else if d == 3 {
        "3"@
    } else if d == 4 {
        "4"@
    } else if d == 5 {
        "5"@
    } else if d == 6 {
        "6"@
    } else if d == 7 {
        "7"@
    } else if d == 8 {
        "8"@
    } else {
        "9"@
    }
}

/// A number in decimal digits, without leading zeros.
pub open spec fn decimal(n: nat) -> Seq<char>
    decreases n,
{
    if n < 10 {
        digit(n as int)
    } else {
        decimal(n / 10) + digit((n % 10) as int)
    }
}

/// The word for a truth value.
pub open spec fn truth(b: bool) -> Seq<char> {
    if b {
        "true"@
    } else {
        "false"@
    }
}

/// Appends the digit of a number below ten.
pub fn push_digit(out: &mut String, d: u8)
    requires
        d < 10,
    ensures
        final(out)@ == old(out)@ + digit(d as int),
{
    if d == 0 {
        out.append("0");
    } else if d == 1 {
        out.append("1");
    } else if d == 2 {
        out.append("2");
    } else if d == 3 {
        out.append("3");
    } else if d == 4 {
        out.append("4");
    } else if d == 5 {
        out.append("5");
    } else if d == 6 {
        out.append("6");
    } else if d == 7 {
        out.append("7");
    } else if d == 8 {
        out.append("8");
    } else {
        out.append("9");
    }
}

/// Appends a number in decimal digits.
pub fn push_decimal(out: &mut String, n: u128)
    ensures
        final(out)@ == old(out)@ + decimal(n as nat),
    decreases n,
{
    if n >= 10 {
        push_decimal(out, n / 10);
        push_digit(out, (n % 10) as u8);
        proof {
            assert(out@ =~= old(out)@ + (decimal((n / 10) as nat) + digit((n % 10) as int)));
        }
    } else {
        push_digit(out, n as u8);
    }
}

/// Appends the word for a truth value.
pub fn push_truth(out: &mut String, b: bool)
    ensures
        final(out)@ == old(out)@ + truth(b),
{
    if b {
        out.append("true");
    } else {
        out.append("false");
    }
}

/// Appends a label, a number and the end of the line.
pub fn push_number_line(out: &mut String, label: &str, n: u128)
    ensures
        final(out)@ == old(out)@ + number_line(label@, n as nat),
{
    out.append(label);
    push_decimal(out, n);
    out.append("\n");
    proof {
        assert(out@ =~= old(out)@ + number_line(label@, n as nat));
    }
}

/// A label, a number and the end of the line.
pub open spec fn number_line(label: Seq<char>, n: nat) -> Seq<char> {
    label + decimal(n) + "\n"@
}

/// Appends a label, a truth value and the end of the line.
pub fn push_truth_line(out: &mut String, label: &str, b: bool)
    ensures
        final(out)@ == old(out)@ + truth_line(label@, b),
{
    out.append(label);
    push_truth(out, b);
    out.append("\n");
    proof {
        assert(out@ =~= old(out)@ + truth_line(label@, b));
    }
}

/// A label, a truth value and the end of the line.
pub open spec fn truth_line(label: Seq<char>, b: bool) -> Seq<char> {
    label + truth(b) + "\n"@
}

/// Appends two numbers with a comma between them and the end of the line.
pub fn push_pair_line(out: &mut String, a: u128, b: u128)
    ensures
        final(out)@ == old(out)@ + pair_line(a as nat, b as nat),
{
    out.append("  ");
    push_decimal(out, a);
    out.append(", ");
    push_decimal(out, b);
    out.append("\n");
    proof {
        assert(out@ =~= old(out)@ + pair_line(a as nat, b as nat));
    }
}

/// Two numbers with a comma between them and the end of the line.
pub open spec fn pair_line(a: nat, b: nat) -> Seq<char> {
    "  "@ + decimal(a) + ", "@ + decimal(b) + "\n"@
}

} // verus!
