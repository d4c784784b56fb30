//! Text for the debugging dump of a tree.

use vstd::prelude::*;

verus! {

/// The character for a digit.
pub open spec fn digit(d: nat) -> char {
    if d == 0 {
        '0'
    } else if d == 1 {
        '1'
    } else if d == 2 {
        '2'
    } else if d == 3 {
        '3'
    } else if d == 4 {
        '4'
    } else if d == 5 {
        '5'
    } else if d == 6 {
        '6'
    } else if d == 7 {
        '7'
    } else if d == 8 {
        '8'
    } else {
        '9'
    }
}

/// The decimal digits of a number, the most significant first, without
/// leading zeros; one zero for 0.
pub open spec fn digits(n: nat) -> Seq<char>
    decreases n,
{
    if n < 10 {
        seq![digit(n)]
    } else {
        digits(n / 10).push(digit(n % 10))
    }
}

/// The decimal digits of an integer, with a minus sign in front of a
/// negative one.
pub open spec fn decimal(v: int) -> Seq<char> {
    if v < 0 {
        seq!['-'] + digits((-v) as nat)
    } else {
        digits(v as nat)
    }
}

/// Calls `ToString::to_string` on an `i128`, which writes the number in
/// decimal digits, with a minus sign in front of a negative one.
#[verifier::external_body]
pub(crate) fn number_text(v: i128) -> (s: String)
    ensures
        s@ == decimal(v as int),
{
    v.to_string()
}

/// Calls `String::push_str`, which appends the slice to the string.
#[verifier::external_body]
pub(crate) fn append(out: &mut String, s: &str)
    ensures
        final(out)@ == old(out)@ + s@,
{
    out.push_str(s)
}

/// `n` spaces.
pub open spec fn spaces(n: nat) -> Seq<char>
    decreases n,
{
    if n == 0 {
        Seq::empty()
    } else {
        spaces((n - 1) as nat) + " "@
    }
}

/// Appends `n` spaces.
pub fn indent(out: &mut String, n: usize)
    ensures
        final(out)@ == old(out)@ + spaces(n as nat),
{
    let mut i: usize = 0;
    assert(out@ =~= old(out)@ + spaces(0));
    while i < n
        invariant
            i <= n,
            out@ == old(out)@ + spaces(i as nat),
        decreases n - i,
    {
        let ghost before = out@;
        append(out, " ");
        i += 1;
        assert(out@ =~= old(out)@ + spaces(i as nat));
    }
}

/// What the dump says of the number of features in a node.
pub open spec fn count_label(n: nat) -> Seq<char> {
    if n == 0 {
        Seq::empty()
    } else if n == 1 {
        " 1 child"@
    } else {
        " "@ + decimal(n as int) + " children"@
    }
}

/// The line of the dump for a node at `depth` whose region starts at
/// (`x`, `y`) and which holds `n` features itself.
pub open spec fn node_line(depth: nat, x: int, y: int, n: nat) -> Seq<char> {
    spaces(4 * depth) + "("@ + decimal(x) + ", "@ + decimal(y) + "):"@ + count_label(n) + "\n"@
}

/// Appends the line of the dump for a node.
pub fn push_node_line(out: &mut String, depth: u8, x: i64, y: i64, n: u128)
    requires
        n <= i128::MAX,
    ensures
        final(out)@ == old(out)@ + node_line(depth as nat, x as int, y as int, n as nat),
{
    let ghost start = out@;
    indent(out, 4 * (depth as usize));
    append(out, "(");
    let xs = number_text(x as i128);
    append(out, xs.as_str());
    append(out, ", ");
    let ys = number_text(y as i128);
    append(out, ys.as_str());
    append(out, "):");
    let ghost head = out@;
    assert(head =~= start + (spaces(4 * (depth as nat)) + "("@ + decimal(x as int) + ", "@ + decimal(
        y as int,
    ) + "):"@));
    if n == 1 {
        append(out, " 1 child");
    } else if n > 1 {
        append(out, " ");
        let ns = number_text(n as i128);
        append(out, ns.as_str());
        append(out, " children");
        assert(out@ =~= head + count_label(n as nat));
    } else {
        assert(out@ =~= head + count_label(n as nat));
    }
    append(out, "\n");
    assert(out@ =~= start + node_line(depth as nat, x as int, y as int, n as nat));
}

} // verus!
