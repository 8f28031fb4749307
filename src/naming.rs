//! Addresses of deployed functions: `{digest}-{fragment:02}-{replica:02}`.
use vstd::prelude::*;

verus! {

/// The decimal digit character for `d < 10`.
pub open spec fn digit_char(d: nat) -> char {
    if d == 0 { '0' }
    else if d == 1 { '1' }
    else if d == 2 { '2' }
    else if d == 3 { '3' }
    else if d == 4 { '4' }
    else if d == 5 { '5' }
    else if d == 6 { '6' }
    else if d == 7 { '7' }
    else if d == 8 { '8' }
    else { '9' }
}

/// The value of a decimal digit character.
pub open spec fn digit_value(c: char) -> Option<nat> {
    if c == '0' { Some(0) }
    else if c == '1' { Some(1) }
    else if c == '2' { Some(2) }
    else if c == '3' { Some(3) }
    else if c == '4' { Some(4) }
    else if c == '5' { Some(5) }
    else if c == '6' { Some(6) }
    else if c == '7' { Some(7) }
    else if c == '8' { Some(8) }
    else if c == '9' { Some(9) }
    else { None }
}

/// `n < 100` written with two zero-padded decimal digits.
pub open spec fn two_digits(n: nat) -> Seq<char> {
    seq![digit_char(n / 10), digit_char(n % 10)]
}

/// The address of replica `replica` of plan fragment `fragment`.
pub open spec fn function_name(digest: Seq<char>, fragment: nat, replica: nat) -> Seq<char> {
    digest + seq!['-'] + two_digits(fragment) + seq!['-'] + two_digits(replica)
}

/// The value of two decimal digit characters.
pub open spec fn two_digit_value(a: char, b: char) -> Option<nat> {
    match (digit_value(a), digit_value(b)) {
        (Some(x), Some(y)) => Some(10 * x + y),
        _ => None,
    }
}

/// Splits an address into its digest, fragment index and replica index.
pub open spec fn parse_function_name(s: Seq<char>) -> Option<(Seq<char>, nat, nat)> {
    let n = s.len();
    if n < 6 || s[n - 6] != '-' || s[n - 3] != '-' {
        None
    } else {
        match (two_digit_value(s[n - 5], s[n - 4]), two_digit_value(s[n - 2], s[n - 1])) {
            (Some(f), Some(r)) => Some((s.subrange(0, n - 6), f, r)),
            _ => None,
        }
    }
}

/// An address splits back into the digest and indices it was made from.
pub proof fn lemma_function_name_parses(digest: Seq<char>, fragment: nat, replica: nat)
    requires
        fragment < 100,
        replica < 100,
    ensures
        parse_function_name(function_name(digest, fragment, replica)) == Some((digest, fragment, replica)),
{
    let s = function_name(digest, fragment, replica);
    let n = s.len();
    assert(s.subrange(0, n - 6) =~= digest);
    assert(s[n - 6] == '-');
    assert(s[n - 5] == digit_char(fragment / 10));
    assert(s[n - 4] == digit_char(fragment % 10));
    assert(s[n - 3] == '-');
    assert(s[n - 2] == digit_char(replica / 10));
    assert(s[n - 1] == digit_char(replica % 10));
}

/// The one-character string of the digit `d`.
pub(crate) fn digit_str(d: usize) -> (r: &'static str)
    requires
        d < 10,
    ensures
        r@ == seq![digit_char(d as nat)],
{
    if d == 0 {
        proof { reveal_strlit("0"); }
        "0"
    } else if d == 1 {
        proof { reveal_strlit("1"); }
        "1"
    } else if d == 2 {
        proof { reveal_strlit("2"); }
        "2"
    } else if d == 3 {
        proof { reveal_strlit("3"); }
        "3"
    } else if d == 4 {
        proof { reveal_strlit("4"); }
        "4"
    } else if d == 5 {
        proof { reveal_strlit("5"); }
        "5"
    } else if d == 6 {
        proof { reveal_strlit("6"); }
        "6"
    } else if d == 7 {
        proof { reveal_strlit("7"); }
        "7"
    } else if d == 8 {
        proof { reveal_strlit("8"); }
        "8"
    } else {
        proof { reveal_strlit("9"); }
        "9"
    }
}

/// Appends `-` and the two digits of `n` to `s`.
fn push_index(s: &mut String, n: usize)
    requires
        n < 100,
    ensures
        final(s)@ == old(s)@ + seq!['-'] + two_digits(n as nat),
{
    proof { reveal_strlit("-"); }
    s.append("-");
    s.append(digit_str(n / 10));
    s.append(digit_str(n % 10));
    assert(s@ =~= old(s)@ + seq!['-'] + two_digits(n as nat));
}

/// The address shared by the members of fragment `fragment`'s group:
/// `{digest}-{fragment:02}`. Member `j` is this followed by `-{j:02}`.
pub open spec fn group_name(digest: Seq<char>, fragment: nat) -> Seq<char> {
    digest + seq!['-'] + two_digits(fragment)
}

/// The address `{digest}-{fragment:02}` of a fragment's group, which is also
/// where the data generators send their first events (fragment `0`).
pub fn format_group_name(digest: &str, fragment: usize) -> (r: String)
    requires
        fragment < 100,
    ensures
        r@ == group_name(digest@, fragment as nat),
{
    let mut s = String::from_str(digest);
    push_index(&mut s, fragment);
    s
}

/// The address `{digest}-{fragment:02}-{replica:02}`.
pub fn format_function_name(digest: &str, fragment: usize, replica: usize) -> (r: String)
    requires
        fragment < 100,
        replica < 100,
    ensures
        r@ == function_name(digest@, fragment as nat, replica as nat),
        r@ == group_name(digest@, fragment as nat) + seq!['-'] + two_digits(replica as nat),
{
    let mut s = format_group_name(digest, fragment);
    push_index(&mut s, replica);
    s
}

} // verus!
