//! Text forms of numbers, addresses and flow keys.
use vstd::prelude::*;

verus! {

/// The character of a decimal digit.
pub open spec fn digit_char(d: nat) -> char {
    (48 + d) as char
}

/// The decimal digits of `n`, most significant first, without leading zeros.
pub open spec fn dec_digits(n: nat) -> Seq<char>
    decreases n,
{
    if n < 10 {
        seq![digit_char(n)]
    } else {
        dec_digits(n / 10).push(digit_char(n % 10))
    }
}

/// The separator between the four parts of a flow key.
pub open spec fn key_sep() -> Seq<char> {
    seq![',', ' ']
}

/// The key of a flow: its source, destination, source port and destination port,
/// separated by a comma and a space.
pub open spec fn flow_key_text(a: Seq<char>, b: Seq<char>, c: Seq<char>, d: Seq<char>) -> Seq<
    char,
> {
    a + key_sep() + b + key_sep() + c + key_sep() + d
}

/// The dotted-decimal text of an IPv4 address.
pub open spec fn ipv4_text(a: u8, b: u8, c: u8, d: u8) -> Seq<char> {
    dec_digits(a as nat) + seq!['.'] + dec_digits(b as nat) + seq!['.'] + dec_digits(c as nat)
        + seq!['.'] + dec_digits(d as nat)
}

/// The one-character text of a decimal digit.
fn digit_str(d: u64) -> (s: &'static str)
    requires
        d < 10,
    ensures
        s@ == seq![digit_char(d as nat)],
{
    if d == 0 {
        proof { reveal_strlit("0"); }
        "0"
    } else if d == 1 {
        proof { reveal_strlit("1"); }
        "1"
    } else if d == 2 {
        proof { reveal_strlit("2"); }
        "2"
    } else if d == 3 {
        proof { reveal_strlit("3"); }
        "3"
    } else if d == 4 {
        proof { reveal_strlit("4"); }
        "4"
    } else if d == 5 {
        proof { reveal_strlit("5"); }
        "5"
    } else if d == 6 {
        proof { reveal_strlit("6"); }
        "6"
    } else if d == 7 {
        proof { reveal_strlit("7"); }
        "7"
    } else if d == 8 {
        proof { reveal_strlit("8"); }
        "8"
    } else {
        proof { reveal_strlit("9"); }
        "9"
    }
}

/// Appends the decimal digits of `n` to `s`.
pub fn push_decimal(s: &mut String, n: u64)
    ensures
        final(s)@ == old(s)@ + dec_digits(n as nat),
    decreases n,
{
    if n >= 10 {
        push_decimal(s, n / 10);
    }
    let d = digit_str(n % 10);
    s.append(d);
    proof {
        assert(final(s)@ =~= old(s)@ + dec_digits(n as nat));
    }
}

/// The decimal text of `n`, as `to_string` writes it.
pub fn decimal(n: u64) -> (s: String)
    ensures
        s@ == dec_digits(n as nat),
{
    let mut s = String::new();
    push_decimal(&mut s, n);
    proof {
        assert(s@ =~= dec_digits(n as nat));
    }
    s
}

/// Appends the separator of a flow key.
fn push_key_sep(s: &mut String)
    ensures
        final(s)@ == old(s)@ + key_sep(),
{
    proof { reveal_strlit(", "); }
    s.append(", ");
    proof {
        assert(final(s)@ =~= old(s)@ + key_sep());
    }
}

/// The key of the flow from `a` to `b`, with ports `c` and `d`.
pub fn flow_key(a: &str, b: &str, c: &str, d: &str) -> (k: String)
    ensures
        k@ == flow_key_text(a@, b@, c@, d@),
{
    let mut k = String::from_str(a);
    push_key_sep(&mut k);
    k.append(b);
    push_key_sep(&mut k);
    k.append(c);
    push_key_sep(&mut k);
    k.append(d);
    proof {
        assert(k@ =~= flow_key_text(a@, b@, c@, d@));
    }
    k
}

/// Appends a dot.
fn push_dot(s: &mut String)
    ensures
        final(s)@ == old(s)@ + seq!['.'],
{
    proof { reveal_strlit("."); }
    s.append(".");
    proof {
        assert(final(s)@ =~= old(s)@ + seq!['.']);
    }
}

/// The dotted-decimal text of the IPv4 address `a.b.c.d`.
pub fn ipv4_string(a: u8, b: u8, c: u8, d: u8) -> (s: String)
    ensures
        s@ == ipv4_text(a, b, c, d),
{
    let mut s = String::new();
    push_decimal(&mut s, a as u64);
    push_dot(&mut s);
    push_decimal(&mut s, b as u64);
    push_dot(&mut s);
    push_decimal(&mut s, c as u64);
    push_dot(&mut s);
    push_decimal(&mut s, d as u64);
    proof {
        assert(s@ =~= ipv4_text(a, b, c, d));
    }
    s
}

/// What `{:?}` writes for a string: the string quoted, with escapes.
pub uninterp spec fn debug_text(s: Seq<char>) -> Seq<char>;

/// The `Debug` text of a string, as `format!("{:?}", s)` writes it (std's
/// `<str as Debug>::fmt`). The contract names the result and says no more of it.
#[verifier::external_body]
pub(crate) fn debug_string(s: &str) -> (r: String)
    ensures
        r@ == debug_text(s@),
{
    format!("{:?}", s)
}

/// The text of a boolean: `true` or `false`.
pub open spec fn bool_text(b: bool) -> Seq<char> {
    if b {
        seq!['t', 'r', 'u', 'e']
    } else {
        seq!['f', 'a', 'l', 's', 'e']
    }
}

/// Appends the text of a boolean.
pub fn push_bool(s: &mut String, b: bool)
    ensures
        final(s)@ == old(s)@ + bool_text(b),
{
    if b {
        proof { reveal_strlit("true"); }
        s.append("true");
    } else {
        proof { reveal_strlit("false"); }
        s.append("false");
    }
    proof {
        assert(final(s)@ =~= old(s)@ + bool_text(b));
    }
}

} // verus!
