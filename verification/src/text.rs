//! Building text: decimal numbers and character appends.
use vstd::prelude::*;
use vstd::string::StrSliceExecFns;

verus! {

/// The decimal digit character of `d`.
pub open spec fn spec_digit(d: nat) -> char {
    if d == 0 {
        '0'
    } else if d == 1 {
        '1'
    } else if d == 2 {
        '2'
    } else if d == 3 {
        '3'
    } else if d == 4 {
        '4'
    } else if d == 5 {
        '5'
    } else if d == 6 {
        '6'
    } else if d == 7 {
        '7'
    } else if d == 8 {
        '8'
    } else {
        '9'
    }
}

/// Decimal text of a natural number, without leading zeros.
pub open spec fn spec_uint_text(n: nat) -> Seq<char>
    decreases n,
{
    if n < 10 {
        seq![spec_digit(n)]
    } else {
        spec_uint_text(n / 10) + seq![spec_digit(n % 10)]
    }
}

/// Decimal text of an integer, with a leading `-` when negative.
pub open spec fn spec_int_text(i: int) -> Seq<char> {
    if i < 0 {
        seq!['-'] + spec_uint_text((-i) as nat)
    } else {
        spec_uint_text(i as nat)
    }
}

fn digit(d: u128) -> (c: char)
    requires
        d < 10,
    ensures
        c == spec_digit(d as nat),
{
    if d == 0 {
        '0'
    } else if d == 1 {
        '1'
    } else if d == 2 {
        '2'
    } else if d == 3 {
        '3'
    } else if d == 4 {
        '4'
    } else if d == 5 {
        '5'
    } else if d == 6 {
        '6'
    } else if d == 7 {
        '7'
    } else if d == 8 {
        '8'
    } else {
        '9'
    }
}

/// Appends one character (`String::push`).
#[verifier::external_body]
pub fn push_char(s: &mut String, c: char)
    ensures
        final(s)@ == old(s)@.push(c),
{
    s.push(c);
}

pub fn append_uint(s: &mut String, n: u128)
    ensures
        final(s)@ == old(s)@ + spec_uint_text(n as nat),
    decreases n,
{
    if n < 10 {
        push_char(s, digit(n));
        assert(spec_uint_text(n as nat) == seq![spec_digit(n as nat)]);
    } else {
        append_uint(s, n / 10);
        push_char(s, digit(n % 10));
        assert(spec_uint_text(n as nat) == spec_uint_text((n / 10) as nat) + seq![spec_digit((n % 10) as nat)]);
    }
}

/// Appends the decimal text of `i`.
pub fn append_int(s: &mut String, i: i128)
    ensures
        final(s)@ == old(s)@ + spec_int_text(i as int),
{
    if i < 0 {
        push_char(s, '-');
        let m: u128 = ((-(i + 1)) as u128) + 1;
        assert(m as int == -(i as int));
        append_uint(s, m);
        assert(old(s)@.push('-') + spec_uint_text(m as nat) =~= old(s)@ + (seq!['-'] + spec_uint_text(m as nat)));
    } else {
        append_uint(s, i as u128);
    }
}

/// Decimal text of an address or count.
pub fn uint_text(n: usize) -> (r: String)
    ensures
        r@ == spec_uint_text(n as nat),
{
    let mut s = String::new();
    append_uint(&mut s, n as u128);
    assert(s@ =~= spec_uint_text(n as nat));
    s
}

/// Decimal text of an integer.
pub fn int_text(i: i128) -> (r: String)
    ensures
        r@ == spec_int_text(i as int),
{
    let mut s = String::new();
    append_int(&mut s, i);
    assert(s@ =~= spec_int_text(i as int));
    s
}

/// Number of characters of `s`.
pub fn char_count(s: &String) -> (r: usize)
    ensures
        r == s@.len(),
{
    s.as_str().unicode_len()
}

/// The character at position `i` of `s`.
pub fn char_at(s: &String, i: usize) -> (r: char)
    requires
        i < s@.len(),
    ensures
        r == s@[i as int],
{
    s.as_str().get_char(i)
}

/// Appends the characters of `cs` in order.
pub fn append_chars(s: &mut String, cs: &[char])
    ensures
        final(s)@ == old(s)@ + cs@,
{
    let mut i: usize = 0;
    while i < cs.len()
        invariant
            i <= cs@.len(),
            s@ == old(s)@ + cs@.take(i as int),
        decreases cs.len() - i,
    {
        push_char(s, cs[i]);
        assert(cs@.take(i + 1) =~= cs@.take(i as int).push(cs@[i as int]));
        i = i + 1;
    }
    assert(cs@.take(i as int) =~= cs@);
}

/// Appends `t` (`String::append` of vstd, named for the reader).
pub fn append_str(s: &mut String, t: &str)
    ensures
        final(s)@ == old(s)@ + t@,
{
    s.append(t);
}

} // verus!
