use vstd::prelude::*;

verus! {

/// The decimal digit character for `d` (meaningful for `0 <= d <= 9`).
pub open spec fn spec_digit_char(d: int) -> char {
    if d == 0 {
        '0'
    } else if d == 1 {
        '1'
    } else if d == 2 {
        '2'
    } else if d == 3 {
        '3'
    } else if d == 4 {
        '4'
    } else if d == 5 {
        '5'
    } else if d == 6 {
        '6'
    } else if d == 7 {
        '7'
    } else if d == 8 {
        '8'
    } else {
        '9'
    }
}

/// The numeric value of a decimal digit character, or `-1` for any other character.
pub open spec fn spec_digit_val(c: char) -> int {
    if c == '0' {
        0
    } else if c == '1' {
        1
    } else if c == '2' {
        2
    } else if c == '3' {
        3
    } else if c == '4' {
        4
    } else if c == '5' {
        5
    } else if c == '6' {
        6
    } else if c == '7' {
        7
    } else if c == '8' {
        8
    } else if c == '9' {
        9
    } else {
        -1
    }
}

pub open spec fn spec_is_digit(c: char) -> bool {
    spec_digit_val(c) >= 0
}

/// Reading back the digit character of `d` gives `d` again.
pub proof fn lemma_digit_char_val(d: int)
    requires
        0 <= d <= 9,
    ensures
        spec_digit_val(spec_digit_char(d)) == d,
{
}

/// Rendering the value of a digit character gives the character again.
pub proof fn lemma_digit_val_char(c: char)
    requires
        spec_is_digit(c),
    ensures
        spec_digit_char(spec_digit_val(c)) == c,
{
}

/// Two digits, zero padded (meaningful for `0 <= n <= 99`).
pub open spec fn spec_dec2(n: int) -> Seq<char> {
    seq![spec_digit_char(n / 10), spec_digit_char(n % 10)]
}

/// Four digits, zero padded (meaningful for `0 <= n <= 9999`).
pub open spec fn spec_dec4(n: int) -> Seq<char> {
    seq![
        spec_digit_char(n / 1000),
        spec_digit_char(n / 100 % 10),
        spec_digit_char(n / 10 % 10),
        spec_digit_char(n % 10),
    ]
}

/// The shortest decimal digit string of a nonnegative number.
pub open spec fn spec_digits(n: int) -> Seq<char>
    decreases n,
{
    if n <= 0 {
        seq!['0']
    } else if n < 10 {
        seq![spec_digit_char(n)]
    } else {
        spec_digits(n / 10).push(spec_digit_char(n % 10))
    }
}

/// The decimal rendering of a (possibly negative) number.
pub open spec fn spec_int_digits(n: int) -> Seq<char> {
    if n < 0 {
        seq!['-'] + spec_digits(-n)
    } else {
        spec_digits(n)
    }
}

pub fn digit_char(d: u32) -> (c: char)
    requires
        d <= 9,
    ensures
        c == spec_digit_char(d as int),
{
    match d {
        0 => '0',
        1 => '1',
        2 => '2',
        3 => '3',
        4 => '4',
        5 => '5',
        6 => '6',
        7 => '7',
        8 => '8',
        _ => '9',
    }
}

pub fn digit_val(c: char) -> (d: i32)
    ensures
        d == spec_digit_val(c),
{
    match c {
        '0' => 0,
        '1' => 1,
        '2' => 2,
        '3' => 3,
        '4' => 4,
        '5' => 5,
        '6' => 6,
        '7' => 7,
        '8' => 8,
        '9' => 9,
        _ => -1,
    }
}

/// Appends the two zero-padded digits of `n` to `out`.
pub fn push_dec2(out: &mut Vec<char>, n: u32)
    requires
        n <= 99,
    ensures
        final(out)@ == old(out)@ + spec_dec2(n as int),
{
    out.push(digit_char(n / 10));
    out.push(digit_char(n % 10));
    assert(final(out)@ =~= old(out)@ + spec_dec2(n as int));
}

/// Appends the four zero-padded digits of `n` to `out`.
pub fn push_dec4(out: &mut Vec<char>, n: u32)
    requires
        n <= 9999,
    ensures
        final(out)@ == old(out)@ + spec_dec4(n as int),
{
    out.push(digit_char(n / 1000));
    out.push(digit_char(n / 100 % 10));
    out.push(digit_char(n / 10 % 10));
    out.push(digit_char(n % 10));
    assert(final(out)@ =~= old(out)@ + spec_dec4(n as int));
}

/// Appends the shortest decimal rendering of `n` to `out`.
pub fn push_digits(out: &mut Vec<char>, n: u32)
    ensures
        final(out)@ == old(out)@ + spec_digits(n as int),
    decreases n,
{
    if n < 10 {
        out.push(digit_char(n));
        assert(final(out)@ =~= old(out)@ + spec_digits(n as int));
    } else {
        push_digits(out, n / 10);
        out.push(digit_char(n % 10));
        assert(final(out)@ =~= old(out)@ + spec_digits(n as int));
    }
}

/// Appends the decimal rendering of `n`, with a leading `-` when negative.
pub fn push_int_digits(out: &mut Vec<char>, n: i32)
    ensures
        final(out)@ == old(out)@ + spec_int_digits(n as int),
{
    if n < 0 {
        out.push('-');
        let mag: u32 = (-(n as i64)) as u32;
        assert(mag as int == -(n as int));
        push_digits(out, mag);
        assert(final(out)@ =~= old(out)@ + spec_int_digits(n as int));
    } else {
        push_digits(out, n as u32);
    }
}

/// Character-for-character equality of two text slices.
pub fn text_eq(a: &str, b: &str) -> (r: bool)
    ensures
        r <==> a@ == b@,
{
    let a_len = a.unicode_len();
    let b_len = b.unicode_len();
    if a_len != b_len {
        proof {
            assert(a@.len() != b@.len());
        }
        return false;
    }
    let mut i: usize = 0;
    while i < a_len
        invariant
            i <= a_len,
            a_len == a@.len(),
            a_len == b@.len(),
            forall|j: int| 0 <= j < i ==> a@[j] == b@[j],
        decreases a_len - i,
    {
        if a.get_char(i) != b.get_char(i) {
            return false;
        }
        i += 1;
    }
    proof {
        assert(a@ =~= b@);
    }
    true
}

/// Relies on `String`'s `FromIterator` impl: collecting characters yields a
/// string holding exactly those characters in order.
#[verifier::external_body]
pub fn chars_to_string(v: &Vec<char>) -> (r: String)
    ensures
        r@ == v@,
{
    v.iter().collect()
}

/// The characters of `s`, in order, as a vector.
pub fn str_to_chars(s: &str) -> (r: Vec<char>)
    ensures
        r@ == s@,
{
    let len = s.unicode_len();
    let mut out: Vec<char> = Vec::new();
    let mut i: usize = 0;
    while i < len
        invariant
            i <= len,
            len == s@.len(),
            out@ =~= s@.take(i as int),
        decreases len - i,
    {
        out.push(s.get_char(i));
        assert(out@ =~= s@.take(i as int + 1));
        i += 1;
    }
    proof {
        assert(s@.take(len as int) =~= s@);
    }
    out
}

} // verus!
