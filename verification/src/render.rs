//! Rendering of plain values into text: decimal numbers, human-readable
//! byte sizes, and the character-vector bridge used to assemble strings.

use vstd::prelude::*;

verus! {

/// The decimal digit character for a value below ten.
pub open spec fn digit_char(d: nat) -> char {
    if d == 0 {
        '0'
    } else if d == 1 {
        '1'
    } else if d == 2 {
        '2'
    } else if d == 3 {
        '3'
    } else if d == 4 {
        '4'
    } else if d == 5 {
        '5'
    } else if d == 6 {
        '6'
    } else if d == 7 {
        '7'
    } else if d == 8 {
        '8'
    } else {
        '9'
    }
}

/// The decimal digit characters of `n`, most significant first.
pub open spec fn dec_chars(n: nat) -> Seq<char>
    decreases n,
{
    if n < 10 {
        seq![digit_char(n)]
    } else {
        dec_chars(n / 10) + seq![digit_char(n % 10)]
    }
}

/// The decimal rendering of a signed value: a minus sign before the digits
/// of its magnitude.
pub open spec fn dec_chars_signed(n: int) -> Seq<char> {
    if n < 0 {
        seq!['-'] + dec_chars((-n) as nat)
    } else {
        dec_chars(n as nat)
    }
}

/// Relies on `String: FromIterator<char>` of std: collecting characters
/// yields the string of exactly those characters in order.
#[verifier::external_body]
pub(crate) fn string_from_chars(v: &Vec<char>) -> (r: String)
    ensures
        r@ == v@,
{
    v.iter().collect()
}

fn digit_char_exec(d: u64) -> (r: char)
    requires
        d < 10,
    ensures
        r == digit_char(d as nat),
{
    if d == 0 {
        '0'
    } else if d == 1 {
        '1'
    } else if d == 2 {
        '2'
    } else if d == 3 {
        '3'
    } else if d == 4 {
        '4'
    } else if d == 5 {
        '5'
    } else if d == 6 {
        '6'
    } else if d == 7 {
        '7'
    } else if d == 8 {
        '8'
    } else {
        '9'
    }
}

/// The decimal digit characters of `n`, as a vector.
pub fn dec_digits(n: u64) -> (r: Vec<char>)
    ensures
        r@ == dec_chars(n as nat),
{
    let mut digits: Vec<char> = Vec::new();
    let mut m: u64 = n;
    loop
        invariant_except_break
            dec_chars(n as nat) == dec_chars(m as nat) + digits@.reverse(),
        ensures
            dec_chars(n as nat) == digits@.reverse(),
        decreases m,
    {
        let ghost pre = digits@;
        let d = m % 10;
        digits.push(digit_char_exec(d));
        proof {
            assert(digits@.reverse() =~= seq![digit_char(d as nat)] + pre.reverse());
        }
        m = m / 10;
        if m == 0 {
            break ;
        }
    }
    let ghost rev = digits@;
    let mut out: Vec<char> = Vec::new();
    let len = digits.len();
    let mut i: usize = 0;
    while i < len
        invariant
            len == rev.len() == digits@.len(),
            digits@ == rev,
            0 <= i <= len,
            out@ =~= rev.reverse().take(i as int),
        decreases len - i,
    {
        out.push(digits[len - 1 - i]);
        i = i + 1;
        proof {
            assert(out@ =~= rev.reverse().take(i as int));
        }
    }
    proof {
        assert(out@ =~= rev.reverse());
    }
    out
}

/// The decimal rendering of `n` as a string.
pub fn u64_to_string(n: u64) -> (r: String)
    ensures
        r@ == dec_chars(n as nat),
{
    let digits = dec_digits(n);
    string_from_chars(&digits)
}

/// The decimal rendering of a signed value as a string.
pub fn i64_to_string(n: i64) -> (r: String)
    ensures
        r@ == dec_chars_signed(n as int),
{
    if n < 0 {
        let mag: u64 = if n == i64::MIN {
            9223372036854775808u64
        } else {
            (-n) as u64
        };
        let mut chars: Vec<char> = Vec::new();
        chars.push('-');
        let mut digits = dec_digits(mag);
        chars.append(&mut digits);
        string_from_chars(&chars)
    } else {
        u64_to_string(n as u64)
    }
}

/// Tenths of `n` divided by `div`, rounded to nearest with ties to even.
pub open spec fn round_tenths(n: nat, div: nat) -> nat {
    let q = n * 10 / div;
    let rem = n * 10 % div;
    if 2 * rem > div {
        q + 1
    } else if 2 * rem == div && q % 2 == 1 {
        q + 1
    } else {
        q
    }
}

/// Human-readable size: whole bytes below a kibibyte, otherwise one decimal
/// place of kibibytes or mebibytes, rounded to nearest with ties to even.
pub open spec fn format_size_chars(n: nat) -> Seq<char> {
    if n >= 1048576 {
        let t = round_tenths(n, 1048576);
        dec_chars(t / 10) + seq!['.', digit_char(t % 10), 'M', 'B']
    } else if n >= 1024 {
        let t = round_tenths(n, 1024);
        dec_chars(t / 10) + seq!['.', digit_char(t % 10), 'K', 'B']
    } else {
        dec_chars(n) + seq!['B']
    }
}

/// Format a byte count with a unit suffix, as shown in truncation notices.
pub fn format_size(bytes: usize) -> (r: String)
    ensures
        r@ == format_size_chars(bytes as nat),
{
    let n = bytes as u64;
    if n >= 1048576 {
        let t10: u128 = n as u128 * 10;
        let q = t10 / 1048576;
        let rem = t10 % 1048576;
        proof {
            assert(t10 == n as nat * 10);
            assert(q * 1048576 + rem == t10 && rem < 1048576) by (nonlinear_arith)
                requires
                    q == t10 / 1048576,
                    rem == t10 % 1048576,
            ;
            assert(q < 0x1_0000_0000_0000u128) by (nonlinear_arith)
                requires
                    q * 1048576 + rem == t10,
                    t10 < 0x1_0000_0000_0000_0000_0u128,
            ;
        }
        let t: u64 = if 2 * rem > 1048576 {
            (q + 1) as u64
        } else if 2 * rem == 1048576 && q % 2 == 1 {
            (q + 1) as u64
        } else {
            q as u64
        };
        proof {
            assert(t == round_tenths(n as nat, 1048576));
        }
        let mut chars = dec_digits(t / 10);
        chars.push('.');
        chars.push(digit_char_exec(t % 10));
        chars.push('M');
        chars.push('B');
        string_from_chars(&chars)
    } else if n >= 1024 {
        let t10 = n * 10;
        let q = t10 / 1024;
        let rem = t10 % 1024;
        let t: u64 = if 2 * rem > 1024 {
            q + 1
        } else if 2 * rem == 1024 && q % 2 == 1 {
            q + 1
        } else {
            q
        };
        proof {
            assert(t == round_tenths(n as nat, 1024));
        }
        let mut chars = dec_digits(t / 10);
        chars.push('.');
        chars.push(digit_char_exec(t % 10));
        chars.push('K');
        chars.push('B');
        string_from_chars(&chars)
    } else {
        let mut chars = dec_digits(n);
        chars.push('B');
        string_from_chars(&chars)
    }
}

} // verus!
