//! The CPID predicate: a cross-project identifier is the textual form of
//! an MD5 hash, exactly 32 hexadecimal digits in either case.

use vstd::prelude::*;

verus! {

/// A hexadecimal digit, upper or lower case.
pub open spec fn is_hex_digit(c: char) -> bool {
    ('0' as u32 <= c as u32 && c as u32 <= '9' as u32) || ('a' as u32 <= c as u32 && c as u32
        <= 'f' as u32) || ('A' as u32 <= c as u32 && c as u32 <= 'F' as u32)
}

/// A well-formed CPID: exactly 32 hexadecimal digits.
pub open spec fn is_md5_hex_seq(s: Seq<char>) -> bool {
    s.len() == 32 && forall|i: int| 0 <= i < s.len() ==> is_hex_digit(#[trigger] s[i])
}

fn is_hex_digit_exec(c: char) -> (r: bool)
    ensures
        r == is_hex_digit(c),
{
    let u = c as u32;
    ('0' as u32 <= u && u <= '9' as u32) || ('a' as u32 <= u && u <= 'f' as u32) || ('A' as u32 <= u
        && u <= 'F' as u32)
}

/// Decides whether a string is a well-formed CPID.
pub fn is_md5_hex(data: &String) -> (r: bool)
    ensures
        r == is_md5_hex_seq(data@),
{
    let s = data.as_str();
    let n = s.unicode_len();
    if n != 32 {
        return false;
    }
    let mut i: usize = 0;
    while i < 32
        invariant
            0 <= i <= 32,
            data@.len() == 32,
            s@ == data@,
            forall|j: int| 0 <= j < i ==> is_hex_digit(#[trigger] data@[j]),
        decreases 32 - i,
    {
        let c = s.get_char(i);
        if !is_hex_digit_exec(c) {
            return false;
        }
        i = i + 1;
    }
    true
}

/// Decides whether a character vector is a well-formed CPID.
pub fn is_md5_hex_chars(data: &Vec<char>) -> (r: bool)
    ensures
        r == is_md5_hex_seq(data@),
{
    if data.len() != 32 {
        return false;
    }
    let mut i: usize = 0;
    while i < 32
        invariant
            0 <= i <= 32,
            data@.len() == 32,
            forall|j: int| 0 <= j < i ==> is_hex_digit(#[trigger] data@[j]),
        decreases 32 - i,
    {
        if !is_hex_digit_exec(data[i]) {
            return false;
        }
        i = i + 1;
    }
    true
}

} // verus!
