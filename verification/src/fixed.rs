//! Fixed-point scalars with eight decimal places.
//!
//! Every credit and time value is held as a `u64` count of `1/SCALE`
//! units.  Both external text formats carry numbers as fixed point with
//! exactly eight fractional digits, so this representation is exact for
//! every value that can appear in a checkpoint or in the XML output.

use crate::chars::split_chars;
use crate::chars::split_seq;
use vstd::prelude::*;
use vstd::string::StringExecFns;

verus! {

/// Representable steps per whole unit: eight decimal places.
pub const SCALE: u64 = 100_000_000;

/// A decimal digit.
pub open spec fn is_digit(c: char) -> bool {
    '0' as u32 <= c as u32 && c as u32 <= '9' as u32
}

/// The numeric value of a decimal digit character.
pub open spec fn digit_val(c: char) -> int {
    c as u32 - '0' as u32
}

/// The character for a decimal digit value.
pub open spec fn digit_char(d: int) -> char {
    if d == 0 {
        '0'
    } else if d == 1 {
        '1'
    } else if d == 2 {
        '2'
    } else if d == 3 {
        '3'
    } else if d == 4 {
        '4'
    } else if d == 5 {
        '5'
    } else if d == 6 {
        '6'
    } else if d == 7 {
        '7'
    } else if d == 8 {
        '8'
    } else {
        '9'
    }
}

pub open spec fn all_digits(s: Seq<char>) -> bool {
    forall|i: int| 0 <= i < s.len() ==> is_digit(#[trigger] s[i])
}

/// The value of a string of decimal digits, most significant first.
pub open spec fn dec_val(s: Seq<char>) -> int
    decreases s.len(),
{
    if s.len() == 0 {
        0
    } else {
        dec_val(s.drop_last()) * 10 + digit_val(s.last())
    }
}

/// The shortest decimal rendering of a natural number.
pub open spec fn dec_str(n: nat) -> Seq<char>
    decreases n,
{
    if n < 10 {
        seq![digit_char(n as int)]
    } else {
        dec_str(n / 10) + seq![digit_char((n % 10) as int)]
    }
}

/// The decimal rendering of `n` padded with leading zeros to `k` digits.
pub open spec fn pad_str(n: nat, k: nat) -> Seq<char>
    decreases k,
{
    if k == 0 {
        Seq::<char>::empty()
    } else {
        pad_str(n / 10, (k - 1) as nat) + seq![digit_char((n % 10) as int)]
    }
}

pub open spec fn pow10(k: nat) -> int
    decreases k,
{
    if k == 0 {
        1
    } else {
        10 * pow10((k - 1) as nat)
    }
}

/// The canonical text of a fixed-point scalar: the whole-unit part, a
/// point, and exactly eight fractional digits.
pub open spec fn fixed_str(v: u64) -> Seq<char> {
    dec_str((v / SCALE) as nat) + seq!['.'] + pad_str((v % SCALE) as nat, 8)
}

/// The value of a fractional field: its first eight digits, right-padded
/// with zeros to eight places.
pub open spec fn frac8_val(s: Seq<char>) -> int {
    let m = if s.len() < 8 {
        s.len() as int
    } else {
        8
    };
    dec_val(s.take(m)) * pow10((8 - m) as nat)
}

/// The meaning of a numeric field: one or more digits, an optional point
/// followed by one or more digits, no sign, no exponent.  Fractional
/// digits beyond the eighth are dropped.  `None` for anything else, and
/// for values too large for the representation.
pub open spec fn parse_fixed_spec(s: Seq<char>) -> Option<u64> {
    let parts = split_seq(s, '.');
    if parts.len() == 1 && parts[0].len() >= 1 && all_digits(parts[0]) && dec_val(parts[0]) * SCALE
        <= u64::MAX {
        Some((dec_val(parts[0]) * SCALE) as u64)
    } else if parts.len() == 2 && parts[0].len() >= 1 && all_digits(parts[0]) && parts[1].len() >= 1
        && all_digits(parts[1]) && dec_val(parts[0]) * SCALE + frac8_val(parts[1]) <= u64::MAX {
        Some((dec_val(parts[0]) * SCALE + frac8_val(parts[1])) as u64)
    } else {
        None
    }
}

pub proof fn lemma_dec_val_push(a: Seq<char>, c: char)
    ensures
        dec_val(a.push(c)) == dec_val(a) * 10 + digit_val(c),
{
    assert(a.push(c).drop_last() =~= a);
    assert(a.push(c).last() == c);
}

pub proof fn lemma_dec_val_nonneg(s: Seq<char>)
    requires
        all_digits(s),
    ensures
        dec_val(s) >= 0,
    decreases s.len(),
{
    if s.len() > 0 {
        assert(all_digits(s.drop_last()));
        lemma_dec_val_nonneg(s.drop_last());
    }
}

pub proof fn lemma_dec_val_take_le(s: Seq<char>, i: int)
    requires
        all_digits(s),
        0 <= i <= s.len(),
    ensures
        dec_val(s.take(i)) <= dec_val(s),
    decreases s.len() - i,
{
    if i == s.len() {
        assert(s.take(i) =~= s);
    } else {
        assert(s.take(i + 1) =~= s.take(i).push(s[i]));
        lemma_dec_val_push(s.take(i), s[i]);
        assert(all_digits(s.take(i)));
        lemma_dec_val_nonneg(s.take(i));
        lemma_dec_val_take_le(s, i + 1);
    }
}

/// Converts a decimal digit value to its character.
pub fn digit_to_char(d: u64) -> (c: char)
    requires
        d < 10,
    ensures
        c == digit_char(d as int),
        crate::hex::is_hex_digit(c),
        is_digit(c),
        digit_val(c) == d,
{
    match d {
        0 => '0',
        1 => '1',
        2 => '2',
        3 => '3',
        4 => '4',
        5 => '5',
        6 => '6',
        7 => '7',
        8 => '8',
        _ => '9',
    }
}

/// Appends the shortest decimal rendering of `n`.
pub fn push_u64(out: &mut String, n: u64)
    ensures
        final(out)@ == old(out)@ + dec_str(n as nat),
    decreases n,
{
    if n >= 10 {
        push_u64(out, n / 10);
    }
    let c = digit_to_char(n % 10);
    crate::chars::push_hex_char(out, c);
    proof {
        assert(out@ =~= old(out)@ + dec_str(n as nat));
    }
}

/// Appends the decimal rendering of `n` padded with leading zeros to `k`
/// digits.
pub fn push_padded(out: &mut String, n: u64, k: u64)
    ensures
        final(out)@ == old(out)@ + pad_str(n as nat, k as nat),
    decreases k,
{
    if k > 0 {
        push_padded(out, n / 10, k - 1);
        let c = digit_to_char(n % 10);
        crate::chars::push_hex_char(out, c);
        proof {
            assert(out@ =~= old(out)@ + pad_str(n as nat, k as nat));
        }
    } else {
        proof {
            assert(out@ =~= old(out)@ + pad_str(n as nat, 0));
        }
    }
}

/// Appends the canonical fixed-point text of `v`.
pub fn push_fixed(out: &mut String, v: u64)
    ensures
        final(out)@ == old(out)@ + fixed_str(v),
{
    push_u64(out, v / SCALE);
    proof {
        reveal_strlit(".");
        assert("."@ =~= seq!['.']);
    }
    out.append(".");
    push_padded(out, v % SCALE, 8);
    proof {
        assert(out@ =~= old(out)@ + fixed_str(v));
    }
}

/// Parses a string of decimal digits whose value fits in `u64`.
fn parse_digits(v: &Vec<char>, from: usize, to: usize) -> (r: Option<u64>)
    requires
        0 <= from <= to <= v@.len(),
    ensures
        r == (if v@.subrange(from as int, to as int).len() >= 1 && all_digits(
            v@.subrange(from as int, to as int),
        ) && dec_val(v@.subrange(from as int, to as int)) <= u64::MAX {
            Some(dec_val(v@.subrange(from as int, to as int)) as u64)
        } else {
            None
        }),
{
    let ghost s = v@.subrange(from as int, to as int);
    if from == to {
        return None;
    }
    let mut acc: u128 = 0;
    let mut i: usize = from;
    while i < to
        invariant
            from <= i <= to <= v@.len(),
            s == v@.subrange(from as int, to as int),
            all_digits(s.take(i - from)),
            acc == dec_val(s.take(i - from)),
            acc <= u64::MAX,
        decreases to - i,
    {
        let c = v[i];
        let u = c as u32;
        if !(48 <= u && u <= 57) {
            assert(!is_digit(s[i - from]));
            return None;
        }
        let d: u128 = (u - 48) as u128;
        proof {
            assert(s.take(i - from + 1) =~= s.take(i - from).push(s[i - from]));
            lemma_dec_val_push(s.take(i - from), s[i - from]);
        }
        acc = acc * 10 + d;
        i = i + 1;
        if acc > u64::MAX as u128 {
            proof {
                if all_digits(s) {
                    lemma_dec_val_take_le(s, i - from);
                }
            }
            return None;
        }
    }
    proof {
        assert(s.take(to - from) =~= s);
    }
    Some(acc as u64)
}

/// Parses a numeric field as a fixed-point scalar.
pub fn parse_fixed(v: &Vec<char>) -> (r: Option<u64>)
    ensures
        r == parse_fixed_spec(v@),
{
    let parts = split_chars(v, '.');
    let ghost sparts = split_seq(v@, '.');
    proof {
        crate::chars::lemma_split_seq_len(v@, '.');
        assert(parts@.len() == sparts.len());
        assert(parts@.map_values(|p: Vec<char>| p@)[0] == parts@[0]@);
    }
    if parts.len() == 1 {
        let p0 = &parts[0];
        let units = match parse_digits(p0, 0, p0.len()) {
            Some(u) => u,
            None => {
                proof {
                    assert(p0@.subrange(0, p0@.len() as int) =~= p0@);
                }
                return None;
            },
        };
        proof {
            assert(p0@.subrange(0, p0@.len() as int) =~= p0@);
            lemma_dec_val_nonneg(p0@);
        }
        let scaled: u128 = (units as u128) * (SCALE as u128);
        if scaled > u64::MAX as u128 {
            return None;
        }
        Some(scaled as u64)
    } else if parts.len() == 2 {
        proof {
            assert(parts@.map_values(|p: Vec<char>| p@)[1] == parts@[1]@);
        }
        let p0 = &parts[0];
        let p1 = &parts[1];
        if p1.len() == 0 {
            return None;
        }
        if !check_digits(p1, 0, p1.len()) {
            proof {
                assert(p1@.subrange(0, p1@.len() as int) =~= p1@);
            }
            return None;
        }
        proof {
            assert(p1@.subrange(0, p1@.len() as int) =~= p1@);
            lemma_frac8_val_nonneg(p1@);
        }
        let units = match parse_digits(p0, 0, p0.len()) {
            Some(u) => u,
            None => {
                proof {
                    assert(p0@.subrange(0, p0@.len() as int) =~= p0@);
                    if all_digits(p0@) && p0@.len() >= 1 {
                        lemma_dec_val_nonneg(p0@);
                        assert(dec_val(p0@) > u64::MAX);
                    }
                }
                return None;
            },
        };
        proof {
            assert(p0@.subrange(0, p0@.len() as int) =~= p0@);
            lemma_dec_val_nonneg(p0@);
        }
        let m = if p1.len() < 8 {
            p1.len()
        } else {
            8
        };
        let fv = match parse_digits(p1, 0, m) {
            Some(f) => f,
            None => {
                proof {
                    let sub = p1@.subrange(0, m as int);
                    assert(all_digits(sub)) by {
                        assert(forall|j: int| 0 <= j < m ==> sub[j] == p1@[j]);
                    }
                    lemma_dec_val_bound(sub);
                    lemma_pow10_mul(m as nat, (8 - m) as nat);
                    lemma_pow10_pos((8 - m) as nat);
                    lemma_pow10_pos(m as nat);
                    lemma_pow10_values();
                    assert(pow10(m as nat) <= 100000000) by (nonlinear_arith)
                        requires
                            pow10(m as nat) * pow10((8 - m) as nat) == 100000000,
                            pow10((8 - m) as nat) >= 1,
                            pow10(m as nat) >= 1,
                    ;
                    assert(dec_val(sub) <= u64::MAX);
                    assert(false);
                }
                return None;
            },
        };
        proof {
            assert(p1@.subrange(0, m as int) =~= p1@.take(m as int));
        }
        let mult = pow10_exec(8 - (m as u64));
        proof {
            lemma_dec_val_nonneg(p1@.subrange(0, m as int));
            lemma_pow10_pos((8 - m) as nat);
            lemma_frac8_bound(p1@, m as int);
        }
        let frac: u128 = (fv as u128) * (mult as u128);
        let scaled: u128 = (units as u128) * (SCALE as u128);
        let total: u128 = scaled + frac;
        if total > u64::MAX as u128 {
            return None;
        }
        Some(total as u64)
    } else {
        None
    }
}

/// Decides whether a range of characters consists of decimal digits.
fn check_digits(v: &Vec<char>, from: usize, to: usize) -> (r: bool)
    requires
        0 <= from <= to <= v@.len(),
    ensures
        r == all_digits(v@.subrange(from as int, to as int)),
{
    let ghost s = v@.subrange(from as int, to as int);
    let mut i: usize = from;
    while i < to
        invariant
            from <= i <= to <= v@.len(),
            s == v@.subrange(from as int, to as int),
            forall|j: int| 0 <= j < i - from ==> is_digit(#[trigger] s[j]),
        decreases to - i,
    {
        let u = v[i] as u32;
        if !(48 <= u && u <= 57) {
            assert(!is_digit(s[i - from]));
            return false;
        }
        i = i + 1;
    }
    true
}

proof fn lemma_frac8_val_nonneg(s: Seq<char>)
    requires
        all_digits(s),
    ensures
        frac8_val(s) >= 0,
{
    let m = if s.len() < 8 {
        s.len() as int
    } else {
        8
    };
    assert(all_digits(s.take(m)));
    lemma_dec_val_nonneg(s.take(m));
    lemma_pow10_pos((8 - m) as nat);
}

/// The concrete values of the small powers of ten.
pub proof fn lemma_pow10_values()
    ensures
        pow10(0) == 1,
        pow10(1) == 10,
        pow10(2) == 100,
        pow10(3) == 1000,
        pow10(4) == 10000,
        pow10(5) == 100000,
        pow10(6) == 1000000,
        pow10(7) == 10000000,
        pow10(8) == 100000000,
{
    assert(pow10(0) == 1);
    assert(pow10(1) == 10);
    assert(pow10(2) == 100);
    assert(pow10(3) == 1000);
    assert(pow10(4) == 10000);
    assert(pow10(5) == 100000);
    assert(pow10(6) == 1000000);
    assert(pow10(7) == 10000000);
    assert(pow10(8) == 100000000);
}

proof fn lemma_pow10_pos(k: nat)
    ensures
        pow10(k) >= 1,
    decreases k,
{
    if k > 0 {
        lemma_pow10_pos((k - 1) as nat);
    }
}

/// When the fractional field has been truncated to its first `m <= 8`
/// digits, its scaled value stays below one whole unit.
proof fn lemma_frac8_bound(s: Seq<char>, m: int)
    requires
        all_digits(s),
        m == (if s.len() < 8 {
            s.len() as int
        } else {
            8
        }),
    ensures
        frac8_val(s) == dec_val(s.take(m)) * pow10((8 - m) as nat),
        dec_val(s.take(m)) < pow10(m as nat),
        frac8_val(s) < SCALE,
{
    assert(all_digits(s.take(m)));
    lemma_dec_val_bound(s.take(m));
    lemma_pow10_pos((8 - m) as nat);
    lemma_pow10_mul(m as nat, (8 - m) as nat);
    lemma_pow10_values();
    let a = dec_val(s.take(m));
    let p = pow10(m as nat);
    let q = pow10((8 - m) as nat);
    assert(a <= p - 1);
    assert(a * q <= (p - 1) * q) by (nonlinear_arith)
        requires
            a <= p - 1,
            q >= 1,
    ;
    assert((p - 1) * q == p * q - q) by (nonlinear_arith);
}

proof fn lemma_pow10_mul(a: nat, b: nat)
    ensures
        pow10(a) * pow10(b) == pow10((a + b) as nat),
    decreases a,
{
    if a == 0 {
    } else {
        lemma_pow10_mul((a - 1) as nat, b);
        assert(pow10(a) * pow10(b) == 10 * (pow10((a - 1) as nat) * pow10(b))) by (nonlinear_arith)
            requires
                pow10(a) == 10 * pow10((a - 1) as nat),
        ;
    }
}

proof fn lemma_dec_val_bound(s: Seq<char>)
    requires
        all_digits(s),
    ensures
        dec_val(s) < pow10(s.len()),
    decreases s.len(),
{
    if s.len() == 0 {
    } else {
        assert(all_digits(s.drop_last()));
        lemma_dec_val_bound(s.drop_last());
        let a = dec_val(s.drop_last());
        let p = pow10((s.len() - 1) as nat);
        assert(digit_val(s.last()) <= 9);
        assert(a * 10 <= (p - 1) * 10) by (nonlinear_arith)
            requires
                a <= p - 1,
        ;
    }
}

/// A power of ten up to `10^8`.
pub fn pow10_exec(k: u64) -> (r: u64)
    requires
        k <= 8,
    ensures
        r == pow10(k as nat),
{
    proof {
        lemma_pow10_values();
    }
    match k {
        0 => 1,
        1 => 10,
        2 => 100,
        3 => 1000,
        4 => 10000,
        5 => 100000,
        6 => 1000000,
        7 => 10000000,
        _ => 100000000,
    }
}


pub proof fn lemma_dec_str_digits(n: nat)
    ensures
        all_digits(dec_str(n)),
        dec_str(n).len() >= 1,
    decreases n,
{
    if n < 10 {
    } else {
        lemma_dec_str_digits(n / 10);
        assert(forall|i: int|
            0 <= i < dec_str(n).len() ==> is_digit(#[trigger] dec_str(n)[i])) by {
            assert(forall|i: int|
                0 <= i < dec_str(n / 10).len() ==> dec_str(n)[i] == dec_str(n / 10)[i]);
            assert(dec_str(n)[dec_str(n).len() - 1] == digit_char((n % 10) as int));
        }
    }
}

pub proof fn lemma_pad_str_digits(n: nat, k: nat)
    ensures
        all_digits(pad_str(n, k)),
        pad_str(n, k).len() == k,
    decreases k,
{
    if k == 0 {
    } else {
        lemma_pad_str_digits(n / 10, (k - 1) as nat);
        let pre = pad_str(n / 10, (k - 1) as nat);
        assert(forall|i: int|
            0 <= i < pad_str(n, k).len() ==> is_digit(#[trigger] pad_str(n, k)[i])) by {
            assert(forall|i: int| 0 <= i < pre.len() ==> pad_str(n, k)[i] == pre[i]);
            assert(pad_str(n, k)[pad_str(n, k).len() - 1] == digit_char((n % 10) as int));
        }
    }
}

pub proof fn lemma_dec_val_dec_str(n: nat)
    ensures
        dec_val(dec_str(n)) == n,
    decreases n,
{
    if n < 10 {
        assert(dec_val(Seq::<char>::empty()) == 0);
        assert(dec_str(n).drop_last() =~= Seq::<char>::empty());
        assert(dec_str(n).last() == digit_char(n as int));
        lemma_digit_char_val(n as int);
        assert(dec_val(dec_str(n)) == dec_val(Seq::<char>::empty()) * 10 + digit_val(digit_char(
            n as int,
        )));
    } else {
        lemma_dec_val_dec_str(n / 10);
        assert(dec_str(n).drop_last() =~= dec_str(n / 10));
        assert(dec_str(n).last() == digit_char((n % 10) as int));
        lemma_digit_char_val((n % 10) as int);
    }
}

/// The digit characters carry their values.
pub proof fn lemma_digit_char_val(d: int)
    requires
        0 <= d <= 9,
    ensures
        digit_val(digit_char(d)) == d,
        is_digit(digit_char(d)),
{
}

pub proof fn lemma_dec_val_pad_str(n: nat, k: nat)
    requires
        n < pow10(k),
    ensures
        dec_val(pad_str(n, k)) == n,
    decreases k,
{
    if k == 0 {
        assert(pad_str(n, 0) =~= Seq::<char>::empty());
    } else {
        assert(n / 10 < pow10((k - 1) as nat)) by (nonlinear_arith)
            requires
                n < pow10(k),
                pow10(k) == 10 * pow10((k - 1) as nat),
                n >= 0,
        ;
        lemma_dec_val_pad_str(n / 10, (k - 1) as nat);
        assert(pad_str(n, k).drop_last() =~= pad_str(n / 10, (k - 1) as nat));
        assert(pad_str(n, k).last() == digit_char((n % 10) as int));
        lemma_digit_char_val((n % 10) as int);
    }
}

/// Every character of a canonical fixed-point text is a digit or the
/// point.
pub proof fn lemma_fixed_str_chars(v: u64)
    ensures
        forall|i: int|
            0 <= i < fixed_str(v).len() ==> (is_digit(#[trigger] fixed_str(v)[i]) || fixed_str(
                v,
            )[i] == '.'),
{
    lemma_dec_str_digits((v / SCALE) as nat);
    lemma_pad_str_digits((v % SCALE) as nat, 8);
    let a = dec_str((v / SCALE) as nat);
    let b = pad_str((v % SCALE) as nat, 8);
    assert(forall|i: int| 0 <= i < a.len() ==> fixed_str(v)[i] == a[i]);
    assert(fixed_str(v)[a.len() as int] == '.');
    assert(forall|i: int|
        a.len() + 1 <= i < fixed_str(v).len() ==> fixed_str(v)[i] == b[i - a.len() - 1]);
}

/// Parsing the canonical text of a value gives the value back.
pub proof fn lemma_parse_fixed_str(v: u64)
    ensures
        parse_fixed_spec(fixed_str(v)) == Some(v),
{
    let a = dec_str((v / SCALE) as nat);
    let b = pad_str((v % SCALE) as nat, 8);
    lemma_dec_str_digits((v / SCALE) as nat);
    lemma_pad_str_digits((v % SCALE) as nat, 8);
    lemma_dec_val_dec_str((v / SCALE) as nat);
    lemma_pow10_values();
    lemma_dec_val_pad_str((v % SCALE) as nat, 8);
    assert(forall|i: int| 0 <= i < a.len() ==> #[trigger] a[i] != '.');
    assert(forall|i: int| 0 <= i < b.len() ==> #[trigger] b[i] != '.');
    crate::chars::lemma_split_prepend_no_sep(a, b, '.');
    crate::chars::lemma_split_no_sep(b, '.');
    assert(fixed_str(v) =~= a + seq!['.'] + b);
    let parts = split_seq(fixed_str(v), '.');
    assert(parts =~~= seq![a, b]);
    assert(b.take(8) =~= b);
    assert(frac8_val(b) == dec_val(b) * pow10(0));
    assert(dec_val(a) * SCALE + frac8_val(b) == (v / SCALE) * (SCALE as int) + (v % SCALE));
    vstd::arithmetic::div_mod::lemma_fundamental_div_mod(v as int, SCALE as int);
}

} // verus!
