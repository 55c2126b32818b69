//! Character-level helpers: numerals, hexadecimal labels, and conversion
//! between `String` and character vectors.

use vstd::prelude::*;
use vstd::string::*;

verus! {

/// Relies on `String::push`: the character is appended at the end.
#[verifier::external_body]
pub(crate) fn push_char(s: &mut String, c: char)
    ensures
        final(s)@ == old(s)@.push(c),
{
    s.push(c);
}

/// The ASCII digit for a value below 16 (lower-case letters past nine).
pub open spec fn digit_char(d: nat) -> char {
    if d < 10 {
        ((48 + d) as u8) as char
    } else {
        ((87 + d) as u8) as char
    }
}

/// Decimal numeral of `n`, most significant digit first.
pub open spec fn decimal(n: nat) -> Seq<char>
    decreases n,
{
    if n < 10 {
        seq![digit_char(n)]
    } else {
        decimal(n / 10).push(digit_char(n % 10))
    }
}

/// Hexadecimal numeral of `n`, most significant digit first.
pub open spec fn hex_digits(n: nat) -> Seq<char>
    decreases n,
{
    if n < 16 {
        seq![digit_char(n)]
    } else {
        hex_digits(n / 16).push(digit_char(n % 16))
    }
}

/// `0x` followed by the hexadecimal digits of `n`, padded to at least two.
pub open spec fn hex_label(n: nat) -> Seq<char> {
    seq!['0', 'x'] + if n < 16 {
        seq!['0'] + hex_digits(n)
    } else {
        hex_digits(n)
    }
}

pub open spec fn is_digit(c: char) -> bool {
    '0' <= c <= '9'
}

pub open spec fn all_digits(s: Seq<char>) -> bool {
    forall|i: int| 0 <= i < s.len() ==> is_digit(#[trigger] s[i])
}

/// Value of a sequence of decimal digits.
pub open spec fn digits_value(s: Seq<char>) -> nat
    decreases s.len(),
{
    if s.len() == 0 {
        0
    } else {
        digits_value(s.drop_last()) * 10 + ((s.last() as u32) - 48) as nat
    }
}

/// The value of a non-empty run of decimal digits that fits in `u32`;
/// anything else counts as zero.
pub open spec fn digits_field(s: Seq<char>) -> u32 {
    if s.len() > 0 && all_digits(s) && digits_value(s) <= u32::MAX {
        digits_value(s) as u32
    } else {
        0
    }
}

/// A coordinate field of the configuration text: an optional `+` and a
/// non-empty run of decimal digits whose value fits in `u32`, as an unsigned
/// integer parse reads it; anything else counts as zero.
pub open spec fn field_value(s: Seq<char>) -> u32 {
    if s.len() > 0 && s[0] == '+' {
        digits_field(s.skip(1))
    } else {
        digits_field(s)
    }
}

proof fn lemma_digits_value_prefix(s: Seq<char>, i: int)
    requires
        all_digits(s),
        0 <= i <= s.len(),
    ensures
        digits_value(s.take(i)) <= digits_value(s),
    decreases s.len(),
{
    if i < s.len() {
        assert(s.drop_last().take(i) =~= s.take(i));
        lemma_digits_value_prefix(s.drop_last(), i);
    } else {
        assert(s.take(i) =~= s);
    }
}

/// Reading back a decimal numeral gives the number.
pub proof fn lemma_decimal_value(n: nat)
    ensures
        all_digits(decimal(n)),
        decimal(n).len() > 0,
        digits_value(decimal(n)) == n,
    decreases n,
{
    let d = n % 10;
    assert((((48 + d) as u8) as char) as u32 == 48 + d);
    if n >= 10 {
        lemma_decimal_value(n / 10);
        assert(decimal(n).drop_last() =~= decimal(n / 10));
        assert(decimal(n).last() == digit_char(d));
        assert(digits_value(decimal(n)) == digits_value(decimal(n / 10)) * 10 + d);
    } else {
        assert(decimal(n).drop_last() =~= Seq::<char>::empty());
        assert(digits_value(decimal(n)) == digits_value(Seq::<char>::empty()) * 10 + d);
    }
}

/// The decimal numeral of a `u32` read back as a field.
pub proof fn lemma_field_value_decimal(n: u32)
    ensures
        field_value(decimal(n as nat)) == n,
{
    lemma_decimal_value(n as nat);
    assert(is_digit(decimal(n as nat)[0]));
}

/// The characters of `s`, one per element.
pub fn chars_of(s: &str) -> (r: Vec<char>)
    ensures
        r@ == s@,
{
    let n = s.unicode_len();
    let mut r: Vec<char> = Vec::new();
    let mut i: usize = 0;
    while i < n
        invariant
            n == s@.len(),
            i <= n,
            r@ == s@.take(i as int),
        decreases n - i,
    {
        r.push(s.get_char(i));
        i = i + 1;
    }
    assert(r@ =~= s@);
    r
}

/// Appends every character of `v` to `s`.
pub fn append_chars(s: &mut String, v: &[char])
    ensures
        final(s)@ == old(s)@ + v@,
{
    let mut i: usize = 0;
    while i < v.len()
        invariant
            i <= v@.len(),
            s@ == old(s)@ + v@.take(i as int),
        decreases v.len() - i,
    {
        push_char(s, v[i]);
        i = i + 1;
    }
    assert(v@.take(v@.len() as int) =~= v@);
}

/// A `String` holding the characters of `v`.
pub fn string_of(v: &[char]) -> (r: String)
    ensures
        r@ == v@,
{
    let mut s = String::new();
    append_chars(&mut s, v);
    s
}

fn digit_of(d: u32) -> (c: char)
    requires
        d < 16,
    ensures
        c == digit_char(d as nat),
{
    if d < 10 {
        ((48 + d) as u8) as char
    } else {
        ((87 + d) as u8) as char
    }
}

/// The decimal numeral of `n`.
pub fn decimal_chars(n: u32) -> (r: Vec<char>)
    ensures
        r@ == decimal(n as nat),
    decreases n,
{
    let c = digit_of(n % 10);
    if n < 10 {
        vec![c]
    } else {
        let mut r = decimal_chars(n / 10);
        r.push(c);
        r
    }
}

fn hex_chars(n: u32) -> (r: Vec<char>)
    ensures
        r@ == hex_digits(n as nat),
    decreases n,
{
    let c = digit_of(n % 16);
    if n < 16 {
        vec![c]
    } else {
        let mut r = hex_chars(n / 16);
        r.push(c);
        r
    }
}

/// The automatic label for cursor value `n`: `0x` and at least two
/// hexadecimal digits, as in `0x00`, `0x1f` or `0x100`.
pub fn hex_label_of(n: u32) -> (r: String)
    ensures
        r@ == hex_label(n as nat),
{
    let digits = hex_chars(n);
    let mut s = String::new();
    push_char(&mut s, '0');
    push_char(&mut s, 'x');
    if n < 16 {
        push_char(&mut s, '0');
    }
    append_chars(&mut s, digits.as_slice());
    assert(s@ =~= hex_label(n as nat));
    s
}

/// The value of the digits of `s` from `start` on, as `digits_field` reads them.
fn parse_digits(s: &[char], start: usize) -> (r: u32)
    requires
        start <= s@.len(),
    ensures
        r == digits_field(s@.skip(start as int)),
{
    let ghost d = s@.skip(start as int);
    if start == s.len() {
        return 0;
    }
    let mut acc: u32 = 0;
    let mut i: usize = start;
    assert(d.take(0) =~= Seq::<char>::empty());
    while i < s.len()
        invariant
            start <= i <= s@.len(),
            d == s@.skip(start as int),
            all_digits(d.take(i - start)),
            acc as nat == digits_value(d.take(i - start)),
        decreases s.len() - i,
    {
        let c = s[i];
        let ghost n: int = i - start;
        assert(d[n] == c);
        assert(d.take(n + 1).drop_last() =~= d.take(n));
        if !('0' <= c && c <= '9') {
            assert(!all_digits(d));
            return 0;
        }
        let d_val: u32 = (c as u32) - 48;
        if acc > (u32::MAX - d_val) / 10 {
            proof {
                assert(digits_value(d.take(n + 1)) > u32::MAX);
                if all_digits(d) {
                    lemma_digits_value_prefix(d, n + 1);
                }
            }
            return 0;
        }
        acc = acc * 10 + d_val;
        i = i + 1;
    }
    assert(d.take(d.len() as int) =~= d);
    acc
}

/// Reads a coordinate field: an optional `+` and a non-empty run of digits
/// give their value where it fits in `u32`; anything else gives zero.
pub fn parse_field(s: &[char]) -> (r: u32)
    ensures
        r == field_value(s@),
{
    if s.len() > 0 && s[0] == '+' {
        parse_digits(s, 1)
    } else {
        assert(s@.skip(0) =~= s@);
        parse_digits(s, 0)
    }
}

/// Automatic labels of cursors below 256 are `0x` and exactly two
/// hexadecimal digits, the high one first.
pub proof fn lemma_hex_label_two_digits(n: nat)
    requires
        n < 256,
    ensures
        hex_label(n) == seq!['0', 'x', digit_char(n / 16), digit_char(n % 16)],
{
    assert(digit_char(0) == '0');
    if n < 16 {
        assert(hex_label(n) =~= seq!['0', 'x', digit_char(n / 16), digit_char(n % 16)]);
    } else {
        assert(hex_digits(n / 16) == seq![digit_char(n / 16)]);
        assert(hex_label(n) =~= seq!['0', 'x', digit_char(n / 16), digit_char(n % 16)]);
    }
}

} // verus!
