//! Building display strings: decimal and hexadecimal numerals, and the few
//! standard-library string operations that the inventory relies on.
use vstd::prelude::*;
use vstd::string::*;

verus! {

/// The character of a hexadecimal digit `d < 16`, upper or lower case.
pub open spec fn hex_char(d: nat, upper: bool) -> char {
    if d < 10 {
        (48 + d) as char
    } else if upper {
        (55 + d) as char
    } else {
        (87 + d) as char
    }
}

/// The decimal numeral of `n`, without leading zeros.
pub open spec fn decimal(n: nat) -> Seq<char>
    decreases n,
{
    if n < 10 {
        seq![hex_char(n, true)]
    } else {
        decimal(n / 10).push(hex_char(n % 10, true))
    }
}

/// The lowest `width` hexadecimal digits of `v`, most significant first.
pub open spec fn hex_digits(v: nat, width: nat, upper: bool) -> Seq<char>
    decreases width,
{
    if width == 0 {
        Seq::empty()
    } else {
        hex_digits(v / 16, (width - 1) as nat, upper).push(hex_char(v % 16, upper))
    }
}

/// The value of `2^k`.
pub open spec fn pow2(k: nat) -> nat
    decreases k,
{
    if k == 0 {
        1
    } else {
        2 * pow2((k - 1) as nat)
    }
}

/// `2^i < 2^j` whenever `i < j`.
pub proof fn lemma_pow2_monotone(i: nat, j: nat)
    requires
        i <= j,
    ensures
        pow2(i) <= pow2(j),
        pow2(i) >= 1,
    decreases j,
{
    if j > 0 && i < j {
        lemma_pow2_monotone(i, (j - 1) as nat);
    } else if i > 0 {
        lemma_pow2_monotone((i - 1) as nat, (i - 1) as nat);
    }
}

/// Whether `needle` occurs as a contiguous part of `hay`.
pub open spec fn occurs_in(hay: Seq<char>, needle: Seq<char>) -> bool {
    exists|i: int| 0 <= i <= hay.len() - needle.len() && #[trigger] hay.subrange(i, i + needle.len()) == needle
}

/// What `str::to_lowercase` returns for a string (Unicode lower-case mapping).
pub uninterp spec fn lowercase(s: Seq<char>) -> Seq<char>;

/// What `str::trim` returns for a string (Unicode white space removed at both ends).
pub uninterp spec fn trimmed(s: Seq<char>) -> Seq<char>;

/// `String::push`: appends one character.
#[verifier::external_body]
pub(crate) fn push_char(s: &mut String, c: char)
    ensures
        final(s)@ == old(s)@.push(c),
{
    s.push(c);
}

/// `str::to_lowercase`: the contract names its result, which depends on the
/// text alone; the Unicode case tables are not restated here.
#[verifier::external_body]
pub(crate) fn to_lowercase(s: &str) -> (r: String)
    ensures
        r@ == lowercase(s@),
{
    s.to_lowercase()
}

/// Whether a character has the Unicode `White_Space` property, which is what
/// `char::is_whitespace` tests.
pub open spec fn white_space(c: char) -> bool {
    let v = c as u32;
    (0x09 <= v <= 0x0d) || v == 0x20 || v == 0x85 || v == 0xa0 || v == 0x1680 || (0x2000 <= v <= 0x200a)
        || v == 0x2028 || v == 0x2029 || v == 0x202f || v == 0x205f || v == 0x3000
}

/// `str::trim`: the contract names its result, which depends on the text
/// alone. It also states that the empty string trims to itself, and so does
/// a string that neither starts nor ends with white space; what is removed
/// otherwise is left to the name.
#[verifier::external_body]
pub(crate) fn trim(s: &str) -> (r: &str)
    ensures
        r@ == trimmed(s@),
        s@.len() == 0 ==> r@.len() == 0,
        s@.len() > 0 && !white_space(s@[0]) && !white_space(s@.last()) ==> r@ == s@,
{
    s.trim()
}

/// `str::contains` with a string pattern: whether the pattern occurs in the text.
#[verifier::external_body]
pub(crate) fn contains(hay: &str, needle: &str) -> (r: bool)
    ensures
        r == occurs_in(hay@, needle@),
{
    hay.contains(needle)
}

/// `PartialEq for str`: whether two strings hold the same characters.
#[verifier::external_body]
pub(crate) fn str_eq(a: &str, b: &str) -> (r: bool)
    ensures
        r == (a@ == b@),
{
    a == b
}

/// Appends `t` to `s`.
pub fn push_str(s: &mut String, t: &str)
    ensures
        final(s)@ == old(s)@ + t@,
{
    s.append(t);
}

/// The character of the hexadecimal digit `d`.
pub fn digit(d: u8, upper: bool) -> (c: char)
    requires
        d < 16,
    ensures
        c == hex_char(d as nat, upper),
{
    let code: u8 = if d < 10 {
        48 + d
    } else if upper {
        55 + d
    } else {
        87 + d
    };
    code as char
}

/// Appends the decimal numeral of `n`.
pub fn push_decimal(s: &mut String, n: u64)
    ensures
        final(s)@ == old(s)@ + decimal(n as nat),
    decreases n,
{
    if n >= 10 {
        push_decimal(s, n / 10);
    }
    let d = (n % 10) as u8;
    let c = digit(d, true);
    push_char(s, c);
    assert(n >= 10 ==> decimal(n as nat) == decimal((n / 10) as nat).push(hex_char((n % 10) as nat, true)));
}

/// Appends the lowest `width` hexadecimal digits of `v`.
pub fn push_hex(s: &mut String, v: u64, width: u8, upper: bool)
    ensures
        final(s)@ == old(s)@ + hex_digits(v as nat, width as nat, upper),
    decreases width,
{
    if width > 0 {
        push_hex(s, v / 16, width - 1, upper);
        let d = (v % 16) as u8;
        let c = digit(d, upper);
        push_char(s, c);
    }
}

/// The value of `2^k`, for `k` up to 62.
pub fn power_of_two(k: u8) -> (p: u64)
    requires
        k <= 62,
    ensures
        p == pow2(k as nat),
{
    let mut p: u64 = 1;
    let mut i: u8 = 0;
    proof {
        assert(pow2(62) == 0x4000_0000_0000_0000) by {
            reveal_with_fuel(pow2, 63);
        }
    }
    while i < k
        invariant
            i <= k <= 62,
            p == pow2(i as nat),
            pow2(62) == 0x4000_0000_0000_0000,
        decreases k - i,
    {
        proof {
            lemma_pow2_monotone((i + 1) as nat, 62);
        }
        p = p * 2;
        i = i + 1;
    }
    p
}

/// The decimal numeral of `n` as a new string.
pub fn decimal_string(n: u64) -> (s: String)
    ensures
        s@ == decimal(n as nat),
{
    let mut s = String::new();
    push_decimal(&mut s, n);
    s
}

/// Decimal numerals are never empty and hold only the digits `0`-`9`.
pub proof fn lemma_decimal_digits(n: nat)
    ensures
        decimal(n).len() >= 1,
        forall|i: int| 0 <= i < decimal(n).len() ==> 48 <= (#[trigger] decimal(n)[i]) as int <= 57,
    decreases n,
{
    if n >= 10 {
        lemma_decimal_digits(n / 10);
        let p = decimal(n / 10);
        assert forall|i: int| 0 <= i < decimal(n).len() implies 48 <= (#[trigger] decimal(n)[i]) as int <= 57 by {
            if i < p.len() {
                assert(decimal(n)[i] == p[i]);
            }
        }
    }
}

/// Fixed-width hexadecimal numerals have exactly that width and hold only
/// digits and letters.
pub proof fn lemma_hex_digits_shape(v: nat, width: nat, upper: bool)
    ensures
        hex_digits(v, width, upper).len() == width,
        forall|i: int| 0 <= i < width ==> 48 <= (#[trigger] hex_digits(v, width, upper)[i]) as int <= 102,
    decreases width,
{
    if width > 0 {
        lemma_hex_digits_shape(v / 16, (width - 1) as nat, upper);
        let p = hex_digits(v / 16, (width - 1) as nat, upper);
        assert forall|i: int| 0 <= i < width implies 48 <= (#[trigger] hex_digits(v, width, upper)[i]) as int <= 102 by {
            if i < p.len() {
                assert(hex_digits(v, width, upper)[i] == p[i]);
            }
        }
    }
}

/// Different values below `16^width` have different fixed-width numerals.
pub proof fn lemma_hex_digits_injective(a: nat, b: nat, width: nat, upper: bool)
    requires
        hex_digits(a, width, upper) == hex_digits(b, width, upper),
    ensures
        a % pow16(width) == b % pow16(width),
    decreases width,
{
    if width > 0 {
        let pa = hex_digits(a / 16, (width - 1) as nat, upper);
        let pb = hex_digits(b / 16, (width - 1) as nat, upper);
        lemma_hex_digits_shape(a / 16, (width - 1) as nat, upper);
        lemma_hex_digits_shape(b / 16, (width - 1) as nat, upper);
        assert(pa == hex_digits(a, width, upper).drop_last());
        assert(pb == hex_digits(b, width, upper).drop_last());
        lemma_hex_digits_injective(a / 16, b / 16, (width - 1) as nat, upper);
        let ca = hex_char(a % 16, upper);
        let cb = hex_char(b % 16, upper);
        assert(ca == hex_digits(a, width, upper).last());
        assert(cb == hex_digits(b, width, upper).last());
        assert(a % 16 == b % 16);
        lemma_pow16_positive((width - 1) as nat);
        lemma_mod_combine(a, b, pow16((width - 1) as nat));
    }
}

pub open spec fn pow16(n: nat) -> nat
    decreases n,
{
    if n == 0 {
        1
    } else {
        16 * pow16((n - 1) as nat)
    }
}

pub proof fn lemma_pow16_positive(n: nat)
    ensures
        pow16(n) >= 1,
    decreases n,
{
    if n > 0 {
        lemma_pow16_positive((n - 1) as nat);
    }
}

proof fn lemma_mod_combine(a: nat, b: nat, m: nat)
    requires
        m >= 1,
        a % 16 == b % 16,
        (a / 16) % m == (b / 16) % m,
    ensures
        a % (16 * m) == b % (16 * m),
{
    assert(a % (16 * m) == 16 * ((a / 16) % m) + a % 16) by (nonlinear_arith)
        requires
            m >= 1,
    {
        vstd::arithmetic::div_mod::lemma_mod_breakdown(a as int, 16, m as int);
    }
    assert(b % (16 * m) == 16 * ((b / 16) % m) + b % 16) by (nonlinear_arith)
        requires
            m >= 1,
    {
        vstd::arithmetic::div_mod::lemma_mod_breakdown(b as int, 16, m as int);
    }
}

} // verus!
