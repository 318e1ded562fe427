//! Character-level building blocks: digits, whitespace, decimal text,
//! fixed-point numbers, substring search and replacement, and the
//! lexicographic order of strings.

use vstd::prelude::*;

verus! {

// ────────────────────────────────────────────
// Characters
// ────────────────────────────────────────────

pub open spec fn is_digit(c: char) -> bool {
    '0' <= c && c <= '9'
}

pub fn exec_is_digit(c: char) -> (r: bool)
    ensures
        r == is_digit(c),
{
    '0' <= c && c <= '9'
}

/// The characters with the Unicode `White_Space` property, which is what
/// `char::is_whitespace` tests.
pub open spec fn is_white_space(c: char) -> bool {
    ||| ('\u{9}' <= c && c <= '\u{d}')
    ||| c == ' '
    ||| c == '\u{85}'
    ||| c == '\u{a0}'
    ||| c == '\u{1680}'
    ||| ('\u{2000}' <= c && c <= '\u{200a}')
    ||| c == '\u{2028}'
    ||| c == '\u{2029}'
    ||| c == '\u{202f}'
    ||| c == '\u{205f}'
    ||| c == '\u{3000}'
}

pub fn exec_is_white_space(c: char) -> (r: bool)
    ensures
        r == is_white_space(c),
{
    ('\u{9}' <= c && c <= '\u{d}') || c == ' ' || c == '\u{85}' || c == '\u{a0}' || c
        == '\u{1680}' || ('\u{2000}' <= c && c <= '\u{200a}') || c == '\u{2028}' || c
        == '\u{2029}' || c == '\u{202f}' || c == '\u{205f}' || c == '\u{3000}'
}

// ────────────────────────────────────────────
// Moving between &str, String and Vec<char>
// ────────────────────────────────────────────

/// The characters of `s`, in order.
pub fn chars_of(s: &str) -> (r: Vec<char>)
    ensures
        r@ == s@,
{
    let mut r: Vec<char> = Vec::new();
    for c in it: s.chars()
        invariant
            r@ == it.seq().take(it.index() as int),
    {
        r.push(c);
    }
    r
}

/// `String::push`: appends one character.
#[verifier::external_body]
pub(crate) fn push_char(s: &mut String, c: char)
    ensures
        final(s)@ == old(s)@.push(c),
{
    s.push(c);
}

/// Appends the characters `v[from..to]` to `s`.
pub fn append_chars(s: &mut String, v: &Vec<char>, from: usize, to: usize)
    requires
        from <= to <= v.len(),
    ensures
        final(s)@ == old(s)@ + v@.subrange(from as int, to as int),
{
    let mut i = from;
    while i < to
        invariant
            from <= i <= to <= v.len(),
            s@ == old(s)@ + v@.subrange(from as int, i as int),
        decreases to - i,
    {
        push_char(s, v[i]);
        assert(v@.subrange(from as int, i + 1) == v@.subrange(from as int, i as int).push(v@[i as int]));
        i += 1;
    }
}

/// A new `String` holding the characters of `v`.
pub fn string_of(v: &Vec<char>) -> (r: String)
    ensures
        r@ == v@,
{
    let mut s = String::new();
    append_chars(&mut s, v, 0, v.len());
    assert(v@.subrange(0, v@.len() as int) == v@);
    s
}

/// Whether two strings are equal.
pub fn str_eq(a: &str, b: &str) -> (r: bool)
    ensures
        r == (a@ == b@),
{
    let x = String::from_str(a);
    let y = String::from_str(b);
    x == y
}

/// A new `String` holding the character `c` alone.
pub fn string_of_char(c: char) -> (r: String)
    ensures
        r@ == seq![c],
{
    let mut s = String::new();
    push_char(&mut s, c);
    s
}

// ────────────────────────────────────────────
// Decimal text of integers
// ────────────────────────────────────────────

pub open spec fn digit_char(d: int) -> char {
    (('0' as int) + d) as char
}

/// The decimal digits of `n`, without leading zeros ("0" for zero).
pub open spec fn nat_digits(n: nat) -> Seq<char>
    decreases n,
{
    if n < 10 {
        seq![digit_char(n as int)]
    } else {
        nat_digits(n / 10) + seq![digit_char((n % 10) as int)]
    }
}

/// The text that `to_string` gives for an integer.
pub open spec fn dec(n: int) -> Seq<char> {
    if n < 0 {
        seq!['-'] + nat_digits((-n) as nat)
    } else {
        nat_digits(n as nat)
    }
}

fn digit_of(d: u64) -> (c: char)
    requires
        d < 10,
    ensures
        c == digit_char(d as int),
{
    if d == 0 { '0' }
    else if d == 1 { '1' }
    else if d == 2 { '2' }
    else if d == 3 { '3' }
    else if d == 4 { '4' }
    else if d == 5 { '5' }
    else if d == 6 { '6' }
    else if d == 7 { '7' }
    else if d == 8 { '8' }
    else { '9' }
}

/// Appends the decimal digits of `n` to `s`.
pub fn append_nat_digits(s: &mut String, n: u64)
    ensures
        final(s)@ == old(s)@ + nat_digits(n as nat),
    decreases n,
{
    if n < 10 {
        push_char(s, digit_of(n));
    } else {
        append_nat_digits(s, n / 10);
        push_char(s, digit_of(n % 10));
    }
}

/// Appends the decimal text of `n` to `s`.
pub fn append_dec(s: &mut String, n: i64)
    ensures
        final(s)@ == old(s)@ + dec(n as int),
{
    if n < 0 {
        push_char(s, '-');
        let m: u64 = if n == i64::MIN {
            9223372036854775808u64
        } else {
            (-n) as u64
        };
        append_nat_digits(s, m);
    } else {
        append_nat_digits(s, n as u64);
    }
}

/// The decimal text of `n`, as `to_string` writes it.
pub fn dec_string(n: i64) -> (r: String)
    ensures
        r@ == dec(n as int),
{
    let mut s = String::new();
    append_dec(&mut s, n);
    s
}

// ────────────────────────────────────────────
// Fixed-point numbers with four decimals
// ────────────────────────────────────────────

/// Four decimal digits of `f` (0 <= f < 10000), with leading zeros.
pub open spec fn four_digits(f: int) -> Seq<char> {
    seq![
        digit_char(f / 1000),
        digit_char((f / 100) % 10),
        digit_char((f / 10) % 10),
        digit_char(f % 10),
    ]
}

/// The text of `m / 10000` with exactly four decimals and a `-` in front
/// where `neg`, as `{:.4}` writes a number of that magnitude and sign (a
/// negative number that rounds to zero keeps its `-`).
pub open spec fn fixed4_text(neg: bool, m: nat) -> Seq<char> {
    let sign = if neg {
        seq!['-']
    } else {
        Seq::<char>::empty()
    };
    sign + nat_digits(m / 10000) + seq!['.'] + four_digits((m % 10000) as int)
}

/// The text of `v / 10000` with exactly four decimals, as `{:.4}` writes it.
pub open spec fn fixed4(v: int) -> Seq<char> {
    fixed4_text(v < 0, (if v < 0 { -v } else { v }) as nat)
}

/// Appends `fixed4_text(neg, m)` to `s`.
pub fn append_fixed4_text(s: &mut String, neg: bool, m: u64)
    ensures
        final(s)@ == old(s)@ + fixed4_text(neg, m as nat),
{
    if neg {
        push_char(s, '-');
    }
    append_nat_digits(s, m / 10000);
    push_char(s, '.');
    let f = m % 10000;
    push_char(s, digit_of(f / 1000));
    push_char(s, digit_of((f / 100) % 10));
    push_char(s, digit_of((f / 10) % 10));
    push_char(s, digit_of(f % 10));
    proof {
        let sign = if neg { seq!['-'] } else { Seq::<char>::empty() };
        assert(s@ =~= old(s)@ + fixed4_text(neg, m as nat)) by {
            assert(fixed4_text(neg, m as nat) == sign + nat_digits((m / 10000) as nat) + seq!['.']
                + four_digits((m % 10000) as int));
        }
    }
}

/// Appends `fixed4(v)` to `s`.
pub fn append_fixed4(s: &mut String, v: i64)
    requires
        v > i64::MIN,
    ensures
        final(s)@ == old(s)@ + fixed4(v as int),
{
    let m: u64 = if v < 0 { (-v) as u64 } else { v as u64 };
    append_fixed4_text(s, v < 0, m);
}


// ────────────────────────────────────────────
// Substrings
// ────────────────────────────────────────────

/// `pat` occurs in `s` at position `i`.
pub open spec fn occurs_at(s: Seq<char>, i: int, pat: Seq<char>) -> bool {
    0 <= i && i + pat.len() <= s.len() && s.subrange(i, i + pat.len()) == pat
}

/// `pat` occurs somewhere in `s` (what `str::contains` tests).
pub open spec fn contains(s: Seq<char>, pat: Seq<char>) -> bool {
    exists|i: int| occurs_at(s, i, pat)
}

pub fn exec_occurs_at(s: &Vec<char>, i: usize, pat: &Vec<char>) -> (r: bool)
    ensures
        r == occurs_at(s@, i as int, pat@),
{
    if i > s.len() || pat.len() > s.len() - i {
        return false;
    }
    let mut k: usize = 0;
    while k < pat.len()
        invariant
            i + pat.len() <= s.len(),
            k <= pat.len(),
            forall|j: int| 0 <= j < k ==> s@[i + j] == pat@[j],
        decreases pat.len() - k,
    {
        if s[i + k] != pat[k] {
            assert(s@.subrange(i as int, i + pat.len())[k as int] != pat@[k as int]);
            return false;
        }
        k += 1;
    }
    assert(s@.subrange(i as int, i + pat.len()) =~= pat@);
    true
}

pub fn exec_contains(s: &Vec<char>, pat: &Vec<char>) -> (r: bool)
    ensures
        r == contains(s@, pat@),
{
    let mut i: usize = 0;
    while i < s.len()
        invariant
            i <= s.len(),
            forall|j: int| 0 <= j < i ==> !occurs_at(s@, j, pat@),
        decreases s.len() - i,
    {
        if exec_occurs_at(s, i, pat) {
            return true;
        }
        i += 1;
    }
    if exec_occurs_at(s, i, pat) {
        return true;
    }
    assert forall|j: int| !occurs_at(s@, j, pat@) by {
        if 0 <= j <= i {
        }
    }
    false
}

/// What `str::replace` gives: each occurrence of `pat`, found from left to
/// right without overlap, is replaced by `rep`.
pub open spec fn replace_all(s: Seq<char>, pat: Seq<char>, rep: Seq<char>) -> Seq<char>
    decreases s.len(),
{
    if pat.len() == 0 || s.len() < pat.len() {
        s
    } else if s.take(pat.len() as int) == pat {
        rep + replace_all(s.skip(pat.len() as int), pat, rep)
    } else {
        seq![s[0]] + replace_all(s.skip(1), pat, rep)
    }
}

pub fn exec_replace_all(s: &Vec<char>, pat: &Vec<char>, rep: &Vec<char>) -> (r: String)
    requires
        pat.len() > 0,
    ensures
        r@ == replace_all(s@, pat@, rep@),
{
    let mut out = String::new();
    let mut i: usize = 0;
    assert(s@.skip(0) =~= s@);
    while i < s.len()
        invariant
            pat.len() > 0,
            i <= s.len(),
            out@ + replace_all(s@.skip(i as int), pat@, rep@) == replace_all(s@, pat@, rep@),
        decreases s.len() - i,
    {
        let ghost rest = s@.skip(i as int);
        if exec_occurs_at(s, i, pat) {
            assert(rest.take(pat.len() as int) =~= s@.subrange(i as int, i + pat.len()));
            assert(rest.skip(pat.len() as int) =~= s@.skip(i + pat.len()));
            append_chars(&mut out, rep, 0, rep.len());
            assert(rep@.subrange(0, rep@.len() as int) =~= rep@);
            i = i + pat.len();
        } else {
            proof {
                if rest.len() >= pat@.len() {
                    assert(rest.take(pat@.len() as int) =~= s@.subrange(i as int, i + pat@.len()));
                } else {
                    assert(replace_all(rest, pat@, rep@) == rest);
                    assert(rest =~= seq![s@[i as int]] + rest.skip(1));
                    assert(replace_all(rest.skip(1), pat@, rep@) == rest.skip(1));
                }
                assert(rest.skip(1) =~= s@.skip(i + 1));
            }
            push_char(&mut out, s[i]);
            i = i + 1;
        }
    }
    assert(s@.skip(i as int) =~= Seq::<char>::empty());
    out
}

// ────────────────────────────────────────────
// Reading integers
// ────────────────────────────────────────────

pub open spec fn all_digits(s: Seq<char>) -> bool {
    forall|i: int| 0 <= i < s.len() ==> is_digit(#[trigger] s[i])
}

/// The value of a string of decimal digits.
pub open spec fn digits_value(s: Seq<char>) -> nat
    decreases s.len(),
{
    if s.len() == 0 {
        0
    } else {
        (digits_value(s.drop_last()) * 10 + (s.last() as int - '0' as int)) as nat
    }
}

pub proof fn lemma_digits_value_grows(s: Seq<char>, k: int)
    requires
        all_digits(s),
        0 <= k <= s.len(),
    ensures
        digits_value(s.take(k)) <= digits_value(s),
    decreases s.len() - k,
{
    if k < s.len() {
        lemma_digits_value_grows(s, k + 1);
        assert(s.take(k + 1).drop_last() =~= s.take(k));
        assert(is_digit(s[k]));
    } else {
        assert(s.take(k) =~= s);
    }
}

/// What `i32::from_str` accepts and gives: an optional `+` or `-`, then at
/// least one decimal digit, with a value that fits in `i32`.
pub open spec fn int_text(s: Seq<char>) -> Option<int> {
    if s.len() > 0 && (s[0] == '-' || s[0] == '+') {
        let d = s.skip(1);
        if d.len() > 0 && all_digits(d) {
            Some(if s[0] == '-' { -digits_value(d) } else { digits_value(d) as int })
        } else {
            None
        }
    } else if s.len() > 0 && all_digits(s) {
        Some(digits_value(s) as int)
    } else {
        None
    }
}

pub open spec fn parse_i32_spec(s: Seq<char>) -> Option<i32> {
    match int_text(s) {
        Some(v) => if i32::MIN <= v <= i32::MAX { Some(v as i32) } else { None },
        None => None,
    }
}

/// Reads the digits `s[from..to]` as a value, or `None` when they are not
/// all digits or their value exceeds `limit`.
fn read_digits(s: &Vec<char>, from: usize, to: usize, limit: u64) -> (r: Option<u64>)
    requires
        from <= to <= s.len(),
        limit < 0x1_0000_0000_0000_0000u128 / 10,
    ensures
        r is Some <==> all_digits(s@.subrange(from as int, to as int)) && digits_value(
            s@.subrange(from as int, to as int),
        ) <= limit,
        r matches Some(v) ==> v == digits_value(s@.subrange(from as int, to as int)),
{
    let ghost d = s@.subrange(from as int, to as int);
    let mut acc: u64 = 0;
    let mut i = from;
    while i < to
        invariant
            from <= i <= to <= s.len(),
            d == s@.subrange(from as int, to as int),
            limit < 0x1_0000_0000_0000_0000u128 / 10,
            all_digits(d.take(i - from)),
            acc == digits_value(d.take(i - from)),
            acc <= limit,
        decreases to - i,
    {
        let c = s[i];
        if !exec_is_digit(c) {
            assert(d[i - from] == c);
            return None;
        }
        assert(d.take(i - from + 1).drop_last() =~= d.take(i - from));
        let v = acc * 10 + ((c as u32) - ('0' as u32)) as u64;
        if v > limit {
            proof {
                assert(all_digits(d.take(i - from + 1)));
                if all_digits(d) {
                    lemma_digits_value_grows(d, i - from + 1);
                }
            }
            return None;
        }
        acc = v;
        i += 1;
    }
    assert(d.take(i - from) =~= d);
    Some(acc)
}

/// `i32::from_str`.
pub fn parse_i32(t: &str) -> (r: Option<i32>)
    ensures
        r == parse_i32_spec(t@),
{
    let s = chars_of(t);
    if s.len() == 0 {
        return None;
    }
    let c0 = s[0];
    if c0 == '-' || c0 == '+' {
        if s.len() == 1 {
            return None;
        }
        assert(s@.subrange(1, s@.len() as int) =~= s@.skip(1));
        match read_digits(&s, 1, s.len(), 2147483648) {
            None => None,
            Some(v) => {
                if c0 == '-' {
                    Some((-(v as i64)) as i32)
                } else if v <= 2147483647 {
                    Some(v as i32)
                } else {
                    None
                }
            }
        }
    } else {
        assert(s@.subrange(0, s@.len() as int) =~= s@);
        match read_digits(&s, 0, s.len(), 2147483647) {
            None => None,
            Some(v) => Some(v as i32),
        }
    }
}

// ────────────────────────────────────────────
// Reading floating-point text as fixed point
// ────────────────────────────────────────────

/// Numbers are held as integers in ten-thousandths: a length in units of
/// 0.1 µm (the resolution of a KiCad schematic), an angle in units of
/// 0.0001°.
pub const SCALE: i64 = 10000;

/// The largest magnitude that a number read from the file may have, in
/// ten-thousandths.
pub const NUMBER_LIMIT: u64 = 1_000_000_000_000_000;

/// The index of the first `c1` or `c2` in `b`, or `b.len()` when there is
/// none.
pub open spec fn first_of(b: Seq<char>, c1: char, c2: char) -> int
    decreases b.len(),
{
    if b.len() == 0 {
        0
    } else if b[0] == c1 || b[0] == c2 {
        0
    } else {
        1 + first_of(b.skip(1), c1, c2)
    }
}

pub proof fn lemma_first_of(b: Seq<char>, c1: char, c2: char)
    ensures
        0 <= first_of(b, c1, c2) <= b.len(),
        forall|j: int| 0 <= j < first_of(b, c1, c2) ==> b[j] != c1 && b[j] != c2,
        first_of(b, c1, c2) < b.len() ==> (b[first_of(b, c1, c2)] == c1 || b[first_of(b, c1, c2)]
            == c2),
    decreases b.len(),
{
    if b.len() > 0 && b[0] != c1 && b[0] != c2 {
        lemma_first_of(b.skip(1), c1, c2);
        assert forall|j: int| 0 <= j < first_of(b, c1, c2) implies b[j] != c1 && b[j] != c2 by {
            if j > 0 {
                assert(b[j] == b.skip(1)[j - 1]);
            }
        }
    }
}

/// `a + b`, where `a` holds neither `c1` nor `c2` and `b` starts with one
/// of them, finds it right after `a`.
pub proof fn lemma_first_of_after(a: Seq<char>, b: Seq<char>, c1: char, c2: char)
    requires
        forall|j: int| 0 <= j < a.len() ==> a[j] != c1 && a[j] != c2,
        b.len() == 0 || b[0] == c1 || b[0] == c2,
    ensures
        first_of(a + b, c1, c2) == a.len(),
    decreases a.len(),
{
    if a.len() == 0 {
        assert(a + b =~= b);
    } else {
        assert((a + b).skip(1) =~= a.skip(1) + b);
        lemma_first_of_after(a.skip(1), b, c1, c2);
    }
}

/// A leading `-` makes the number negative.
pub open spec fn float_negative(s: Seq<char>) -> bool {
    s.len() > 0 && s[0] == '-'
}

/// The text after an optional leading `+` or `-`.
pub open spec fn float_body(s: Seq<char>) -> Seq<char> {
    if s.len() > 0 && (s[0] == '-' || s[0] == '+') {
        s.skip(1)
    } else {
        s
    }
}

/// A finite number without its sign, `digits[.digits][(e|E)exponent]`
/// with at least one digit around the point and an exponent of an
/// optional sign and at least one digit: the digits before the point, the
/// digits after it, and the exponent (0 where there is none).
pub open spec fn float_number(b: Seq<char>) -> Option<(Seq<char>, Seq<char>, int)> {
    let ke = first_of(b, 'e', 'E');
    let m = b.take(ke);
    let kd = first_of(m, '.', '.');
    let whole = m.take(kd);
    let frac = if kd < m.len() {
        m.skip(kd + 1)
    } else {
        Seq::<char>::empty()
    };
    let exp = if ke < b.len() {
        int_text(b.skip(ke + 1))
    } else {
        Some(0int)
    };
    if all_digits(whole) && all_digits(frac) && whole.len() + frac.len() > 0 && exp is Some {
        Some((whole, frac, exp.unwrap()))
    } else {
        None
    }
}

pub open spec fn pow10(n: nat) -> nat
    decreases n,
{
    if n == 0 {
        1
    } else {
        10 * pow10((n - 1) as nat)
    }
}

pub proof fn lemma_pow10_grows(a: nat, b: nat)
    requires
        a <= b,
    ensures
        1 <= pow10(a) <= pow10(b),
    decreases b,
{
    if b > 0 {
        let b1 = (b - 1) as nat;
        if a < b {
            lemma_pow10_grows(a, b1);
        } else {
            lemma_pow10_grows(0, b1);
        }
        assert(pow10(b) == 10 * pow10(b1));
    }
}

pub proof fn lemma_pow10_values()
    ensures
        pow10(0) == 1,
        pow10(4) == 10000,
{
    reveal_with_fuel(pow10, 5);
}

/// `m * 10^shift`, made an integer: rounded to the nearest (halves up)
/// where `round`, else truncated.
pub open spec fn scaled_mode(m: nat, shift: int, round: bool) -> nat {
    if shift >= 0 {
        m * pow10(shift as nat)
    } else if round {
        ((m + 5 * pow10((-shift - 1) as nat)) as int / (pow10((-shift) as nat) as int)) as nat
    } else {
        (m as int / (pow10((-shift) as nat) as int)) as nat
    }
}

/// `m * 10^shift`, rounded to the nearest integer, halves up.
pub open spec fn scaled(m: nat, shift: int) -> nat {
    scaled_mode(m, shift, true)
}

/// The value of `s`, as `f64::from_str` reads it, times `10^k` and rounded
/// to the nearest integer (halves away from zero), when `s` is a finite
/// number and the rounded magnitude is at most `limit`. `inf` and `nan`
/// have no such value.
pub open spec fn float_scaled(s: Seq<char>, k: nat, limit: nat) -> Option<int> {
    float_read(s, k, limit, true)
}

/// As `float_scaled`, the value rounded where `round` and truncated toward
/// zero otherwise.
pub open spec fn float_read(s: Seq<char>, k: nat, limit: nat, round: bool) -> Option<int> {
    match float_number(float_body(s)) {
        Some((w, f, e)) => {
            let mag = scaled_mode(digits_value(w + f), e + k - f.len(), round);
            if mag <= limit {
                Some(
                    if float_negative(s) {
                        -mag
                    } else {
                        mag as int
                    },
                )
            } else {
                None
            }
        },
        None => None,
    }
}

/// A number of the file in ten-thousandths, when it reads as a finite
/// number of magnitude at most `NUMBER_LIMIT`.
pub open spec fn float_value(s: Seq<char>) -> Option<int> {
    float_scaled(s, 4, NUMBER_LIMIT as nat)
}

/// An angle of the file in ten-thousandths of a degree, truncated toward
/// zero (so that its whole degrees are those of the `f64` value), when it
/// reads as a finite number of magnitude at most `NUMBER_LIMIT`.
pub open spec fn angle_value(s: Seq<char>) -> Option<int> {
    float_read(s, 4, NUMBER_LIMIT as nat, false)
}

/// A number field of the file: its value, or 0 when it does not read as one.
pub open spec fn number_or_zero(s: Seq<char>) -> int {
    match float_value(s) {
        Some(v) => v,
        None => 0,
    }
}

pub proof fn lemma_digits_value_concat(a: Seq<char>, b: Seq<char>)
    requires
        all_digits(a),
        all_digits(b),
    ensures
        digits_value(a + b) == digits_value(a) * pow10(b.len()) + digits_value(b),
    decreases b.len(),
{
    if b.len() == 0 {
        assert(a + b =~= a);
        assert(pow10(0) == 1);
        let x = digits_value(a) as int;
        assert(x * 1 == x);
        assert(digits_value(b) == 0);
    } else {
        let b1 = b.drop_last();
        lemma_digits_value_concat(a, b1);
        assert((a + b).drop_last() =~= a + b1);
        assert((a + b).last() == b.last());
        assert(is_digit(b[b.len() - 1]));
        let dl = b.last() as int - '0' as int;
        assert(0 <= dl <= 9);
        assert(all_digits(b1));
        assert(all_digits(a + b1)) by {
            assert forall|j: int| 0 <= j < (a + b1).len() implies is_digit(#[trigger] (a + b1)[j]) by {
                if j < a.len() {
                    assert((a + b1)[j] == a[j]);
                } else {
                    assert((a + b1)[j] == b1[j - a.len()]);
                }
            }
        }
        assert(digits_value(a + b) == digits_value(a + b1) * 10 + dl);
        assert(digits_value(b) == digits_value(b1) * 10 + dl);
        let x = digits_value(a) as int;
        let p = pow10(b1.len()) as int;
        let y = digits_value(b1) as int;
        let z = pow10(b.len()) as int;
        assert(z == 10 * p);
        let ab1 = digits_value(a + b1) as int;
        assert(ab1 == x * p + y);
        assert(ab1 * 10 + dl == x * z + (y * 10 + dl)) by (nonlinear_arith)
            requires
                ab1 == x * p + y,
                z == 10 * p,
        ;
    }
}

pub proof fn lemma_digits_value_bound(a: Seq<char>)
    requires
        all_digits(a),
    ensures
        digits_value(a) < pow10(a.len()),
    decreases a.len(),
{
    if a.len() > 0 {
        let a1 = a.drop_last();
        assert(all_digits(a1));
        lemma_digits_value_bound(a1);
        assert(is_digit(a[a.len() - 1]));
        assert(digits_value(a) == digits_value(a1) * 10 + (a.last() as int - '0' as int));
        assert(pow10(a.len()) == 10 * pow10(a1.len()));
    }
}

/// Rounding `digits * 10^(cut - len)`: the digits before `cut`, plus one
/// where the digit at `cut` is 5 or more.
pub proof fn lemma_round_at(d: Seq<char>, cut: int)
    requires
        all_digits(d),
        0 <= cut < d.len(),
    ensures
        scaled(digits_value(d), cut - d.len()) == digits_value(d.take(cut)) + (if d[cut] >= '5' {
            1int
        } else {
            0int
        }),
        scaled_mode(digits_value(d), cut - d.len(), false) == digits_value(d.take(cut)),
{
    let kk = (d.len() - cut) as nat;
    let head = d.take(cut);
    let tail = d.skip(cut);
    let rest = tail.skip(1);
    let one = seq![d[cut]];
    assert(d =~= head + tail);
    assert(tail =~= one + rest);
    lemma_digits_value_concat(head, tail);
    lemma_digits_value_concat(one, rest);
    lemma_digits_value_bound(rest);
    assert(one.drop_last() =~= Seq::<char>::empty());
    assert(is_digit(d[cut]));
    let dig = d[cut] as int - '0' as int;
    assert(one.last() == d[cut]);
    assert(digits_value(one.drop_last()) == 0);
    assert(digits_value(one) == dig);
    let p = pow10((kk - 1) as nat) as int;
    assert(pow10(kk) == 10 * p);
    assert(rest.len() == kk - 1);
    let q = digits_value(head) as int;
    let t = digits_value(rest) as int;
    let x = digits_value(d) as int;
    assert(x == q * (10 * p) + dig * p + t);
    assert(p >= 1) by {
        lemma_pow10_grows(0, (kk - 1) as nat);
    }
    assert(x == q * (10 * p) + (dig * p + t) && 0 <= dig * p + t < 10 * p) by (nonlinear_arith)
        requires
            x == q * (10 * p) + dig * p + t,
            0 <= dig <= 9,
            0 <= t < p,
    ;
    vstd::arithmetic::div_mod::lemma_fundamental_div_mod_converse(x, 10 * p, q, dig * p + t);
    if dig >= 5 {
        assert(x + 5 * p == (q + 1) * (10 * p) + ((dig - 5) * p + t) && 0 <= (dig - 5) * p + t < 10
            * p) by (nonlinear_arith)
            requires
                x == q * (10 * p) + dig * p + t,
                5 <= dig <= 9,
                0 <= t < p,
        ;
        vstd::arithmetic::div_mod::lemma_fundamental_div_mod_converse(
            x + 5 * p,
            10 * p,
            q + 1,
            (dig - 5) * p + t,
        );
    } else {
        assert(x + 5 * p == q * (10 * p) + ((dig + 5) * p + t) && 0 <= (dig + 5) * p + t < 10 * p)
            by (nonlinear_arith)
            requires
                x == q * (10 * p) + dig * p + t,
                0 <= dig <= 4,
                0 <= t < p,
        ;
        vstd::arithmetic::div_mod::lemma_fundamental_div_mod_converse(
            x + 5 * p,
            10 * p,
            q,
            (dig + 5) * p + t,
        );
    }
}

/// Fewer digits than places dropped round to 0.
pub proof fn lemma_round_to_zero(d: Seq<char>, kk: int)
    requires
        all_digits(d),
        d.len() < kk,
    ensures
        scaled(digits_value(d), -kk) == 0,
        scaled_mode(digits_value(d), -kk, false) == 0,
{
    lemma_digits_value_bound(d);
    let p = pow10((kk - 1) as nat) as int;
    lemma_pow10_grows(d.len(), (kk - 1) as nat);
    assert(pow10(kk as nat) == 10 * p);
    let x = digits_value(d) as int;
    vstd::arithmetic::div_mod::lemma_fundamental_div_mod_converse(x + 5 * p, 10 * p, 0, x + 5 * p);
    vstd::arithmetic::div_mod::lemma_fundamental_div_mod_converse(x, 10 * p, 0, x);
}

/// The index of the first `c1` or `c2` in `s[from..to]`, or `to`.
fn find_either(s: &Vec<char>, from: usize, to: usize, c1: char, c2: char) -> (k: usize)
    requires
        from <= to <= s.len(),
    ensures
        from <= k <= to,
        k - from == first_of(s@.subrange(from as int, to as int), c1, c2),
{
    let ghost b = s@.subrange(from as int, to as int);
    let mut k = from;
    while k < to && s[k] != c1 && s[k] != c2
        invariant
            from <= k <= to <= s.len(),
            forall|j: int| from <= j < k ==> s@[j] != c1 && s@[j] != c2,
        decreases to - k,
    {
        k += 1;
    }
    proof {
        lemma_first_of(b, c1, c2);
        let kb = first_of(b, c1, c2);
        if kb < k - from {
            assert(b[kb] == s@[from + kb]);
        }
        if k < to && kb > k - from {
            assert(b[k - from] == s@[k as int]);
        }
    }
    k
}

/// Whether `s[from..to]` is all digits.
fn check_digits(s: &Vec<char>, from: usize, to: usize) -> (r: bool)
    requires
        from <= to <= s.len(),
    ensures
        r == all_digits(s@.subrange(from as int, to as int)),
{
    let ghost d = s@.subrange(from as int, to as int);
    let mut j = from;
    while j < to
        invariant
            from <= j <= to <= s.len(),
            d == s@.subrange(from as int, to as int),
            forall|i: int| 0 <= i < j - from ==> is_digit(#[trigger] d[i]),
        decreases to - j,
    {
        if !exec_is_digit(s[j]) {
            assert(d[j - from] == s@[j as int]);
            return false;
        }
        j += 1;
    }
    true
}

/// `v` capped at `cap`.
pub open spec fn capped(v: nat, cap: nat) -> nat {
    if v < cap {
        v
    } else {
        cap
    }
}

/// Reads the digits `s[from..to]`, their value capped at `cap`; `None`
/// when they are not all digits.
fn read_digits_capped(s: &Vec<char>, from: usize, to: usize, cap: u128) -> (r: Option<u128>)
    requires
        from <= to <= s.len(),
        cap <= 10_000_000_000_000_000_000_000_000_000_000u128,
    ensures
        r is Some <==> all_digits(s@.subrange(from as int, to as int)),
        r matches Some(v) ==> v == capped(digits_value(s@.subrange(from as int, to as int)), cap as nat),
{
    let ghost d = s@.subrange(from as int, to as int);
    let mut acc: u128 = 0;
    let mut i = from;
    while i < to
        invariant
            from <= i <= to <= s.len(),
            d == s@.subrange(from as int, to as int),
            cap <= 10_000_000_000_000_000_000_000_000_000_000u128,
            all_digits(d.take(i - from)),
            acc == capped(digits_value(d.take(i - from)), cap as nat),
        decreases to - i,
    {
        let c = s[i];
        if !exec_is_digit(c) {
            assert(d[i - from] == c);
            return None;
        }
        assert(d.take(i - from + 1).drop_last() =~= d.take(i - from));
        assert(d.take(i - from + 1).last() == c);
        let dig = ((c as u32) - ('0' as u32)) as u128;
        if acc < cap {
            let v = acc * 10 + dig;
            acc = if v < cap {
                v
            } else {
                cap
            };
        }
        assert(all_digits(d.take(i - from + 1)));
        i += 1;
    }
    assert(d.take(i - from) =~= d);
    Some(acc)
}

/// The largest exponent magnitude told apart; larger ones are read as it.
pub const EXP_CAP: u128 = 100_000_000_000_000_000_000;

/// `v` is the exponent `e`, saturated at `EXP_CAP` either way.
pub open spec fn exp_saturated(e: int, v: int) -> bool {
    if e >= EXP_CAP {
        v == EXP_CAP
    } else if e <= -EXP_CAP {
        v == -EXP_CAP
    } else {
        v == e
    }
}

/// Reads the exponent `s[from..to]`: an optional sign and at least one
/// digit.
fn read_exponent(s: &Vec<char>, from: usize, to: usize) -> (r: Option<i128>)
    requires
        from <= to <= s.len(),
    ensures
        r is Some <==> int_text(s@.subrange(from as int, to as int)) is Some,
        r matches Some(v) ==> exp_saturated(
            int_text(s@.subrange(from as int, to as int)).unwrap(),
            v as int,
        ),
{
    let ghost x = s@.subrange(from as int, to as int);
    if from == to {
        return None;
    }
    let c0 = s[from];
    assert(x[0] == c0);
    if c0 == '-' || c0 == '+' {
        if from + 1 == to {
            return None;
        }
        assert(x.skip(1) =~= s@.subrange(from + 1, to as int));
        match read_digits_capped(s, from + 1, to, EXP_CAP) {
            None => None,
            Some(v) => {
                if c0 == '-' {
                    Some(-(v as i128))
                } else {
                    Some(v as i128)
                }
            },
        }
    } else {
        match read_digits_capped(s, from, to, EXP_CAP) {
            None => None,
            Some(v) => Some(v as i128),
        }
    }
}

/// Where the parts of a number without its sign, `s[start..]`, lie: the
/// end of the digits before the point, the start of those after it, the
/// exponent mark (or the end), and the exponent, saturated.
fn float_parts(s: &Vec<char>, start: usize) -> (r: Option<(usize, usize, usize, i128)>)
    requires
        start <= s.len(),
    ensures
        r is Some <==> float_number(s@.skip(start as int)) is Some,
        r matches Some((kd, ff, ke, e)) ==> {
            let (w, f, ex) = float_number(s@.skip(start as int)).unwrap();
            &&& start <= kd <= ff <= ke <= s.len()
            &&& w == s@.subrange(start as int, kd as int)
            &&& f == s@.subrange(ff as int, ke as int)
            &&& exp_saturated(ex, e as int)
        },
{
    let ghost b = s@.skip(start as int);
    let n = s.len();
    assert(s@.subrange(start as int, n as int) =~= b);
    let ke = find_either(s, start, n, 'e', 'E');
    let kd = find_either(s, start, ke, '.', '.');
    let ff: usize = if kd < ke {
        kd + 1
    } else {
        ke
    };
    proof {
        let m = b.take(ke - start);
        assert(m =~= s@.subrange(start as int, ke as int));
        assert(m.take(kd - start) =~= s@.subrange(start as int, kd as int));
        if kd < ke {
            assert(m.skip(kd - start + 1) =~= s@.subrange(ff as int, ke as int));
        } else {
            assert(s@.subrange(ff as int, ke as int) =~= Seq::<char>::empty());
        }
        if ke < n {
            assert(b.skip(ke - start + 1) =~= s@.subrange(ke + 1, n as int));
        }
    }
    if kd - start + (ke - ff) == 0 {
        return None;
    }
    if !check_digits(s, start, kd) || !check_digits(s, ff, ke) {
        return None;
    }
    let e: i128 = if ke < n {
        match read_exponent(s, ke + 1, n) {
            Some(v) => v,
            None => {
                return None;
            },
        }
    } else {
        0
    };
    Some((kd, ff, ke, e))
}

/// `digits * 10^exact`, when it is at most `limit`. `shift` is `exact`,
/// or, where `exact` is larger, at least 40.
fn scale_up(digits: &Vec<char>, shift: i128, Ghost(exact): Ghost<int>, limit: u128) -> (r: Option<
    u128,
>)
    requires
        all_digits(digits@),
        0 <= shift <= exact,
        shift != exact ==> shift >= 40,
        limit <= 1_000_000_000_000_000_000_000_000_000_000u128,
    ensures
        match r {
            Some(v) => v == scaled(digits_value(digits@), exact) && v <= limit,
            None => scaled(digits_value(digits@), exact) > limit,
        },
{
    let ghost d = digits@;
    assert(digits@.subrange(0, digits.len() as int) =~= d);
    let m = match read_digits_capped(digits, 0, digits.len(), limit + 1) {
        Some(m) => m,
        None => {
            return None;
        },
    };
    proof {
        lemma_pow10_grows(0, exact as nat);
        let x = digits_value(d) as int;
        let p = pow10(exact as nat) as int;
        assert(x * p >= x) by (nonlinear_arith)
            requires
                x >= 0,
                p >= 1,
        ;
    }
    if m > limit {
        return None;
    }
    if m == 0 {
        assert(digits_value(d) == 0);
        assert(0 * pow10(exact as nat) == 0);
        return Some(0);
    }
    let mut acc: u128 = m;
    let mut j: i128 = 0;
    assert(pow10(0) == 1);
    assert(m * pow10(0) == m) by (nonlinear_arith)
        requires
            pow10(0) == 1,
    ;
    while j < shift
        invariant
            0 <= j <= shift <= exact,
            1 <= m <= limit,
            limit <= 1_000_000_000_000_000_000_000_000_000_000u128,
            acc == m * pow10(j as nat),
            acc <= limit,
            m == digits_value(d),
            d == digits@,
        decreases shift - j,
    {
        proof {
            assert(pow10((j + 1) as nat) == 10 * pow10(j as nat));
            assert(m * (10 * pow10(j as nat)) == 10 * (m * pow10(j as nat))) by (nonlinear_arith);
        }
        if acc > limit / 10 {
            proof {
                lemma_pow10_grows((j + 1) as nat, exact as nat);
                let p1 = pow10((j + 1) as nat) as int;
                let pe = pow10(exact as nat) as int;
                assert(m * pe >= m * p1) by (nonlinear_arith)
                    requires
                        m >= 1,
                        pe >= p1,
                ;
            }
            return None;
        }
        acc = acc * 10;
        j += 1;
    }
    proof {
        if shift != exact {
            lemma_pow10_grows(31, j as nat);
            assert(pow10(31) == 10_000_000_000_000_000_000_000_000_000_000nat) by {
                reveal_with_fuel(pow10, 32);
            }
            assert(m * pow10(j as nat) >= pow10(j as nat)) by (nonlinear_arith)
                requires
                    m >= 1,
            ;
        }
    }
    Some(acc)
}

/// `digits * 10^-exact`, rounded to the nearest (halves up) where `round`
/// and truncated otherwise, when it is at most `limit`. `kk` is `exact`,
/// or, where `exact` is larger, more than the number of digits.
fn scale_down(
    digits: &Vec<char>,
    kk: i128,
    Ghost(exact): Ghost<int>,
    limit: u128,
    round: bool,
) -> (r: Option<u128>)
    requires
        all_digits(digits@),
        1 <= kk <= exact,
        kk != exact ==> kk > digits.len(),
        limit <= 1_000_000_000_000_000_000_000_000_000_000u128,
    ensures
        match r {
            Some(v) => v == scaled_mode(digits_value(digits@), -exact, round) && v <= limit,
            None => scaled_mode(digits_value(digits@), -exact, round) > limit,
        },
{
    let ghost d = digits@;
    let nd = digits.len();
    if kk > nd as i128 {
        proof {
            lemma_round_to_zero(d, exact);
        }
        return Some(0);
    }
    let cut: usize = nd - (kk as usize);
    assert(digits@.subrange(0, cut as int) =~= d.take(cut as int));
    let q = match read_digits_capped(digits, 0, cut, limit + 1) {
        Some(q) => q,
        None => {
            return None;
        },
    };
    proof {
        lemma_round_at(d, cut as int);
    }
    if q > limit {
        return None;
    }
    let up = round && digits[cut] >= '5';
    let mg = if up {
        q + 1
    } else {
        q
    };
    if mg > limit {
        return None;
    }
    Some(mg)
}

/// Reads `t` as `f64::from_str` does, times `10^k`, rounded to the nearest
/// integer (see `float_scaled`).
pub fn parse_scaled(t: &str, k: u32, limit: u128) -> (r: Option<i128>)
    requires
        k <= 30,
        limit <= 1_000_000_000_000_000_000_000_000_000_000u128,
    ensures
        match r {
            Some(v) => float_scaled(t@, k as nat, limit as nat) == Some(v as int),
            None => float_scaled(t@, k as nat, limit as nat) is None,
        },
{
    parse_read(t, k, limit, true)
}

/// Reads `t` as `f64::from_str` does, times `10^k`, rounded or truncated
/// (see `float_read`).
fn parse_read(t: &str, k: u32, limit: u128, round: bool) -> (r: Option<i128>)
    requires
        k <= 30,
        limit <= 1_000_000_000_000_000_000_000_000_000_000u128,
    ensures
        match r {
            Some(v) => float_read(t@, k as nat, limit as nat, round) == Some(v as int),
            None => float_read(t@, k as nat, limit as nat, round) is None,
        },
{
    let s = chars_of(t);
    let n = s.len();
    let neg = n > 0 && s[0] == '-';
    let start: usize = if n > 0 && (s[0] == '-' || s[0] == '+') {
        1
    } else {
        0
    };
    assert(float_body(t@) =~= s@.skip(start as int));
    let (kd, ff, ke, e) = match float_parts(&s, start) {
        Some(p) => p,
        None => {
            return None;
        },
    };
    let ghost parts = float_number(s@.skip(start as int)).unwrap();
    let ghost w = parts.0;
    let ghost f = parts.1;
    let ghost ex = parts.2;
    let mut digits: Vec<char> = Vec::new();
    let mut i = start;
    while i < kd
        invariant
            start <= i <= kd <= s.len(),
            digits@ == s@.subrange(start as int, i as int),
        decreases kd - i,
    {
        digits.push(s[i]);
        i += 1;
        assert(digits@ =~= s@.subrange(start as int, i as int));
    }
    let mut i = ff;
    while i < ke
        invariant
            ff <= i <= ke <= s.len(),
            digits@ == w + s@.subrange(ff as int, i as int),
        decreases ke - i,
    {
        digits.push(s[i]);
        i += 1;
        assert(digits@ =~= w + s@.subrange(ff as int, i as int));
    }
    let ghost d = digits@;
    assert(d == w + f);
    assert(all_digits(d)) by {
        assert forall|j: int| 0 <= j < d.len() implies is_digit(#[trigger] d[j]) by {
            if j < w.len() {
                assert(d[j] == w[j]);
            } else {
                assert(d[j] == f[j - w.len()]);
            }
        }
    }
    let fl = ke - ff;
    let nd = digits.len();
    let shift: i128 = e + (k as i128) - (fl as i128);
    let ghost exact_shift: int = ex + k - f.len();
    proof {
        if ex >= EXP_CAP || ex <= -EXP_CAP {
            assert(nd <= usize::MAX);
        }
    }
    let mag: u128 = if shift >= 0 {
        match scale_up(&digits, shift, Ghost(exact_shift), limit) {
            Some(v) => v,
            None => {
                return None;
            },
        }
    } else {
        match scale_down(&digits, -shift, Ghost(-exact_shift), limit, round) {
            Some(v) => v,
            None => {
                return None;
            },
        }
    };
    assert(float_negative(t@) == neg);
    if neg {
        Some(-(mag as i128))
    } else {
        Some(mag as i128)
    }
}

/// Reads a number of the file in ten-thousandths (see `float_value`).
pub fn parse_decimal(t: &str) -> (r: Option<i64>)
    ensures
        match r {
            Some(v) => float_value(t@) == Some(v as int),
            None => float_value(t@) is None,
        },
{
    match parse_scaled(t, 4, NUMBER_LIMIT as u128) {
        Some(v) => Some(v as i64),
        None => None,
    }
}

/// Reads an angle of the file in ten-thousandths of a degree, truncated
/// (see `angle_value`).
pub fn parse_angle(t: &str) -> (r: Option<i64>)
    ensures
        match r {
            Some(v) => angle_value(t@) == Some(v as int),
            None => angle_value(t@) is None,
        },
{
    match parse_read(t, 4, NUMBER_LIMIT as u128, false) {
        Some(v) => Some(v as i64),
        None => None,
    }
}

} // verus!
