//! Rendering of integers as decimal and hexadecimal text and parsing of hexadecimal text.

use vstd::prelude::*;

verus! {

/// The character of a digit below sixteen, lower case for the letters.
pub open spec fn digit_char(d: nat) -> char {
    if d < 10 {
        (48 + d) as char
    } else {
        (87 + d) as char
    }
}

/// The decimal representation of `n` without leading zeros.
pub open spec fn decimal_text(n: nat) -> Seq<char>
    decreases n,
{
    if n < 10 {
        seq![digit_char(n)]
    } else {
        decimal_text(n / 10).push(digit_char(n % 10))
    }
}

/// The lower case hexadecimal representation of `n` using exactly `width` digits: the `width`
/// lowest hexadecimal digits, padded with zeros.
pub open spec fn hex_text(n: nat, width: nat) -> Seq<char>
    decreases width,
{
    if width == 0 {
        Seq::empty()
    } else {
        hex_text(n / 16, (width - 1) as nat).push(digit_char(n % 16))
    }
}

/// Appends a character to a string.
#[verifier::external_body]
pub(crate) fn push_char(s: &mut String, c: char)
    ensures
        final(s)@ == old(s)@.push(c),
{
    s.push(c)
}

/// The character of a digit below sixteen.
pub fn digit_to_char(d: u8) -> (c: char)
    requires
        d < 16,
    ensures
        c == digit_char(d as nat),
{
    if d < 10 {
        (48u8 + d) as char
    } else {
        (87u8 + d) as char
    }
}

/// Appends the decimal representation of `n`.
pub fn push_decimal(s: &mut String, n: u64)
    ensures
        final(s)@ == old(s)@ + decimal_text(n as nat),
    decreases n,
{
    if n >= 10 {
        push_decimal(s, n / 10);
    }
    let c = digit_to_char((n % 10) as u8);
    push_char(s, c);
    assert(final(s)@ =~= old(s)@ + decimal_text(n as nat));
}

/// Appends the `width` lowest hexadecimal digits of `n`, padded with zeros.
pub fn push_hex(s: &mut String, n: u64, width: u32)
    ensures
        final(s)@ == old(s)@ + hex_text(n as nat, width as nat),
    decreases width,
{
    if width > 0 {
        push_hex(s, n / 16, width - 1);
        let c = digit_to_char((n % 16) as u8);
        push_char(s, c);
    }
    assert(final(s)@ =~= old(s)@ + hex_text(n as nat, width as nat));
}


/// The value of a hexadecimal digit, either case.
pub open spec fn hex_digit_value(c: char) -> Option<nat> {
    let u = c as u32;
    if 48 <= u <= 57 {
        Some((u - 48) as nat)
    } else if 97 <= u <= 102 {
        Some((u - 87) as nat)
    } else if 65 <= u <= 70 {
        Some((u - 55) as nat)
    } else {
        None
    }
}

/// Whether every character is a hexadecimal digit.
pub open spec fn all_hex(s: Seq<char>) -> bool {
    forall|i: int| 0 <= i < s.len() ==> (#[trigger] hex_digit_value(s[i])) is Some
}

/// The value of a sequence of hexadecimal digits.
pub open spec fn hex_value(s: Seq<char>) -> nat
    decreases s.len(),
{
    if s.len() == 0 {
        0
    } else {
        hex_value(s.drop_last()) * 16 + match hex_digit_value(s.last()) {
            Some(d) => d,
            None => 0,
        }
    }
}

/// The digits of a number: the text without one leading plus sign.
pub open spec fn hex_digits(s: Seq<char>) -> Seq<char> {
    if s.len() > 0 && s[0] == '+' {
        s.drop_first()
    } else {
        s
    }
}

/// Hexadecimal text read as a 64 bit number: an optional plus sign and at least one digit,
/// nothing else, and a value that fits.
pub open spec fn hex_number(s: Seq<char>) -> Option<u64> {
    let d = hex_digits(s);
    if d.len() == 0 || !all_hex(d) || hex_value(d) > u64::MAX {
        None
    } else {
        Some(hex_value(d) as u64)
    }
}

/// The value of a prefix of hexadecimal digits is at most the value of all of them.
proof fn lemma_hex_value_prefix(s: Seq<char>, k: int)
    requires
        all_hex(s),
        0 <= k <= s.len(),
    ensures
        hex_value(s.take(k)) <= hex_value(s),
    decreases s.len(),
{
    if k < s.len() {
        assert(s.take(k) =~= s.drop_last().take(k));
        assert(all_hex(s.drop_last())) by {
            assert forall|i: int| 0 <= i < s.drop_last().len() implies (#[trigger] hex_digit_value(
                s.drop_last()[i],
            )) is Some by {
                assert(hex_digit_value(s[i]) is Some);
            }
        }
        lemma_hex_value_prefix(s.drop_last(), k);
    } else {
        assert(s.take(k) =~= s);
    }
}

/// The value of a hexadecimal digit.
fn hex_digit(c: char) -> (r: Option<u64>)
    ensures
        r is Some == hex_digit_value(c) is Some,
        r matches Some(v) ==> hex_digit_value(c) == Some(v as nat),
{
    let u = c as u32;
    if 48 <= u && u <= 57 {
        Some((u - 48) as u64)
    } else if 97 <= u && u <= 102 {
        Some((u - 87) as u64)
    } else if 65 <= u && u <= 70 {
        Some((u - 55) as u64)
    } else {
        None
    }
}

/// Reads hexadecimal text as a 64 bit number, in the way `u64::from_str_radix` with radix 16
/// does: `None` where that gives an error.
pub fn parse_hex_u64(s: &str) -> (r: Option<u64>)
    ensures
        r == hex_number(s@),
{
    let len = s.unicode_len();
    if len == 0 {
        return None;
    }
    let start: usize = if s.get_char(0) == '+' {
        1
    } else {
        0
    };
    let ghost d = s@.subrange(start as int, len as int);
    assert(d =~= hex_digits(s@));
    if start == len {
        return None;
    }
    let mut acc: u64 = 0;
    let mut i: usize = start;
    assert(d.take(0) =~= Seq::<char>::empty());
    while i < len
        invariant
            start <= i <= len,
            len == s@.len(),
            d == s@.subrange(start as int, len as int),
            d == hex_digits(s@),
            all_hex(d.take(i - start)),
            acc == hex_value(d.take(i - start)),
        decreases len - i,
    {
        let c = s.get_char(i);
        let ghost j = i - start;
        assert(d[j] == c);
        assert(d.take(j + 1).drop_last() =~= d.take(j));
        assert(d.take(j + 1).last() == c);
        let v = match hex_digit(c) {
            Some(v) => v,
            None => {
                assert(!all_hex(d));
                return None;
            },
        };
        assert(all_hex(d.take(j + 1))) by {
            assert forall|t: int| 0 <= t < j + 1 implies (#[trigger] hex_digit_value(
                d.take(j + 1)[t],
            )) is Some by {
                if t < j {
                    assert(d.take(j + 1)[t] == d.take(j)[t]);
                    assert(hex_digit_value(d.take(j)[t]) is Some);
                }
            }
        }
        let next = match acc.checked_mul(16) {
            Some(m) => m.checked_add(v),
            None => None,
        };
        match next {
            Some(a) => {
                acc = a;
            },
            None => {
                proof {
                    if all_hex(d) {
                        lemma_hex_value_prefix(d, j + 1);
                    }
                }
                return None;
            },
        }
        i = i + 1;
    }
    assert(d.take(len - start) =~= d);
    Some(acc)
}

/// Whether a character has the Unicode `White_Space` property, as `char::is_whitespace` checks.
pub open spec fn is_white_space(c: char) -> bool {
    let u = c as u32;
    (9 <= u <= 13) || u == 32 || u == 0x85 || u == 0xA0 || u == 0x1680 || (0x2000 <= u <= 0x200A)
        || u == 0x2028 || u == 0x2029 || u == 0x202F || u == 0x205F || u == 0x3000
}

/// The text without white space at its start and its end, as `str::trim` gives it.
pub open spec fn trimmed(s: Seq<char>) -> Seq<char>
    decreases s.len(),
{
    if s.len() == 0 {
        s
    } else if is_white_space(s[0]) {
        trimmed(s.drop_first())
    } else if is_white_space(s.last()) {
        trimmed(s.drop_last())
    } else {
        s
    }
}

/// Whether a character is white space.
fn white_space(c: char) -> (r: bool)
    ensures
        r == is_white_space(c),
{
    let u = c as u32;
    (9 <= u && u <= 13) || u == 32 || u == 0x85 || u == 0xA0 || u == 0x1680 || (0x2000 <= u && u
        <= 0x200A) || u == 0x2028 || u == 0x2029 || u == 0x202F || u == 0x205F || u == 0x3000
}

proof fn lemma_trimmed_all_white(s: Seq<char>)
    requires
        forall|t: int| 0 <= t < s.len() ==> is_white_space(#[trigger] s[t]),
    ensures
        trimmed(s) == Seq::<char>::empty(),
    decreases s.len(),
{
    if s.len() > 0 {
        assert(is_white_space(s[0]));
        lemma_trimmed_all_white(s.drop_first());
    } else {
        assert(s =~= Seq::<char>::empty());
    }
}

proof fn lemma_trimmed_range(s: Seq<char>, i: int, j: int)
    requires
        0 <= i < j <= s.len(),
        forall|t: int| 0 <= t < i ==> is_white_space(#[trigger] s[t]),
        forall|t: int| j <= t < s.len() ==> is_white_space(#[trigger] s[t]),
        !is_white_space(s[i]),
        !is_white_space(s[j - 1]),
    ensures
        trimmed(s) == s.subrange(i, j),
    decreases s.len(),
{
    if i > 0 {
        assert(is_white_space(s[0]));
        let d = s.drop_first();
        assert forall|t: int| 0 <= t < i - 1 implies is_white_space(#[trigger] d[t]) by {
            assert(d[t] == s[t + 1]);
        }
        assert forall|t: int| j - 1 <= t < d.len() implies is_white_space(#[trigger] d[t]) by {
            assert(d[t] == s[t + 1]);
        }
        lemma_trimmed_range(d, i - 1, j - 1);
        assert(d.subrange(i - 1, j - 1) =~= s.subrange(i, j));
    } else if j < s.len() {
        assert(is_white_space(s[s.len() - 1]));
        let d = s.drop_last();
        assert forall|t: int| j <= t < d.len() implies is_white_space(#[trigger] d[t]) by {
            assert(d[t] == s[t]);
        }
        lemma_trimmed_range(d, i, j);
        assert(d.subrange(i, j) =~= s.subrange(i, j));
    } else {
        assert(s.subrange(0, s.len() as int) =~= s);
    }
}

/// The text without white space at its start and its end.
pub fn trim(s: &str) -> (r: String)
    ensures
        r@ == trimmed(s@),
{
    let len = s.unicode_len();
    let mut i: usize = 0;
    while i < len && white_space(s.get_char(i))
        invariant
            0 <= i <= len,
            len == s@.len(),
            forall|t: int| 0 <= t < i ==> is_white_space(#[trigger] s@[t]),
        decreases len - i,
    {
        i = i + 1;
    }
    if i == len {
        proof {
            lemma_trimmed_all_white(s@);
        }
        return String::new();
    }
    let mut j: usize = len;
    while j > i + 1 && white_space(s.get_char(j - 1))
        invariant
            i < j <= len,
            len == s@.len(),
            forall|t: int| j <= t < len ==> is_white_space(#[trigger] s@[t]),
        decreases j,
    {
        j = j - 1;
    }
    proof {
        if j == i + 1 {
            assert(!is_white_space(s@[i as int]));
        }
        lemma_trimmed_range(s@, i as int, j as int);
    }
    let part = s.substring_char(i, j);
    String::from_str(part)
}

/// Whether a character is one of the decimal digits `0` to `9`.
pub open spec fn is_decimal_digit(c: char) -> bool {
    48 <= c as u32 <= 57
}

/// The value of a sequence of decimal digits, the most significant first.
pub open spec fn decimal_value(s: Seq<char>) -> nat
    decreases s.len(),
{
    if s.len() == 0 {
        0
    } else {
        decimal_value(s.drop_last()) * 10 + ((s.last() as u32 - 48) as nat)
    }
}

/// Sixteen to the power of `w`.
pub open spec fn pow16(w: nat) -> nat
    decreases w,
{
    if w == 0 {
        1
    } else {
        16 * pow16((w - 1) as nat)
    }
}

/// The decimal text of a number is its numeral: decimal digits only, no leading zero (but for
/// zero itself, written `0`), and read in base ten it gives back the number.
pub proof fn lemma_decimal_text(n: nat)
    ensures
        decimal_text(n).len() >= 1,
        forall|i: int| 0 <= i < decimal_text(n).len() ==> is_decimal_digit(#[trigger] decimal_text(n)[i]),
        decimal_text(n)[0] == '0' ==> n == 0,
        n == 0 ==> decimal_text(n) == seq!['0'],
        decimal_value(decimal_text(n)) == n,
    decreases n,
{
    if n < 10 {
        assert(decimal_text(n) == seq![(48 + n) as char]);
        assert(seq![(48 + n) as char].drop_last() =~= Seq::<char>::empty());
        assert(decimal_value(Seq::<char>::empty()) == 0);
        if n == 0 {
            assert(decimal_text(n) =~= seq!['0']);
        }
    } else {
        lemma_decimal_text(n / 10);
        let t = decimal_text(n / 10);
        let u = t.push((48 + n % 10) as char);
        assert(decimal_text(n) == u);
        assert(u.drop_last() =~= t);
        assert(u[0] == t[0]);
        assert forall|i: int| 0 <= i < u.len() implies is_decimal_digit(#[trigger] u[i]) by {
            if i < t.len() {
                assert(u[i] == t[i]);
            }
        }
        assert(decimal_value(u) == decimal_value(t) * 10 + n % 10);
        assert((n / 10) * 10 + n % 10 == n);
    }
}

/// Whether a character is a lower case hexadecimal digit: `0` to `9` or `a` to `f`.
pub open spec fn is_lower_hex_digit(c: char) -> bool {
    (48 <= c as u32 <= 57) || (97 <= c as u32 <= 102)
}

/// The hexadecimal text of a number of `width` digits is exactly `width` lower case digits
/// that, read in base sixteen, give back the number.
pub proof fn lemma_hex_text(n: nat, width: nat)
    requires
        n < pow16(width),
    ensures
        hex_text(n, width).len() == width,
        forall|i: int| 0 <= i < width ==> is_lower_hex_digit(#[trigger] hex_text(n, width)[i]),
        all_hex(hex_text(n, width)),
        hex_value(hex_text(n, width)) == n,
    decreases width,
{
    if width == 0 {
        assert(n == 0);
    } else {
        let w1 = (width - 1) as nat;
        assert(n / 16 < pow16(w1)) by (nonlinear_arith)
            requires
                n < 16 * pow16(w1),
        ;
        lemma_hex_text(n / 16, w1);
        let t = hex_text(n / 16, w1);
        let d = n % 16;
        let u = t.push(digit_char(d));
        assert(hex_text(n, width) == u);
        assert(u.drop_last() =~= t);
        assert forall|i: int| 0 <= i < width implies is_lower_hex_digit(#[trigger] u[i]) by {
            if i < w1 {
                assert(u[i] == t[i]);
            }
        }
        assert forall|i: int| 0 <= i < u.len() implies (#[trigger] hex_digit_value(u[i])) is Some by {
            if i < w1 {
                assert(u[i] == t[i]);
                assert(hex_digit_value(t[i]) is Some);
            }
        }
        assert(hex_digit_value(digit_char(d)) == Some(d));
        assert(hex_value(u) == hex_value(t) * 16 + d);
        assert((n / 16) * 16 + n % 16 == n);
    }
}

/// Sixteen hexadecimal digits hold every 64 bit value.
pub proof fn lemma_pow16_16()
    ensures
        pow16(16) == 0x1_0000_0000_0000_0000,
{
    reveal_with_fuel(pow16, 17);
    assert(pow16(4) == 0x1_0000);
    assert(pow16(8) == 0x1_0000_0000);
    assert(pow16(12) == 0x1_0000_0000_0000);
    assert(pow16(16) == 0x1_0000_0000_0000_0000);
}
} // verus!
