//! Decimal text for timestamps: rendering an `i64` and reading one back.
//!
//! The sync state store keeps the last-sync watermark as decimal text; these
//! are the two conversions, each pinned to the spec-level decimal notation.

use vstd::prelude::*;

verus! {

/// The character for one decimal digit.
pub open spec fn digit_char(d: int) -> char {
    if d == 0 {
        '0'
    } else if d == 1 {
        '1'
    } else if d == 2 {
        '2'
    } else if d == 3 {
        '3'
    } else if d == 4 {
        '4'
    } else if d == 5 {
        '5'
    } else if d == 6 {
        '6'
    } else if d == 7 {
        '7'
    } else if d == 8 {
        '8'
    } else {
        '9'
    }
}

/// The decimal notation of a nonnegative number, no leading zeros.
pub open spec fn decimal_of(m: int) -> Seq<char>
    decreases m,
{
    if m < 10 {
        seq![digit_char(m)]
    } else {
        decimal_of(m / 10).push(digit_char(m % 10))
    }
}

/// The decimal notation of a signed number.
pub open spec fn decimal_of_signed(n: int) -> Seq<char> {
    if n < 0 {
        seq!['-'] + decimal_of(-n)
    } else {
        decimal_of(n)
    }
}

/// Whether `c` is a decimal digit.
pub open spec fn is_digit(c: char) -> bool {
    48 <= (c as u32) <= 57
}

/// The numeric value of a digit character.
pub open spec fn digit_val(c: char) -> int {
    (c as u32) - 48
}

/// The value of a run of digit characters.
pub open spec fn digits_val(s: Seq<char>) -> int
    decreases s.len(),
{
    if s.len() == 0 {
        0
    } else {
        digits_val(s.drop_last()) * 10 + digit_val(s.last())
    }
}

/// The digits of a signed decimal string, after any sign.
pub open spec fn int_str_body(s: Seq<char>) -> Seq<char> {
    if s.len() > 0 && (s[0] == '-' || s[0] == '+') {
        s.drop_first()
    } else {
        s
    }
}

/// The value a signed decimal string denotes.
pub open spec fn int_str_val(s: Seq<char>) -> int {
    if s.len() > 0 && s[0] == '-' {
        -digits_val(int_str_body(s))
    } else {
        digits_val(int_str_body(s))
    }
}

/// Whether `s` is decimal text an `i64` can hold: an optional sign, at least
/// one digit, nothing else, value in range.
pub open spec fn is_i64_str(s: Seq<char>) -> bool {
    &&& int_str_body(s).len() > 0
    &&& forall|i: int| 0 <= i < int_str_body(s).len() ==> is_digit(#[trigger] int_str_body(s)[i])
    &&& i64::MIN <= int_str_val(s) <= i64::MAX
}

/// One digit, executable.
pub(crate) fn digit_char_exec(d: u64) -> (r: char)
    requires
        d < 10,
    ensures
        r == digit_char(d as int),
{
    match d {
        0 => '0',
        1 => '1',
        2 => '2',
        3 => '3',
        4 => '4',
        5 => '5',
        6 => '6',
        7 => '7',
        8 => '8',
        _ => '9',
    }
}

/// Append the decimal digits of `m` to `out`.
fn push_decimal(out: &mut Vec<char>, m: u64)
    ensures
        final(out)@ == old(out)@ + decimal_of(m as int),
    decreases m,
{
    if m < 10 {
        out.push(digit_char_exec(m));
        proof {
            assert(out@ =~= old(out)@ + decimal_of(m as int));
        }
    } else {
        push_decimal(out, m / 10);
        out.push(digit_char_exec(m % 10));
        proof {
            assert(out@ =~= old(out)@ + decimal_of(m as int));
        }
    }
}

/// Render a number as decimal text.
pub fn i64_to_string(n: i64) -> (r: String)
    ensures
        r@ == decimal_of_signed(n as int),
{
    let mut chars: Vec<char> = Vec::new();
    if n < 0 {
        chars.push('-');
        let m: u64 = if n == i64::MIN {
            0x8000_0000_0000_0000u64
        } else {
            (-n) as u64
        };
        proof {
            assert(m == -(n as int));
        }
        push_decimal(&mut chars, m);
        proof {
            assert(chars@ =~= decimal_of_signed(n as int));
        }
    } else {
        push_decimal(&mut chars, n as u64);
    }
    crate::text::chars_to_string(&chars)
}

/// Each digit character reads back as its digit.
pub(crate) proof fn lemma_digit_char_val(d: int)
    requires
        0 <= d < 10,
    ensures
        digit_val(digit_char(d)) == d,
        is_digit(digit_char(d)),
        digit_char(d) != '-' && digit_char(d) != '+',
{
    if d == 0 {
        assert(('0' as u32) == 48);
    } else if d == 1 {
        assert(('1' as u32) == 49);
    } else if d == 2 {
        assert(('2' as u32) == 50);
    } else if d == 3 {
        assert(('3' as u32) == 51);
    } else if d == 4 {
        assert(('4' as u32) == 52);
    } else if d == 5 {
        assert(('5' as u32) == 53);
    } else if d == 6 {
        assert(('6' as u32) == 54);
    } else if d == 7 {
        assert(('7' as u32) == 55);
    } else if d == 8 {
        assert(('8' as u32) == 56);
    } else {
        assert(('9' as u32) == 57);
    }
}

/// Render an unsigned number as decimal text.
pub fn u64_to_string(n: u64) -> (r: String)
    ensures
        r@ == decimal_of(n as int),
{
    let mut chars: Vec<char> = Vec::new();
    push_decimal(&mut chars, n);
    proof {
        assert(chars@ =~= decimal_of(n as int));
    }
    crate::text::chars_to_string(&chars)
}

/// Reading the decimal text of a number gives the number back.
pub proof fn lemma_decimal_roundtrip(m: int)
    requires
        m >= 0,
    ensures
        decimal_of(m).len() >= 1,
        forall|i: int| 0 <= i < decimal_of(m).len() ==> is_digit(#[trigger] decimal_of(m)[i]),
        digits_val(decimal_of(m)) == m,
        decimal_of(m)[0] != '-' && decimal_of(m)[0] != '+',
    decreases m,
{
    if m < 10 {
        lemma_digit_char_val(m);
        assert(decimal_of(m) =~= seq![digit_char(m)]);
        assert(decimal_of(m).drop_last() =~= Seq::<char>::empty());
        assert(digits_val(decimal_of(m)) == digits_val(Seq::<char>::empty()) * 10 + digit_val(
            digit_char(m),
        ));
    } else {
        lemma_decimal_roundtrip(m / 10);
        lemma_digit_char_val(m % 10);
        let s = decimal_of(m);
        assert(s =~= decimal_of(m / 10).push(digit_char(m % 10)));
        assert(s.drop_last() =~= decimal_of(m / 10));
        assert(digits_val(s) == digits_val(decimal_of(m / 10)) * 10 + digit_val(
            digit_char(m % 10),
        ));
    }
}

/// The same, for the signed notation.
pub proof fn lemma_decimal_signed_roundtrip(n: int)
    requires
        i64::MIN <= n <= i64::MAX,
    ensures
        is_i64_str(decimal_of_signed(n)),
        int_str_val(decimal_of_signed(n)) == n,
{
    if n < 0 {
        lemma_decimal_roundtrip(-n);
        let s = decimal_of_signed(n);
        assert(s[0] == '-');
        assert(int_str_body(s) =~= decimal_of(-n));
    } else {
        lemma_decimal_roundtrip(n);
        let s = decimal_of_signed(n);
        assert(s == decimal_of(n));
        assert(!(s[0] == '-' || s[0] == '+'));
        assert(int_str_body(s) =~= s);
    }
}

/// Read decimal text back into a number: `Some` exactly on well-formed text
/// whose value fits, with that value.
#[verifier::loop_isolation(false)]
pub fn parse_i64(s: &str) -> (r: Option<i64>)
    ensures
        is_i64_str(s@) ==> r == Some(int_str_val(s@) as i64),
        !is_i64_str(s@) ==> r is None,
{
    let chars = crate::text::str_to_chars(s);
    let ghost sv = s@;
    let mut i: usize = 0;
    let mut negative: bool = false;
    if chars.len() > 0 && (chars[0] == '-' || chars[0] == '+') {
        negative = chars[0] == '-';
        i = 1;
    }
    proof {
        assert(int_str_body(sv) =~= sv.skip(i as int));
        assert(negative == (sv.len() > 0 && sv[0] == '-'));
    }
    let ghost body = int_str_body(sv);
    if i >= chars.len() {
        return None;
    }
    let mut mag: u64 = 0;
    let start = i;
    while i < chars.len()
        invariant
            start <= i <= chars@.len(),
            forall|k: int| 0 <= k < i - start ==> is_digit(#[trigger] body[k]),
            mag == digits_val(body.take(i - start)),
            mag <= 0x8000_0000_0000_0000u64,
            negative || mag <= 0x7fff_ffff_ffff_ffffu64,
        decreases chars@.len() - i,
    {
        let c = chars[i];
        let cv = c as u32;
        if cv < 48 || cv > 57 {
            proof {
                assert(!is_digit(body[i - start]));
            }
            return None;
        }
        let d: u64 = (cv - 48) as u64;
        proof {
            assert(body.take(i + 1 - start).drop_last() =~= body.take(i - start));
            assert(body.take(i + 1 - start).last() == body[i - start]);
            assert(d == digit_val(body[i - start]));
        }
        let limit: u64 = if negative {
            0x8000_0000_0000_0000u64
        } else {
            0x7fff_ffff_ffff_ffffu64
        };
        if mag > (limit - d) / 10 || mag * 10 > limit - d {
            proof {
                assert(mag * 10 + d > limit) by {
                    if mag > (limit - d) / 10 {
                        assert((limit - d) == 10 * ((limit - d) / 10) + (limit - d) % 10);
                    }
                }
                assert(digits_val(body.take(i + 1 - start)) == mag * 10 + d);
                if is_i64_str(sv) {
                    lemma_digits_val_grows(body, i + 1 - start);
                    let full = digits_val(body);
                    assert(full >= mag * 10 + d);
                    if negative {
                        assert(int_str_val(sv) == -full);
                        assert(-full < i64::MIN);
                    } else {
                        assert(int_str_val(sv) == full);
                        assert(full > i64::MAX);
                    }
                    assert(false);
                }
            }
            return None;
        }
        mag = mag * 10 + d;
        i = i + 1;
    }
    proof {
        assert(body.take(chars@.len() - start) =~= body);
        if negative {
            assert(int_str_val(sv) == -(mag as int));
        } else {
            assert(int_str_val(sv) == mag as int);
        }
        assert(is_i64_str(sv));
    }
    if negative {
        if mag == 0x8000_0000_0000_0000u64 {
            Some(i64::MIN)
        } else {
            Some(-(mag as i64))
        }
    } else {
        Some(mag as i64)
    }
}

/// Digit runs only grow in value with more digits.
proof fn lemma_digits_val_grows(s: Seq<char>, k: int)
    requires
        0 <= k <= s.len(),
        forall|i: int| 0 <= i < s.len() ==> is_digit(#[trigger] s[i]),
    ensures
        digits_val(s) >= digits_val(s.take(k)),
        digits_val(s) >= 0,
        digits_val(s.take(k)) >= 0,
    decreases s.len(),
{
    if s.len() == 0 {
        assert(s.take(k) =~= s);
    } else if k == s.len() {
        assert(s.take(k) =~= s);
        lemma_digits_val_grows(s.drop_last(), s.len() - 1);
    } else {
        lemma_digits_val_grows(s.drop_last(), k);
        assert(s.drop_last().take(k) =~= s.take(k));
        assert(digit_val(s.last()) >= 0);
    }
}

} // verus!
