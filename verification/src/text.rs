//! Decimal and hexadecimal rendering, and the string assembly used for error
//! messages and file names.

use vstd::prelude::*;

verus! {

/// The character of a decimal digit.
pub open spec fn digit_char(d: nat) -> char {
    (48 + d) as char
}

/// `n` in decimal, without leading zeros.
pub open spec fn decimal(n: nat) -> Seq<char>
    decreases n,
{
    if n < 10 {
        seq![digit_char(n)]
    } else {
        decimal(n / 10).push(digit_char(n % 10))
    }
}

/// `count` zero characters.
pub open spec fn zeros(count: nat) -> Seq<char> {
    Seq::new(count, |i: int| '0')
}

/// `n` in decimal, filled up with leading zeros to `width` characters.
pub open spec fn zero_padded(n: nat, width: nat) -> Seq<char> {
    let digits = decimal(n);
    if digits.len() >= width {
        digits
    } else {
        zeros((width - digits.len()) as nat) + digits
    }
}

/// The character of a lower-case hexadecimal digit.
pub open spec fn hex_char(d: nat) -> char {
    if d < 10 {
        (48 + d) as char
    } else {
        (87 + d) as char
    }
}

/// A byte as two lower-case hexadecimal digits.
pub open spec fn hex_byte(b: u8) -> Seq<char> {
    seq![hex_char((b / 16) as nat), hex_char((b % 16) as nat)]
}

/// A path as `{:?}` shows it: between double quotes, with special characters
/// escaped.
pub uninterp spec fn quoted_path(path: Seq<char>) -> Seq<char>;

/// Shows a path with the `Debug` form of `std::path::Path`. Claims that the text
/// depends on the path alone; how it escapes each character is left unsaid.
#[verifier::external_body]
pub(crate) fn quote_path(path: &str) -> (s: String)
    ensures
        s@ == quoted_path(path@),
{
    format!("{:?}", std::path::Path::new(path))
}

/// A byte is shown as the digits of its sixteens and its ones, out of the sixteen that
/// are there.
pub proof fn hex_digits(b: u8)
    ensures
        hex_byte(b).len() == 2,
        hex_byte(b)[0] == "0123456789abcdef"@[(b / 16) as int],
        hex_byte(b)[1] == "0123456789abcdef"@[(b % 16) as int],
{
    reveal_strlit("0123456789abcdef");
    let all = "0123456789abcdef"@;
    assert forall|d: nat| d < 16 implies hex_char(d) == #[trigger] all[d as int] by {
        assert(all[0] == '0' && all[1] == '1' && all[2] == '2' && all[3] == '3');
        assert(all[4] == '4' && all[5] == '5' && all[6] == '6' && all[7] == '7');
        assert(all[8] == '8' && all[9] == '9' && all[10] == 'a' && all[11] == 'b');
        assert(all[12] == 'c' && all[13] == 'd' && all[14] == 'e' && all[15] == 'f');
    }
    assert(hex_char((b / 16) as nat) == all[(b / 16) as int]);
    assert(hex_char((b % 16) as nat) == all[(b % 16) as int]);
}

/// A number in decimal ends in its ones, before which stands the rest of it; so it
/// starts with no zero unless it is zero.
pub proof fn decimal_digits(n: nat)
    ensures
        decimal(n).last() as int == '0' as int + n % 10,
        n >= 10 ==> decimal(n).drop_last() == decimal(n / 10),
        n < 10 ==> decimal(n).len() == 1,
        n > 0 ==> decimal(n)[0] != '0',
    decreases n,
{
    if n >= 10 {
        decimal_digits(n / 10);
        assert(decimal(n).drop_last() =~= decimal(n / 10));
    }
}

/// A padded number is as long as asked for, or as long as its digits, and what stands
/// before its digits is zeros.
pub proof fn padding_is_zeros(n: nat, width: nat)
    ensures
        zero_padded(n, width).len() >= width,
        decimal(n).len() <= zero_padded(n, width).len(),
        decimal(n).len() >= width ==> zero_padded(n, width) == decimal(n),
        decimal(n).len() < width ==> zero_padded(n, width).len() == width,
        zero_padded(n, width).skip(zero_padded(n, width).len() - decimal(n).len()) == decimal(n),
        forall|i: int|
            0 <= i < zero_padded(n, width).len() - decimal(n).len()
                ==> #[trigger] zero_padded(n, width)[i] == '0',
{
    let whole = zero_padded(n, width);
    assert(whole.skip(whole.len() - decimal(n).len()) =~= decimal(n));
}

/// Renders a hexadecimal digit.
fn hex_text(d: u8) -> (s: &'static str)
    requires
        d < 16,
    ensures
        s@ == seq![hex_char(d as nat)],
{
    let s = match d {
        0 => "0",
        1 => "1",
        2 => "2",
        3 => "3",
        4 => "4",
        5 => "5",
        6 => "6",
        7 => "7",
        8 => "8",
        9 => "9",
        10 => "a",
        11 => "b",
        12 => "c",
        13 => "d",
        14 => "e",
        _ => "f",
    };
    proof {
        reveal_strlit("0");
        reveal_strlit("1");
        reveal_strlit("2");
        reveal_strlit("3");
        reveal_strlit("4");
        reveal_strlit("5");
        reveal_strlit("6");
        reveal_strlit("7");
        reveal_strlit("8");
        reveal_strlit("9");
        reveal_strlit("a");
        reveal_strlit("b");
        reveal_strlit("c");
        reveal_strlit("d");
        reveal_strlit("e");
        reveal_strlit("f");
        assert(s@ =~= seq![hex_char(d as nat)]);
    }
    s
}

/// Appends `n` in decimal to `s`.
pub fn append_decimal(s: &mut String, n: u64)
    ensures
        final(s)@ == old(s)@ + decimal(n as nat),
    decreases n,
{
    let ghost before = s@;
    if n < 10 {
        s.append(hex_text(n as u8));
        proof {
            assert(s@ =~= before + decimal(n as nat));
        }
    } else {
        append_decimal(s, n / 10);
        s.append(hex_text((n % 10) as u8));
        proof {
            assert(s@ =~= before + decimal(n as nat));
        }
    }
}

/// Appends `b` as two hexadecimal digits to `s`.
pub fn append_hex_byte(s: &mut String, b: u8)
    ensures
        final(s)@ == old(s)@ + hex_byte(b),
{
    let ghost before = s@;
    s.append(hex_text(b / 16));
    s.append(hex_text(b % 16));
    proof {
        assert(s@ =~= before + hex_byte(b));
    }
}

/// Renders `n` in decimal with at least `width` digits.
pub fn padded(n: u64, width: usize) -> (s: String)
    ensures
        s@ == zero_padded(n as nat, width as nat),
{
    let mut digits: String = String::new();
    append_decimal(&mut digits, n);
    let len: usize = digits.as_str().unicode_len();
    proof {
        assert(digits@ =~= decimal(n as nat));
    }
    let mut s: String = String::new();
    let mut filled: usize = len;
    while filled < width
        invariant
            len <= filled,
            filled <= width || filled == len,
            s@ == zeros((filled - len) as nat),
        decreases width - filled,
    {
        proof {
            reveal_strlit("0");
        }
        s.append("0");
        filled = filled + 1;
        proof {
            assert(s@ =~= zeros((filled - len) as nat));
        }
    }
    s.append(digits.as_str());
    proof {
        assert(s@ =~= zero_padded(n as nat, width as nat));
    }
    s
}

/// Whether every character is a decimal digit.
pub open spec fn all_digits(chars: Seq<char>) -> bool {
    forall|i: int| 0 <= i < chars.len() ==> '0' <= #[trigger] chars[i] <= '9'
}

/// The number that decimal digits stand for.
pub open spec fn digits_value(digits: Seq<char>) -> nat
    decreases digits.len(),
{
    if digits.len() == 0 {
        0
    } else {
        10 * digits_value(digits.drop_last()) + (digits.last() as nat - 48) as nat
    }
}

/// The number that a text stands for: one or more decimal digits, and nothing
/// else, of a number that fits in a `u64`. Leading zeros are fine.
pub open spec fn number_in(digits: Seq<char>) -> Option<u64> {
    if digits.len() > 0 && all_digits(digits) && digits_value(digits) <= u64::MAX {
        Some(digits_value(digits) as u64)
    } else {
        None
    }
}

/// Rendering in decimal and reading back gives the number.
pub proof fn decimal_roundtrip(n: nat)
    ensures
        decimal(n).len() > 0,
        all_digits(decimal(n)),
        digits_value(decimal(n)) == n,
    decreases n,
{
    reveal_with_fuel(digits_value, 2);
    if n < 10 {
        assert(decimal(n).drop_last() =~= Seq::empty());
    } else {
        decimal_roundtrip(n / 10);
        assert(decimal(n).drop_last() =~= decimal(n / 10));
    }
}

proof fn leading_zeros(count: nat, digits: Seq<char>)
    ensures
        digits_value(zeros(count) + digits) == digits_value(digits),
    decreases digits.len(), count,
{
    if digits.len() == 0 {
        if count > 0 {
            assert((zeros(count) + digits).drop_last() =~= zeros((count - 1) as nat) + digits);
            leading_zeros((count - 1) as nat, digits);
        } else {
            assert(zeros(count) + digits =~= digits);
        }
    } else {
        assert((zeros(count) + digits).drop_last() =~= zeros(count) + digits.drop_last());
        leading_zeros(count, digits.drop_last());
    }
}

/// A zero-padded number is read back.
pub proof fn padded_roundtrip(n: u64, width: nat)
    ensures
        zero_padded(n as nat, width).len() > 0,
        all_digits(zero_padded(n as nat, width)),
        digits_value(zero_padded(n as nat, width)) == n,
        number_in(zero_padded(n as nat, width)) == Some(n),
{
    decimal_roundtrip(n as nat);
    let digits = decimal(n as nat);
    if digits.len() < width {
        leading_zeros((width - digits.len()) as nat, digits);
    }
}

/// The number that the characters of `s` from `start` up to `end` stand for.
pub fn parse_number(s: &str, start: usize, end: usize) -> (r: Option<u64>)
    requires
        start <= end <= s@.len(),
    ensures
        r == number_in(s@.subrange(start as int, end as int)),
{
    let ghost digits = s@.subrange(start as int, end as int);
    let mut i: usize = start;
    if i == end {
        return None;
    }
    let mut value: u64 = 0;
    proof {
        assert(digits.take(0) =~= Seq::empty());
    }
    while i < end
        invariant
            start <= i <= end <= s@.len(),
            digits == s@.subrange(start as int, end as int),
            all_digits(digits.take(i - start)),
            value == digits_value(digits.take(i - start)),
            digits.len() > 0,
        decreases end - i,
    {
        let c: char = s.get_char(i);
        let ghost at = i - start;
        proof {
            assert(digits[at] == c);
            assert(digits.take(at + 1).drop_last() =~= digits.take(at));
        }
        if c < '0' || c > '9' {
            return None;
        }
        let d: u64 = (c as u32 - 48) as u64;
        if value > (u64::MAX - d) / 10 {
            proof {
                assert(digits_value(digits.take(at + 1)) > u64::MAX);
                digits_grow(digits, at + 1);
            }
            return None;
        }
        value = value * 10 + d;
        i = i + 1;
    }
    proof {
        assert(digits.take(digits.len() as int) =~= digits);
    }
    Some(value)
}

proof fn digits_grow(digits: Seq<char>, n: int)
    requires
        0 <= n <= digits.len(),
    ensures
        digits_value(digits) >= digits_value(digits.take(n)),
    decreases digits.len() - n,
{
    if n < digits.len() {
        digits_grow(digits, n + 1);
        assert(digits.take(n + 1).drop_last() =~= digits.take(n));
    } else {
        assert(digits.take(n) =~= digits);
    }
}

} // verus!
