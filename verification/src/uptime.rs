//! The text of the uptime display.

use crate::font::Font;
use vstd::prelude::*;
use vstd::string::StringExecFns;

verus! {

/// The character of the decimal digit `d`.
pub open spec fn digit_char(d: int) -> char {
    if d == 0 {
        '0'
    } else if d == 1 {
        '1'
    } else if d == 2 {
        '2'
    } else if d == 3 {
        '3'
    } else if d == 4 {
        '4'
    } else if d == 5 {
        '5'
    } else if d == 6 {
        '6'
    } else if d == 7 {
        '7'
    } else if d == 8 {
        '8'
    } else {
        '9'
    }
}

/// The decimal digits of `n`, most significant first, without leading zeros.
pub open spec fn decimal(n: nat) -> Seq<char>
    decreases n,
{
    if n < 10 {
        seq![digit_char(n as int)]
    } else {
        decimal(n / 10).push(digit_char((n % 10) as int))
    }
}

/// The decimal digits of `n`, with zeros in front up to `width` digits.
pub open spec fn padded(n: nat, width: nat) -> Seq<char> {
    if decimal(n).len() >= width {
        decimal(n)
    } else {
        Seq::new((width - decimal(n).len()) as nat, |i: int| '0') + decimal(n)
    }
}

/// The text of the uptime display: the label and the tick count in at
/// least eight digits.
pub open spec fn uptime_chars(count: nat) -> Seq<char> {
    "Uptime:"@ + padded(count, 8)
}

/// The digit `d` as a string.
fn digit_str(d: u32) -> (s: &'static str)
    requires
        d < 10,
    ensures
        s@ == seq![digit_char(d as int)],
{
    proof {
        reveal_strlit("0");
        reveal_strlit("1");
        reveal_strlit("2");
        reveal_strlit("3");
        reveal_strlit("4");
        reveal_strlit("5");
        reveal_strlit("6");
        reveal_strlit("7");
        reveal_strlit("8");
        reveal_strlit("9");
    }
    let s = if d == 0 {
        "0"
    } else if d == 1 {
        "1"
    } else if d == 2 {
        "2"
    } else if d == 3 {
        "3"
    } else if d == 4 {
        "4"
    } else if d == 5 {
        "5"
    } else if d == 6 {
        "6"
    } else if d == 7 {
        "7"
    } else if d == 8 {
        "8"
    } else {
        "9"
    };
    assert(s@ =~= seq![digit_char(d as int)]);
    s
}

/// Appends the decimal digits of `n` to `text`.
fn append_decimal(text: &mut String, n: u32)
    ensures
        final(text)@ == old(text)@ + decimal(n as nat),
    decreases n,
{
    if n >= 10 {
        append_decimal(text, n / 10);
    }
    text.append(digit_str(n % 10));
    proof {
        if n >= 10 {
            assert(final(text)@ =~= old(text)@ + decimal(n as nat));
        } else {
            assert(final(text)@ =~= old(text)@ + decimal(n as nat));
        }
    }
}

/// The number of decimal digits of `n`.
fn decimal_len(n: u32) -> (len: usize)
    ensures
        len == decimal(n as nat).len(),
        1 <= len <= 10,
    decreases n,
{
    if n < 10 {
        1
    } else {
        let rest = decimal_len(n / 10);
        proof {
            lemma_decimal_len(n as nat);
        }
        rest + 1
    }
}

/// A number below ten to the power of `k` has at most `k` digits; a `u32`
/// has at most ten.
pub proof fn lemma_decimal_len(n: nat)
    ensures
        decimal(n).len() >= 1,
        n < 10 ==> decimal(n).len() == 1,
        n >= 10 ==> decimal(n).len() == decimal(n / 10).len() + 1,
        n <= u32::MAX ==> decimal(n).len() <= 10,
{
    if n <= u32::MAX {
        lemma_decimal_bound(n, 10);
    }
    if n >= 10 {
        lemma_decimal_bound(n / 10, 0);
    } else {
        lemma_decimal_bound(n, 0);
    }
}

/// A number of at most `k` digits by its size has at most `k` digits by its
/// text, for `k` up to ten.
proof fn lemma_decimal_bound(n: nat, k: nat)
    requires
        k == 0 || (k == 10 && n < 10_000_000_000) || (k == 9 && n < 1_000_000_000) || (k == 8 && n
            < 100_000_000) || (k == 7 && n < 10_000_000) || (k == 6 && n < 1_000_000) || (k == 5 && n
            < 100_000) || (k == 4 && n < 10_000) || (k == 3 && n < 1_000) || (k == 2 && n < 100) || (k == 1
            && n < 10),
    ensures
        decimal(n).len() >= 1,
        k > 0 ==> decimal(n).len() <= k,
    decreases n,
{
    if n >= 10 {
        if k > 0 {
            lemma_decimal_bound(n / 10, (k - 1) as nat);
        } else {
            lemma_decimal_bound(n / 10, 0);
        }
    }
}

/// The text of the uptime display for tick `count`.
pub fn uptime_text(count: u32) -> (text: String)
    ensures
        text@ == uptime_chars(count as nat),
{
    let mut text = String::from_str("Uptime:");
    let len = decimal_len(count);
    let mut zeros: usize = 0;
    proof {
        reveal_strlit("0");
    }
    while zeros + len < 8
        invariant
            len == decimal(count as nat).len(),
            zeros + len <= 8 || zeros == 0,
            text@ == "Uptime:"@ + Seq::new(zeros as nat, |i: int| '0'),
            "0"@ == seq!['0'],
        decreases 8 - zeros,
    {
        text.append("0");
        proof {
            assert(text@ =~= "Uptime:"@ + Seq::new((zeros + 1) as nat, |i: int| '0'));
        }
        zeros += 1;
    }
    append_decimal(&mut text, count);
    proof {
        if len >= 8 {
            assert(text@ =~= "Uptime:"@ + decimal(count as nat));
        } else {
            assert(text@ =~= "Uptime:"@ + (Seq::new((8 - len) as nat, |i: int| '0') + decimal(count as nat)));
        }
    }
    text
}

/// The digits of a tick count are digits: none is a line feed and each has
/// a glyph. The uptime text has from 15 to 17 characters.
pub proof fn lemma_uptime_chars(count: nat)
    requires
        count <= u32::MAX,
    ensures
        15 <= uptime_chars(count).len() <= 17,
        forall|i: int|
            0 <= i < uptime_chars(count).len() ==> (#[trigger] uptime_chars(count)[i]) != '\n'
                && Font::has_glyph(uptime_chars(count)[i]),
{
    reveal_strlit("Uptime:");
    lemma_decimal_len(count);
    lemma_decimal_digits(count);
    let digits = padded(count, 8);
    assert forall|i: int| 0 <= i < digits.len() implies (#[trigger] digits[i]) != '\n' && Font::has_glyph(
        digits[i],
    ) by {
        if decimal(count).len() < 8 {
            let zeros = 8 - decimal(count).len();
            if i >= zeros {
                assert(digits[i] == decimal(count)[i - zeros]);
            }
        }
    }
    assert forall|i: int| 0 <= i < uptime_chars(count).len() implies (#[trigger] uptime_chars(count)[i])
        != '\n' && Font::has_glyph(uptime_chars(count)[i]) by {
        if i >= 7 {
            assert(uptime_chars(count)[i] == digits[i - 7]);
        }
    }
}

/// Every character of a decimal text is a digit.
pub proof fn lemma_decimal_digits(n: nat)
    ensures
        forall|i: int|
            0 <= i < decimal(n).len() ==> (#[trigger] decimal(n)[i]) != '\n' && Font::has_glyph(
                decimal(n)[i],
            ),
    decreases n,
{
    if n >= 10 {
        lemma_decimal_digits(n / 10);
    }
    assert forall|i: int| 0 <= i < decimal(n).len() implies (#[trigger] decimal(n)[i]) != '\n'
        && Font::has_glyph(decimal(n)[i]) by {
        lemma_digit_char((n % 10) as int);
        if n >= 10 && i < decimal(n).len() - 1 {
            assert(decimal(n)[i] == decimal(n / 10)[i]);
        }
    }
}

/// A digit's character is no line feed and has a glyph.
pub proof fn lemma_digit_char(d: int)
    ensures
        digit_char(d) != '\n',
        Font::has_glyph(digit_char(d)),
{
}

} // verus!
