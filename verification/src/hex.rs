//! Hexadecimal literals: how a 64-bit number is written, and which texts
//! spell one.

use vstd::prelude::*;

verus! {

/// The character for a digit below sixteen, letters in lower case.
pub open spec fn hex_digit(d: int) -> char
    recommends
        0 <= d < 16,
{
    if d < 10 {
        (('0' as int) + d) as char
    } else {
        (('a' as int) + d - 10) as char
    }
}

/// The digits of `v` to base sixteen, most significant first, with no zero in
/// front; zero is the one digit `0`.
pub open spec fn hex_digits(v: nat) -> Seq<char>
    decreases v,
{
    if v < 16 {
        seq![hex_digit(v as int)]
    } else {
        hex_digits(v / 16).push(hex_digit((v % 16) as int))
    }
}

/// `v` as a literal: `0x` and its digits.
pub open spec fn hex_literal(v: u64) -> Seq<char> {
    seq!['0', 'x'] + hex_digits(v as nat)
}

/// What a character counts as a digit to base sixteen, letters in either case.
pub open spec fn digit_value(c: char) -> Option<int> {
    if '0' <= c <= '9' {
        Some(c as int - '0' as int)
    } else if 'a' <= c <= 'f' {
        Some(c as int - 'a' as int + 10)
    } else if 'A' <= c <= 'F' {
        Some(c as int - 'A' as int + 10)
    } else {
        None
    }
}

/// The number that `s` spells to base sixteen, if `s` is one digit or more
/// and nothing else.
pub open spec fn digits_value(s: Seq<char>) -> Option<nat>
    decreases s.len(),
{
    if s.len() == 0 {
        None
    } else {
        match digit_value(s.last()) {
            None => None,
            Some(d) => if s.len() == 1 {
                Some(d as nat)
            } else {
                match digits_value(s.drop_last()) {
                    None => None,
                    Some(high) => Some((high * 16 + d) as nat),
                }
            },
        }
    }
}

/// The 64-bit number that `s` spells to base sixteen: an optional `+`, then
/// digits only, at least one, whose value fits 64 bits.
pub open spec fn parse_hex(s: Seq<char>) -> Option<u64> {
    let digits = if s.len() > 0 && s[0] == '+' {
        s.skip(1)
    } else {
        s
    };
    match digits_value(digits) {
        Some(v) => if v <= u64::MAX {
            Some(v as u64)
        } else {
            None
        },
        None => None,
    }
}

/// Every digit character counts as the digit it stands for.
pub proof fn lemma_digit_value_of_hex_digit(d: int)
    requires
        0 <= d < 16,
    ensures
        digit_value(hex_digit(d)) == Some(d),
        hex_digit(d) != 'x',
        hex_digit(d) != '+',
        hex_digit(d) == '0' <==> d == 0,
{
}

/// The digits of a number spell that number.
pub proof fn lemma_digits_value_of_hex_digits(v: nat)
    ensures
        hex_digits(v).len() >= 1,
        digits_value(hex_digits(v)) == Some(v),
        hex_digits(v)[0] != '+',
        hex_digits(v).len() >= 2 ==> hex_digits(v)[1] != 'x',
    decreases v,
{
    if v < 16 {
        lemma_digit_value_of_hex_digit(v as int);
    } else {
        let high = v / 16;
        lemma_digits_value_of_hex_digits(high);
        lemma_digit_value_of_hex_digit((v % 16) as int);
        let s = hex_digits(v);
        assert(s.drop_last() =~= hex_digits(high));
        assert(s[0] == hex_digits(high)[0]);
        if hex_digits(high).len() >= 2 {
            assert(s[1] == hex_digits(high)[1]);
        } else {
            assert(s[1] == hex_digit((v % 16) as int));
        }
    }
}

/// A text that spells a number spells, in each of its beginnings, a number
/// that is no greater.
pub proof fn lemma_digits_value_prefix(s: Seq<char>, k: int)
    requires
        1 <= k <= s.len(),
        digits_value(s) is Some,
    ensures
        digits_value(s.take(k)) is Some,
        digits_value(s.take(k))->Some_0 <= digits_value(s)->Some_0,
    decreases s.len(),
{
    if k == s.len() {
        assert(s.take(k) =~= s);
    } else {
        lemma_digits_value_prefix(s.drop_last(), k);
        assert(s.drop_last().take(k) =~= s.take(k));
    }
}

/// What `c` counts as a digit to base sixteen.
pub fn digit_of(c: char) -> (d: Option<u8>)
    ensures
        match digit_value(c) {
            Some(v) => d == Some(v as u8) && v < 16,
            None => d is None,
        },
{
    if '0' <= c && c <= '9' {
        Some((c as u32 - '0' as u32) as u8)
    } else if 'a' <= c && c <= 'f' {
        Some((c as u32 - 'a' as u32 + 10) as u8)
    } else if 'A' <= c && c <= 'F' {
        Some((c as u32 - 'A' as u32 + 10) as u8)
    } else {
        None
    }
}

/// The 64-bit number that `chars[from..]` spell to base sixteen.
pub fn parse_hex_from(chars: &Vec<char>, from: usize) -> (r: Option<u64>)
    requires
        from <= chars@.len(),
    ensures
        r == parse_hex(chars@.skip(from as int)),
{
    let ghost text = chars@.skip(from as int);
    let n: usize = chars.len();
    let start: usize = if from < n && chars[from] == '+' {
        from + 1
    } else {
        from
    };
    let ghost digits = chars@.skip(start as int);
    assert(digits =~= if text.len() > 0 && text[0] == '+' {
        text.skip(1)
    } else {
        text
    });
    if start == n {
        return None;
    }
    let mut acc: u64 = 0;
    let mut i: usize = start;
    while i < n
        invariant
            start <= i <= n,
            n == chars@.len(),
            digits == chars@.skip(start as int),
            parse_hex(chars@.skip(from as int)) == match digits_value(digits) {
                Some(v) => if v <= u64::MAX {
                    Some(v as u64)
                } else {
                    None
                },
                None => None,
            },
            i > start ==> digits_value(digits.take(i - start)) == Some(acc as nat),
            i == start ==> acc == 0,
        decreases n - i,
    {
        let ghost seen = digits.take(i - start);
        let ghost next = digits.take(i + 1 - start);
        assert(next.drop_last() =~= seen);
        assert(next.last() == chars@[i as int]);
        assert(digits_value(next) == match digit_value(chars@[i as int]) {
            None => None,
            Some(d) => Some((acc * 16 + d) as nat),
        });
        match digit_of(chars[i]) {
            None => {
                proof {
                    if digits_value(digits) is Some {
                        lemma_digits_value_prefix(digits, i + 1 - start);
                    }
                }
                return None;
            },
            Some(d) => {
                if acc > (u64::MAX - d as u64) / 16 {
                    proof {
                        if digits_value(digits) is Some {
                            lemma_digits_value_prefix(digits, i + 1 - start);
                        }
                    }
                    return None;
                }
                acc = acc * 16 + d as u64;
            },
        }
        i += 1;
    }
    assert(digits.take(n - start) =~= digits);
    Some(acc)
}

/// The digit `d` as a character.
pub fn hex_char(d: u8) -> (c: char)
    requires
        d < 16,
    ensures
        c == hex_digit(d as int),
{
    if d < 10 {
        (0x30u8 + d) as char
    } else {
        (0x61u8 + (d - 10)) as char
    }
}

/// The characters of `v` as a literal.
pub fn hex_chars(v: u64) -> (chars: Vec<char>)
    ensures
        chars@ == hex_literal(v),
{
    let mut digits: Vec<char> = Vec::new();
    digits.push(hex_char((v % 16) as u8));
    let mut rest: u64 = v / 16;
    while rest > 0
        invariant
            hex_digits(v as nat) == if rest == 0 {
                digits@
            } else {
                hex_digits(rest as nat) + digits@
            },
        decreases rest,
    {
        let ghost before = digits@;
        digits.insert(0, hex_char((rest % 16) as u8));
        proof {
            let d = hex_digit((rest % 16) as int);
            assert(digits@ =~= seq![d] + before);
            if rest / 16 > 0 {
                assert(hex_digits(rest as nat) + before =~= hex_digits((rest / 16) as nat)
                    + digits@);
            } else {
                assert(hex_digits(rest as nat) + before =~= digits@);
            }
        }
        rest = rest / 16;
    }
    let mut chars: Vec<char> = Vec::new();
    chars.push('0');
    chars.push('x');
    let mut i: usize = 0;
    while i < digits.len()
        invariant
            i <= digits@.len(),
            chars@ == seq!['0', 'x'] + digits@.take(i as int),
        decreases digits@.len() - i,
    {
        chars.push(digits[i]);
        assert(digits@.take(i + 1) =~= digits@.take(i as int).push(digits@[i as int]));
        i += 1;
    }
    assert(digits@.take(i as int) =~= digits@);
    chars
}

} // verus!
