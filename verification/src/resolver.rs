//! The config resolver: pure validation of raw options into exactly one
//! of the two split specifications, and the construction of internal
//! error values. No file-system access happens here.

use vstd::prelude::*;

use vstd::arithmetic::div_mod::{
    lemma_div_is_ordered, lemma_div_multiples_vanish, lemma_remainder_lower,
};
use vstd::arithmetic::mul::lemma_mul_inequality;

use crate::models::{ByteUnit, Config, InvalidConfigDetail, SplitErrors, SplitOptions};

verus! {

/// A decimal digit `0` through `9`.
pub open spec fn is_decimal_digit(c: char) -> bool {
    48 <= c as int && c as int <= 57
}

/// The numeric value of a decimal digit.
pub open spec fn digit_value(c: char) -> int {
    c as int - 48
}

/// A non-empty string of decimal digits.
pub open spec fn is_decimal_string(s: Seq<char>) -> bool {
    s.len() > 0 && forall|i: int| 0 <= i < s.len() ==> is_decimal_digit(#[trigger] s[i])
}

/// The number written by a string of decimal digits, most significant
/// digit first.
pub open spec fn decimal_value(s: Seq<char>) -> int
    decreases s.len(),
{
    if s.len() == 0 {
        0
    } else {
        decimal_value(s.drop_last()) * 10 + digit_value(s.last())
    }
}

/// Reading one more digit multiplies the value so far by ten and adds
/// that digit.
proof fn lemma_decimal_take_succ(s: Seq<char>, i: int)
    requires
        0 <= i < s.len(),
    ensures
        decimal_value(s.take(i + 1)) == decimal_value(s.take(i)) * 10 + digit_value(s[i]),
{
    assert(s.take(i + 1).drop_last() =~= s.take(i));
    assert(s.take(i + 1).last() == s[i]);
}

/// A digit string's value is never negative.
proof fn lemma_decimal_nonneg(s: Seq<char>)
    requires
        forall|i: int| 0 <= i < s.len() ==> is_decimal_digit(#[trigger] s[i]),
    ensures
        decimal_value(s) >= 0,
    decreases s.len(),
{
    if s.len() > 0 {
        lemma_decimal_nonneg(s.drop_last());
    }
}

/// A digit string's value is at least the value of any of its prefixes.
proof fn lemma_decimal_extend_ge(s: Seq<char>, i: int)
    requires
        0 <= i <= s.len(),
        forall|j: int| 0 <= j < s.len() ==> is_decimal_digit(#[trigger] s[j]),
    ensures
        decimal_value(s) >= decimal_value(s.take(i)),
    decreases s.len() - i,
{
    if i == s.len() {
        assert(s.take(i) =~= s);
    } else {
        lemma_decimal_take_succ(s, i);
        assert(forall|j: int| 0 <= j < s.take(i).len() ==> is_decimal_digit(#[trigger] s.take(i)[j]));
        lemma_decimal_nonneg(s.take(i));
        lemma_decimal_extend_ge(s, i + 1);
    }
}

/// For a non-negative `a` and positive `d`, bounding `a` by the quotient
/// `b / d` is the same as bounding `a * d` by `b`.
proof fn lemma_le_div_iff(a: int, b: int, d: int)
    requires
        0 <= a,
        0 <= b,
        0 < d,
    ensures
        a <= b / d <==> a * d <= b,
{
    if a <= b / d {
        lemma_mul_inequality(a, b / d, d);
        lemma_remainder_lower(b, d);
    }
    if a * d <= b {
        lemma_div_is_ordered(a * d, b, d);
        lemma_div_multiples_vanish(a, d);
    }
}

/// The lower-case form of an ASCII letter; any other character is
/// unchanged.
pub open spec fn ascii_lower_char(c: char) -> char {
    match c {
        'A' => 'a', 'B' => 'b', 'C' => 'c', 'D' => 'd', 'E' => 'e', 'F' => 'f',
        'G' => 'g', 'H' => 'h', 'I' => 'i', 'J' => 'j', 'K' => 'k', 'L' => 'l',
        'M' => 'm', 'N' => 'n', 'O' => 'o', 'P' => 'p', 'Q' => 'q', 'R' => 'r',
        'S' => 's', 'T' => 't', 'U' => 'u', 'V' => 'v', 'W' => 'w', 'X' => 'x',
        'Y' => 'y', 'Z' => 'z', _ => c,
    }
}

/// Lower-cases one ASCII letter.
pub fn ascii_lower(c: char) -> (r: char)
    ensures
        r == ascii_lower_char(c),
{
    match c {
        'A' => 'a', 'B' => 'b', 'C' => 'c', 'D' => 'd', 'E' => 'e', 'F' => 'f',
        'G' => 'g', 'H' => 'h', 'I' => 'i', 'J' => 'j', 'K' => 'k', 'L' => 'l',
        'M' => 'm', 'N' => 'n', 'O' => 'o', 'P' => 'p', 'Q' => 'q', 'R' => 'r',
        'S' => 's', 'T' => 't', 'U' => 'u', 'V' => 'v', 'W' => 'w', 'X' => 'x',
        'Y' => 'y', 'Z' => 'z', _ => c,
    }
}

/// Parses a non-empty string of decimal digits as an unsigned 64-bit
/// number. Returns `None` when the string is empty, holds any non-digit,
/// or writes a number too large for 64 bits.
pub fn parse_u64_decimal(s: &str) -> (r: Option<u64>)
    ensures
        r matches Some(v) ==> is_decimal_string(s@) && decimal_value(s@) == v as int,
        (is_decimal_string(s@) && decimal_value(s@) <= u64::MAX) <==> r is Some,
{
    let n = s.unicode_len();
    if n == 0 {
        return None;
    }
    let mut acc: u64 = 0;
    let mut i: usize = 0;
    while i < n
        invariant
            0 < n == s@.len(),
            0 <= i <= n,
            forall|j: int| 0 <= j < i ==> is_decimal_digit(#[trigger] s@[j]),
            acc as int == decimal_value(s@.take(i as int)),
        decreases n - i,
    {
        let c = s.get_char(i);
        let u = c as u32;
        if u < 48 || u > 57 {
            assert(!is_decimal_digit(s@[i as int]));
            return None;
        }
        let d: u64 = (u - 48) as u64;
        proof {
            lemma_decimal_take_succ(s@, i as int);
        }
        if acc > (u64::MAX - d) / 10 {
            proof {
                lemma_le_div_iff(acc as int, (u64::MAX - d) as int, 10);
                assert(decimal_value(s@.take(i as int + 1)) > u64::MAX);
                if is_decimal_string(s@) {
                    lemma_decimal_extend_ge(s@, i as int + 1);
                }
            }
            return None;
        }
        proof {
            lemma_le_div_iff(acc as int, (u64::MAX - d) as int, 10);
        }
        acc = acc * 10 + d;
        i += 1;
    }
    proof {
        assert(s@.take(n as int) =~= s@);
    }
    Some(acc)
}

/// Builds the internal error for a failed low-level operation: the
/// operation's name and the underlying cause, joined by a colon.
pub fn create_split_error(error_msg: &str, detail: String) -> (r: Result<(), SplitErrors>)
    ensures
        r matches Err(e) && e matches SplitErrors::InternalError(m) && m@ == error_msg@ + seq![':'] + detail@,
{
    let mut m = error_msg.to_owned();
    m.append(":");
    m.append(detail.as_str());
    proof {
        reveal_strlit(":");
        assert(m@ =~= error_msg@ + seq![':'] + detail@);
    }
    Err(SplitErrors::InternalError(m))
}

/// Validates raw user options and produces exactly one of the two split
/// specifications, applying the rules in order: the two modes are
/// mutually exclusive; a byte count must be digits followed by a `k`/`K`
/// or `m`/`M` unit letter and must, scaled by the unit's multiplier, fit
/// the engine's unsigned 64-bit counter; otherwise the split is by lines,
/// with the line length defaulting to 1000 when absent.
pub fn validate_and_parse(config: Config) -> (r: Result<SplitOptions, SplitErrors>)
    ensures
        config.line_Length matches Some(l) ==> config.byte_count matches Some(b) ==> r == Err::<
            SplitOptions,
            SplitErrors,
        >(
            SplitErrors::InvalidConfig(
                InvalidConfigDetail::BothModesSupplied { line_length: l, byte_count: b },
            ),
        ),
        config.byte_count matches Some(b) ==> config.line_Length is None ==> {
            &&& b@.len() == 0 ==> r == Err::<SplitOptions, SplitErrors>(
                SplitErrors::InvalidConfig(
                    InvalidConfigDetail::InvalidByteUnitSuffix { suffix: None },
                ),
            )
            &&& b@.len() > 0 ==> {
                let lc = ascii_lower_char(b@.last());
                let digits = b@.drop_last();
                &&& lc != 'k' && lc != 'm' ==> r == Err::<SplitOptions, SplitErrors>(
                    SplitErrors::InvalidConfig(
                        InvalidConfigDetail::InvalidByteUnitSuffix { suffix: Some(lc) },
                    ),
                )
                &&& (lc == 'k' || lc == 'm') && !(is_decimal_string(digits) && decimal_value(digits)
                    <= u64::MAX) ==> {
                    &&& r matches Err(SplitErrors::InvalidConfig(
                        InvalidConfigDetail::NotANumber { digits: ds },
                    ))
                    &&& ds@ == digits
                }
                &&& (lc == 'k' || lc == 'm') && is_decimal_string(digits) && decimal_value(digits)
                    <= u64::MAX ==> {
                    let v = decimal_value(digits) as u64;
                    &&& lc == 'k' ==> r == Ok::<SplitOptions, SplitErrors>(
                        SplitOptions::SplitByBytes {
                            byte_length: v,
                            additional_suffix: config.additional_suffix,
                            file_name: config.file_name,
                            byte_unit: ByteUnit::KB,
                        },
                    )
                    &&& lc == 'm' && decimal_value(digits) * 1000 <= u64::MAX ==> r == Ok::<
                        SplitOptions,
                        SplitErrors,
                    >(
                        SplitOptions::SplitByBytes {
                            byte_length: v,
                            additional_suffix: config.additional_suffix,
                            file_name: config.file_name,
                            byte_unit: ByteUnit::MB,
                        },
                    )
                    &&& lc == 'm' && decimal_value(digits) * 1000 > u64::MAX ==> r == Err::<
                        SplitOptions,
                        SplitErrors,
                    >(
                        SplitErrors::InvalidConfig(
                            InvalidConfigDetail::ByteCountTooLarge { byte_length: v },
                        ),
                    )
                }
            }
        },
        config.byte_count is None ==> r == Ok::<SplitOptions, SplitErrors>(
            SplitOptions::SplitByLines {
                line_length: match config.line_Length {
                    Some(l) => l,
                    None => 1000u32,
                },
                additional_suffix: config.additional_suffix,
                file_name: config.file_name,
            },
        ),
{
    let Config { line_Length, additional_suffix, file_name, byte_count } = config;
    if line_Length.is_some() && byte_count.is_some() {
        let l = line_Length.unwrap();
        let b = byte_count.unwrap();
        return Err(
            SplitErrors::InvalidConfig(
                InvalidConfigDetail::BothModesSupplied { line_length: l, byte_count: b },
            ),
        );
    }
    match byte_count {
        Some(b) => {
            let n = b.as_str().unicode_len();
            if n == 0 {
                return Err(
                    SplitErrors::InvalidConfig(
                        InvalidConfigDetail::InvalidByteUnitSuffix { suffix: None },
                    ),
                );
            }
            let last = b.as_str().get_char(n - 1);
            let lc = ascii_lower(last);
            match ByteUnit::parse(lc) {
                Err(d) => Err(SplitErrors::InvalidConfig(d)),
                Ok(unit) => {
                    let digits_str = b.as_str().substring_char(0, n - 1);
                    proof {
                        assert(digits_str@ =~= b@.drop_last());
                    }
                    match parse_u64_decimal(digits_str) {
                        None => {
                            let ds = digits_str.to_owned();
                            Err(
                                SplitErrors::InvalidConfig(
                                    InvalidConfigDetail::NotANumber { digits: ds },
                                ),
                            )
                        },
                        Some(v) => match unit {
                            ByteUnit::KB => Ok(
                                SplitOptions::SplitByBytes {
                                    byte_length: v,
                                    additional_suffix,
                                    file_name,
                                    byte_unit: ByteUnit::KB,
                                },
                            ),
                            ByteUnit::MB => {
                                proof {
                                    lemma_le_div_iff(v as int, u64::MAX as int, 1000);
                                }
                                if v <= u64::MAX / 1000 {
                                    Ok(
                                        SplitOptions::SplitByBytes {
                                            byte_length: v,
                                            additional_suffix,
                                            file_name,
                                            byte_unit: ByteUnit::MB,
                                        },
                                    )
                                } else {
                                    Err(
                                        SplitErrors::InvalidConfig(
                                            InvalidConfigDetail::ByteCountTooLarge { byte_length: v },
                                        ),
                                    )
                                }
                            },
                        },
                    }
                },
            }
        },
        None => Ok(
            SplitOptions::SplitByLines {
                line_length: match line_Length {
                    Some(l) => l,
                    None => 1000,
                },
                additional_suffix,
                file_name,
            },
        ),
    }
}

} // verus!
