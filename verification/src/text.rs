//! Small text utilities: building strings character by character and reading
//! signed 32-bit decimal literals.

use vstd::prelude::*;
use vstd::string::StrSliceExecFns;

verus! {

/// Relies on String::push: appends the given character to the end of the string.
#[verifier::external_body]
pub fn push_char(s: &mut String, c: char)
    ensures
        final(s)@ == old(s)@.push(c),
{
    s.push(c)
}

/// Whether `c` is a decimal digit.
pub open spec fn is_digit(c: char) -> bool {
    ('0' as u32) <= (c as u32) && (c as u32) <= ('9' as u32)
}

/// The numeric value of a digit character.
pub open spec fn digit_val(c: char) -> int {
    c as u32 - '0' as u32
}

/// Whether every character of `s` is a decimal digit.
pub open spec fn all_digits(s: Seq<char>) -> bool {
    forall|i: int| 0 <= i < s.len() ==> is_digit(#[trigger] s[i])
}

/// The value of a digit string read in base ten.
pub open spec fn digits_value(s: Seq<char>) -> int
    decreases s.len(),
{
    if s.len() == 0 {
        0
    } else {
        digits_value(s.drop_last()) * 10 + digit_val(s.last())
    }
}

/// Whether `s` is a decimal integer literal: an optional sign followed by at
/// least one digit.
pub open spec fn is_int_literal(s: Seq<char>) -> bool {
    if s.len() > 0 && (s[0] == '-' || s[0] == '+') {
        s.len() > 1 && all_digits(s.skip(1))
    } else {
        s.len() > 0 && all_digits(s)
    }
}

/// The value of an integer literal.
pub open spec fn int_literal_value(s: Seq<char>) -> int {
    if s.len() > 0 && s[0] == '-' {
        -digits_value(s.skip(1))
    } else if s.len() > 0 && s[0] == '+' {
        digits_value(s.skip(1))
    } else {
        digits_value(s)
    }
}

/// Whether `s` is an integer literal whose value fits a signed 32-bit integer.
pub open spec fn is_i32_literal(s: Seq<char>) -> bool {
    is_int_literal(s) && i32::MIN <= int_literal_value(s) <= i32::MAX
}

pub proof fn lemma_digits_value_bounds(s: Seq<char>, j: int)
    requires
        all_digits(s),
        0 <= j <= s.len(),
    ensures
        0 <= digits_value(s.take(j)) <= digits_value(s),
    decreases s.len() - j,
{
    if j == s.len() {
        assert(s.take(j) =~= s);
        lemma_digits_value_nonneg(s);
    } else {
        lemma_digits_value_bounds(s, j + 1);
        assert(s.take(j + 1).drop_last() =~= s.take(j));
        assert(s.take(j + 1).last() == s[j]);
        lemma_digits_value_nonneg(s.take(j));
    }
}

pub proof fn lemma_digits_value_nonneg(s: Seq<char>)
    requires
        all_digits(s),
    ensures
        digits_value(s) >= 0,
    decreases s.len(),
{
    if s.len() > 0 {
        assert(all_digits(s.drop_last())) by {
            assert(forall|i: int| 0 <= i < s.len() - 1 ==> s.drop_last()[i] == s[i]);
        }
        lemma_digits_value_nonneg(s.drop_last());
    }
}

/// Reads the digits of `s` starting at index `from`, accumulating their value,
/// and answers `None` as soon as a non-digit appears or the value passes
/// `0x8000_0000`.
fn read_digits(s: &str, from: usize) -> (r: Option<u64>)
    requires
        from as int <= s@.len(),
    ensures
        match r {
            Some(acc) => {
                &&& all_digits(s@.skip(from as int))
                &&& acc as int == digits_value(s@.skip(from as int))
                &&& acc <= 0x8000_0000
            },
            None => !all_digits(s@.skip(from as int)) || digits_value(s@.skip(from as int))
                > 0x8000_0000,
        },
{
    let n = s.unicode_len();
    let ghost d = s@.skip(from as int);
    let mut acc: u64 = 0;
    let mut i: usize = from;
    proof {
        assert(d.take(0) =~= Seq::<char>::empty());
    }
    while i < n
        invariant
            from <= i <= n,
            n == s@.len(),
            d == s@.skip(from as int),
            all_digits(d.take(i - from)),
            acc as int == digits_value(d.take(i - from)),
            acc <= 0x8000_0000,
        decreases n - i,
    {
        let c = s.get_char(i);
        proof {
            assert(d[i - from] == s@[i as int]);
        }
        if !(c >= '0' && c <= '9') {
            proof {
                assert(!is_digit(d[i - from]));
            }
            return None;
        }
        let dv: u64 = (c as u32 as u64) - 48;
        let next: u64 = acc * 10 + dv;
        proof {
            assert(d.take(i - from + 1).drop_last() =~= d.take(i - from));
            assert(d.take(i - from + 1).last() == d[i - from]);
            assert(all_digits(d.take(i - from + 1)));
        }
        if next > 0x8000_0000 {
            proof {
                lemma_digits_value_bounds_from(d, i - from + 1);
            }
            return None;
        }
        acc = next;
        i += 1;
    }
    proof {
        assert(d.take(n - from) =~= d);
    }
    Some(acc)
}

/// A prefix of an all-digit tail bounds the whole tail from below.
proof fn lemma_digits_value_bounds_from(d: Seq<char>, j: int)
    requires
        0 <= j <= d.len(),
        all_digits(d.take(j)),
        digits_value(d.take(j)) > 0x8000_0000,
    ensures
        !all_digits(d) || digits_value(d) > 0x8000_0000,
{
    if all_digits(d) {
        lemma_digits_value_bounds(d, j);
    }
}

/// Reads `s` as a signed 32-bit decimal literal: an optional `+` or `-` sign,
/// then one or more digits, the whole value within the `i32` range.
pub fn parse_i32(s: &str) -> (r: Option<i32>)
    ensures
        r is Some <==> is_i32_literal(s@),
        match r {
            Some(v) => v as int == int_literal_value(s@),
            None => true,
        },
{
    let n = s.unicode_len();
    if n == 0 {
        return None;
    }
    let first = s.get_char(0);
    if first == '-' || first == '+' {
        if n == 1 {
            return None;
        }
        let acc = match read_digits(s, 1) {
            Some(a) => a,
            None => {
                return None;
            },
        };
        if first == '-' {
            proof {
                assert((-(acc as int)) >= i32::MIN);
            }
            Some((-(acc as i64)) as i32)
        } else {
            if acc > 0x7fff_ffff {
                return None;
            }
            Some(acc as i32)
        }
    } else {
        let acc = match read_digits(s, 0) {
            Some(a) => a,
            None => {
                proof {
                    assert(s@.skip(0) =~= s@);
                }
                return None;
            },
        };
        proof {
            assert(s@.skip(0) =~= s@);
        }
        if acc > 0x7fff_ffff {
            return None;
        }
        Some(acc as i32)
    }
}

/// The digit character for a value below ten.
pub open spec fn digit_char(d: int) -> char {
    ((48 + d) as u32) as char
}

/// The decimal digits of a non-negative number, most significant first.
pub open spec fn decimal_rep(n: int) -> Seq<char>
    decreases n,
{
    if n < 10 {
        seq![digit_char(n)]
    } else {
        decimal_rep(n / 10).push(digit_char(n % 10))
    }
}

/// The digit character for `d`.
fn digit_char_of(d: i32) -> (c: char)
    requires
        0 <= d <= 9,
    ensures
        c == digit_char(d as int),
{
    match d {
        0 => '0',
        1 => '1',
        2 => '2',
        3 => '3',
        4 => '4',
        5 => '5',
        6 => '6',
        7 => '7',
        8 => '8',
        _ => '9',
    }
}

/// Renders a positive number in decimal.
pub fn render_decimal(n: i32) -> (s: String)
    requires
        n >= 1,
    ensures
        s@ == decimal_rep(n as int),
{
    let ghost whole = n as int;
    let mut digits: Vec<char> = Vec::new();
    let mut rest = n;
    while rest > 0
        invariant
            0 <= rest,
            rest > 0 ==> decimal_rep(whole) == decimal_rep(rest as int) + digits@,
            rest == 0 ==> decimal_rep(whole) == digits@,
        decreases rest,
    {
        let d = digit_char_of(rest % 10);
        let ghost digits0 = digits@;
        digits.insert(0, d);
        proof {
            assert(digits@ =~= seq![digit_char(rest as int % 10)] + digits0);
            if rest >= 10 {
                assert(decimal_rep(rest as int) == decimal_rep(rest as int / 10).push(
                    digit_char(rest as int % 10),
                ));
                assert(decimal_rep(rest as int) + digits0 =~= decimal_rep(rest as int / 10) + (
                seq![digit_char(rest as int % 10)] + digits0));
            } else {
                assert(decimal_rep(rest as int) =~= seq![digit_char(rest as int)]);
                assert(decimal_rep(rest as int) + digits0 =~= seq![digit_char(rest as int)]
                    + digits0);
            }
        }
        rest = rest / 10;
    }
    let mut s = String::new();
    let mut j: usize = 0;
    while j < digits.len()
        invariant
            j <= digits@.len(),
            s@ == digits@.take(j as int),
            decimal_rep(whole) == digits@,
        decreases digits@.len() - j,
    {
        let c = digits[j];
        push_char(&mut s, c);
        proof {
            assert(s@ =~= digits@.take(j as int + 1));
        }
        j += 1;
    }
    proof {
        assert(digits@.take(digits@.len() as int) =~= digits@);
    }
    s
}

/// Whether `s` is a string literal: at least two characters, the first and the
/// last a double quote.
pub open spec fn is_string_literal(s: Seq<char>) -> bool {
    s.len() >= 2 && s[0] == '"' && s.last() == '"'
}

/// The executable test for `is_string_literal`.
pub fn is_string_constant(token: &str) -> (r: bool)
    ensures
        r == is_string_literal(token@),
{
    let n = token.unicode_len();
    n >= 2 && token.get_char(0) == '"' && token.get_char(n - 1) == '"'
}

} // verus!
