//! Parsing decimal integers out of text: the one grammar every puzzle input
//! shares.  The parser is total: it says exactly which strings it accepts
//! and what value each accepted string denotes.

use vstd::prelude::*;
use vstd::string::StrSliceExecFns;

verus! {

/// A decimal digit.
pub open spec fn is_digit(c: char) -> bool {
    '0' <= c && c <= '9'
}

/// The numeric value of one digit.
pub open spec fn digit_val(c: char) -> int {
    c as int - '0' as int
}

/// The value of a nonempty run of digits, most significant first.
pub open spec fn digits_val(s: Seq<char>) -> int
    decreases s.len(),
{
    if s.len() == 0 {
        0
    } else {
        digits_val(s.drop_last()) * 10 + digit_val(s.last())
    }
}

/// The strings the integer grammar accepts: an optional leading minus sign,
/// then one or more digits.
pub open spec fn is_int_str(s: Seq<char>) -> bool {
    if s.len() > 0 && s[0] == '-' {
        s.len() >= 2 && forall|i: int| 1 <= i < s.len() ==> is_digit(s[i])
    } else {
        s.len() >= 1 && forall|i: int| 0 <= i < s.len() ==> is_digit(s[i])
    }
}

/// The value an accepted string denotes.
pub open spec fn int_str_val(s: Seq<char>) -> int {
    if s.len() > 0 && s[0] == '-' {
        -digits_val(s.skip(1))
    } else {
        digits_val(s)
    }
}

/// A nonempty run of digits denotes a nonnegative value.
proof fn lemma_digits_val_nonneg(s: Seq<char>)
    requires
        forall|i: int| 0 <= i < s.len() ==> is_digit(s[i]),
    ensures
        digits_val(s) >= 0,
    decreases s.len(),
{
    if s.len() > 0 {
        lemma_digits_val_nonneg(s.drop_last());
    }
}

/// Appending a digit multiplies the value by ten and adds the digit.
proof fn lemma_digits_val_push(s: Seq<char>, c: char)
    ensures
        digits_val(s.push(c)) == digits_val(s) * 10 + digit_val(c),
{
    assert(s.push(c).drop_last() =~= s);
    assert(s.push(c).last() == c);
}

/// The value of the digit run read so far only grows as digits follow.
proof fn lemma_digits_val_grows(s: Seq<char>, c: char)
    requires
        forall|i: int| 0 <= i < s.len() ==> is_digit(s[i]),
        is_digit(c),
    ensures
        digits_val(s.push(c)) >= digits_val(s),
{
    lemma_digits_val_nonneg(s);
    lemma_digits_val_push(s, c);
}

/// Parse a decimal integer.  Returns its value exactly when the whole string
/// matches the integer grammar and the value fits the result type; returns
/// nothing otherwise.
pub fn parse_i64(s: &str) -> (r: Option<i64>)
    ensures
        r is Some <==> (is_int_str(s@) && i64::MIN <= int_str_val(s@) <= i64::MAX),
        r is Some ==> r->0 == int_str_val(s@),
{
    let n = s.unicode_len();
    if n == 0 {
        return None;
    }
    let first = s.get_char(0);
    let neg = first == '-';
    let start: usize = if neg {
        1
    } else {
        0
    };
    if neg && n == 1 {
        return None;
    }
    let mut i: usize = start;
    let mut mag: i128 = 0;
    let mut too_big = false;
    while i < n
        invariant
            n == s@.len(),
            start <= i <= n,
            start == (if neg { 1int } else { 0int }),
            neg ==> s@[0] == '-',
            !neg ==> (n > 0 && s@[0] != '-'),
            forall|k: int| start <= k < i ==> is_digit(s@[k]),
            !too_big ==> (0 <= mag <= 0x8000_0000_0000_0000 && mag == digits_val(
                s@.subrange(start as int, i as int),
            )),
            too_big ==> digits_val(s@.subrange(start as int, i as int)) > 0x8000_0000_0000_0000,
        decreases n - i,
    {
        let c = s.get_char(i);
        if c < '0' || c > '9' {
            return None;
        }
        let d = (c as u32) - ('0' as u32);
        let ghost prefix = s@.subrange(start as int, i as int);
        proof {
            assert(s@.subrange(start as int, i + 1 as int) =~= prefix.push(s@[i as int]));
            lemma_digits_val_grows(prefix, s@[i as int]);
            lemma_digits_val_push(prefix, s@[i as int]);
            lemma_digits_val_nonneg(prefix);
        }
        if !too_big {
            let next = mag * 10 + (d as i128);
            if next > 0x8000_0000_0000_0000i128 {
                too_big = true;
            } else {
                mag = next;
            }
        } else {
            proof {
                let longer = s@.subrange(start as int, i + 1 as int);
                assert(digits_val(longer) >= digits_val(prefix));
            }
        }
        i = i + 1;
    }
    proof {
        assert(s@.subrange(start as int, n as int) =~= s@.skip(start as int));
        if !neg {
            assert(s@.skip(0) =~= s@);
        }
    }
    if too_big {
        proof {
            if neg {
                assert(int_str_val(s@) == -digits_val(s@.skip(1)));
                assert(digits_val(s@.skip(1)) > 0x8000_0000_0000_0000);
            }
        }
        return None;
    }
    if neg {
        if mag > 0x8000_0000_0000_0000i128 {
            return None;
        }
        if mag == 0x8000_0000_0000_0000i128 {
            Some(i64::MIN)
        } else {
            Some(-(mag as i64))
        }
    } else {
        if mag > i64::MAX as i128 {
            return None;
        }
        Some(mag as i64)
    }
}

/// Parse a decimal integer into a narrower type; accepts exactly the strings
/// whose value fits it.
pub fn parse_i32(s: &str) -> (r: Option<i32>)
    ensures
        r is Some <==> (is_int_str(s@) && i32::MIN <= int_str_val(s@) <= i32::MAX),
        r is Some ==> r->0 == int_str_val(s@),
{
    match parse_i64(s) {
        None => None,
        Some(v) => {
            if v < i32::MIN as i64 || v > i32::MAX as i64 {
                None
            } else {
                Some(v as i32)
            }
        },
    }
}

} // verus!
