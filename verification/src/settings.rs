//! Reading the integer and on/off settings, which are stored as text.

use vstd::prelude::*;
use crate::text::{chars_of, trim, trim_bounds};

verus! {

/// Whether `c` is an ASCII digit.
pub open spec fn is_ascii_digit(c: char) -> bool {
    '0' <= c && c <= '9'
}

/// Whether every character of `s` is an ASCII digit.
pub open spec fn all_digits(s: Seq<char>) -> bool {
    forall|i: int| 0 <= i < s.len() ==> is_ascii_digit(#[trigger] s[i])
}

/// The value of a run of ASCII digits, most significant first.
pub open spec fn digits_value(s: Seq<char>) -> int
    decreases s.len(),
{
    if s.len() == 0 {
        0
    } else {
        digits_value(s.drop_last()) * 10 + (s.last() as int - '0' as int)
    }
}

/// The length of a leading `+` or `-`.
pub open spec fn sign_len(s: Seq<char>) -> int {
    if s.len() > 0 && (s[0] == '-' || s[0] == '+') {
        1
    } else {
        0
    }
}

/// The integer that `s` writes as a decimal literal: an optional `+` or `-`
/// followed by one or more ASCII digits (`str::parse` on integers).
pub open spec fn integer_literal(s: Seq<char>) -> Option<int> {
    let body = s.skip(sign_len(s));
    if body.len() > 0 && all_digits(body) {
        if sign_len(s) == 1 && s[0] == '-' {
            Some(-digits_value(body))
        } else {
            Some(digits_value(body))
        }
    } else {
        None
    }
}

/// The integer setting stored as `text`: the text without surrounding white
/// space, read as a decimal literal that fits in 32 bits; `None` otherwise.
pub open spec fn setting_int_of(text: Seq<char>) -> Option<i32> {
    match integer_literal(trim(text)) {
        Some(v) => if i32::MIN <= v <= i32::MAX {
            Some(v as i32)
        } else {
            None
        },
        None => None,
    }
}

/// The on/off setting stored as `text`: on exactly when it reads as the
/// integer 1.
pub open spec fn setting_flag_of(text: Seq<char>) -> bool {
    setting_int_of(text) == Some(1i32)
}

proof fn lemma_digits_value_nonneg(s: Seq<char>)
    requires
        all_digits(s),
    ensures
        digits_value(s) >= 0,
    decreases s.len(),
{
    if s.len() > 0 {
        assert(is_ascii_digit(s[s.len() - 1]));
        lemma_digits_value_nonneg(s.drop_last());
    }
}

/// A run of digits is worth at least any of its prefixes.
proof fn lemma_digits_value_grows(s: Seq<char>, k: int)
    requires
        all_digits(s),
        0 <= k <= s.len(),
    ensures
        digits_value(s) >= digits_value(s.take(k)),
    decreases s.len(),
{
    if k < s.len() {
        let d = s.drop_last();
        assert(is_ascii_digit(s[s.len() - 1]));
        lemma_digits_value_nonneg(d);
        lemma_digits_value_grows(d, k);
        assert(d.take(k) =~= s.take(k));
    } else {
        assert(s.take(k) =~= s);
    }
}

/// Reads an integer setting stored as text (see [`setting_int_of`]).
pub fn setting_int(text: &str) -> (r: Option<i32>)
    ensures
        r == setting_int_of(text@),
{
    let v = chars_of(text);
    let (lo, hi) = trim_bounds(&v, 0, v.len(), false);
    let ghost t = v@.subrange(lo as int, hi as int);
    proof {
        assert(v@.subrange(0, v@.len() as int) =~= v@);
        assert(t == trim(text@));
    }
    let mut i = lo;
    let mut neg = false;
    if i < hi && (v[i] == '-' || v[i] == '+') {
        neg = v[i] == '-';
        i = i + 1;
    }
    let start = i;
    let ghost body = v@.subrange(start as int, hi as int);
    proof {
        assert(start - lo == sign_len(t));
        assert(t.skip(sign_len(t)) =~= body);
        assert(neg == (sign_len(t) == 1 && t[0] == '-'));
    }
    if i == hi {
        return None;
    }
    let mut acc: i64 = 0;
    assert(v@.subrange(start as int, start as int) =~= Seq::<char>::empty());
    while i < hi
        invariant
            lo <= start <= i <= hi <= v@.len(),
            body == v@.subrange(start as int, hi as int),
            t == trim(text@),
            t.skip(sign_len(t)) == body,
            body.len() > 0,
            all_digits(v@.subrange(start as int, i as int)),
            acc == digits_value(v@.subrange(start as int, i as int)),
            0 <= acc <= 2147483648,
        decreases hi - i,
    {
        let c = v[i];
        let ghost pre = v@.subrange(start as int, i as int);
        let ghost next = v@.subrange(start as int, i + 1);
        assert(next.drop_last() =~= pre);
        assert(body[i - start] == c);
        if !(c >= '0' && c <= '9') {
            assert(!is_ascii_digit(body[i - start]));
            assert(!all_digits(body));
            assert(integer_literal(t) is None);
            return None;
        }
        let d = (c as u32 - 48u32) as i64;
        acc = acc * 10 + d;
        assert(all_digits(next)) by {
            assert forall|k: int| 0 <= k < next.len() implies is_ascii_digit(#[trigger] next[k]) by {
                if k < pre.len() {
                    assert(next[k] == pre[k]);
                }
            }
        }
        if acc > 2147483648 {
            proof {
                if all_digits(body) {
                    assert(body.take(next.len() as int) =~= next);
                    lemma_digits_value_grows(body, next.len() as int);
                }
                assert(integer_literal(t) is None || !(i32::MIN <= integer_literal(t)->0 <= i32::MAX));
            }
            return None;
        }
        i = i + 1;
    }
    assert(v@.subrange(start as int, i as int) =~= body);
    if neg {
        Some((-acc) as i32)
    } else if acc <= 2147483647 {
        Some(acc as i32)
    } else {
        None
    }
}

/// Reads an on/off setting stored as text (see [`setting_flag_of`]).
pub fn setting_flag(text: &str) -> (b: bool)
    ensures
        b == setting_flag_of(text@),
{
    match setting_int(text) {
        Some(n) => n == 1,
        None => false,
    }
}

} // verus!
