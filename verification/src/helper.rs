//! Text helpers: decimal integer parsing with the exact acceptance rules of
//! `i32` string parsing, and the `HH:MM`-style split used for times.
use vstd::prelude::*;

verus! {

/// `c` is an ASCII decimal digit.
pub open spec fn is_digit(c: char) -> bool {
    48 <= c as int <= 57
}

/// Numeric value of an ASCII decimal digit.
pub open spec fn digit_val(c: char) -> int {
    c as int - 48
}

/// Non-empty and made of ASCII decimal digits only.
pub open spec fn all_digits(s: Seq<char>) -> bool {
    s.len() > 0 && forall|i: int| 0 <= i < s.len() ==> is_digit(#[trigger] s[i])
}

/// Value of a digit string read in base ten.
pub open spec fn digits_val(s: Seq<char>) -> int
    decreases s.len(),
{
    if s.len() == 0 {
        0
    } else {
        digits_val(s.drop_last()) * 10 + digit_val(s.last())
    }
}

/// The shape a decimal integer string must have: an optional single leading
/// `+` or `-`, then one or more ASCII digits and nothing else.
pub open spec fn int_str_ok(s: Seq<char>) -> bool {
    if s.len() == 0 {
        false
    } else if s[0] == '+' || s[0] == '-' {
        all_digits(s.subrange(1, s.len() as int))
    } else {
        all_digits(s)
    }
}

/// The signed value of a well-shaped decimal integer string.
pub open spec fn int_str_val(s: Seq<char>) -> int {
    if s.len() > 0 && s[0] == '-' {
        -digits_val(s.subrange(1, s.len() as int))
    } else if s.len() > 0 && s[0] == '+' {
        digits_val(s.subrange(1, s.len() as int))
    } else {
        digits_val(s)
    }
}

/// What parsing a string as an `i32` yields: the value when the shape is
/// right and the value fits, nothing otherwise.
pub open spec fn spec_parse_i32(s: Seq<char>) -> Option<int> {
    if int_str_ok(s) && i32::MIN <= int_str_val(s) <= i32::MAX {
        Some(int_str_val(s))
    } else {
        None
    }
}

/// Index of the first occurrence of `c` in `s`, or `s.len()` when there is
/// none.
pub open spec fn first_occurrence(s: Seq<char>, c: char) -> int
    decreases s.len(),
{
    if s.len() == 0 {
        0
    } else if s[0] == c {
        0
    } else {
        1 + first_occurrence(s.subrange(1, s.len() as int), c)
    }
}

/// Index of the first `:` in `s`, or `s.len()` when there is none.
pub open spec fn first_colon(s: Seq<char>) -> int {
    first_occurrence(s, ':')
}

/// What splitting at the first `:` and parsing both sides as `i32` yields.
pub open spec fn spec_parse_time(s: Seq<char>) -> Option<(int, int)> {
    let i = first_colon(s);
    if i == s.len() {
        None
    } else {
        match (spec_parse_i32(s.take(i)), spec_parse_i32(s.subrange(i + 1, s.len() as int))) {
            (Some(h), Some(m)) => Some((h, m)),
            _ => None,
        }
    }
}

/// `first_occurrence` points at `c` when one exists, and nothing before it
/// is `c`.
pub proof fn lemma_first_occurrence(s: Seq<char>, c: char)
    ensures
        0 <= first_occurrence(s, c) <= s.len(),
        first_occurrence(s, c) < s.len() ==> s[first_occurrence(s, c)] == c,
        forall|j: int| 0 <= j < first_occurrence(s, c) ==> s[j] != c,
    decreases s.len(),
{
    if s.len() > 0 && s[0] != c {
        let tail = s.subrange(1, s.len() as int);
        lemma_first_occurrence(tail, c);
        assert forall|j: int| 0 <= j < first_occurrence(s, c) implies s[j] != c by {
            if j > 0 {
                assert(tail[j - 1] != c);
                assert(s[j] == tail[j - 1]);
            }
        }
    }
}

/// Finds the first `c` of `s` at or after `start`, returning `s`'s length
/// when there is none.
pub fn find_char_from(s: &str, start: usize, c: char) -> (r: usize)
    requires
        start <= s@.len(),
    ensures
        start <= r <= s@.len(),
        r - start == first_occurrence(s@.subrange(start as int, s@.len() as int), c),
        r < s@.len() ==> s@[r as int] == c,
        forall|j: int| start <= j < r ==> s@[j] != c,
{
    let ghost suffix = s@.subrange(start as int, s@.len() as int);
    let n = s.unicode_len();
    let mut i: usize = start;
    while i < n
        invariant
            start <= i <= n,
            n == s@.len(),
            suffix == s@.subrange(start as int, s@.len() as int),
            forall|j: int| start <= j < i ==> s@[j] != c,
        decreases n - i,
    {
        if s.get_char(i) == c {
            proof {
                lemma_first_occurrence(suffix, c);
                assert(0 <= i - start < suffix.len());
                assert(suffix[i - start] == s@[start + (i - start)]);
                if first_occurrence(suffix, c) < i - start {
                    let k = first_occurrence(suffix, c);
                    assert(suffix[k] == s@[start + k]);
                }
            }
            return i;
        }
        i += 1;
    }
    proof {
        lemma_first_occurrence(suffix, c);
        if first_occurrence(suffix, c) < suffix.len() {
            let k = first_occurrence(suffix, c);
            assert(suffix[k] == s@[start + k]);
        }
    }
    n
}

/// Splits at the first `:` and parses both sides as numbers, yielding the
/// pair exactly when both parse and a `:` was there to split on.
pub fn parse_time(time: &str) -> (r: Option<(i32, i32)>)
    ensures
        match r {
            Some(p) => spec_parse_time(time@) == Some((p.0 as int, p.1 as int)),
            None => spec_parse_time(time@) is None,
        },
{
    let n = time.unicode_len();
    let i = find_char_from(time, 0, ':');
    proof {
        assert(time@.subrange(0, time@.len() as int) =~= time@);
    }
    if i == n {
        return None;
    }
    let hour_part = time.substring_char(0, i);
    let minutes_part = time.substring_char(i + 1, n);
    proof {
        assert(hour_part@ =~= time@.take(i as int));
        assert(minutes_part@ =~= time@.subrange(i + 1, time@.len() as int));
    }
    let hour = match parse_i32_str(hour_part) {
        Some(h) => h,
        None => {
            return None;
        },
    };
    let minutes = match parse_i32_str(minutes_part) {
        Some(m) => m,
        None => {
            return None;
        },
    };
    Some((hour, minutes))
}

/// A digit string's value is never negative.
proof fn lemma_digits_val_nonneg(s: Seq<char>)
    requires
        forall|i: int| 0 <= i < s.len() ==> is_digit(#[trigger] s[i]),
    ensures
        digits_val(s) >= 0,
    decreases s.len(),
{
    if s.len() > 0 {
        lemma_digits_val_nonneg(s.drop_last());
    }
}

/// Reading more digits never shrinks the value: a prefix's value bounds
/// the whole string's from below.
proof fn lemma_digits_val_prefix_le(s: Seq<char>, k: int)
    requires
        0 <= k <= s.len(),
        forall|i: int| 0 <= i < s.len() ==> is_digit(#[trigger] s[i]),
    ensures
        digits_val(s.take(k)) <= digits_val(s),
    decreases s.len() - k,
{
    if k < s.len() {
        assert(s.take(k + 1).drop_last() =~= s.take(k));
        assert(s.take(k + 1).last() == s[k]);
        lemma_digits_val_nonneg(s.take(k));
        lemma_digits_val_prefix_le(s, k + 1);
    } else {
        assert(s.take(k) =~= s);
    }
}

/// Parses a whole string as an `i32`, accepting exactly an optional leading
/// sign followed by one or more ASCII decimal digits whose value fits.
pub fn parse_i32_str(s: &str) -> (r: Option<i32>)
    ensures
        match r {
            Some(v) => spec_parse_i32(s@) == Some(v as int),
            None => spec_parse_i32(s@) is None,
        },
{
    let n = s.unicode_len();
    if n == 0 {
        return None;
    }
    let c0 = s.get_char(0);
    let neg = c0 == '-';
    let has_sign = neg || c0 == '+';
    let start: usize = if has_sign {
        1
    } else {
        0
    };
    if start == n {
        // a bare sign has no digits to read
        return None;
    }
    let ghost mag = s@.subrange(start as int, n as int);
    let mut acc: i32 = 0;
    let mut i: usize = start;
    while i < n
        invariant
            start <= i <= n,
            start < n,
            n == s@.len(),
            start == if has_sign { 1int } else { 0int },
            neg <==> s@[0] == '-',
            has_sign <==> (s@[0] == '-' || s@[0] == '+'),
            mag == s@.subrange(start as int, n as int),
            forall|j: int| start <= j < i ==> is_digit(#[trigger] s@[j]),
            acc as int == if neg {
                -digits_val(s@.subrange(start as int, i as int))
            } else {
                digits_val(s@.subrange(start as int, i as int))
            },
        decreases n - i,
    {
        let c = s.get_char(i);
        let cu = c as u32;
        if cu < 48 || cu > 57 {
            // a non-digit anywhere makes the whole string unparseable
            assert(!int_str_ok(s@)) by {
                assert(mag[i - start] == s@[i as int]);
            }
            return None;
        }
        let d = (cu - 48) as i32;
        let ghost prefix = s@.subrange(start as int, i as int);
        let ghost prefix1 = s@.subrange(start as int, i + 1);
        proof {
            assert(prefix1.drop_last() =~= prefix);
            assert(forall|j: int| 0 <= j < prefix.len() ==> is_digit(#[trigger] prefix[j]));
            lemma_digits_val_nonneg(prefix);
        }
        let step = match acc.checked_mul(10) {
            Some(t) => if neg {
                t.checked_sub(d)
            } else {
                t.checked_add(d)
            },
            None => None,
        };
        match step {
            Some(a2) => {
                acc = a2;
                assert(acc as int == if neg {
                    -digits_val(prefix1)
                } else {
                    digits_val(prefix1)
                });
            },
            None => {
                // overflow: every longer digit string is at least as large,
                // so the full value cannot fit either
                proof {
                    if int_str_ok(s@) {
                        assert(forall|j: int| 0 <= j < mag.len() ==> is_digit(#[trigger] mag[j]))
                            by {
                            assert(forall|j: int| 0 <= j < mag.len() ==> mag[j] == s@[j + start]);
                        }
                        assert(mag.take(i + 1 - start) =~= prefix1);
                        lemma_digits_val_prefix_le(mag, i + 1 - start);
                        if has_sign {
                            assert(mag =~= s@.subrange(1, s@.len() as int));
                        } else {
                            assert(mag =~= s@);
                        }
                        if neg {
                            assert(digits_val(prefix1) > 0x8000_0000);
                            assert(int_str_val(s@) == -digits_val(mag));
                        } else {
                            assert(digits_val(prefix1) > i32::MAX);
                            assert(int_str_val(s@) == digits_val(mag));
                        }
                    }
                }
                return None;
            },
        }
        i += 1;
    }
    proof {
        assert(s@.subrange(start as int, i as int) =~= mag);
        if has_sign {
            assert(mag =~= s@.subrange(1, s@.len() as int));
            assert(int_str_ok(s@)) by {
                assert(all_digits(s@.subrange(1, s@.len() as int)));
            }
        } else {
            assert(mag =~= s@);
            assert(int_str_ok(s@)) by {
                assert(all_digits(s@));
            }
        }
        assert(int_str_val(s@) == acc as int);
    }
    Some(acc)
}

} // verus!
