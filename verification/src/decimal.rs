//! Exact parsing of non-negative decimal strings such as `"453.59237"`.
//! A factor given as a decimal string denotes the rational number
//! `dec_num(s) / dec_den(s)`; parsing never goes through floating point.

use vstd::prelude::*;

verus! {

/// Digit characters.
pub open spec fn is_digit(c: char) -> bool {
    '0' <= c && c <= '9'
}

/// The numeric value of a digit character.
pub open spec fn digit_val(c: char) -> int {
    c as int - '0' as int
}

/// How many `'.'` characters the string holds.
pub open spec fn dot_count(s: Seq<char>) -> int
    decreases s.len(),
{
    if s.len() == 0 {
        0
    } else if s.last() == '.' {
        dot_count(s.drop_last()) + 1
    } else {
        dot_count(s.drop_last())
    }
}

/// Whether the string holds a `'.'`.
pub open spec fn has_dot(s: Seq<char>) -> bool
    decreases s.len(),
{
    if s.len() == 0 {
        false
    } else {
        s.last() == '.' || has_dot(s.drop_last())
    }
}

/// The digits of the string read as an integer, the dot ignored:
/// the numerator of the denoted rational.
pub open spec fn dec_num(s: Seq<char>) -> int
    decreases s.len(),
{
    if s.len() == 0 {
        0
    } else if s.last() == '.' {
        dec_num(s.drop_last())
    } else {
        10 * dec_num(s.drop_last()) + digit_val(s.last())
    }
}

/// Ten to the number of digits behind the dot: the denominator of the
/// denoted rational.
pub open spec fn dec_den(s: Seq<char>) -> int
    decreases s.len(),
{
    if s.len() == 0 {
        1
    } else if s.last() == '.' {
        1
    } else if has_dot(s.drop_last()) {
        10 * dec_den(s.drop_last())
    } else {
        1
    }
}

/// A well-formed decimal string: at least one character, each a digit or a
/// dot, at most one dot, and neither the first nor the last character a dot.
pub open spec fn valid_decimal(s: Seq<char>) -> bool {
    &&& s.len() >= 1
    &&& (forall|i: int| 0 <= i < s.len() ==> is_digit(#[trigger] s[i]) || s[i] == '.')
    &&& dot_count(s) <= 1
    &&& s[0] != '.'
    &&& s.last() != '.'
}

/// Powers of ten.
pub open spec fn pow10(k: nat) -> int
    decreases k,
{
    if k == 0 {
        1
    } else {
        10 * pow10((k - 1) as nat)
    }
}

proof fn lemma_pow10_pos(k: nat)
    ensures
        pow10(k) >= 1,
    decreases k,
{
    if k > 0 {
        lemma_pow10_pos((k - 1) as nat);
    }
}

/// The parts of a decimal string are bounded by ten to its length.
proof fn lemma_dec_bounds(s: Seq<char>)
    requires
        forall|i: int| 0 <= i < s.len() ==> is_digit(#[trigger] s[i]) || s[i] == '.',
    ensures
        0 <= dec_num(s) < pow10(s.len() as nat),
        1 <= dec_den(s) <= pow10(s.len() as nat),
    decreases s.len(),
{
    if s.len() == 0 {
    } else {
        let pre = s.drop_last();
        assert(forall|i: int| 0 <= i < pre.len() ==> is_digit(#[trigger] pre[i]) || pre[i]
            == '.') by {
            assert(forall|i: int| 0 <= i < pre.len() ==> pre[i] == s[i]);
        }
        lemma_dec_bounds(pre);
        lemma_pow10_pos(pre.len() as nat);
        assert(s.len() as nat - 1 == pre.len() as nat);
        if s.last() == '.' {
        } else {
            assert(is_digit(s.last())) by {
                assert(s.last() == s[s.len() - 1]);
            }
            assert(0 <= digit_val(s.last()) <= 9);
        }
    }
}

/// Parse a decimal string of at most twenty characters into the exact pair
/// of numerator and denominator it denotes. Malformed or over-long input is
/// rejected with `None`.
pub fn parse_decimal(s: &str) -> (r: Option<(u128, u128)>)
    ensures
        match r {
            Some(p) => valid_decimal(s@) && p.0 as int == dec_num(s@) && p.1 as int == dec_den(
                s@,
            ),
            None => !(valid_decimal(s@) && s@.len() <= 20),
        },
{
    let len = s.unicode_len();
    if len == 0 || len > 20 {
        return None;
    }
    let mut num: u128 = 0;
    let mut den: u128 = 1;
    let mut seen_dot = false;
    let mut i: usize = 0;
    proof {
        assert(s@.subrange(0, 0) =~= Seq::<char>::empty());
    }
    while i < len
        invariant
            0 < len <= 20,
            len == s@.len(),
            0 <= i <= len,
            num as int == dec_num(s@.subrange(0, i as int)),
            den as int == dec_den(s@.subrange(0, i as int)),
            seen_dot == has_dot(s@.subrange(0, i as int)),
            dot_count(s@.subrange(0, i as int)) == if seen_dot {
                1int
            } else {
                0int
            },
            forall|j: int|
                0 <= j < i ==> is_digit(#[trigger] s@.subrange(0, i as int)[j]) || s@.subrange(
                    0,
                    i as int,
                )[j] == '.',
            i > 0 ==> s@[0] != '.',
            (num as int) < pow10(i as nat),
            1 <= den as int,
            den as int <= pow10(i as nat),
        decreases len - i,
    {
        let c = s.get_char(i);
        let ghost pre = s@.subrange(0, i as int);
        let ghost cur = s@.subrange(0, i as int + 1);
        proof {
            assert(cur.drop_last() =~= pre);
            assert(cur.last() == s@[i as int]);
            lemma_pow10_pos(i as nat);
            assert(pow10((i + 1) as nat) == 10 * pow10(i as nat));
            assert(pow10(20nat) == 100000000000000000000int) by {
                reveal_with_fuel(pow10, 21);
            }
            lemma_pow10_mono(i as nat, 19nat);
            lemma_pow10_mono((i + 1) as nat, 20nat);
        }
        let cv = c as u32;
        if cv == 46 {
            // the dot
            if seen_dot || i == 0 {
                proof {
                    if seen_dot {
                        assert(dot_count(cur) == 2);
                        lemma_dot_count_prefix(s@, i as int + 1);
                    }
                }
                return None;
            }
            seen_dot = true;
            proof {
                assert(cur.last() == '.');
            }
        } else if 48 <= cv && cv <= 57 {
            num = num * 10 + ((cv - 48) as u128);
            if seen_dot {
                den = den * 10;
            }
            proof {
                assert(is_digit(cur.last()) && digit_val(cur.last()) == cv - 48);
            }
        } else {
            return None;
        }
        i = i + 1;
    }
    proof {
        assert(s@.subrange(0, len as int) =~= s@);
    }
    // a trailing dot is not a number
    let last = s.get_char(len - 1);
    if (last as u32) == 46 {
        return None;
    }
    proof {
        assert(s@.last() == s@[len - 1]);
    }
    Some((num, den))
}

/// A prefix holds no more dots than the whole string.
proof fn lemma_dot_count_prefix(s: Seq<char>, i: int)
    requires
        0 <= i <= s.len(),
    ensures
        dot_count(s.subrange(0, i)) <= dot_count(s),
    decreases s.len() - i,
{
    if i == s.len() {
        assert(s.subrange(0, i) =~= s);
    } else {
        assert(s.subrange(0, i + 1).drop_last() =~= s.subrange(0, i));
        lemma_dot_count_prefix(s, i + 1);
    }
}

proof fn lemma_pow10_mono(a: nat, b: nat)
    requires
        a <= b,
    ensures
        pow10(a) <= pow10(b),
    decreases b,
{
    if a < b {
        lemma_pow10_mono(a, (b - 1) as nat);
        lemma_pow10_pos((b - 1) as nat);
    }
}

} // verus!
