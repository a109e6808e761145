//! Reading and writing the duration field: a non-negative decimal integer.
//! Reading is permissive, as the log format demands: a field that is not a
//! valid `u64` counts as zero. Writing produces the usual decimal form.

use vstd::prelude::*;
use vstd::string::StrSliceExecFns;
use vstd::string::StringExecFns;

verus! {

/// Whether `c` is a decimal digit.
pub open spec fn is_digit_char(c: char) -> bool {
    48 <= c as u32 <= 57
}

/// The value of a decimal digit; zero for any other character.
pub open spec fn digit_of(c: char) -> nat {
    if is_digit_char(c) {
        (c as u32 - 48) as nat
    } else {
        0
    }
}

/// The decimal digit for a value below ten.
pub open spec fn digit_char(d: nat) -> char {
    if d == 0 {
        '0'
    } else if d == 1 {
        '1'
    } else if d == 2 {
        '2'
    } else if d == 3 {
        '3'
    } else if d == 4 {
        '4'
    } else if d == 5 {
        '5'
    } else if d == 6 {
        '6'
    } else if d == 7 {
        '7'
    } else if d == 8 {
        '8'
    } else {
        '9'
    }
}

pub open spec fn all_digits(s: Seq<char>) -> bool {
    forall|i: int| 0 <= i < s.len() ==> is_digit_char(s[i])
}

/// The number the digit string denotes, read most significant digit first.
pub open spec fn digits_value(s: Seq<char>) -> nat
    decreases s.len(),
{
    if s.len() == 0 {
        0
    } else {
        digits_value(s.drop_last()) * 10 + digit_of(s.last())
    }
}

/// The digit part of a `u64` field: `str::parse::<u64>` accepts one optional
/// leading `+` before the digits.
pub open spec fn digits_of_field(s: Seq<char>) -> Seq<char> {
    if s.len() > 0 && s[0] == '+' {
        s.drop_first()
    } else {
        s
    }
}

/// Whether `str::parse::<u64>` accepts `s`: an optional `+`, then at least one
/// digit, denoting a value that fits in a `u64`.
pub open spec fn is_u64_chars(s: Seq<char>) -> bool {
    let digits = digits_of_field(s);
    digits.len() > 0 && all_digits(digits) && digits_value(digits) <= u64::MAX
}

/// What a duration field contributes: its value if it is a valid `u64`, and
/// zero otherwise.
pub open spec fn parsed_duration(s: Seq<char>) -> nat {
    if is_u64_chars(s) {
        digits_value(digits_of_field(s))
    } else {
        0
    }
}

/// The decimal digits of `n`, most significant first, with no sign and no
/// leading zero (except for zero itself).
pub open spec fn u64_chars(n: nat) -> Seq<char>
    decreases n,
{
    if n < 10 {
        seq![digit_char(n)]
    } else {
        u64_chars(n / 10).push(digit_char(n % 10))
    }
}

/// A digit string grows in value as digits are appended.
proof fn lemma_digits_value_prefix(s: Seq<char>, t: Seq<char>)
    ensures
        digits_value(s + t) >= digits_value(s),
    decreases t.len(),
{
    if t.len() == 0 {
        assert(s + t =~= s);
    } else {
        lemma_digits_value_prefix(s, t.drop_last());
        assert((s + t).drop_last() =~= s + t.drop_last());
        assert(digits_value(s + t) == digits_value(s + t.drop_last()) * 10 + digit_of(
            (s + t).last(),
        ));
    }
}

/// Parse a duration field exactly as the log readers do: the value of the
/// field when it is a valid `u64`, and zero when it is not.
pub fn parse_duration(s: &str) -> (r: u64)
    ensures
        r as nat == parsed_duration(s@),
{
    let len = s.unicode_len();
    let start: usize = if len > 0 && s.get_char(0) == '+' {
        1
    } else {
        0
    };
    proof {
        if start == 1 {
            assert(digits_of_field(s@) =~= s@.skip(1));
        } else {
            assert(digits_of_field(s@) =~= s@.skip(0));
        }
    }
    if len == start {
        proof {
            assert(!is_u64_chars(s@));
        }
        return 0;
    }
    let mut val: u64 = 0;
    let mut i: usize = start;
    while i < len
        invariant
            len == s@.len(),
            start <= i <= len,
            digits_of_field(s@) == s@.skip(start as int),
            all_digits(s@.subrange(start as int, i as int)),
            val as nat == digits_value(s@.subrange(start as int, i as int)),
        decreases len - i,
    {
        let c = s.get_char(i);
        let code = c as u32;
        if code < 48 || code > 57 {
            proof {
                assert(s@.skip(start as int)[i - start] == s@[i as int]);
                assert(!all_digits(digits_of_field(s@)));
            }
            return 0;
        }
        let d = (code - 48) as u64;
        proof {
            let pre = s@.subrange(start as int, i as int + 1);
            assert(pre =~= s@.subrange(start as int, i as int).push(s@[i as int]));
            assert(pre.drop_last() =~= s@.subrange(start as int, i as int));
            assert(pre.last() == s@[i as int]);
            assert(digit_of(s@[i as int]) == d);
        }
        if val > (u64::MAX - d) / 10 {
            proof {
                let pre = s@.subrange(start as int, i as int + 1);
                assert(digits_value(pre) == val * 10 + d);
                assert(val * 10 + d > u64::MAX) by (nonlinear_arith)
                    requires
                        val > (u64::MAX - d) / 10,
                        d <= 9,
                {
                }
                assert(pre + s@.skip(i as int + 1) =~= s@.skip(start as int));
                lemma_digits_value_prefix(pre, s@.skip(i as int + 1));
                assert(!is_u64_chars(s@));
            }
            return 0;
        }
        proof {
            assert(val * 10 + d <= u64::MAX) by (nonlinear_arith)
                requires
                    val <= (u64::MAX - d) / 10,
                    d <= 9,
            {
            }
        }
        val = val * 10 + d;
        i += 1;
    }
    proof {
        assert(s@.subrange(start as int, len as int) =~= s@.skip(start as int));
        assert(is_u64_chars(s@));
    }
    val
}

/// The one-character string for a decimal digit.
pub fn digit_str(d: u64) -> (r: &'static str)
    requires
        d < 10,
    ensures
        r@ == seq![digit_char(d as nat)],
{
    proof {
        reveal_strlit("0");
        reveal_strlit("1");
        reveal_strlit("2");
        reveal_strlit("3");
        reveal_strlit("4");
        reveal_strlit("5");
        reveal_strlit("6");
        reveal_strlit("7");
        reveal_strlit("8");
        reveal_strlit("9");
    }
    let r = match d {
        0 => "0",
        1 => "1",
        2 => "2",
        3 => "3",
        4 => "4",
        5 => "5",
        6 => "6",
        7 => "7",
        8 => "8",
        _ => "9",
    };
    proof {
        assert(r@ =~= seq![digit_char(d as nat)]);
    }
    r
}

/// Write `n` in decimal, as the log writer does.
pub fn u64_string(n: u64) -> (r: String)
    ensures
        r@ == u64_chars(n as nat),
    decreases n,
{
    if n < 10 {
        String::from_str(digit_str(n))
    } else {
        let mut prefix = u64_string(n / 10);
        prefix.append(digit_str(n % 10));
        proof {
            assert(u64_chars((n / 10) as nat) + seq![digit_char((n % 10) as nat)] =~= u64_chars(
                (n / 10) as nat,
            ).push(digit_char((n % 10) as nat)));
            assert(u64_chars(n as nat) == u64_chars((n / 10) as nat).push(
                digit_char((n % 10) as nat),
            ));
        }
        prefix
    }
}

/// The decimal form of `n` is all digits, never starts with a sign, and reads
/// back as `n`: writing a duration and then parsing the field is the identity.
pub proof fn lemma_u64_chars_value(n: nat)
    ensures
        u64_chars(n).len() >= 1,
        all_digits(u64_chars(n)),
        digits_value(u64_chars(n)) == n,
    decreases n,
{
    if n < 10 {
        let s = u64_chars(n);
        assert(s == seq![digit_char(n)]);
        assert(is_digit_char(digit_char(n)));
        assert(digit_of(digit_char(n)) == n);
        assert(s.drop_last() =~= Seq::<char>::empty());
        assert(digits_value(s) == digits_value(s.drop_last()) * 10 + digit_of(s.last()));
    } else {
        lemma_u64_chars_value(n / 10);
        let p = u64_chars(n / 10);
        let s = u64_chars(n);
        assert(s == p.push(digit_char(n % 10)));
        assert(s.drop_last() =~= p);
        assert(is_digit_char(digit_char(n % 10)));
        assert(digit_of(digit_char(n % 10)) == n % 10);
        assert(digits_value(s) == digits_value(p) * 10 + n % 10);
        assert((n / 10) * 10 + n % 10 == n) by (nonlinear_arith);
        assert(forall|i: int|
            0 <= i < s.len() ==> is_digit_char(
                #[trigger] s[i],
            ));
    }
}

/// A duration field written by the log writer parses back to its value.
pub proof fn lemma_duration_round_trip(n: u64)
    ensures
        parsed_duration(u64_chars(n as nat)) == n,
{
    lemma_u64_chars_value(n as nat);
    let s = u64_chars(n as nat);
    assert(is_digit_char(s[0]));
    assert(s[0] != '+');
    assert(digits_of_field(s) == s);
}

} // verus!
