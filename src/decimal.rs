//! Decimal text of integers, as `str::parse` reads it and `format!` writes it.
use vstd::prelude::*;
use vstd::string::StrSliceExecFns;

verus! {

pub open spec fn is_digit(c: char) -> bool {
    '0' <= c && c <= '9'
}

pub open spec fn digit_value(c: char) -> nat {
    (c as u32 - '0' as u32) as nat
}

pub open spec fn digit_char(d: nat) -> char {
    ((d % 10) as u32 + '0' as u32) as char
}

pub open spec fn all_digits(s: Seq<char>) -> bool {
    forall|i: int| 0 <= i < s.len() ==> is_digit(#[trigger] s[i])
}

/// Value of a string of digits.
pub open spec fn digits_value(s: Seq<char>) -> nat
    decreases s.len(),
{
    if s.len() == 0 {
        0
    } else {
        digits_value(s.drop_last()) * 10 + digit_value(s.last())
    }
}

/// An unsigned integer as `str::parse` reads it: an optional `+`, then one digit or more.
pub open spec fn parse_unsigned(s: Seq<char>) -> Option<nat> {
    let t = if s.len() > 0 && s[0] == '+' {
        s.drop_first()
    } else {
        s
    };
    if t.len() > 0 && all_digits(t) {
        Some(digits_value(t))
    } else {
        None
    }
}

/// A signed integer as `str::parse` reads it: an optional `+` or `-`, then one digit or more.
pub open spec fn parse_signed(s: Seq<char>) -> Option<int> {
    if s.len() > 0 && s[0] == '-' {
        let t = s.drop_first();
        if t.len() > 0 && all_digits(t) {
            Some(-digits_value(t))
        } else {
            None
        }
    } else {
        match parse_unsigned(s) {
            Some(v) => Some(v as int),
            None => None,
        }
    }
}

/// Digits of `v`, most significant first, without leading zeros.
pub open spec fn decimal(v: nat) -> Seq<char>
    decreases v,
{
    if v < 10 {
        seq![digit_char(v)]
    } else {
        decimal(v / 10).push(digit_char(v % 10))
    }
}

/// Decimal text of a signed integer.
pub open spec fn decimal_signed(v: int) -> Seq<char> {
    if v < 0 {
        seq!['-'] + decimal((-v) as nat)
    } else {
        decimal(v as nat)
    }
}

pub proof fn lemma_digits_prefix(s: Seq<char>, i: int)
    requires
        0 <= i <= s.len(),
    ensures
        digits_value(s.take(i)) <= digits_value(s),
    decreases s.len(),
{
    if i < s.len() {
        assert(s.drop_last().take(i) =~= s.take(i));
        lemma_digits_prefix(s.drop_last(), i);
    } else {
        assert(s.take(i) =~= s);
    }
}

/// Reads an unsigned integer of at most `max`.
pub fn parse_bounded(s: &str, max: u64) -> (r: Option<u64>)
    ensures
        match parse_unsigned(s@) {
            Some(v) => if v <= max {
                r == Some(v as u64)
            } else {
                r is None
            },
            None => r is None,
        },
{
    let n = s.unicode_len();
    let mut start: usize = 0;
    if n > 0 && s.get_char(0) == '+' {
        start = 1;
    }
    let ghost t = if s@.len() > 0 && s@[0] == '+' {
        s@.drop_first()
    } else {
        s@
    };
    assert(t =~= s@.skip(start as int));
    if start >= n {
        return None;
    }
    let mut acc: u128 = 0;
    let mut i: usize = start;
    while i < n
        invariant
            start <= i <= n,
            n == s@.len(),
            t == s@.skip(start as int),
            t == (if s@.len() > 0 && s@[0] == '+' {
                s@.drop_first()
            } else {
                s@
            }),
            acc <= max,
            all_digits(t.take(i - start)),
            acc == digits_value(t.take(i - start)),
        decreases n - i,
    {
        let c = s.get_char(i);
        if c < '0' || c > '9' {
            proof {
                assert(t[i - start] == c);
                assert(!is_digit(t[i - start]));
                assert(!all_digits(t));
            }
            return None;
        }
        let d = (c as u32 - '0' as u32) as u128;
        proof {
            assert(t.take(i - start + 1).drop_last() =~= t.take(i - start));
            assert(t.take(i - start + 1).last() == c);
            assert(all_digits(t.take(i - start + 1))) by {
                assert forall|k: int| 0 <= k < t.take(i - start + 1).len() implies is_digit(
                    #[trigger] t.take(i - start + 1)[k],
                ) by {
                    if k < i - start {
                        assert(t.take(i - start + 1)[k] == t.take(i - start)[k]);
                    }
                }
            }
        }
        acc = acc * 10 + d;
        i = i + 1;
        assert(acc == digits_value(t.take(i - start)));
        if acc > max as u128 {
            proof {
                let j = i - start;
                assert(t.len() > 0);
                assert(!all_digits(t) || digits_value(t) > max) by {
                    if all_digits(t) {
                        lemma_digits_prefix(t, j);
                    }
                }
            }
            return None;
        }
    }
    assert(t.take(n - start) =~= t);
    Some(acc as u64)
}

/// Reads a signed integer between `-(max + 1)` and `max`.
pub fn parse_signed_bounded(s: &str, max: u64) -> (r: Option<i128>)
    requires
        max < 0x8000000000000000,
    ensures
        match parse_signed(s@) {
            Some(v) => if -(max + 1) <= v <= max {
                r == Some(v as i128)
            } else {
                r is None
            },
            None => r is None,
        },
{
    let n = s.unicode_len();
    if n > 0 && s.get_char(0) == '-' {
        let rest = s.substring_char(1, n);
        assert(rest@ =~= s@.drop_first());
        if n > 1 && rest.get_char(0) == '+' {
            // a sign after the minus sign is not accepted
            return None;
        }
        match parse_bounded(rest, max + 1) {
            Some(v) => Some(-(v as i128)),
            None => None,
        }
    } else {
        match parse_bounded(s, max) {
            Some(v) => Some(v as i128),
            None => None,
        }
    }
}

/// The text of a digit.
fn digit_str(d: u64) -> (r: &'static str)
    requires
        d < 10,
    ensures
        r@ == seq![digit_char(d as nat)],
{
    proof {
        reveal_strlit("0");
        reveal_strlit("1");
        reveal_strlit("2");
        reveal_strlit("3");
        reveal_strlit("4");
        reveal_strlit("5");
        reveal_strlit("6");
        reveal_strlit("7");
        reveal_strlit("8");
        reveal_strlit("9");
    }
    let r = match d {
        0 => "0",
        1 => "1",
        2 => "2",
        3 => "3",
        4 => "4",
        5 => "5",
        6 => "6",
        7 => "7",
        8 => "8",
        _ => "9",
    };
    assert(r@ =~= seq![digit_char(d as nat)]);
    r
}

/// Appends the decimal text of `v`.
pub fn push_decimal(s: &mut String, v: u64)
    ensures
        final(s)@ == old(s)@ + decimal(v as nat),
    decreases v,
{
    if v >= 10 {
        push_decimal(s, v / 10);
    }
    s.append(digit_str(v % 10));
    assert(final(s)@ =~= old(s)@ + decimal(v as nat));
}

/// Appends the decimal text of `v`, with a minus sign when negative.
pub fn push_decimal_signed(s: &mut String, v: i64)
    ensures
        final(s)@ == old(s)@ + decimal_signed(v as int),
{
    if v < 0 {
        s.append("-");
        proof {
            reveal_strlit("-");
        }
        let m: u64 = if v == i64::MIN {
            0x8000000000000000
        } else {
            (-v) as u64
        };
        push_decimal(s, m);
        assert(final(s)@ =~= old(s)@ + decimal_signed(v as int));
    } else {
        push_decimal(s, v as u64);
    }
}

pub proof fn lemma_decimal_reads_back(v: nat)
    ensures
        all_digits(decimal(v)),
        digits_value(decimal(v)) == v,
        decimal(v).len() > 0,
        !decimal(v).contains(';'),
        decimal(v)[0] != '+' && decimal(v)[0] != '-',
    decreases v,
{
    if v >= 10 {
        lemma_decimal_reads_back(v / 10);
        let d = decimal(v / 10);
        let s = decimal(v);
        assert(s.drop_last() =~= d);
        assert(s[0] == d[0]);
        assert(digit_value(digit_char(v % 10)) == v % 10);
        assert(digits_value(s) == digits_value(d) * 10 + digit_value(s.last()));
        assert((v / 10) * 10 + v % 10 == v) by (nonlinear_arith);
        assert forall|i: int| 0 <= i < s.len() implies is_digit(#[trigger] s[i]) by {
            if i < d.len() {
                assert(s[i] == d[i]);
            }
        }
        if s.contains(';') {
            let i = choose|i: int| 0 <= i < s.len() && s[i] == ';';
            assert(is_digit(s[i]));
        }
    } else {
        let s = decimal(v);
        assert(digit_value(digit_char(v % 10)) == v % 10);
        assert(s.drop_last() =~= Seq::<char>::empty());
        assert(digits_value(s.drop_last()) == 0);
        assert(v % 10 == v);
        assert(digits_value(s) == digits_value(s.drop_last()) * 10 + digit_value(s.last()));
        if s.contains(';') {
            let i = choose|i: int| 0 <= i < s.len() && s[i] == ';';
            assert(i == 0);
        }
    }
}

/// The decimal text of a natural number reads back as that number.
pub proof fn lemma_parse_decimal(v: nat)
    ensures
        parse_unsigned(decimal(v)) == Some(v),
        parse_signed(decimal(v)) == Some(v as int),
{
    lemma_decimal_reads_back(v);
}

/// The decimal text of an integer reads back as that integer.
pub proof fn lemma_parse_decimal_signed(v: int)
    ensures
        parse_signed(decimal_signed(v)) == Some(v),
        !decimal_signed(v).contains(';'),
{
    if v < 0 {
        let m = (-v) as nat;
        lemma_decimal_reads_back(m);
        let s = decimal_signed(v);
        assert(s.drop_first() =~= decimal(m));
        if s.contains(';') {
            let i = choose|i: int| 0 <= i < s.len() && s[i] == ';';
            if i > 0 {
                assert(decimal(m)[i - 1] == ';');
            }
        }
    } else {
        lemma_decimal_reads_back(v as nat);
        lemma_parse_decimal(v as nat);
    }
}

} // verus!
