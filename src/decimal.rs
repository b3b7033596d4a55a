use vstd::prelude::*;
use vstd::string::*;

verus! {

/// Whether `c` is one of `0` to `9`.
pub open spec fn is_digit(c: char) -> bool {
    48 <= (c as u32) <= 57
}

/// The value of a decimal digit.
pub open spec fn digit_value(c: char) -> int {
    (c as u32) - 48
}

/// The digit that spells `d`, for `0 <= d < 10`.
pub open spec fn digit_char(d: int) -> char {
    if d == 0 { '0' } else if d == 1 { '1' } else if d == 2 { '2' } else if d == 3 { '3' }
    else if d == 4 { '4' } else if d == 5 { '5' } else if d == 6 { '6' } else if d == 7 { '7' }
    else if d == 8 { '8' } else { '9' }
}

/// A non-empty run of decimal digits.
pub open spec fn is_decimal(s: Seq<char>) -> bool {
    s.len() > 0 && forall|i: int| 0 <= i < s.len() ==> is_digit(#[trigger] s[i])
}

/// The digits of an unsigned number: `s` without one leading plus sign.
pub open spec fn unsigned_digits(s: Seq<char>) -> Seq<char> {
    if s.len() > 0 && s[0] == '+' {
        s.drop_first()
    } else {
        s
    }
}

/// The number that a run of digits spells, most significant digit first.
pub open spec fn decimal_value(s: Seq<char>) -> int
    decreases s.len(),
{
    if s.len() == 0 {
        0
    } else {
        decimal_value(s.drop_last()) * 10 + digit_value(s.last())
    }
}

/// The shortest decimal spelling of `n`.
pub open spec fn decimal_of(n: nat) -> Seq<char>
    decreases n,
{
    if n < 10 {
        seq![digit_char(n as int)]
    } else {
        decimal_of(n / 10).push(digit_char((n % 10) as int))
    }
}

/// The spelling of a signed number: a minus sign before the digits of a negative one.
pub open spec fn signed_decimal_of(n: int) -> Seq<char> {
    if n < 0 {
        seq!['-'] + decimal_of((-n) as nat)
    } else {
        decimal_of(n as nat)
    }
}

/// The signed number that `s` spells, if it spells one.
pub open spec fn signed_value(s: Seq<char>) -> Option<int> {
    if s.len() > 0 && s[0] == '-' && is_decimal(s.drop_first()) {
        Some(-decimal_value(s.drop_first()))
    } else if is_decimal(s) {
        Some(decimal_value(s))
    } else {
        None
    }
}

proof fn lemma_digit(d: int)
    requires
        0 <= d < 10,
    ensures
        is_digit(digit_char(d)),
        digit_value(digit_char(d)) == d,
{
}

/// The spelling of `n` is a run of digits that reads back as `n`.
pub proof fn lemma_decimal_of(n: nat)
    ensures
        is_decimal(decimal_of(n)),
        decimal_value(decimal_of(n)) == n,
        unsigned_digits(decimal_of(n)) == decimal_of(n),
    decreases n,
{
    lemma_digit((n % 10) as int);
    assert((n / 10) * 10 + n % 10 == n) by (nonlinear_arith);
    if n < 10 {
        let s = decimal_of(n);
        assert(s.drop_last() == Seq::<char>::empty());
        assert(decimal_value(Seq::<char>::empty()) == 0);
        assert(s.last() == digit_char(n as int));
    } else {
        lemma_decimal_of(n / 10);
        let s = decimal_of(n);
        assert(s.drop_last() == decimal_of(n / 10));
        assert forall|i: int| 0 <= i < s.len() implies is_digit(#[trigger] s[i]) by {
            if i < s.len() - 1 {
                assert(s[i] == decimal_of(n / 10)[i]);
            }
        }
    }
}

/// Spelling a number and reading it back gives the number.
pub proof fn lemma_signed_round_trip(n: int)
    ensures
        signed_value(signed_decimal_of(n)) == Some(n),
{
    if n < 0 {
        lemma_decimal_of((-n) as nat);
        let s = signed_decimal_of(n);
        assert(s.drop_first() == decimal_of((-n) as nat));
    } else {
        lemma_decimal_of(n as nat);
        let s = decimal_of(n as nat);
        assert(s[0] != '-') by {
            assert(is_digit(s[0]));
        }
    }
}

proof fn lemma_value_grows(s: Seq<char>, i: int, j: int)
    requires
        0 <= i <= j <= s.len(),
        forall|k: int| 0 <= k < s.len() ==> is_digit(#[trigger] s[k]),
    ensures
        decimal_value(s.subrange(0, j)) >= decimal_value(s.subrange(0, i)),
    decreases j - i,
{
    if i < j {
        lemma_value_grows(s, i, j - 1);
        assert(s.subrange(0, j).drop_last() == s.subrange(0, j - 1));
        assert(is_digit(s[j - 1]));
        lemma_value_nonneg(s.subrange(0, j - 1));
    }
}

proof fn lemma_value_nonneg(s: Seq<char>)
    requires
        forall|k: int| 0 <= k < s.len() ==> is_digit(#[trigger] s[k]),
    ensures
        decimal_value(s) >= 0,
    decreases s.len(),
{
    if s.len() > 0 {
        lemma_value_nonneg(s.drop_last());
        assert(is_digit(s[s.len() - 1]));
    }
}

fn digit_text(d: u64) -> (r: &'static str)
    requires
        d < 10,
    ensures
        r@ == seq![digit_char(d as int)],
{
    proof {
        reveal_strlit("0"); reveal_strlit("1"); reveal_strlit("2"); reveal_strlit("3");
        reveal_strlit("4"); reveal_strlit("5"); reveal_strlit("6"); reveal_strlit("7");
        reveal_strlit("8"); reveal_strlit("9");
    }
    if d == 0 { "0" } else if d == 1 { "1" } else if d == 2 { "2" } else if d == 3 { "3" }
    else if d == 4 { "4" } else if d == 5 { "5" } else if d == 6 { "6" } else if d == 7 { "7" }
    else if d == 8 { "8" } else { "9" }
}

fn append_decimal(out: &mut String, n: u64)
    ensures
        final(out)@ == old(out)@ + decimal_of(n as nat),
    decreases n,
{
    if n >= 10 {
        append_decimal(out, n / 10);
    }
    out.append(digit_text(n % 10));
    proof {
        if n >= 10 {
            assert(decimal_of(n as nat) == decimal_of((n / 10) as nat).push(digit_char((n % 10) as int)));
        }
    }
}

/// The decimal spelling of `n`, with a minus sign when it is negative.
pub fn signed_text(n: i64) -> (r: String)
    ensures
        r@ == signed_decimal_of(n as int),
{
    let mut s = String::new();
    if n < 0 {
        proof { reveal_strlit("-"); }
        s.append("-");
        let m: u64 = if n == i64::MIN { 0x8000_0000_0000_0000u64 } else { (-n) as u64 };
        append_decimal(&mut s, m);
    } else {
        append_decimal(&mut s, n as u64);
    }
    s
}

/// The decimal spelling of `n`.
pub fn unsigned_text(n: u64) -> (r: String)
    ensures
        r@ == decimal_of(n as nat),
{
    let mut s = String::new();
    append_decimal(&mut s, n);
    assert(s@ == Seq::<char>::empty() + decimal_of(n as nat));
    s
}

/// Reads the digits of `s` from position `from` on; `None` where one is not a digit or
/// the number exceeds `limit`.
fn digits_from(s: &str, from: usize, limit: u64) -> (r: Option<u64>)
    requires
        from <= s@.len(),
        limit >= 10,
    ensures
        r == (if is_decimal(s@.subrange(from as int, s@.len() as int)) && decimal_value(
            s@.subrange(from as int, s@.len() as int),
        ) <= limit {
            Some(decimal_value(s@.subrange(from as int, s@.len() as int)) as u64)
        } else {
            None
        }),
        r matches Some(v) ==> v <= limit && v == decimal_value(s@.subrange(from as int, s@.len() as int)),
{
    let ghost t = s@.subrange(from as int, s@.len() as int);
    let n = s.unicode_len();
    if from >= n {
        return None;
    }
    let mut acc: u64 = 0;
    let mut i: usize = from;
    while i < n
        invariant
            from <= i <= n,
            n == s@.len(),
            t == s@.subrange(from as int, s@.len() as int),
            forall|k: int| 0 <= k < i - from ==> is_digit(#[trigger] t[k]),
            acc == decimal_value(t.subrange(0, i - from)),
            acc <= limit,
            limit >= 10,
        decreases n - i,
    {
        let c = s.get_char(i);
        let cu = c as u32;
        if cu < 48 || cu > 57 {
            proof {
                assert(t[i - from] == c);
            }
            return None;
        }
        let d = (cu - 48) as u64;
        proof {
            assert(t[i - from] == c);
            assert(t.subrange(0, i - from + 1).drop_last() == t.subrange(0, i - from));
        }
        if acc > (limit - d) / 10 {
            proof {
                assert(acc * 10 + d > limit) by (nonlinear_arith)
                    requires acc > (limit - d) / 10, d <= limit || d > limit, d < 10;
                assert forall|k: int| 0 <= k < t.len() implies is_digit(#[trigger] t[k]) || !is_decimal(t) by {}
                if is_decimal(t) {
                    lemma_value_grows(t, i - from + 1, t.len() as int);
                    assert(t.subrange(0, t.len() as int) == t);
                }
            }
            return None;
        }
        proof {
            assert(acc * 10 + d <= limit) by (nonlinear_arith)
                requires acc <= (limit - d) / 10, d <= limit;
        }
        acc = acc * 10 + d;
        i += 1;
    }
    proof {
        assert(t.subrange(0, i - from) == t);
    }
    Some(acc)
}

/// The non-negative number that `s` spells in decimal digits.
pub fn parse_unsigned(s: &str) -> (r: Option<u64>)
    ensures
        r == (if is_decimal(unsigned_digits(s@)) && decimal_value(unsigned_digits(s@)) <= u64::MAX {
            Some(decimal_value(unsigned_digits(s@)) as u64)
        } else {
            None
        }),
{
    if s.unicode_len() > 0 && s.get_char(0) == '+' {
        assert(s@.subrange(1, s@.len() as int) == s@.drop_first());
        digits_from(s, 1, u64::MAX)
    } else {
        assert(s@.subrange(0, s@.len() as int) == s@);
        digits_from(s, 0, u64::MAX)
    }
}

/// The number that `s` spells, with an optional leading minus sign, when it fits `i32`.
pub fn parse_i32(s: &str) -> (r: Option<i32>)
    ensures
        r == (match signed_value(s@) {
            Some(v) => if i32::MIN <= v <= i32::MAX { Some(v as i32) } else { None },
            None => None,
        }),
{
    let n = s.unicode_len();
    if n > 0 && s.get_char(0) == '-' {
        let r = digits_from(s, 1, 0x8000_0000);
        proof {
            assert(s@.subrange(1, s@.len() as int) == s@.drop_first());
            assert(!is_digit(s@[0]));
        }
        match r {
            Some(v) => {
                assert(v <= 0x8000_0000);
                Some((-(v as i64)) as i32)
            },
            None => None,
        }
    } else {
        assert(s@.subrange(0, s@.len() as int) == s@);
        let r = digits_from(s, 0, 0x7fff_ffff);
        proof {
            if n > 0 {
                assert(s@[0] != '-');
            }
        }
        match r {
            Some(v) => {
                assert(v <= 0x7fff_ffff);
                Some(v as i32)
            },
            None => None,
        }
    }
}

} // verus!
