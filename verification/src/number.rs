//! Decimal text of integers, and integer parsing as std's `FromStr` does it.
use vstd::prelude::*;

verus! {

// ------------------------------------------------------------------ spec

/// The ASCII digit for `d < 10`.
pub open spec fn digit(d: nat) -> char {
    ((48 + d) as u8) as char
}

/// Decimal text of `n`, without leading zeros.
pub open spec fn dec(n: nat) -> Seq<char>
    decreases n,
{
    if n < 10 {
        seq![digit(n)]
    } else {
        dec(n / 10).push(digit(n % 10))
    }
}

/// Decimal text of a signed integer (`-` before negative values).
pub open spec fn dec_int(x: int) -> Seq<char> {
    if x < 0 {
        seq!['-'] + dec((-x) as nat)
    } else {
        dec(x as nat)
    }
}

pub open spec fn is_digit(c: char) -> bool {
    '0' <= c && c <= '9'
}

pub open spec fn all_digits(s: Seq<char>) -> bool {
    forall|i: int| 0 <= i < s.len() ==> is_digit(#[trigger] s[i])
}

/// The value of a string of decimal digits.
pub open spec fn digits_value(s: Seq<char>) -> nat
    decreases s.len(),
{
    if s.len() == 0 {
        0
    } else {
        digits_value(s.drop_last()) * 10 + (s.last() as nat - 48) as nat
    }
}

/// An optional sign (`+` or `-`) and the digits after it.
pub open spec fn sign_and_body(s: Seq<char>) -> (bool, Seq<char>) {
    if s.len() > 0 && s[0] == '-' {
        (true, s.skip(1))
    } else if s.len() > 0 && s[0] == '+' {
        (false, s.skip(1))
    } else {
        (false, s)
    }
}

/// `s.parse::<i32>().ok()`: an optional sign, then one or more ASCII
/// digits, with a value in range.
pub open spec fn parse_i32(s: Seq<char>) -> Option<i32> {
    let (neg, body) = sign_and_body(s);
    let v = digits_value(body);
    let x: int = if neg {
        -v
    } else {
        v as int
    };
    if body.len() > 0 && all_digits(body) && i32::MIN <= x <= i32::MAX {
        Some(x as i32)
    } else {
        None
    }
}

/// `s.parse::<u64>().ok()`: an optional `+`, then one or more ASCII digits,
/// with a value in range.
pub open spec fn parse_u64(s: Seq<char>) -> Option<u64> {
    let (neg, body) = sign_and_body(s);
    let v = digits_value(body);
    if !neg && body.len() > 0 && all_digits(body) && v <= u64::MAX {
        Some(v as u64)
    } else {
        None
    }
}

// ---------------------------------------------------------------- lemmas

pub proof fn lemma_digits_value_prefix(s: Seq<char>, k: int)
    requires
        0 <= k <= s.len(),
    ensures
        digits_value(s.take(k)) <= digits_value(s),
    decreases s.len(),
{
    if k < s.len() {
        assert(s.drop_last().take(k) =~= s.take(k));
        lemma_digits_value_prefix(s.drop_last(), k);
    } else {
        assert(s.take(k) =~= s);
    }
}

/// The digits of `n` are digits, and read back as `n`.
pub proof fn lemma_dec_value(n: nat)
    ensures
        dec(n).len() > 0,
        all_digits(dec(n)),
        digits_value(dec(n)) == n,
    decreases n,
{
    assert(digit(n % 10) as nat == 48 + n % 10);
    if n >= 10 {
        lemma_dec_value(n / 10);
        let d = dec(n);
        assert(d.drop_last() =~= dec(n / 10));
        assert(forall|i: int| 0 <= i < d.len() - 1 ==> d[i] == dec(n / 10)[i]);
        assert(d.last() == digit(n % 10));
        assert(digits_value(d.drop_last()) == n / 10);
        assert(digits_value(d) == digits_value(d.drop_last()) * 10 + (d.last() as nat - 48) as nat);
        assert((n / 10) * 10 + n % 10 == n);
        assert((d.last() as nat - 48) as nat == n % 10);
        assert(digits_value(d) == n);
    } else {
        let d = dec(n);
        assert(d == seq![digit(n)]);
        assert(d.drop_last() =~= Seq::<char>::empty());
        assert(digits_value(d.drop_last()) == 0);
        assert(n % 10 == n);
        assert(d.last() == digit(n));
        assert((d.last() as nat - 48) as nat == n);
        assert(digits_value(d) == n);
    }
}

/// Law: a `u64` written in decimal parses back to itself.
pub proof fn lemma_u64_text_roundtrip(n: u64)
    ensures
        parse_u64(dec(n as nat)) == Some(n),
{
    lemma_dec_value(n as nat);
    let d = dec(n as nat);
    assert(is_digit(d[0]));
    assert(sign_and_body(d).1 == d);
}

/// Law: an `i32` written in decimal (as the Wi-Fi signal is shown) parses
/// back to itself.
pub proof fn lemma_i32_text_roundtrip(x: i32)
    ensures
        parse_i32(dec_int(x as int)) == Some(x),
{
    if x < 0 {
        let m = (-x) as nat;
        lemma_dec_value(m);
        let t = dec_int(x as int);
        assert(t[0] == '-');
        assert(t.skip(1) =~= dec(m));
    } else {
        lemma_dec_value(x as nat);
        let d = dec(x as nat);
        assert(is_digit(d[0]));
    }
}

// ------------------------------------------------------------------ exec

pub fn digit_char(d: u128) -> (c: char)
    requires
        d < 10,
    ensures
        c == digit(d as nat),
{
    ((48 + d) as u8) as char
}

/// Appends the decimal text of `n`.
pub fn push_dec(out: &mut String, n: u128)
    ensures
        final(out)@ == old(out)@ + dec(n as nat),
    decreases n,
{
    if n >= 10 {
        push_dec(out, n / 10);
    }
    out.push(digit_char(n % 10));
    assert(final(out)@ =~= old(out)@ + dec(n as nat));
}

/// Appends the decimal text of a signed integer.
pub fn push_dec_i32(out: &mut String, x: i32)
    ensures
        final(out)@ == old(out)@ + dec_int(x as int),
{
    if x < 0 {
        out.push('-');
        let m: u64 = (-(x as i64)) as u64;
        push_dec(out, m as u128);
        assert(final(out)@ =~= old(out)@ + dec_int(x as int));
    } else {
        push_dec(out, x as u128);
    }
}

/// The value of the digits `v[lo..hi]`, when they are all digits and the
/// value is at most `cap`.
pub fn digits_value_at(v: &Vec<char>, lo: usize, hi: usize, cap: u128) -> (r: Option<u128>)
    requires
        lo <= hi <= v.len(),
        cap <= u64::MAX,
    ensures
        r matches Some(x) ==> all_digits(v@.subrange(lo as int, hi as int)) && x == digits_value(
            v@.subrange(lo as int, hi as int),
        ) && x <= cap,
        r is None ==> !all_digits(v@.subrange(lo as int, hi as int)) || digits_value(
            v@.subrange(lo as int, hi as int),
        ) > cap,
{
    let ghost s = v@.subrange(lo as int, hi as int);
    let mut acc: u128 = 0;
    let mut i = lo;
    assert(s.take(0) =~= Seq::<char>::empty());
    while i < hi
        invariant
            lo <= i <= hi <= v.len(),
            s == v@.subrange(lo as int, hi as int),
            cap <= u64::MAX,
            acc <= cap,
            all_digits(s.take(i - lo)),
            acc == digits_value(s.take(i - lo)),
        decreases hi - i,
    {
        let c = v[i];
        assert(s[i - lo] == c);
        if !('0' <= c && c <= '9') {
            return None;
        }
        let d = (c as u32 - 48) as u128;
        let next = acc * 10 + d;
        assert(s.take(i - lo + 1).drop_last() =~= s.take(i - lo));
        assert(s.take(i - lo + 1).last() == c);
        assert(all_digits(s.take(i - lo + 1)));
        if next > cap {
            proof {
                if all_digits(s) {
                    lemma_digits_value_prefix(s, i - lo + 1);
                }
            }
            return None;
        }
        acc = next;
        i += 1;
    }
    assert(s.take(hi - lo) =~= s);
    Some(acc)
}

/// `v[lo..hi].parse::<i32>().ok()`
pub fn parse_i32_at(v: &Vec<char>, lo: usize, hi: usize) -> (r: Option<i32>)
    requires
        lo <= hi <= v.len(),
    ensures
        r == parse_i32(v@.subrange(lo as int, hi as int)),
{
    let ghost s = v@.subrange(lo as int, hi as int);
    let mut start = lo;
    let mut neg = false;
    if lo < hi && v[lo] == '-' {
        neg = true;
        start = lo + 1;
    } else if lo < hi && v[lo] == '+' {
        start = lo + 1;
    }
    assert(sign_and_body(s).1 =~= v@.subrange(start as int, hi as int));
    assert(sign_and_body(s).0 == neg);
    if start == hi {
        return None;
    }
    let cap: u128 = if neg {
        2147483648
    } else {
        2147483647
    };
    match digits_value_at(v, start, hi, cap) {
        Some(x) => {
            if neg {
                Some((-(x as i64)) as i32)
            } else {
                Some(x as i32)
            }
        },
        None => None,
    }
}

/// `v[lo..hi].parse::<u64>().ok()`
pub fn parse_u64_at(v: &Vec<char>, lo: usize, hi: usize) -> (r: Option<u64>)
    requires
        lo <= hi <= v.len(),
    ensures
        r == parse_u64(v@.subrange(lo as int, hi as int)),
{
    let ghost s = v@.subrange(lo as int, hi as int);
    if lo < hi && v[lo] == '-' {
        return None;
    }
    let mut start = lo;
    if lo < hi && v[lo] == '+' {
        start = lo + 1;
    }
    assert(sign_and_body(s).1 =~= v@.subrange(start as int, hi as int));
    if start == hi {
        return None;
    }
    match digits_value_at(v, start, hi, 18446744073709551615) {
        Some(x) => Some(x as u64),
        None => None,
    }
}

} // verus!
