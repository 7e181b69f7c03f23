//! Byte counts shown in gibibytes, with the rounding that `f64` arithmetic
//! and `{:.1}` formatting give.
use vstd::prelude::*;
use crate::number::{dec, digit, push_dec, digit_char};

verus! {

/// 2^30 bytes.
pub const GIB: u64 = 1073741824;

/// The spacing of the `f64` values next to `n`: `n` rounded to 53
/// significant bits is a multiple of it.
pub open spec fn ulp53(n: nat) -> nat
    decreases n,
{
    if n < 0x20000000000000 {
        1
    } else {
        2 * ulp53(n / 2)
    }
}

/// `x / d`, rounded to the nearest integer, ties to the even one.
pub open spec fn round_half_even_div(x: nat, d: nat) -> nat {
    let q = x / d;
    let r = x % d;
    if 2 * r > d || (2 * r == d && q % 2 == 1) {
        q + 1
    } else {
        q
    }
}

/// The value of `n as f64`: `n` rounded to the nearest `f64`, ties to even.
pub open spec fn nearest_f64(n: nat) -> nat {
    round_half_even_div(n, ulp53(n)) * ulp53(n)
}

/// The text `gb` gives for `bytes`: the size in GiB as a whole number from
/// 100 GiB up (halves rounded up), else with one decimal (ties to even).
pub open spec fn gb_text(bytes: nat) -> Seq<char> {
    let f = nearest_f64(bytes);
    if f >= 100 * GIB {
        dec(((f + GIB / 2) / (GIB as int)) as nat) + " GB"@
    } else {
        let t = round_half_even_div(f * 10, GIB as nat);
        dec(t / 10) + seq!['.', digit(t % 10)] + " GB"@
    }
}

pub proof fn lemma_ulp53_pos(n: nat)
    ensures
        ulp53(n) >= 1,
    decreases n,
{
    if n >= 0x20000000000000 {
        lemma_ulp53_pos(n / 2);
    }
}

/// Below 2^53 bytes an `f64` holds the count exactly.
pub proof fn lemma_nearest_f64_exact(n: nat)
    requires
        n < 0x20000000000000,
    ensures
        nearest_f64(n) == n,
{
    assert(ulp53(n) == 1);
    assert(n / 1 == n);
    assert(n % 1 == 0);
}

/// Law: a whole number `k` of GiB shows as `"{k}.0 GB"` below 100 GiB and
/// as `"{k} GB"` from 100 GiB up.
pub proof fn lemma_gb_whole(k: nat)
    requires
        k * (GIB as nat) < 0x20000000000000,
    ensures
        k < 100 ==> gb_text(k * (GIB as nat)) == dec(k) + seq!['.', '0'] + " GB"@,
        k >= 100 ==> gb_text(k * (GIB as nat)) == dec(k) + " GB"@,
{
    let b: nat = k * (GIB as nat);
    lemma_nearest_f64_exact(b);
    let g = GIB as int;
    assert((k * g * 10) / g == k * 10 && (k * g * 10) % g == 0) by (nonlinear_arith)
        requires
            g == 1073741824,
    {
        vstd::arithmetic::div_mod::lemma_div_by_multiple((k * 10) as int, g);
        vstd::arithmetic::div_mod::lemma_mod_multiples_basic((k * 10) as int, g);
        assert(k * g * 10 == (k * 10) * g);
    }
    assert((k * g + g / 2) / g == k) by (nonlinear_arith)
        requires
            g == 1073741824,
    {
        vstd::arithmetic::div_mod::lemma_fundamental_div_mod_converse(
            (k * g + g / 2) as int,
            g,
            k as int,
            g / 2,
        );
    }
    assert(b >= 100 * GIB <==> k >= 100) by (nonlinear_arith)
        requires
            b == k * (GIB as nat),
    ;
    if k < 100 {
        let t = round_half_even_div(b * 10, GIB as nat);
        assert(t == k * 10);
        assert(t / 10 == k);
        assert(t % 10 == 0);
        assert(digit(0) == '0');
    }
}

fn round_half_even_div_exec(x: u128, d: u128) -> (r: u128)
    requires
        d > 0,
        d <= u64::MAX,
        x <= u64::MAX * 16,
    ensures
        r == round_half_even_div(x as nat, d as nat),
{
    let q = x / d;
    let r = x % d;
    if 2 * r > d || (2 * r == d && q % 2 == 1) {
        q + 1
    } else {
        q
    }
}

/// `bytes` in GiB: `"{n} GB"` from 100 GiB up, else `"{n:.1} GB"`.
pub fn gb(bytes: u64) -> (s: String)
    ensures
        s@ == gb_text(bytes as nat),
{
    let mut m = bytes;
    let mut u: u64 = 1;
    proof {
        lemma_ulp53_pos(bytes as nat);
    }
    while m >= 0x20000000000000
        invariant
            u >= 1,
            m == bytes / u,
            ulp53(bytes as nat) == u * ulp53(m as nat),
        decreases m,
    {
        proof {
            vstd::arithmetic::div_mod::lemma_fundamental_div_mod(bytes as int, u as int);
            vstd::arithmetic::div_mod::lemma_mod_pos_bound(bytes as int, u as int);
            assert(u * m <= bytes);
            assert(u < 0x800) by (nonlinear_arith)
                requires
                    u * m <= bytes,
                    m >= 0x20000000000000,
                    bytes <= u64::MAX,
            ;
            vstd::arithmetic::div_mod::lemma_div_denominator(bytes as int, u as int, 2);
            assert(u * (2 * ulp53((m / 2) as nat)) == (u * 2) * ulp53((m / 2) as nat))
                by (nonlinear_arith);
        }
        m = m / 2;
        u = u * 2;
    }
    proof {
        assert(ulp53(m as nat) == 1);
        assert(ulp53(bytes as nat) == u) by (nonlinear_arith)
            requires
                ulp53(bytes as nat) == u * ulp53(m as nat),
                ulp53(m as nat) == 1,
        ;
        vstd::arithmetic::div_mod::lemma_fundamental_div_mod(bytes as int, u as int);
        assert(round_half_even_div(bytes as nat, u as nat) <= bytes / u + 1);
        assert(bytes / u * u <= bytes) by (nonlinear_arith)
            requires
                u >= 1,
        {
            vstd::arithmetic::div_mod::lemma_fundamental_div_mod(bytes as int, u as int);
            vstd::arithmetic::div_mod::lemma_mod_pos_bound(bytes as int, u as int);
        }
        assert((bytes / u + 1) * u <= bytes + u) by (nonlinear_arith)
            requires
                bytes / u * u <= bytes,
        ;
        assert(round_half_even_div(bytes as nat, u as nat) * u <= (bytes / u + 1) * u)
            by (nonlinear_arith)
            requires
                round_half_even_div(bytes as nat, u as nat) <= bytes / u + 1,
        ;
    }
    let f: u128 = round_half_even_div_exec(bytes as u128, u as u128) * (u as u128);
    assert(f == nearest_f64(bytes as nat));
    let mut s = String::new();
    if f >= 100 * (GIB as u128) {
        let whole = (f + (GIB as u128) / 2) / (GIB as u128);
        push_dec(&mut s, whole);
        s.append(" GB");
    } else {
        let t = round_half_even_div_exec(f * 10, GIB as u128);
        assert(t <= 1000);
        push_dec(&mut s, t / 10);
        s.push('.');
        s.push(digit_char(t % 10));
        s.append(" GB");
        assert(s@ =~= gb_text(bytes as nat));
    }
    s
}

} // verus!
