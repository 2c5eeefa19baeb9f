//! The size label shown for a file, such as `532 B`, `1.5 KB` or `3.0 MB`.
//!
//! Sizes of a kibibyte and more are shown with one decimal, the way the
//! standard formatter prints a `f64` with `{:.1}`: the size is first taken
//! as a `f64` (rounded to 53 significant bits, ties to even), divided by
//! 1024 or 1024 * 1024 (which is exact), and the exact quotient is rounded
//! to tenths, ties to even. Here that is done in integer arithmetic.
use vstd::prelude::*;
use crate::text::{push_str, string_of};

verus! {

/// `2` to the power `n`.
pub open spec fn two_pow(n: nat) -> nat
    decreases n,
{
    if n == 0 {
        1
    } else {
        2 * two_pow((n - 1) as nat)
    }
}

/// The number of binary digits of `n`.
pub open spec fn bit_len(n: nat) -> nat
    decreases n,
{
    if n == 0 {
        0
    } else {
        1 + bit_len(n / 2)
    }
}

/// `num / den` rounded to the nearest integer, ties to the even one.
pub open spec fn round_half_even(num: nat, den: nat) -> nat
    recommends
        den > 0,
{
    let q = num / den;
    let r = num % den;
    if 2 * r > den || (2 * r == den && q % 2 == 1) {
        q + 1
    } else {
        q
    }
}

/// The value of `n as f64`: `n` rounded to 53 significant bits, ties to even.
pub open spec fn as_double(n: nat) -> nat {
    if bit_len(n) <= 53 {
        n
    } else {
        let k = (bit_len(n) - 53) as nat;
        round_half_even(n, two_pow(k)) * two_pow(k)
    }
}

/// The character of the decimal digit `d`.
pub open spec fn digit_char(d: nat) -> char
    recommends
        d < 10,
{
    (d + 48) as char
}

/// `n` written in decimal.
pub open spec fn decimal(n: nat) -> Seq<char>
    decreases n,
{
    if n < 10 {
        seq![digit_char(n)]
    } else {
        decimal(n / 10) + seq![digit_char(n % 10)]
    }
}

/// A number of tenths written with one decimal, such as `12.5`.
pub open spec fn tenths_text(t: nat) -> Seq<char> {
    decimal(t / 10) + seq!['.', digit_char(t % 10)]
}

/// The label for a file of `bytes` bytes.
pub open spec fn size_text(bytes: nat) -> Seq<char> {
    if bytes < 1024 {
        decimal(bytes) + " B"@
    } else if as_double(bytes) < 1048576 {
        tenths_text(round_half_even(as_double(bytes) * 10, 1024)) + " KB"@
    } else {
        tenths_text(round_half_even(as_double(bytes) * 10, 1048576)) + " MB"@
    }
}

/// Appends `n` written in decimal to `out`.
pub fn push_decimal(out: &mut Vec<char>, n: u128)
    ensures
        final(out)@ == old(out)@ + decimal(n as nat),
    decreases n,
{
    if n >= 10 {
        push_decimal(out, n / 10);
    }
    let d = (n % 10) as u32;
    let c = ((d + 48) as u8) as char;
    out.push(c);
}

proof fn lemma_two_pow_pos(n: nat)
    ensures
        two_pow(n) >= 1,
    decreases n,
{
    if n > 0 {
        lemma_two_pow_pos((n - 1) as nat);
    }
}

proof fn lemma_bit_len_bound(n: nat, k: nat)
    requires
        n < two_pow(k),
    ensures
        bit_len(n) <= k,
    decreases k,
{
    if n > 0 {
        lemma_bit_len_bound(n / 2, (k - 1) as nat);
    }
}

proof fn lemma_bit_len_low(n: nat, k: nat)
    requires
        n >= two_pow(k),
    ensures
        bit_len(n) > k,
    decreases k,
{
    lemma_two_pow_pos(k);
    if k > 0 {
        lemma_bit_len_low(n / 2, (k - 1) as nat);
    }
}

/// `bytes` as a `f64` would hold it, as an integer.
fn double_value(bytes: u64) -> (r: u128)
    ensures
        r == as_double(bytes as nat),
        r <= 0x1_0000_0000_0000_0000,
{
    let mut n: u64 = bytes;
    let mut len: u64 = 0;
    assert(two_pow(0) == 1);
    assert(n as nat * two_pow(0) == n as nat) by (nonlinear_arith)
        requires
            two_pow(0) == 1,
    ;
    while n > 0
        invariant
            bit_len(bytes as nat) == len + bit_len(n as nat),
            len <= 64,
            n as nat * two_pow(len as nat) <= bytes,
            n as nat <= bytes,
        decreases n,
    {
        proof {
            assert(two_pow((len + 1) as nat) == 2 * two_pow(len as nat));
            assert((n / 2) as nat * two_pow((len + 1) as nat) == ((n / 2) * 2) as nat * two_pow(
                len as nat,
            )) by (nonlinear_arith);
            assert(((n / 2) * 2) as nat * two_pow(len as nat) <= n as nat * two_pow(len as nat))
                by (nonlinear_arith);
            lemma_two_pow_pos(len as nat);
            if len == 64 {
                assert(n as nat * two_pow(64) >= two_pow(64)) by (nonlinear_arith)
                    requires
                        n >= 1,
                ;
                lemma_two_pow_consts();
            }
        }
        n = n / 2;
        len = len + 1;
    }
    if len <= 53 {
        return bytes as u128;
    }
    let k = len - 53;
    let mut p: u128 = 1;
    let mut i: u64 = 0;
    while i < k
        invariant
            i <= k <= 11,
            p == two_pow(i as nat),
            1 <= p <= 2048,
        decreases k - i,
    {
        assert(two_pow((i + 1) as nat) == 2 * two_pow(i as nat));
        proof {
            lemma_two_pow_consts();
            lemma_pow_mono((i + 1) as nat, 11);
        }
        p = p * 2;
        i = i + 1;
    }
    let b = bytes as u128;
    let q = b / p;
    let r = b % p;
    let rounded = if 2 * r > p || (2 * r == p && q % 2 == 1) {
        q + 1
    } else {
        q
    };
    proof {
        lemma_two_pow_consts();
        assert(q * p <= b) by (nonlinear_arith)
            requires
                q == b / p,
                p >= 1,
        ;
        assert(rounded * p <= b + p) by (nonlinear_arith)
            requires
                q == b / p,
                r == b % p,
                p >= 1,
                rounded <= q + 1,
        ;
        assert(b + p <= 0x1_0000_0000_0000_0000 + 2048);
        lemma_round_bound(b as nat, p as nat, k as nat);
    }
    rounded * p
}

proof fn lemma_two_pow_consts()
    ensures
        two_pow(11) == 2048,
        two_pow(64) == 0x1_0000_0000_0000_0000,
{
    reveal_with_fuel(two_pow, 12);
    assert(two_pow(8) == 256);
    lemma_pow_mul(8, 8);
    assert(two_pow(16) == 65536);
    lemma_pow_mul(16, 16);
    assert(two_pow(32) == 0x1_0000_0000);
    lemma_pow_mul(32, 32);
    assert(two_pow(64) == 0x1_0000_0000 * 0x1_0000_0000);
}

proof fn lemma_pow_mono(a: nat, b: nat)
    requires
        a <= b,
    ensures
        two_pow(a) <= two_pow(b),
    decreases b,
{
    lemma_two_pow_pos(b);
    if a < b {
        lemma_pow_mono(a, (b - 1) as nat);
    }
}

proof fn lemma_round_bound(b: nat, p: nat, k: nat)
    requires
        p == two_pow(k),
        b < 0x1_0000_0000_0000_0000,
        1 <= k <= 11,
    ensures
        round_half_even(b, p) * p <= 0x1_0000_0000_0000_0000,
{
    lemma_two_pow_consts();
    lemma_pow_mul(k, (64 - k) as nat);
    let m = two_pow((64 - k) as nat);
    lemma_two_pow_pos(k);
    assert(b / p < m) by (nonlinear_arith)
        requires
            b < p * m,
            p >= 1,
    ;
    assert(round_half_even(b, p) <= m);
    assert(round_half_even(b, p) * p <= m * p) by (nonlinear_arith)
        requires
            round_half_even(b, p) <= m,
    ;
}

proof fn lemma_pow_mul(a: nat, b: nat)
    ensures
        two_pow(a) * two_pow(b) == two_pow(a + b),
    decreases a,
{
    if a > 0 {
        lemma_pow_mul((a - 1) as nat, b);
        let c = ((a - 1) as nat + b) as nat;
        assert(c + 1 == a + b);
        assert(two_pow(a + b) == 2 * two_pow(c));
        assert(two_pow(a) * two_pow(b) == 2 * (two_pow((a - 1) as nat) * two_pow(b)))
            by (nonlinear_arith)
            requires
                two_pow(a) == 2 * two_pow((a - 1) as nat),
        ;
    } else {
        assert(two_pow(a) == 1);
        assert(two_pow(a) * two_pow(b) == two_pow(b)) by (nonlinear_arith)
            requires
                two_pow(a) == 1,
        ;
    }
}

fn round_half_even_exec(num: u128, den: u128) -> (r: u128)
    requires
        0 < den <= 0x1_0000_0000_0000_0000,
        num < 0x1_0000_0000_0000_0000_0000,
    ensures
        r == round_half_even(num as nat, den as nat),
{
    let q = num / den;
    let r = num % den;
    if 2 * r > den || (2 * r == den && q % 2 == 1) {
        q + 1
    } else {
        q
    }
}

fn push_tenths(out: &mut Vec<char>, t: u128)
    ensures
        final(out)@ == old(out)@ + tenths_text(t as nat),
{
    push_decimal(out, t / 10);
    let d = (t % 10) as u32;
    out.push('.');
    out.push(((d + 48) as u8) as char);
}

/// The label shown for a file of `bytes` bytes.
pub fn format_size(bytes: u64) -> (r: String)
    ensures
        r@ == size_text(bytes as nat),
{
    let mut out: Vec<char> = Vec::new();
    if bytes < 1024 {
        push_decimal(&mut out, bytes as u128);
        push_str(&mut out, " B");
    } else {
        let v = double_value(bytes);
        if v < 1048576 {
            let t = round_half_even_exec(v * 10, 1024);
            push_tenths(&mut out, t);
            push_str(&mut out, " KB");
        } else {
            let t = round_half_even_exec(v * 10, 1048576);
            push_tenths(&mut out, t);
            push_str(&mut out, " MB");
        }
    }
    assert(out@ =~= size_text(bytes as nat));
    string_of(&out)
}

} // verus!
