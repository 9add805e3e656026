//! Mathematical model of the quadkey encodings.
//!
//! A tile at zoom `z` is described by the low `z` bits of `x` and `y`. Taken
//! as bit pairs, most significant first, they give `z` base-4 digits, each
//! worth `xbit + 2 * ybit`. The string form spells those digits out; the
//! packed integer keeps them, as one `2 * z`-bit number, at the top of a
//! `u64` and the zoom level in its low five bits.
use vstd::arithmetic::div_mod::{
    lemma_div_denominator, lemma_div_multiples_vanish_fancy, lemma_mod_breakdown,
    lemma_mod_multiples_vanish,
};
use vstd::arithmetic::mul::{lemma_mul_inequality, lemma_mul_is_commutative};
use vstd::arithmetic::power2::{
    lemma2_to64, lemma_pow2_adds, lemma_pow2_pos, lemma_pow2_strictly_increases, pow2,
};
use vstd::prelude::*;

verus! {

/// The digit that the lowest bits of `x` and `y` make together.
pub open spec fn low_digit(x: nat, y: nat) -> nat {
    x % 2 + 2 * (y % 2)
}

/// The low `n` bit pairs of `x` and `y` as one number: bit `k` of `x` stands at
/// bit `2k`, bit `k` of `y` at bit `2k + 1`.
pub open spec fn interleave(x: nat, y: nat, n: nat) -> nat
    decreases n,
{
    if n == 0 {
        0
    } else {
        low_digit(x, y) + 4 * interleave(x / 2, y / 2, (n - 1) as nat)
    }
}

/// The packed integer of tile `(x, y, z)`: the interleaved bits shifted up to
/// the top of 64 bits, the zoom level below them.
pub open spec fn packed(x: nat, y: nat, z: nat) -> nat {
    interleave(x, y, z) * pow2((64 - 2 * z) as nat) + z
}

/// The packed integer's low five bits, where the zoom level is kept.
pub open spec fn zoom_field(q: u64) -> nat {
    (q % 32) as nat
}

/// What stands above bit `64 - 2z` of a packed integer: its `z` bit pairs.
pub open spec fn pair_bits(q: u64, z: nat) -> nat {
    q as nat / pow2((64 - 2 * z) as nat)
}

/// The `x` coordinate that the low `n` bit pairs of `v` carry (their even bits).
pub open spec fn even_bits(v: nat, n: nat) -> nat
    decreases n,
{
    if n == 0 {
        0
    } else {
        v % 2 + 2 * even_bits(v / 4, (n - 1) as nat)
    }
}

/// The `y` coordinate that the low `n` bit pairs of `v` carry (their odd bits).
pub open spec fn odd_bits(v: nat, n: nat) -> nat
    decreases n,
{
    if n == 0 {
        0
    } else {
        (v / 2) % 2 + 2 * odd_bits(v / 4, (n - 1) as nat)
    }
}

/// The empty cases: no bit pairs make the number zero, the empty string and
/// zero coordinates; and dropping no bits leaves a number as it is.
pub proof fn lemma_none(x: nat, y: nat)
    ensures
        interleave(x, y, 0) == 0,
        quadkey(x, y, 0) == Seq::<char>::empty(),
        even_bits(x, 0) == 0,
        odd_bits(x, 0) == 0,
        x / pow2(0) == x,
{
    lemma2_to64();
}

/// One more bit pair, taken below those of `x / 2^(k+1)` and `y / 2^(k+1)`.
pub proof fn lemma_interleave_step(x: nat, y: nat, k: nat, n: nat)
    ensures
        interleave(x / pow2(k), y / pow2(k), n + 1) == low_digit(x / pow2(k), y / pow2(k)) + 4
            * interleave(x / pow2(k + 1), y / pow2(k + 1), n),
        quadkey(x / pow2(k), y / pow2(k), n + 1) == quadkey(
            x / pow2(k + 1),
            y / pow2(k + 1),
            n,
        ).push(digit_char(low_digit(x / pow2(k), y / pow2(k)))),
{
    lemma_pow2_pos(k);
    lemma_pow2_pos(k + 1);
    lemma_div_pow2_succ(x, k);
    lemma_div_pow2_succ(y, k);
}

/// One more bit pair read, below those of `v / 2^(k+2)`.
pub proof fn lemma_bits_step(v: nat, k: nat, n: nat)
    ensures
        even_bits(v / pow2(k), n + 1) == (v / pow2(k)) % 2 + 2 * even_bits(v / pow2(k + 2), n),
        odd_bits(v / pow2(k), n + 1) == (v / pow2(k)) / 2 % 2 + 2 * odd_bits(v / pow2(k + 2), n),
{
    lemma_pow2_pos(k);
    lemma_pow2_pos(k + 2);
    lemma_div_pow2_succ2(v, k);
}

/// The character of a base-4 digit.
pub open spec fn digit_char(d: nat) -> char {
    if d == 0 {
        '0'
    } else if d == 1 {
        '1'
    } else if d == 2 {
        '2'
    } else {
        '3'
    }
}

/// Whether `c` is one of the quadkey digits `'0'` to `'3'`.
pub open spec fn is_quad_digit(c: char) -> bool {
    c == '0' || c == '1' || c == '2' || c == '3'
}

/// The value of a quadkey digit character.
pub open spec fn digit_value(c: char) -> nat {
    if c == '1' {
        1
    } else if c == '2' {
        2
    } else if c == '3' {
        3
    } else {
        0
    }
}

/// Whether every character of `s` is a quadkey digit.
pub open spec fn is_quadkey(s: Seq<char>) -> bool {
    forall|i: int| 0 <= i < s.len() ==> is_quad_digit(#[trigger] s[i])
}

/// The quadkey string of the low `n` bits of `x` and `y`: one digit per bit
/// pair, most significant first.
pub open spec fn quadkey(x: nat, y: nat, n: nat) -> Seq<char>
    decreases n,
{
    if n == 0 {
        Seq::empty()
    } else {
        quadkey(x / 2, y / 2, (n - 1) as nat).push(digit_char(low_digit(x, y)))
    }
}

/// The `x` coordinate that a quadkey string spells: the low bits of its digits.
pub open spec fn quadkey_x(s: Seq<char>) -> nat
    decreases s.len(),
{
    if s.len() == 0 {
        0
    } else {
        2 * quadkey_x(s.drop_last()) + digit_value(s.last()) % 2
    }
}

/// The `y` coordinate that a quadkey string spells: the high bits of its digits.
pub open spec fn quadkey_y(s: Seq<char>) -> nat
    decreases s.len(),
{
    if s.len() == 0 {
        0
    } else {
        2 * quadkey_y(s.drop_last()) + digit_value(s.last()) / 2
    }
}

/// Dropping `k` low bits and then one more drops `k + 1` bits.
pub proof fn lemma_div_pow2_succ(v: nat, k: nat)
    ensures
        v / pow2(k) / 2 == v / pow2(k + 1),
{
    lemma_pow2_pos(k);
    lemma_div_denominator(v as int, pow2(k) as int, 2);
    lemma_pow2_adds(k, 1);
    lemma2_to64();
}

/// Dropping `k` low bits and then two more drops `k + 2` bits.
pub proof fn lemma_div_pow2_succ2(v: nat, k: nat)
    ensures
        v / pow2(k) / 4 == v / pow2(k + 2),
{
    lemma_pow2_pos(k);
    lemma_div_denominator(v as int, pow2(k) as int, 4);
    lemma_pow2_adds(k, 2);
    lemma2_to64();
}

/// Splitting off the lowest bit: `v mod 2^(n+1)` is the low bit plus twice
/// the next `n` bits.
pub proof fn lemma_mod_pow2_split(v: nat, n: nat)
    ensures
        v % pow2(n + 1) == v % 2 + 2 * ((v / 2) % pow2(n)),
{
    lemma_pow2_pos(n);
    lemma_pow2_adds(1, n);
    lemma2_to64();
    lemma_mod_breakdown(v as int, 2, pow2(n) as int);
}

/// The interleaved number of `n` bit pairs has `2n` bits.
pub proof fn lemma_interleave_bound(x: nat, y: nat, n: nat)
    ensures
        interleave(x, y, n) < pow2(2 * n),
    decreases n,
{
    lemma2_to64();
    if n > 0 {
        lemma_interleave_bound(x / 2, y / 2, (n - 1) as nat);
        lemma_pow2_adds(2 * (n - 1) as nat, 2);
        assert(2 * (n - 1) as nat + 2 == 2 * n);
    }
}

/// Reading the even and odd bits back out of an interleaved number gives the
/// low `n` bits of `x` and `y`.
pub proof fn lemma_interleave_split(x: nat, y: nat, n: nat)
    ensures
        even_bits(interleave(x, y, n), n) == x % pow2(n),
        odd_bits(interleave(x, y, n), n) == y % pow2(n),
    decreases n,
{
    lemma2_to64();
    if n > 0 {
        let m = (n - 1) as nat;
        let rest = interleave(x / 2, y / 2, m);
        let v = interleave(x, y, n);
        lemma_interleave_split(x / 2, y / 2, m);
        assert(v == 4 * rest + low_digit(x, y));
        lemma_div_multiples_vanish_fancy(rest as int, low_digit(x, y) as int, 4);
        lemma_mod_multiples_vanish(2 * rest as int, low_digit(x, y) as int, 2);
        assert(v / 4 == rest);
        assert(v % 2 == x % 2);
        assert(v / 2 == 2 * rest + y % 2) by {
            lemma_div_multiples_vanish_fancy(2 * rest + (y % 2) as int, (x % 2) as int, 2);
        }
        lemma_mod_multiples_vanish(rest as int, (y % 2) as int, 2);
        lemma_mod_pow2_split(x, m);
        lemma_mod_pow2_split(y, m);
    }
}

/// The packed integer fits in 64 bits, and its low five bits hold `z`.
pub proof fn lemma_packed_fields(x: nat, y: nat, z: nat)
    requires
        z <= 29,
    ensures
        packed(x, y, z) <= u64::MAX,
        packed(x, y, z) % 32 == z,
        packed(x, y, z) / pow2((64 - 2 * z) as nat) == interleave(x, y, z),
{
    let s = (64 - 2 * z) as nat;
    let i = interleave(x, y, z);
    lemma2_to64();
    lemma_pow2_pos(s);
    lemma_interleave_bound(x, y, z);
    lemma_pow2_adds(2 * z, s);
    assert(2 * z + s == 64);
    // i * 2^s + z < (i + 1) * 2^s <= 2^(2z) * 2^s = 2^64
    lemma_pow2_strictly_increases(5, s);
    lemma_mul_inequality(i as int + 1, pow2(2 * z) as int, pow2(s) as int);
    assert((i + 1) * pow2(s) == i * pow2(s) + pow2(s)) by (nonlinear_arith);
    assert(packed(x, y, z) < pow2(64));
    // 2^s is a multiple of 32
    lemma_pow2_adds(5, (s - 5) as nat);
    assert(5 + (s - 5) as nat == s);
    assert(i * pow2(s) == 32 * (i * pow2((s - 5) as nat))) by (nonlinear_arith)
        requires
            pow2(s) == pow2(5) * pow2((s - 5) as nat),
            pow2(5) == 32,
    ;
    lemma_mod_multiples_vanish((i * pow2((s - 5) as nat)) as int, z as int, 32);
    lemma_mul_is_commutative(i as int, pow2(s) as int);
    lemma_div_multiples_vanish_fancy(i as int, z as int, pow2(s) as int);
}

/// A quadkey string has one digit per zoom level, each of them `'0'` to `'3'`,
/// and spells the low bits of `x` and `y` back.
pub proof fn lemma_quadkey_split(x: nat, y: nat, n: nat)
    ensures
        quadkey(x, y, n).len() == n,
        is_quadkey(quadkey(x, y, n)),
        quadkey_x(quadkey(x, y, n)) == x % pow2(n),
        quadkey_y(quadkey(x, y, n)) == y % pow2(n),
    decreases n,
{
    lemma2_to64();
    if n > 0 {
        let m = (n - 1) as nat;
        let s = quadkey(x, y, n);
        lemma_quadkey_split(x / 2, y / 2, m);
        assert(s.drop_last() =~= quadkey(x / 2, y / 2, m));
        assert(digit_value(s.last()) == low_digit(x, y));
        lemma_mod_pow2_split(x, m);
        lemma_mod_pow2_split(y, m);
        assert forall|i: int| 0 <= i < s.len() implies is_quad_digit(#[trigger] s[i]) by {
            if i < m {
                assert(s[i] == quadkey(x / 2, y / 2, m)[i]);
            }
        }
    }
}

} // verus!
