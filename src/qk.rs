//! The tile codec: tiles to and from packed integers and quadkey strings.
use crate::model::{
    digit_char, digit_value, even_bits, interleave, is_quad_digit, is_quadkey, lemma_bits_step,
    lemma_interleave_split, lemma_interleave_step, lemma_none, lemma_packed_fields,
    lemma_quadkey_split, low_digit, odd_bits, packed, pair_bits, quadkey, quadkey_x, quadkey_y,
    zoom_field,
};
use vstd::arithmetic::div_mod::{lemma_basic_div, lemma_small_mod};
use vstd::arithmetic::power2::{lemma2_to64, lemma_pow2_adds, lemma_pow2_strictly_increases, pow2};
use vstd::bits::{lemma_u64_shl_is_mul, lemma_u64_shr_is_div, lemma_usize_shr_is_div};
use vstd::layout::unsigned_int_max_values;
use vstd::prelude::*;
use vstd::string::{is_ascii_spec_bytes, StringExecFns};
use vstd::utf8::is_ascii_chars;

verus! {

/// A map tile: column `x` and row `y` at zoom level `z`.
#[derive(Debug, PartialEq, Eq, Structural)]
pub struct Tile {
    pub x: usize,
    pub y: usize,
    pub z: usize,
}

/// A quadkey string held a character other than `'0'`, `'1'`, `'2'` or `'3'`.
#[derive(Debug, Clone, Copy, PartialEq, Eq, Structural)]
pub struct QuadKeyParseError;

/// Code of the character `'0'`.
const CHAR_CODE_ZERO: u8 = 48;

/// Bit `k` of `v`, counting from the least significant; zero beyond the
/// width of `usize`.
fn bit_of(v: usize, k: usize) -> (r: usize)
    ensures
        r == (v as nat / pow2(k as nat)) % 2,
{
    if k < usize::BITS as usize {
        proof {
            lemma_usize_shr_is_div(v, k);
        }
        let w = v >> k;
        assert(w & 1 == w % 2) by (bit_vector);
        w & 1
    } else {
        proof {
            unsigned_int_max_values();
            if k > usize::BITS {
                lemma_pow2_strictly_increases(usize::BITS as nat, k as nat);
            }
            lemma_basic_div(v as int, pow2(k as nat) as int);
        }
        0
    }
}

/// The packed quadkey of tile `(x, y, zoom)`: the low `zoom` bits of `x` and
/// `y`, taken in pairs (`y`'s bit above `x`'s), fill the integer from its top
/// down, most significant pair first, and `zoom` fills its low five bits.
/// Bits of `x` and `y` above the low `zoom` are not encoded.
pub fn tile_to_u64(x: usize, y: usize, zoom: usize) -> (r: u64)
    requires
        zoom <= 29,
    ensures
        r == packed(x as nat, y as nat, zoom as nat),
{
    let mut acc: u64 = 0;
    let mut i: usize = zoom;
    proof {
        lemma2_to64();
        lemma_none(x as nat / pow2(i as nat), y as nat / pow2(i as nat));
    }
    while i > 0
        invariant
            i <= zoom <= 29,
            acc == interleave(x as nat / pow2(i as nat), y as nat / pow2(i as nat), (zoom - i) as nat),
            acc < pow2((2 * (zoom - i)) as nat),
        decreases i,
    {
        let d = bit_of(x, i - 1) + 2 * bit_of(y, i - 1);
        proof {
            let k = (2 * (zoom - i)) as nat;
            lemma2_to64();
            lemma_interleave_step(x as nat, y as nat, (i - 1) as nat, (zoom - i) as nat);
            lemma_pow2_adds(k, 2);
            lemma_pow2_strictly_increases(k + 2, 64);
        }
        acc = 4 * acc + d as u64;
        i = i - 1;
    }
    proof {
        lemma2_to64();
        lemma_packed_fields(x as nat, y as nat, zoom as nat);
        lemma_none(x as nat, 0);
        lemma_none(y as nat, 0);
        lemma_pow2_adds((2 * zoom) as nat, (64 - 2 * zoom) as nat);
        assert(acc * pow2((64 - 2 * zoom) as nat) <= packed(x as nat, y as nat, zoom as nat));
    }
    let shifted: u64 = if zoom == 0 {
        0
    } else {
        let s = (64 - 2 * zoom) as u64;
        proof {
            lemma_u64_shl_is_mul(acc, s);
        }
        acc << s
    };
    shifted + zoom as u64
}

/// The tile that a packed quadkey names: its zoom level is the low five bits,
/// and the bit pairs above bit `64 - 2 * zoom` give `x` (the lower bit of each
/// pair) and `y` (the higher), most significant first. Every `u64` names some
/// tile.
pub fn u64_to_tile(qk: u64) -> (r: Tile)
    ensures
        r.z == zoom_field(qk),
        r.x == even_bits(pair_bits(qk, r.z as nat), r.z as nat),
        r.y == odd_bits(pair_bits(qk, r.z as nat), r.z as nat),
{
    let zoom = u64_zoom_level(qk);
    let top: u64 = if zoom == 0 {
        proof {
            lemma2_to64();
            lemma_basic_div(qk as int, pow2(64) as int);
        }
        0
    } else {
        let s = 64 - 2 * zoom;
        proof {
            lemma_u64_shr_is_div(qk, s);
        }
        qk >> s
    };
    let z = zoom as usize;
    let mut x: usize = 0;
    let mut y: usize = 0;
    let mut i: usize = z;
    proof {
        lemma2_to64();
        lemma_none(top as nat / pow2((2 * i) as nat), 0);
        unsigned_int_max_values();
    }
    while i > 0
        invariant
            z == zoom_field(qk),
            i <= z <= 31,
            top == pair_bits(qk, z as nat),
            x == even_bits(top as nat / pow2((2 * i) as nat), (z - i) as nat),
            y == odd_bits(top as nat / pow2((2 * i) as nat), (z - i) as nat),
            x < pow2((z - i) as nat),
            y < pow2((z - i) as nat),
            usize::MAX == pow2(usize::BITS as nat) - 1,
        decreases i,
    {
        let sh = (2 * (i - 1)) as u64;
        let w = top >> sh;
        proof {
            lemma2_to64();
            lemma_u64_shr_is_div(top, sh);
            lemma_bits_step(top as nat, sh as nat, (z - i) as nat);
            lemma_pow2_adds((z - i) as nat, 1);
            lemma_pow2_strictly_increases((z - i + 1) as nat, 32);
            if usize::BITS > 32 {
                lemma_pow2_strictly_increases(32, usize::BITS as nat);
            }
        }
        let pair = w & 3;
        assert(pair & 1 == w % 2) by (bit_vector)
            requires
                pair == w & 3,
        ;
        assert(pair >> 1 == (w / 2) % 2) by (bit_vector)
            requires
                pair == w & 3,
        ;
        x = 2 * x + (pair & 1) as usize;
        y = 2 * y + (pair >> 1) as usize;
        i = i - 1;
    }
    proof {
        lemma_none(top as nat, 0);
    }
    Tile { x, y, z }
}

/// Appends the character of base-4 digit `d`.
fn push_digit(s: &mut String, d: usize)
    requires
        d < 4,
    ensures
        final(s)@ == old(s)@.push(digit_char(d as nat)),
{
    if d == 0 {
        proof {
            reveal_strlit("0");
        }
        s.append("0");
    } else if d == 1 {
        proof {
            reveal_strlit("1");
        }
        s.append("1");
    } else if d == 2 {
        proof {
            reveal_strlit("2");
        }
        s.append("2");
    } else {
        proof {
            reveal_strlit("3");
        }
        s.append("3");
    }
}

/// The quadkey string of tile `(x, y, z)`: `z` digits `'0'` to `'3'`, most
/// significant first, each worth the bit of `x` plus twice the bit of `y` at
/// its level. Bits of `x` and `y` above the low `z` are not encoded.
pub fn tile_to_str(x: usize, y: usize, z: usize) -> (r: String)
    ensures
        r@ == quadkey(x as nat, y as nat, z as nat),
{
    let mut res = String::new();
    let mut i: usize = z;
    proof {
        lemma_none(x as nat / pow2(i as nat), y as nat / pow2(i as nat));
    }
    while i > 0
        invariant
            i <= z,
            res@ == quadkey(x as nat / pow2(i as nat), y as nat / pow2(i as nat), (z - i) as nat),
        decreases i,
    {
        let d = bit_of(x, i - 1) + 2 * bit_of(y, i - 1);
        proof {
            lemma_interleave_step(x as nat, y as nat, (i - 1) as nat, (z - i) as nat);
            assert(d == low_digit(x as nat / pow2((i - 1) as nat), y as nat / pow2((i - 1) as nat)));
        }
        push_digit(&mut res, d);
        i = i - 1;
    }
    proof {
        lemma_none(x as nat, 0);
        lemma_none(y as nat, 0);
    }
    res
}

/// The zoom level stored in the low five bits of a packed quadkey.
pub fn u64_zoom_level(bin_qk: u64) -> (r: u64)
    ensures
        r == zoom_field(bin_qk),
        r == bin_qk & 31,
{
    assert(bin_qk & 31 == bin_qk % 32) by (bit_vector);
    bin_qk & 31
}

/// The tile that a quadkey string names. Its zoom level is the string's
/// length; each digit gives one bit of `x` (its low bit) and one of `y` (its
/// high bit), most significant first.
pub fn str_to_tile(qk: String) -> (r: Result<Tile, QuadKeyParseError>)
    requires
        qk@.len() <= usize::BITS,
    ensures
        r is Ok <==> is_quadkey(qk@),
        r matches Ok(t) ==> t.x == quadkey_x(qk@) && t.y == quadkey_y(qk@) && t.z == qk@.len(),
{
    let s = qk.as_str();
    if !s.is_ascii() {
        proof {
            let i = choose|i: int| 0 <= i < qk@.len() && !('\0' <= #[trigger] qk@[i] <= '\u{7f}');
            assert(!is_quad_digit(qk@[i]));
        }
        return Err(QuadKeyParseError);
    }
    proof {
        broadcast use is_ascii_spec_bytes;
    }
    let bytes = s.as_bytes();
    assert(bytes@ =~= Seq::new(qk@.len(), |i| qk@[i] as u8));
    let z = bytes.len();
    let mut x: usize = 0;
    let mut y: usize = 0;
    let mut p: usize = 0;
    proof {
        unsigned_int_max_values();
        lemma2_to64();
        assert(qk@.take(0) =~= Seq::<char>::empty());
    }
    while p < z
        invariant
            z == qk@.len(),
            z <= usize::BITS,
            bytes@ == Seq::new(qk@.len(), |i| qk@[i] as u8),
            is_ascii_chars(qk@),
            p <= z,
            is_quadkey(qk@.take(p as int)),
            x == quadkey_x(qk@.take(p as int)),
            y == quadkey_y(qk@.take(p as int)),
            x < pow2(p as nat),
            y < pow2(p as nat),
            usize::MAX == pow2(usize::BITS as nat) - 1,
        decreases z - p,
    {
        let b = bytes[p];
        let c = Ghost(qk@[p as int]);
        if b < CHAR_CODE_ZERO || b > CHAR_CODE_ZERO + 3 {
            proof {
                assert(!is_quad_digit(c@));
            }
            return Err(QuadKeyParseError);
        }
        let d = b - CHAR_CODE_ZERO;
        proof {
            assert(is_quad_digit(c@));
            assert(digit_value(c@) == d);
            let t = qk@.take(p + 1);
            assert(t.drop_last() =~= qk@.take(p as int));
            assert(t.last() == c@);
            lemma2_to64();
            lemma_pow2_adds(p as nat, 1);
            if p + 1 < usize::BITS {
                lemma_pow2_strictly_increases((p + 1) as nat, usize::BITS as nat);
            }
            assert(pow2((p + 1) as nat) == 2 * pow2(p as nat));
            assert(pow2((p + 1) as nat) <= pow2(usize::BITS as nat));
            assert(2 * x + 1 <= usize::MAX);
            assert(2 * y + 1 <= usize::MAX);
            assert forall|i: int| 0 <= i < t.len() implies is_quad_digit(#[trigger] t[i]) by {
                if i < p {
                    assert(t[i] == qk@.take(p as int)[i]);
                }
            }
        }
        x = 2 * x + (d % 2) as usize;
        y = 2 * y + (d / 2) as usize;
        p = p + 1;
    }
    assert(qk@.take(z as int) =~= qk@);
    Ok(Tile { x, y, z })
}

/// Writing a tile as a quadkey string and reading the string back gives the
/// same tile, for zoom levels up to 29 and coordinates below `2^z`: the
/// string is accepted, has `z` digits, and spells `x` and `y`.
pub proof fn lemma_string_round_trip(x: usize, y: usize, z: usize)
    requires
        z <= 29,
        x < pow2(z as nat),
        y < pow2(z as nat),
    ensures
        is_quadkey(quadkey(x as nat, y as nat, z as nat)),
        quadkey(x as nat, y as nat, z as nat).len() == z,
        quadkey_x(quadkey(x as nat, y as nat, z as nat)) == x,
        quadkey_y(quadkey(x as nat, y as nat, z as nat)) == y,
{
    lemma_quadkey_split(x as nat, y as nat, z as nat);
    lemma_small_mod(x as nat, pow2(z as nat));
    lemma_small_mod(y as nat, pow2(z as nat));
}

/// Packing a tile into a `u64` and unpacking it gives the same tile, for
/// zoom levels up to 29 and coordinates below `2^z`.
pub proof fn lemma_integer_round_trip(x: usize, y: usize, z: usize)
    requires
        z <= 29,
        x < pow2(z as nat),
        y < pow2(z as nat),
    ensures
        packed(x as nat, y as nat, z as nat) <= u64::MAX,
        zoom_field(packed(x as nat, y as nat, z as nat) as u64) == z,
        even_bits(pair_bits(packed(x as nat, y as nat, z as nat) as u64, z as nat), z as nat) == x,
        odd_bits(pair_bits(packed(x as nat, y as nat, z as nat) as u64, z as nat), z as nat) == y,
{
    lemma_packed_fields(x as nat, y as nat, z as nat);
    lemma_interleave_split(x as nat, y as nat, z as nat);
    lemma_small_mod(x as nat, pow2(z as nat));
    lemma_small_mod(y as nat, pow2(z as nat));
}

/// The zoom level read from the low five bits of a packed tile is the zoom
/// level it was packed with, whatever `x` and `y` are.
pub proof fn lemma_zoom_of_packed(x: usize, y: usize, z: usize)
    requires
        z <= 29,
    ensures
        zoom_field(packed(x as nat, y as nat, z as nat) as u64) == z,
{
    lemma_packed_fields(x as nat, y as nat, z as nat);
}

} // verus!
