//! Geohash encoding and decoding.
use crate::alphabet::{position, position_spec, symbol, symbol_spec, ALPHABET_SIZE};
use crate::bisect::{axis_bits, bisect_axis, STEPS};
use crate::bits::{
    bit_at, bits_of, lemma_msb_value_bound, lemma_msb_value_first, load_bits, msb_value, new_bits, push_bit,
    Bits, MAX_BITS,
};
use vstd::arithmetic::div_mod::{
    lemma_div_denominator, lemma_fundamental_div_mod, lemma_fundamental_div_mod_converse,
};
use vstd::arithmetic::power2::{
    lemma2_to64, lemma_pow2_adds, lemma_pow2_pos, lemma_pow2_strictly_increases, lemma_pow2_unfold, pow2,
};
use vstd::prelude::*;
use vstd::string::StrSliceExecFns;

verus! {

/// Largest latitude magnitude, in units of 1e-7 degrees (90 degrees).
pub const LAT_BOUND: i32 = 900_000_000;

/// Largest longitude magnitude, in units of 1e-7 degrees (180 degrees).
pub const LON_BOUND: i32 = 1_800_000_000;

/// Largest number of symbols in a geohash.
pub const MAX_PRECISION: u8 = 12;

/// Bits carried by one symbol.
pub const BITS_PER_SYMBOL: usize = 5;

/// Why an encoding or a decoding was refused.
#[derive(Debug, Clone, Copy, PartialEq, Eq, Structural)]
pub enum GeohashError {
    /// The number of symbols asked for lies outside `1..=12`.
    InvalidPrecision,
    /// The latitude or the longitude lies outside its range.
    InvalidCoordinate,
    /// The character at `index` (counted in characters) is not a symbol.
    InvalidSymbol { symbol: char, index: usize },
}

/// A geohash has between 1 and 12 symbols.
pub open spec fn valid_precision(p: int) -> bool {
    1 <= p <= MAX_PRECISION
}

/// Latitude within 90 degrees and longitude within 180 degrees of zero.
pub open spec fn valid_coordinate(latitude: int, longitude: int) -> bool {
    -LAT_BOUND <= latitude <= LAT_BOUND && -LON_BOUND <= longitude <= LON_BOUND
}

/// Merges two bit sequences of equal length by strict alternation, starting
/// with `first`.
pub open spec fn interleave(first: Seq<bool>, second: Seq<bool>) -> Seq<bool> {
    Seq::new(2 * first.len(), |i: int| if i % 2 == 0 { first[i / 2] } else { second[i / 2] })
}

/// The bits of `z` at positions `parity`, `parity + 2`, `parity + 4`, ...
pub open spec fn deinterleave(z: Seq<bool>, parity: int) -> Seq<bool> {
    Seq::new(((z.len() + 1 - parity) / 2) as nat, |i: int| z[2 * i + parity])
}

/// The Z-order bits of a coordinate: longitude bit `i` at position `2i`,
/// latitude bit `i` at position `2i + 1`.
pub open spec fn z_bits(latitude: int, longitude: int) -> Seq<bool> {
    interleave(
        axis_bits(longitude, LON_BOUND as int, STEPS as nat),
        axis_bits(latitude, LAT_BOUND as int, STEPS as nat),
    )
}

/// The value of the `j`-th group of five bits of `z`.
pub open spec fn chunk(z: Seq<bool>, j: int) -> nat {
    msb_value(z.subrange(5 * j, 5 * j + 5))
}

/// The geohash of `p` symbols of a coordinate.
pub open spec fn geohash_spec(latitude: int, longitude: int, p: nat) -> Seq<char> {
    Seq::new(p, |j: int| symbol_spec(chunk(z_bits(latitude, longitude), j) as int))
}

/// Bit `i` (`0 <= i < 5`, most significant first) of the 5-bit value `k`.
pub open spec fn symbol_bit(k: int, i: int) -> bool {
    (k / pow2((4 - i) as nat) as int) % 2 == 1
}

/// The position of a symbol in the table (0 for a non-symbol).
pub open spec fn symbol_value(c: char) -> int {
    match position_spec(c) {
        Some(k) => k as int,
        None => 0,
    }
}

/// Every character of `s` is a symbol.
pub open spec fn all_symbols(s: Seq<char>) -> bool {
    forall|i: int| 0 <= i < s.len() ==> (#[trigger] position_spec(s[i])) is Some
}

/// The bits that the symbols of `s` stand for, five per symbol.
pub open spec fn hash_bits(s: Seq<char>) -> Seq<bool> {
    Seq::new(5 * s.len(), |i: int| symbol_bit(symbol_value(s[i / 5]), i % 5))
}

/// Middle of the cell that the bits `b` select on the axis
/// `[-bound, bound]`, rounded down to an integer.
pub open spec fn cell_center(b: Seq<bool>, bound: int) -> int {
    -bound + ((2 * msb_value(b) + 1) * bound) / (pow2(b.len()) as int)
}

/// The decoded value of one axis from its bits: the middle of the cell that
/// all its bits but the last select, or 0 when there are no bits.
pub open spec fn decode_axis(b: Seq<bool>, bound: int) -> int {
    if b.len() == 0 {
        0
    } else {
        cell_center(b.take(b.len() - 1), bound)
    }
}

/// The latitude that a geohash decodes to.
pub open spec fn decode_latitude(s: Seq<char>) -> int {
    decode_axis(deinterleave(hash_bits(s), 1), LAT_BOUND as int)
}

/// The longitude that a geohash decodes to.
pub open spec fn decode_longitude(s: Seq<char>) -> int {
    decode_axis(deinterleave(hash_bits(s), 0), LON_BOUND as int)
}

/// Whether `precision` is a valid number of symbols.
pub fn check_precision(precision: u8) -> (r: bool)
    ensures
        r == valid_precision(precision as int),
{
    1 <= precision && precision <= MAX_PRECISION
}

/// Whether the latitude and the longitude lie in their ranges.
pub fn validate_latitude_longitude(latitude: i32, longitude: i32) -> (r: bool)
    ensures
        r == valid_coordinate(latitude as int, longitude as int),
{
    if latitude < -LAT_BOUND || latitude > LAT_BOUND {
        return false;
    }
    if longitude < -LON_BOUND || longitude > LON_BOUND {
        return false;
    }
    true
}

/// Relies on `String::push`: appends one character at the end.
#[verifier::external_body]
fn push_char(s: &mut String, c: char)
    ensures
        final(s)@ == old(s)@.push(c),
{
    s.push(c)
}

/// Encodes a coordinate, in units of 1e-7 degrees, as a geohash of
/// `precision` symbols.
pub fn encode(latitude: i32, longitude: i32, precision: u8) -> (r: Result<String, GeohashError>)
    ensures
        !valid_precision(precision as int) ==> r == Err::<String, GeohashError>(
            GeohashError::InvalidPrecision,
        ),
        valid_precision(precision as int) && !valid_coordinate(latitude as int, longitude as int)
            ==> r == Err::<String, GeohashError>(GeohashError::InvalidCoordinate),
        valid_precision(precision as int) && valid_coordinate(latitude as int, longitude as int)
            ==> (r matches Ok(s) && s@ == geohash_spec(
            latitude as int,
            longitude as int,
            precision as nat,
        )),
{
    if !check_precision(precision) {
        return Err(GeohashError::InvalidPrecision);
    }
    if !validate_latitude_longitude(latitude, longitude) {
        return Err(GeohashError::InvalidCoordinate);
    }
    let lat_bits = bisect_axis(latitude, LAT_BOUND);
    let lon_bits = bisect_axis(longitude, LON_BOUND);
    let ghost z = z_bits(latitude as int, longitude as int);
    let mut zv = new_bits();
    let mut i: usize = 0;
    assert(MAX_BITS >= 64);
    while i < STEPS
        invariant
            i <= STEPS,
            lat_bits@ == axis_bits(latitude as int, LAT_BOUND as int, STEPS as nat),
            lon_bits@ == axis_bits(longitude as int, LON_BOUND as int, STEPS as nat),
            bits_of(zv) == z.take(2 * i),
            z == interleave(lon_bits@, lat_bits@),
        decreases STEPS - i,
    {
        push_bit(&mut zv, lon_bits[i]);
        push_bit(&mut zv, lat_bits[i]);
        i = i + 1;
        assert(bits_of(zv) =~= z.take(2 * i));
    }
    assert(bits_of(zv) =~= z);
    let mut geohash = String::new();
    let mut j: usize = 0;
    while j < precision as usize
        invariant
            j <= precision <= MAX_PRECISION,
            bits_of(zv) == z,
            z == z_bits(latitude as int, longitude as int),
            z.len() == 2 * STEPS,
            geohash@ == geohash_spec(latitude as int, longitude as int, precision as nat).take(
                j as int,
            ),
        decreases precision - j,
    {
        let pos = load_bits(&zv, BITS_PER_SYMBOL * j, BITS_PER_SYMBOL * j + BITS_PER_SYMBOL);
        proof {
            let piece = z.subrange(5 * j as int, 5 * j + 5);
            lemma_msb_value_bound(piece);
            lemma2_to64();
            assert(pos as nat == chunk(z, j as int));
        }
        let c = symbol(pos);
        push_char(&mut geohash, c);
        assert(c == geohash_spec(latitude as int, longitude as int, precision as nat)[j as int]);
        j = j + 1;
        assert(geohash@ =~= geohash_spec(latitude as int, longitude as int, precision as nat).take(
            j as int,
        ));
    }
    assert(geohash@ =~= geohash_spec(latitude as int, longitude as int, precision as nat));
    Ok(geohash)
}

/// The five bits of a symbol's position, most significant first.
pub fn get_bit_representation(position: u8) -> (bits: Vec<bool>)
    requires
        position < ALPHABET_SIZE,
    ensures
        bits@ == Seq::new(5, |i: int| symbol_bit(position as int, i)),
{
    let mut bits: Vec<bool> = Vec::new();
    let mut divisor: u8 = 16;
    let mut i: usize = 0;
    proof {
        lemma2_to64();
    }
    while i < BITS_PER_SYMBOL
        invariant
            i <= 5,
            divisor as int == pow2((4 - i) as nat) || i == 5,
            bits@ == Seq::new(i as nat, |t: int| symbol_bit(position as int, t)),
        decreases 5 - i,
    {
        proof {
            lemma2_to64();
        }
        bits.push((position / divisor) % 2 == 1);
        divisor = divisor / 2;
        i = i + 1;
        assert(bits@ =~= Seq::new(i as nat, |t: int| symbol_bit(position as int, t)));
    }
    bits
}

/// `w` times the binary fraction `0.c`, rounded down.
pub open spec fn fraction_floor(c: Seq<bool>, w: int) -> int {
    (w * msb_value(c)) / (pow2(c.len()) as int)
}

/// Taking the first bit off a binary fraction: `w * 0.c` rounded down is
/// `w` times the first bit plus `w * 0.(the rest)` rounded down, halved.
proof fn lemma_fraction_floor_first(c: Seq<bool>, w: int)
    requires
        c.len() >= 1,
        0 <= w,
    ensures
        fraction_floor(c, w) == ((if c[0] { w } else { 0 }) + fraction_floor(c.drop_first(), w))
            / 2,
{
    let l = c.len();
    let p = pow2((l - 1) as nat) as int;
    let b: int = if c[0] { 1 } else { 0 };
    let m = msb_value(c.drop_first()) as int;
    lemma_msb_value_first(c);
    lemma_pow2_unfold(l as nat);
    lemma_pow2_pos((l - 1) as nat);
    assert(msb_value(c) == b * p + m);
    let y = w * m;
    let q = y / p;
    let r = y % p;
    lemma_fundamental_div_mod(y, p);
    assert(w * (b * p + m) == (w * b + q) * p + r) by (nonlinear_arith)
        requires
            y == w * m,
            y == p * q + r,
    ;
    lemma_fundamental_div_mod_converse(w * (b * p + m), p, w * b + q, r);
    assert(w * (b * p + m) >= 0) by (nonlinear_arith)
        requires
            0 <= w,
            0 <= b,
            0 <= p,
            0 <= m,
    ;
    lemma_div_denominator(w * (b * p + m), p, 2);
    assert(p * 2 == pow2(l as nat));
}

/// The middle of the cell that the first `m` bits of `bits` select on the
/// axis `[-bound, bound]`, rounded down. The middle of that cell is
/// `-bound + w * 0.b1...bm1` with `w = 2 * bound`; the fraction is read by
/// long division from its last bit to its first, so that the running value
/// stays below `w` whatever `m` is.
fn cell_center_of(bits: &Bits, m: usize, bound: i32) -> (r: i32)
    requires
        m <= bits_of(*bits).len(),
        0 < bound <= LON_BOUND,
    ensures
        r == cell_center(bits_of(*bits).take(m as int), bound as int),
        -bound <= r <= bound,
{
    let ghost v = bits_of(*bits);
    let w: i64 = 2 * bound as i64;
    let mut g: i64 = bound as i64;
    let mut i: usize = m;
    proof {
        let c = v.subrange(m as int, m as int).push(true);
        reveal_with_fuel(msb_value, 2);
        assert(c.drop_last().len() == 0);
        lemma2_to64();
        assert(c.len() == 1 && c.last());
        assert(msb_value(c) == 1);
        assert(pow2(1) == 2);
        assert(fraction_floor(c, w as int) == (w * 1) / 2);
    }
    while i > 0
        invariant
            i <= m <= v.len(),
            v == bits_of(*bits),
            w == 2 * bound,
            0 < bound <= LON_BOUND,
            g == fraction_floor(v.subrange(i as int, m as int).push(true), w as int),
            0 <= g < w,
        decreases i,
    {
        i = i - 1;
        let bit = bit_at(bits, i);
        proof {
            let c = v.subrange(i as int, m as int).push(true);
            assert(c.drop_first() =~= v.subrange(i + 1, m as int).push(true));
            lemma_fraction_floor_first(c, w as int);
        }
        g = ((if bit { w } else { 0 }) + g) / 2;
    }
    proof {
        let c = v.subrange(0, m as int).push(true);
        let k = msb_value(v.take(m as int)) as int;
        let p = pow2(m as nat) as int;
        assert(c.drop_last() =~= v.take(m as int));
        assert(msb_value(c) == 2 * k + 1);
        lemma_pow2_unfold((m + 1) as nat);
        lemma_pow2_pos(m as nat);
        let a = (2 * k + 1) * bound;
        assert(w * (2 * k + 1) == 2 * a) by (nonlinear_arith)
            requires
                w == 2 * bound,
                a == (2 * k + 1) * bound,
        ;
        lemma_msb_value_bound(v.take(m as int));
        assert(a >= 0) by (nonlinear_arith)
            requires
                a == (2 * k + 1) * bound,
                k >= 0,
                bound > 0,
        ;
        lemma_div_denominator(2 * a, 2, p);
        assert(g == a / p);
    }
    (g - bound as i64) as i32
}

/// Decodes a geohash to the coordinate, in units of 1e-7 degrees, at the
/// middle of the cell that all but the last bit of each axis select.
///
/// The first character that is not a symbol is reported with its index; a
/// geohash of symbols only, of any length, decodes, and the empty one
/// decodes to `(0, 0)`. The length is bounded only by what a `BitVec` can
/// hold.
#[verifier::rlimit(40)]
pub fn decode(geohash: &str) -> (r: Result<(i32, i32), GeohashError>)
    requires
        5 * geohash@.len() < MAX_BITS,
    ensures
        geohash@.len() == 0 ==> r == Ok::<(i32, i32), GeohashError>((0, 0)),
        !all_symbols(geohash@) ==> (r matches Err(GeohashError::InvalidSymbol { symbol, index })
            && index < geohash@.len() && geohash@[index as int] == symbol && position_spec(symbol) is None
            && forall|j: int| 0 <= j < index ==> (#[trigger] position_spec(geohash@[j])) is Some),
        all_symbols(geohash@) ==> r == Ok::<(i32, i32), GeohashError>(
            (decode_latitude(geohash@) as i32, decode_longitude(geohash@) as i32),
        ),
        r matches Ok(pair) ==> pair.0 == decode_latitude(geohash@) && pair.1 == decode_longitude(
            geohash@,
        ),
{
    let ghost s = geohash@;
    let len = geohash.unicode_len();
    if len == 0 {
        assert(hash_bits(s) =~= Seq::<bool>::empty());
        return Ok((0, 0));
    }
    let mut flat: Vec<bool> = Vec::new();
    let mut i: usize = 0;
    while i < len
        invariant
            i <= len,
            5 * len < MAX_BITS,
            len == s.len(),
            s == geohash@,
            flat@ == hash_bits(s.take(i as int)),
            forall|j: int| 0 <= j < i ==> (#[trigger] position_spec(s[j])) is Some,
        decreases len - i,
    {
        let c = geohash.get_char(i);
        let k = match position(c) {
            Some(k) => k,
            None => {
                return Err(GeohashError::InvalidSymbol { symbol: c, index: i });
            },
        };
        let piece = get_bit_representation(k);
        let mut t: usize = 0;
        while t < BITS_PER_SYMBOL
            invariant
                t <= 5,
                i < len,
                5 * len < MAX_BITS,
                piece@ == Seq::new(5, |q: int| symbol_bit(k as int, q)),
                flat@ == hash_bits(s.take(i as int)) + piece@.take(t as int),
            decreases 5 - t,
        {
            flat.push(piece[t]);
            t = t + 1;
            assert(flat@ =~= hash_bits(s.take(i as int)) + piece@.take(t as int));
        }
        proof {
            assert(symbol_value(s[i as int]) == k);
            assert forall|q: int| 0 <= q < flat@.len() implies flat@[q] == hash_bits(
                s.take(i + 1),
            )[q] by {
                if q >= 5 * i {
                    assert(q / 5 == i);
                    assert(q % 5 == q - 5 * i);
                } else {
                    assert(s.take(i + 1)[q / 5] == s.take(i as int)[q / 5]);
                }
            }
            assert(flat@ =~= hash_bits(s.take(i + 1)));
        }
        i = i + 1;
    }
    assert(s.take(len as int) =~= s);
    let ghost z = flat@;
    let mut lat = new_bits();
    let mut lon = new_bits();
    let mut idx: usize = 0;
    while idx < flat.len()
        invariant
            idx <= flat.len() == 5 * len,
            5 * len < MAX_BITS,
            z == flat@,
            bits_of(lon) == deinterleave(z.take(idx as int), 0),
            bits_of(lat) == deinterleave(z.take(idx as int), 1),
        decreases flat.len() - idx,
    {
        if idx % 2 == 0 {
            push_bit(&mut lon, flat[idx]);
        } else {
            push_bit(&mut lat, flat[idx]);
        }
        idx = idx + 1;
        assert(bits_of(lon) =~= deinterleave(z.take(idx as int), 0));
        assert(bits_of(lat) =~= deinterleave(z.take(idx as int), 1));
    }
    assert(z.take(idx as int) =~= z);
    let n = flat.len();
    let latitude = cell_center_of(&lat, n / 2 - 1, LAT_BOUND);
    let longitude = cell_center_of(&lon, (n + 1) / 2 - 1, LON_BOUND);
    Ok((latitude, longitude))
}

} // verus!
