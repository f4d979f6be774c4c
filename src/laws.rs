//! Properties that relate encoding and decoding.
use crate::alphabet::{is_symbol, lemma_alphabet_bijective, position_spec, symbol_spec};
use crate::bisect::{axis_bit, axis_bits, cell, lemma_cell_step, STEPS};
use crate::bits::{lemma_msb_value_bound, msb_value};
use crate::codec::{
    all_symbols, chunk, decode_latitude, decode_longitude, deinterleave, geohash_spec, hash_bits,
    symbol_bit, symbol_value, valid_coordinate, valid_precision, z_bits, LAT_BOUND, LON_BOUND,
};
use vstd::arithmetic::div_mod::lemma_fundamental_div_mod_converse;
use vstd::arithmetic::power2::{
    lemma2_to64, lemma_pow2_adds, lemma_pow2_pos, lemma_pow2_strictly_increases, pow2,
};
use vstd::prelude::*;

verus! {

/// A geohash of precision `p` has exactly `p` characters, each of them one
/// of the 32 symbols.
pub proof fn lemma_encode_shape(latitude: int, longitude: int, p: int)
    requires
        valid_precision(p),
        valid_coordinate(latitude, longitude),
    ensures
        geohash_spec(latitude, longitude, p as nat).len() == p,
        forall|j: int| 0 <= j < p ==> is_symbol(#[trigger] geohash_spec(latitude, longitude, p as nat)[j]),
        all_symbols(geohash_spec(latitude, longitude, p as nat)),
{
    let g = geohash_spec(latitude, longitude, p as nat);
    let z = z_bits(latitude, longitude);
    assert forall|j: int| 0 <= j < p implies is_symbol(#[trigger] g[j]) by {
        let k = chunk(z, j) as int;
        lemma_msb_value_bound(z.subrange(5 * j, 5 * j + 5));
        lemma2_to64();
        assert(0 <= k < 32 && g[j] == symbol_spec(k));
    }
    assert forall|j: int| 0 <= j < g.len() implies (#[trigger] position_spec(g[j])) is Some by {
        let k = chunk(z, j) as int;
        lemma_msb_value_bound(z.subrange(5 * j, 5 * j + 5));
        lemma2_to64();
        lemma_alphabet_bijective(k, g[j]);
    }
}

/// Reading five bits as a number and taking that number's bits back apart
/// gives the same five bits.
proof fn lemma_symbol_bits(b: Seq<bool>)
    requires
        b.len() == 5,
    ensures
        forall|i: int| 0 <= i < 5 ==> symbol_bit(msb_value(b) as int, i) == #[trigger] b[i],
{
    reveal_with_fuel(msb_value, 6);
    let v0: int = if b[0] { 1 } else { 0 };
    let v1: int = if b[1] { 1 } else { 0 };
    let v2: int = if b[2] { 1 } else { 0 };
    let v3: int = if b[3] { 1 } else { 0 };
    let v4: int = if b[4] { 1 } else { 0 };
    let b4 = b.drop_last();
    let b3 = b4.drop_last();
    let b2 = b3.drop_last();
    let b1 = b2.drop_last();
    let b0 = b1.drop_last();
    assert(b0.len() == 0);
    assert(b1.last() == b[0] && b2.last() == b[1] && b3.last() == b[2] && b4.last() == b[3]);
    let k = msb_value(b) as int;
    assert(k == 16 * v0 + 8 * v1 + 4 * v2 + 2 * v3 + v4);
    lemma2_to64();
    assert forall|i: int| 0 <= i < 5 implies symbol_bit(k, i) == #[trigger] b[i] by {
        if i == 0 {
            lemma_fundamental_div_mod_converse(k, 16, v0, 8 * v1 + 4 * v2 + 2 * v3 + v4);
            lemma_fundamental_div_mod_converse(v0, 2, 0, v0);
        } else if i == 1 {
            lemma_fundamental_div_mod_converse(k, 8, 2 * v0 + v1, 4 * v2 + 2 * v3 + v4);
            lemma_fundamental_div_mod_converse(2 * v0 + v1, 2, v0, v1);
        } else if i == 2 {
            lemma_fundamental_div_mod_converse(k, 4, 4 * v0 + 2 * v1 + v2, 2 * v3 + v4);
            lemma_fundamental_div_mod_converse(4 * v0 + 2 * v1 + v2, 2, 2 * v0 + v1, v2);
        } else if i == 3 {
            lemma_fundamental_div_mod_converse(k, 2, 8 * v0 + 4 * v1 + 2 * v2 + v3, v4);
            lemma_fundamental_div_mod_converse(
                8 * v0 + 4 * v1 + 2 * v2 + v3,
                2,
                4 * v0 + 2 * v1 + v2,
                v3,
            );
        } else {
            lemma_fundamental_div_mod_converse(k, 1, k, 0);
            lemma_fundamental_div_mod_converse(k, 2, 8 * v0 + 4 * v1 + 2 * v2 + v3, v4);
        }
    }
}

/// The bits that a geohash's symbols stand for are the leading bits of the
/// coordinate's Z-order bits.
proof fn lemma_hash_bits_of_geohash(latitude: int, longitude: int, p: int)
    requires
        valid_precision(p),
        valid_coordinate(latitude, longitude),
    ensures
        hash_bits(geohash_spec(latitude, longitude, p as nat)) == z_bits(latitude, longitude).take(
            5 * p,
        ),
{
    let g = geohash_spec(latitude, longitude, p as nat);
    let z = z_bits(latitude, longitude);
    let h = hash_bits(g);
    assert forall|q: int| 0 <= q < 5 * p implies h[q] == z[q] by {
        let j = q / 5;
        let piece = z.subrange(5 * j, 5 * j + 5);
        let k = chunk(z, j) as int;
        lemma_msb_value_bound(piece);
        lemma2_to64();
        lemma_alphabet_bijective(k, g[j]);
        assert(symbol_value(g[j]) == k);
        lemma_symbol_bits(piece);
        assert(piece[q % 5] == z[q]);
    }
    assert(h =~= z.take(5 * p));
}

/// The bisection bits of a value, read as a number, give its cell index.
proof fn lemma_axis_bits_value(v: int, bound: int, m: nat)
    requires
        0 < bound,
        -bound <= v <= bound,
    ensures
        msb_value(axis_bits(v, bound, m)) == cell(v + bound, 2 * bound, m),
    decreases m,
{
    let w = 2 * bound;
    let x = v + bound;
    if m == 0 {
        lemma2_to64();
        assert(cell(x, w, 0) == 0) by (nonlinear_arith)
            requires
                0 <= x <= w,
                0 < w,
                pow2(0) == 1,
        ;
    } else {
        let m1 = (m - 1) as nat;
        lemma_axis_bits_value(v, bound, m1);
        assert(axis_bits(v, bound, m).drop_last() =~= axis_bits(v, bound, m1));
        lemma_cell_step(x, w, m1);
        assert(axis_bit(v, bound, m1 as int) == (cell(x, w, m) % 2 == 1));
    }
}

/// A value lies between the ends of its cell: `k * w <= x * 2^n <= (k + 1) * w`.
proof fn lemma_cell_bounds(x: int, w: int, n: nat)
    requires
        0 < w,
        0 <= x <= w,
    ensures
        cell(x, w, n) * w <= x * pow2(n) <= (cell(x, w, n) + 1) * w,
        x < w ==> x * pow2(n) < (cell(x, w, n) + 1) * w,
{
    let p = pow2(n) as int;
    lemma_pow2_pos(n);
    if x < w {
        let k = x * p / w;
        assert(k * w <= x * p < (k + 1) * w) by (nonlinear_arith)
            requires
                0 <= x,
                0 < w,
                k == x * p / w,
        ;
    } else {
        assert((p - 1) * w <= x * p <= p * w) by (nonlinear_arith)
            requires
                x == w,
                0 < w,
                0 < p,
        ;
    }
}

/// `d` decodes `v` on the axis `[-bound, bound]` to within one cell of `m + 1`
/// halvings, with one unit more below for the rounding down:
/// `-bound / 2^m - 1 < d - v <= bound / 2^m`.
pub open spec fn within_cell(d: int, v: int, bound: int, m: nat) -> bool {
    pow2(m) * (d - v) <= bound && pow2(m) * (v - d) < bound + pow2(m)
}

/// The rounded-down middle of the cell at `m` halvings that holds `v` lies
/// within half a cell of `v`.
proof fn lemma_center_error(v: int, bound: int, m: nat)
    requires
        0 < bound,
        -bound <= v <= bound,
    ensures
        within_cell(
            -bound + ((2 * cell(v + bound, 2 * bound, m) + 1) * bound) / (pow2(m) as int),
            v,
            bound,
            m,
        ),
{
    let x = v + bound;
    let k = cell(x, 2 * bound, m);
    let p = pow2(m) as int;
    lemma_pow2_pos(m);
    lemma_cell_bounds(x, 2 * bound, m);
    let a = (2 * k + 1) * bound;
    let f = a / p;
    assert(f * p <= a < f * p + p) by (nonlinear_arith)
        requires
            0 < p,
            f == a / p,
    ;
    assert(p * (f - x) <= bound && p * (x - f) < bound + p) by (nonlinear_arith)
        requires
            f * p <= a < f * p + p,
            a == (2 * k + 1) * bound,
            k * (2 * bound) <= x * p <= (k + 1) * (2 * bound),
    ;
}

/// Number of latitude halvings that a geohash of `p` symbols keeps in its
/// decoded value.
pub open spec fn lat_steps(p: int) -> nat {
    (5 * p / 2 - 1) as nat
}

/// Number of longitude halvings that a geohash of `p` symbols keeps in its
/// decoded value.
pub open spec fn lon_steps(p: int) -> nat {
    ((5 * p + 1) / 2 - 1) as nat
}

/// Each axis of a decoded geohash is the rounded-down middle of the cell,
/// of as many halvings as that axis keeps, that holds the coordinate.
proof fn lemma_decoded_center(latitude: int, longitude: int, p: int)
    requires
        valid_precision(p),
        valid_coordinate(latitude, longitude),
    ensures
        decode_latitude(geohash_spec(latitude, longitude, p as nat)) == -LAT_BOUND + ((2 * cell(
            latitude + LAT_BOUND,
            2 * LAT_BOUND,
            lat_steps(p),
        ) + 1) * LAT_BOUND) / (pow2(lat_steps(p)) as int),
        decode_longitude(geohash_spec(latitude, longitude, p as nat)) == -LON_BOUND + ((2 * cell(
            longitude + LON_BOUND,
            2 * LON_BOUND,
            lon_steps(p),
        ) + 1) * LON_BOUND) / (pow2(lon_steps(p)) as int),
{
    let g = geohash_spec(latitude, longitude, p as nat);
    lemma_hash_bits_of_geohash(latitude, longitude, p);
    let dlat = deinterleave(hash_bits(g), 1);
    let dlon = deinterleave(hash_bits(g), 0);
    let ml = lat_steps(p);
    let mo = lon_steps(p);
    assert(dlat.take(dlat.len() - 1) =~= axis_bits(latitude, LAT_BOUND as int, ml));
    assert(dlon.take(dlon.len() - 1) =~= axis_bits(longitude, LON_BOUND as int, mo));
    lemma_axis_bits_value(latitude, LAT_BOUND as int, ml);
    lemma_axis_bits_value(longitude, LON_BOUND as int, mo);
}

/// Decoding the geohash of a coordinate gives back a coordinate within one
/// cell of it: the geohash consists of symbols only, and each decoded axis
/// lies within the cell size of that precision around the input.
pub proof fn lemma_round_trip(latitude: int, longitude: int, p: int)
    requires
        valid_precision(p),
        valid_coordinate(latitude, longitude),
    ensures
        all_symbols(geohash_spec(latitude, longitude, p as nat)),
        within_cell(
            decode_latitude(geohash_spec(latitude, longitude, p as nat)),
            latitude,
            LAT_BOUND as int,
            lat_steps(p),
        ),
        within_cell(
            decode_longitude(geohash_spec(latitude, longitude, p as nat)),
            longitude,
            LON_BOUND as int,
            lon_steps(p),
        ),
{
    let g = geohash_spec(latitude, longitude, p as nat);
    let z = z_bits(latitude, longitude);
    lemma_encode_shape(latitude, longitude, p);
    lemma_hash_bits_of_geohash(latitude, longitude, p);
    let lat_b = axis_bits(latitude, LAT_BOUND as int, STEPS as nat);
    let lon_b = axis_bits(longitude, LON_BOUND as int, STEPS as nat);
    let dlat = deinterleave(hash_bits(g), 1);
    let dlon = deinterleave(hash_bits(g), 0);
    let ml = lat_steps(p);
    let mo = lon_steps(p);
    lemma_decoded_center(latitude, longitude, p);
    lemma_center_error(latitude, LAT_BOUND as int, ml);
    lemma_center_error(longitude, LON_BOUND as int, mo);
}

/// Being within a cell of `m2` halvings implies being within the larger
/// cell of `m1 <= m2` halvings.
proof fn lemma_within_coarser_cell(d: int, v: int, bound: int, m1: nat, m2: nat)
    requires
        0 < bound,
        m1 <= m2,
        within_cell(d, v, bound, m2),
    ensures
        within_cell(d, v, bound, m1),
{
    let p1 = pow2(m1) as int;
    let c = pow2((m2 - m1) as nat) as int;
    lemma_pow2_adds(m1, (m2 - m1) as nat);
    lemma_pow2_pos(m1);
    lemma_pow2_pos((m2 - m1) as nat);
    let p2 = pow2(m2) as int;
    assert(p2 == p1 * c);
    let e = d - v;
    assert(p1 * e <= bound && p1 * (-e) < bound + p1) by (nonlinear_arith)
        requires
            p2 == p1 * c,
            0 < p1,
            1 <= c,
            0 < bound,
            p2 * e <= bound,
            p2 * (-e) < bound + p2,
    ;
}

/// Raising the precision never loosens the guarantee: the coordinate decoded
/// from the longer geohash lies within the cell size of the shorter one
/// around the input, and the number of halvings kept on each axis grows.
pub proof fn lemma_precision_tightens(latitude: int, longitude: int, p: int, q: int)
    requires
        valid_precision(p),
        valid_precision(q),
        p <= q,
        valid_coordinate(latitude, longitude),
    ensures
        lat_steps(p) <= lat_steps(q),
        lon_steps(p) <= lon_steps(q),
        within_cell(
            decode_latitude(geohash_spec(latitude, longitude, q as nat)),
            latitude,
            LAT_BOUND as int,
            lat_steps(p),
        ),
        within_cell(
            decode_longitude(geohash_spec(latitude, longitude, q as nat)),
            longitude,
            LON_BOUND as int,
            lon_steps(p),
        ),
{
    lemma_round_trip(latitude, longitude, q);
    let g = geohash_spec(latitude, longitude, q as nat);
    lemma_within_coarser_cell(
        decode_latitude(g),
        latitude,
        LAT_BOUND as int,
        lat_steps(p),
        lat_steps(q),
    );
    lemma_within_coarser_cell(
        decode_longitude(g),
        longitude,
        LON_BOUND as int,
        lon_steps(p),
        lon_steps(q),
    );
}

/// The cell of `m >= n` halvings that holds a value lies inside its cell of
/// `n` halvings: `k_n * 2^(m-n) <= k_m < (k_n + 1) * 2^(m-n)`.
proof fn lemma_nested_cells(x: int, w: int, n: nat, m: nat)
    requires
        0 < w,
        0 <= x <= w,
        n <= m,
    ensures
        cell(x, w, n) * pow2((m - n) as nat) <= cell(x, w, m) < (cell(x, w, n) + 1) * pow2(
            (m - n) as nat,
        ),
{
    let e = pow2((m - n) as nat) as int;
    let pn = pow2(n) as int;
    let pm = pow2(m) as int;
    let kn = cell(x, w, n);
    let km = cell(x, w, m);
    lemma_pow2_adds(n, (m - n) as nat);
    lemma_pow2_pos(n);
    lemma_pow2_pos((m - n) as nat);
    assert(pm == pn * e);
    if x < w {
        lemma_cell_bounds(x, w, n);
        lemma_cell_bounds(x, w, m);
        assert(kn * e <= km < (kn + 1) * e) by (nonlinear_arith)
            requires
                kn * w <= x * pn < (kn + 1) * w,
                km * w <= x * pm < (km + 1) * w,
                pm == pn * e,
                0 < e,
                0 < w,
        ;
    } else {
        assert((pn - 1) * e <= pm - 1 < pn * e) by (nonlinear_arith)
            requires
                pm == pn * e,
                1 <= e,
        ;
    }
}

/// Whether `d` lies in the closed cell of `n` halvings that holds `v` on the
/// axis `[-bound, bound]`.
pub open spec fn in_closed_cell(d: int, v: int, bound: int, n: nat) -> bool {
    let k = cell(v + bound, 2 * bound, n);
    k * (2 * bound) <= (d + bound) * pow2(n) <= (k + 1) * (2 * bound)
}

/// The rounded-down middle of a finer cell lies in every coarser cell that
/// holds the value, as long as the finer cell is at least two units wide.
proof fn lemma_center_in_coarser_cell(v: int, bound: int, n: nat, m: nat)
    requires
        0 < bound,
        -bound <= v <= bound,
        n < m,
        pow2(m) <= bound,
    ensures
        in_closed_cell(
            -bound + ((2 * cell(v + bound, 2 * bound, m) + 1) * bound) / (pow2(m) as int),
            v,
            bound,
            n,
        ),
{
    let x = v + bound;
    let w = 2 * bound;
    let kn = cell(x, w, n);
    let km = cell(x, w, m);
    let e = pow2((m - n) as nat) as int;
    let pn = pow2(n) as int;
    let pm = pow2(m) as int;
    lemma_nested_cells(x, w, n, m);
    lemma_pow2_adds(n, (m - n) as nat);
    lemma_pow2_pos(n);
    lemma_pow2_pos((m - n) as nat);
    lemma_pow2_pos(m);
    lemma_cell_step(x, w, n);
    let a = (2 * km + 1) * bound;
    let f = a / pm;
    assert(f * pm <= a < f * pm + pm) by (nonlinear_arith)
        requires
            0 < pm,
            f == a / pm,
    ;
    assert(kn * w * e <= f * pn * e <= (kn + 1) * w * e) by (nonlinear_arith)
        requires
            f * pm <= a < f * pm + pm,
            a == (2 * km + 1) * bound,
            kn * e <= km < (kn + 1) * e,
            pm == pn * e,
            pm <= bound,
            w == 2 * bound,
            0 < bound,
    ;
    assert(kn * w <= f * pn <= (kn + 1) * w) by (nonlinear_arith)
        requires
            kn * w * e <= f * pn * e <= (kn + 1) * w * e,
            0 < e,
    ;
}

/// A longer geohash of a coordinate decodes to a point inside the closed cell
/// that a shorter geohash of the same coordinate names, on each axis: the
/// latitude cell of `5p / 2` halvings and the longitude cell of
/// `(5p + 1) / 2` halvings.
pub proof fn lemma_longer_decodes_in_shorter_cell(latitude: int, longitude: int, p: int, q: int)
    requires
        valid_precision(p),
        valid_precision(q),
        p < q,
        valid_coordinate(latitude, longitude),
    ensures
        in_closed_cell(
            decode_latitude(geohash_spec(latitude, longitude, q as nat)),
            latitude,
            LAT_BOUND as int,
            (5 * p / 2) as nat,
        ),
        in_closed_cell(
            decode_longitude(geohash_spec(latitude, longitude, q as nat)),
            longitude,
            LON_BOUND as int,
            ((5 * p + 1) / 2) as nat,
        ),
{
    lemma_decoded_center(latitude, longitude, q);
    lemma2_to64();
    if lat_steps(q) < 29 {
        lemma_pow2_strictly_increases(lat_steps(q), 29);
    }
    if lon_steps(q) < 29 {
        lemma_pow2_strictly_increases(lon_steps(q), 29);
    }
    lemma_center_in_coarser_cell(latitude, LAT_BOUND as int, (5 * p / 2) as nat, lat_steps(q));
    lemma_center_in_coarser_cell(
        longitude,
        LON_BOUND as int,
        ((5 * p + 1) / 2) as nat,
        lon_steps(q),
    );
}

} // verus!
