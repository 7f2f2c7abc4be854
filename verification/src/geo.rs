//! Geographic primitives: fixed-point coordinates and great-circle distance.
//!
//! A coordinate is a pair of degrees in fixed point, scaled by ten million
//! (the native resolution of OSM). Distances are whole meters computed by
//! the haversine formula on an Earth radius of 6 371 000 m; the trigonometry
//! runs in binary fixed point with 61 fractional bits, so distances are a
//! deterministic integer function of the two points. Integer meters give the
//! router a total order and deterministic equality.

use vstd::prelude::*;
use vstd::string::StrSliceExecFns;
use crate::text::{
    coord_val_e7, first_index_of, lemma_first_index_of, parse_coord_e7, valid_coord_str,
};

verus! {

/// Half of the Earth's circumference, rounded to whole meters: no
/// great-circle distance exceeds it.
pub const MAX_DISTANCE_METERS: u64 = 20_015_087;

/// One, in fixed point with 61 fractional bits.
pub const ONE_Q61: i64 = 2_305_843_009_213_693_952;

/// Pi, in fixed point with 61 fractional bits (rounded to nearest).
pub const PI_Q61: i64 = 7_244_019_458_077_122_842;

/// Fixed-point units per ten-millionth of a degree: divide a product with
/// `PI_Q61` by this to convert degrees e7 to radians.
pub const E7_PER_PI_RAD: i64 = 1_800_000_000;

/// A geographic point: latitude and longitude in ten-millionths of a degree.
#[derive(Clone, Copy, Debug, PartialEq, Eq, Structural)]
pub struct Coordinates {
    pub lat_e7: i64,
    pub lon_e7: i64,
}

/// The sine of a fixed-point angle, as `cordic::sin` computes it.
pub uninterp spec fn sin_q61(x: i64) -> i64;

/// The cosine of a fixed-point angle, as `cordic::cos` computes it.
pub uninterp spec fn cos_q61(x: i64) -> i64;

/// The arctangent of a fixed-point ratio, as `cordic::atan` computes it.
pub uninterp spec fn atan_q61(x: i64) -> i64;

/// The square root of a fixed-point value, as `cordic::sqrt` computes it.
pub uninterp spec fn sqrt_q61(x: i64) -> i64;

/// Relies on `cordic::sin` over `fixed::types::I3F61`: the sine of an angle
/// given in fixed point, a function of its argument alone. The angle must
/// lie in `[0, pi]` so that the value fits the three integer bits.
#[verifier::external_body]
fn fx_sin(x: i64) -> (r: i64)
    requires
        0 <= x <= PI_Q61,
    ensures
        r == sin_q61(x),
{
    cordic::sin(fixed::types::I3F61::from_bits(x)).to_bits()
}

/// Relies on `cordic::cos` over `fixed::types::I3F61`: the cosine of an
/// angle given in fixed point, a function of its argument alone. The angle
/// must lie in `[0, pi]` so that the value fits the three integer bits.
#[verifier::external_body]
fn fx_cos(x: i64) -> (r: i64)
    requires
        0 <= x <= PI_Q61,
    ensures
        r == cos_q61(x),
{
    cordic::cos(fixed::types::I3F61::from_bits(x)).to_bits()
}

/// Relies on `cordic::atan` over `fixed::types::I3F61`: the arctangent of a
/// fixed-point ratio, a function of its argument alone. The argument must
/// lie in `[0, 1]`, where the rotations stay within the type's range.
#[verifier::external_body]
fn fx_atan(x: i64) -> (r: i64)
    requires
        0 <= x <= ONE_Q61,
    ensures
        r == atan_q61(x),
{
    cordic::atan(fixed::types::I3F61::from_bits(x)).to_bits()
}

/// Relies on `cordic::sqrt` over `fixed::types::I3F61`: the square root of a
/// fixed-point value, a function of its argument alone. The argument must
/// lie in `[0, 1]`, where the doubling search stays within the type's range.
#[verifier::external_body]
fn fx_sqrt(x: i64) -> (r: i64)
    requires
        0 <= x <= ONE_Q61,
    ensures
        r == sqrt_q61(x),
{
    cordic::sqrt(fixed::types::I3F61::from_bits(x)).to_bits()
}

/// Clamps a fixed-point value into `[0, half pi]`, the mathematical range
/// of the arctangent of a nonnegative ratio.
pub open spec fn clamp_half_pi(x: int) -> int {
    if x < 0 {
        0
    } else if x > (PI_Q61 as int) / 2 {
        (PI_Q61 as int) / 2
    } else {
        x
    }
}

/// Clamps a fixed-point value into `[0, 1]`. The trigonometric results are
/// mathematically already there (latitudes beyond the poles are folded onto
/// them), so this only pins the range down for the verifier.
pub open spec fn clamp01(x: int) -> int {
    if x < 0 {
        0
    } else if x > ONE_Q61 as int {
        ONE_Q61 as int
    } else {
        x
    }
}

pub open spec fn abs_diff(a: int, b: int) -> int {
    if a >= b {
        a - b
    } else {
        b - a
    }
}

/// Ten-millionths of a degree to fixed-point radians (for nonnegative x).
pub open spec fn rad_q61(x: int) -> int {
    x * (PI_Q61 as int) / (E7_PER_PI_RAD as int)
}

/// Reduces a nonnegative angle into `[0, 2*pi)`.
pub open spec fn reduce_2pi(x: int) -> int {
    x % (2 * PI_Q61 as int)
}

/// Folds an angle in `[0, 2*pi)` onto `[0, pi]`, preserving its cosine.
pub open spec fn fold_pi(x: int) -> int {
    if x > PI_Q61 as int {
        2 * (PI_Q61 as int) - x
    } else {
        x
    }
}

/// The product of two fixed-point values in `[0, 1]`.
pub open spec fn mul_q61(x: int, y: int) -> int {
    x * y / (ONE_Q61 as int)
}

/// Half of the angular distance between two e7-degree values, in `[0, pi)`.
pub open spec fn spec_half_delta(a: int, b: int) -> int {
    reduce_2pi(rad_q61(abs_diff(a, b))) / 2
}

/// An e7-degree latitude as an angle in `[0, pi]` with the same cosine.
pub open spec fn spec_fold_abs(x: int) -> int {
    fold_pi(reduce_2pi(rad_q61(abs_diff(x, 0))))
}

/// The central angle of the haversine formula over the named fixed-point
/// trigonometry: `2 * atan2(sqrt(a), sqrt(1 - a))`, with the quadrant logic
/// spelled out over the arctangent of a ratio in `[0, 1]`.
pub open spec fn spec_angle(a: int) -> int {
    let y = clamp01(sqrt_q61(a as i64) as int);
    let x = clamp01(sqrt_q61((ONE_Q61 as int - a) as i64) as int);
    if y == 0 {
        0
    } else if x == 0 {
        PI_Q61 as int
    } else if y <= x {
        2 * clamp_half_pi(atan_q61((y * (ONE_Q61 as int) / x) as i64) as int)
    } else {
        PI_Q61 as int - 2 * clamp_half_pi(atan_q61((x * (ONE_Q61 as int) / y) as i64) as int)
    }
}

/// The haversine distance in whole meters over the named fixed-point
/// trigonometry: `a = sin^2(dphi/2) + cos(phi1) cos(phi2) sin^2(dlam/2)`,
/// `d = round(6_371_000 * 2 * atan2(sqrt(a), sqrt(1 - a)))`, clamped into
/// `[0, MAX_DISTANCE_METERS]`. Coincident points give zero by definition.
#[verifier::opaque]
pub open spec fn spec_haversine(lat1: int, lon1: int, lat2: int, lon2: int) -> u64 {
    if lat1 == lat2 && lon1 == lon2 {
        0u64
    } else {
        let hphi = spec_half_delta(lat1, lat2);
        let hlam = spec_half_delta(lon1, lon2);
        let s1 = clamp01(sin_q61(hphi as i64) as int);
        let s2 = clamp01(sin_q61(hlam as i64) as int);
        let c1 = clamp01(cos_q61(spec_fold_abs(lat1) as i64) as int);
        let c2 = clamp01(cos_q61(spec_fold_abs(lat2) as i64) as int);
        let a = clamp01(mul_q61(s1, s1) + mul_q61(mul_q61(c1, c2), mul_q61(s2, s2)));
        let c = spec_angle(a);
        let m = (6_371_000 * c + (ONE_Q61 as int) / 2) / (ONE_Q61 as int);
        if m > MAX_DISTANCE_METERS as int {
            MAX_DISTANCE_METERS
        } else {
            m as u64
        }
    }
}

/// The distance between two coordinates, as a spec value.
pub open spec fn spec_distance(a: Coordinates, b: Coordinates) -> u64 {
    spec_haversine(a.lat_e7 as int, a.lon_e7 as int, b.lat_e7 as int, b.lon_e7 as int)
}

/// No distance exceeds half the Earth's circumference.
pub proof fn lemma_distance_bound(a: Coordinates, b: Coordinates)
    ensures
        spec_distance(a, b) <= MAX_DISTANCE_METERS,
{
    reveal(spec_haversine);
}

/// The distance is symmetric, and is zero from a point to itself.
pub proof fn lemma_distance_round_trip(a: Coordinates, b: Coordinates)
    ensures
        spec_distance(a, a) == 0,
        spec_distance(a, b) == spec_distance(b, a),
{
    reveal(spec_haversine);
    assert(spec_half_delta(a.lat_e7 as int, b.lat_e7 as int) == spec_half_delta(
        b.lat_e7 as int,
        a.lat_e7 as int,
    ));
    assert(spec_half_delta(a.lon_e7 as int, b.lon_e7 as int) == spec_half_delta(
        b.lon_e7 as int,
        a.lon_e7 as int,
    ));
}

fn half_delta(a: i64, b: i64) -> (h: i64)
    ensures
        h as int == spec_half_delta(a as int, b as int),
        0 <= h < PI_Q61,
{
    let d: i128 = if a >= b {
        (a as i128) - (b as i128)
    } else {
        (b as i128) - (a as i128)
    };
    proof {
        assert(0 <= d <= 0xFFFF_FFFF_FFFF_FFFFi128);
        assert(d * (PI_Q61 as i128) <= 0xFFFF_FFFF_FFFF_FFFFi128 * (PI_Q61 as i128))
            by (nonlinear_arith)
            requires
                0 <= d <= 0xFFFF_FFFF_FFFF_FFFFi128,
        ;
        assert(d * (PI_Q61 as i128) >= 0) by (nonlinear_arith)
            requires
                d >= 0,
        ;
    }
    let rad: i128 = d * (PI_Q61 as i128) / (E7_PER_PI_RAD as i128);
    let red: i128 = rad % (2 * (PI_Q61 as i128));
    let h: i128 = red / 2;
    h as i64
}

fn fold_abs(x: i64) -> (f: i64)
    ensures
        f as int == spec_fold_abs(x as int),
        0 <= f <= PI_Q61,
{
    let d: i128 = if x >= 0 {
        x as i128
    } else {
        -(x as i128)
    };
    proof {
        assert(0 <= d <= 0xFFFF_FFFF_FFFF_FFFFi128);
        assert(d * (PI_Q61 as i128) <= 0xFFFF_FFFF_FFFF_FFFFi128 * (PI_Q61 as i128))
            by (nonlinear_arith)
            requires
                0 <= d <= 0xFFFF_FFFF_FFFF_FFFFi128,
        ;
        assert(d * (PI_Q61 as i128) >= 0) by (nonlinear_arith)
            requires
                d >= 0,
        ;
    }
    let rad: i128 = d * (PI_Q61 as i128) / (E7_PER_PI_RAD as i128);
    let red: i128 = rad % (2 * (PI_Q61 as i128));
    let f: i128 = if red > PI_Q61 as i128 {
        2 * (PI_Q61 as i128) - red
    } else {
        red
    };
    f as i64
}

fn clamp01_exec(x: i64) -> (r: i64)
    ensures
        r as int == clamp01(x as int),
        0 <= r <= ONE_Q61,
{
    if x < 0 {
        0
    } else if x > ONE_Q61 {
        ONE_Q61
    } else {
        x
    }
}

fn mul_q61_exec(x: i64, y: i64) -> (r: i64)
    requires
        0 <= x <= ONE_Q61,
        0 <= y <= ONE_Q61,
    ensures
        r as int == mul_q61(x as int, y as int),
        0 <= r <= ONE_Q61,
{
    proof {
        assert((x as int) * (y as int) <= (ONE_Q61 as int) * (ONE_Q61 as int)) by (nonlinear_arith)
            requires
                0 <= (x as int) <= (ONE_Q61 as int),
                0 <= (y as int) <= (ONE_Q61 as int),
        ;
        assert((x as int) * (y as int) >= 0) by (nonlinear_arith)
            requires
                0 <= (x as int),
                0 <= (y as int),
        ;
    }
    let p: i128 = (x as i128) * (y as i128) / (ONE_Q61 as i128);
    p as i64
}

/// Great-circle distance in whole meters. The distance is symmetric and is
/// zero between a point and itself.
pub fn distance(u: &Coordinates, v: &Coordinates) -> (d: u64)
    ensures
        d == spec_distance(*u, *v),
        d == spec_distance(*v, *u),
        *u == *v ==> d == 0,
        d <= MAX_DISTANCE_METERS,
{
    proof {
        reveal(spec_haversine);
        lemma_distance_round_trip(*u, *v);
    }
    if u.lat_e7 == v.lat_e7 && u.lon_e7 == v.lon_e7 {
        return 0;
    }
    let hphi = half_delta(u.lat_e7, v.lat_e7);
    let hlam = half_delta(u.lon_e7, v.lon_e7);
    let s1 = clamp01_exec(fx_sin(hphi));
    let s2 = clamp01_exec(fx_sin(hlam));
    let c1 = clamp01_exec(fx_cos(fold_abs(u.lat_e7)));
    let c2 = clamp01_exec(fx_cos(fold_abs(v.lat_e7)));
    let a = clamp01_exec({
        let ss = mul_q61_exec(s1, s1);
        let cc = mul_q61_exec(mul_q61_exec(c1, c2), mul_q61_exec(s2, s2));
        ss + cc
    });
    let c = central_angle(a);
    let m: i128 = (6_371_000i128 * (c as i128) + (ONE_Q61 as i128) / 2) / (ONE_Q61 as i128);
    if m > MAX_DISTANCE_METERS as i128 {
        MAX_DISTANCE_METERS
    } else {
        m as u64
    }
}

fn clamp_half_pi_exec(x: i64) -> (r: i64)
    ensures
        r as int == clamp_half_pi(x as int),
        0 <= r <= PI_Q61 / 2,
{
    if x < 0 {
        0
    } else if x > PI_Q61 / 2 {
        PI_Q61 / 2
    } else {
        x
    }
}

fn central_angle(a: i64) -> (c: i64)
    requires
        0 <= a <= ONE_Q61,
    ensures
        c as int == spec_angle(a as int),
        0 <= c <= PI_Q61,
{
    let y = clamp01_exec(fx_sqrt(a));
    let x = clamp01_exec(fx_sqrt(ONE_Q61 - a));
    if y == 0 {
        0
    } else if x == 0 {
        PI_Q61
    } else if y <= x {
        proof {
            vstd::arithmetic::div_mod::lemma_div_is_ordered(
                (y as int) * (ONE_Q61 as int),
                (x as int) * (ONE_Q61 as int),
                x as int,
            );
            vstd::arithmetic::div_mod::lemma_div_by_multiple(ONE_Q61 as int, x as int);
            assert((x as int) * (ONE_Q61 as int) == (ONE_Q61 as int) * (x as int));
            assert((y as int) * (ONE_Q61 as int) >= 0) by (nonlinear_arith)
                requires
                    y >= 0,
            ;
            assert((y as int) * (ONE_Q61 as int) <= (x as int) * (ONE_Q61 as int))
                by (nonlinear_arith)
                requires
                    0 <= (y as int) <= (x as int),
            ;
        }
        let q = ((y as i128) * (ONE_Q61 as i128) / (x as i128)) as i64;
        2 * clamp_half_pi_exec(fx_atan(q))
    } else {
        proof {
            vstd::arithmetic::div_mod::lemma_div_is_ordered(
                (x as int) * (ONE_Q61 as int),
                (y as int) * (ONE_Q61 as int),
                y as int,
            );
            vstd::arithmetic::div_mod::lemma_div_by_multiple(ONE_Q61 as int, y as int);
            assert((y as int) * (ONE_Q61 as int) == (ONE_Q61 as int) * (y as int));
            assert((x as int) * (ONE_Q61 as int) >= 0) by (nonlinear_arith)
                requires
                    x >= 0,
            ;
            assert((x as int) * (ONE_Q61 as int) <= (y as int) * (ONE_Q61 as int))
                by (nonlinear_arith)
                requires
                    0 <= (x as int) <= (y as int),
            ;
        }
        let q = ((x as i128) * (ONE_Q61 as i128) / (y as i128)) as i64;
        PI_Q61 - 2 * clamp_half_pi_exec(fx_atan(q))
    }
}

/// The index of the comma that separates latitude from longitude.
pub open spec fn comma_at(s: Seq<char>) -> int {
    first_index_of(s, ',')
}

pub open spec fn lat_part(s: Seq<char>) -> Seq<char> {
    s.subrange(0, comma_at(s))
}

pub open spec fn lon_part(s: Seq<char>) -> Seq<char> {
    s.subrange(comma_at(s) + 1, s.len() as int)
}

/// A well-formed query string: a decimal latitude and a decimal longitude
/// joined by one comma, both in range of the fixed-point representation.
pub open spec fn valid_coord_pair(s: Seq<char>) -> bool {
    &&& comma_at(s) < s.len()
    &&& valid_coord_str(lat_part(s))
    &&& valid_coord_str(lon_part(s))
    &&& i64::MIN <= coord_val_e7(lat_part(s)) <= i64::MAX
    &&& i64::MIN <= coord_val_e7(lon_part(s)) <= i64::MAX
}

impl Coordinates {
    /// Parses a `"<lat>,<lon>"` query string. Fails exactly when the string
    /// is not two in-range decimal numbers joined by a single comma.
    pub fn from_string(s: &str) -> (r: Option<Coordinates>)
        ensures
            match r {
                Some(c) => valid_coord_pair(s@) && c.lat_e7 as int == coord_val_e7(lat_part(s@))
                    && c.lon_e7 as int == coord_val_e7(lon_part(s@)),
                None => !valid_coord_pair(s@),
            },
    {
        proof {
            lemma_first_index_of(s@, ',');
        }
        let len = s.unicode_len();
        let mut k: usize = 0;
        while k < len && s.get_char(k) != ','
            invariant
                0 <= k <= len,
                forall|i: int| 0 <= i < k ==> s@[i] != ',',
            decreases len - k,
        {
            k = k + 1;
        }
        if k == len {
            proof {
                assert(comma_at(s@) == s@.len());
            }
            return None;
        }
        proof {
            assert(comma_at(s@) == k);
        }
        let lat_s = s.substring_char(0, k);
        let lon_s = s.substring_char(k + 1, len);
        let lat = match parse_coord_e7(lat_s) {
            Some(v) => v,
            None => {
                return None;
            },
        };
        let lon = match parse_coord_e7(lon_s) {
            Some(v) => v,
            None => {
                return None;
            },
        };
        Some(Coordinates { lat_e7: lat, lon_e7: lon })
    }
}

} // verus!
