//! Building a [`Camera`] record from the tags of an OSM node.
//!
//! The record carries its angles and distances as binary64 bit patterns. The
//! defaults and compass bearings are whole numbers, so their bit patterns are
//! computed here exactly, by integer arithmetic.
use crate::defaults::{half_fov_deg, range_m, spec_range_m};
use crate::model::{Camera, CameraKind};
use crate::tags::{
    camera_kind_from_tags, compass_point_bearing, compass_point_deg, get_tag,
    spec_camera_kind, tag_value, tags_view, trimmed, uppercased,
};
use vstd::prelude::*;

verus! {

/// `2^k`.
pub open spec fn two_to(k: nat) -> nat
    decreases k,
{
    if k == 0 {
        1
    } else {
        2 * two_to((k - 1) as nat)
    }
}

/// The position of the highest set bit of `n >= 1`: the `e` with
/// `2^e <= n < 2^(e+1)`.
pub open spec fn top_bit(n: nat) -> nat
    decreases n,
{
    if n <= 1 {
        0
    } else {
        1 + top_bit(n / 2)
    }
}

/// The IEEE-754 binary64 bit pattern of the whole number `n` (exact for
/// `n < 2^53`). Zero is all bits clear. Otherwise the sign bit is clear, the
/// biased exponent is `1023 + e` and the 52-bit fraction is
/// `n * 2^(52 - e) - 2^52`, where `e` is the top bit of `n`.
pub open spec fn whole_bits(n: nat) -> int {
    if n == 0 {
        0
    } else {
        (1023 + top_bit(n)) * two_to(52) + n * two_to((52 - top_bit(n)) as nat) - two_to(52)
    }
}

proof fn lemma_top_bit(n: nat)
    requires
        n >= 1,
    ensures
        two_to(top_bit(n)) <= n < two_to(top_bit(n) + 1),
    decreases n,
{
    if n > 1 {
        lemma_top_bit(n / 2);
        assert(two_to(top_bit(n) + 1) == 2 * two_to(top_bit(n)));
    }
}

proof fn lemma_two_to_mono(a: nat, b: nat)
    requires
        a <= b,
    ensures
        two_to(a) <= two_to(b),
    decreases b,
{
    if a < b {
        lemma_two_to_mono(a, (b - 1) as nat);
    }
}

proof fn lemma_two_to_values()
    ensures
        two_to(32) == 0x1_0000_0000,
        two_to(52) == 0x10_0000_0000_0000,
        two_to(53) == 0x20_0000_0000_0000,
{
    reveal_with_fuel(two_to, 54);
}

/// The binary64 bit pattern of a whole number (what `f64::from(n).to_bits()`
/// gives).
pub fn whole_to_bits(n: u32) -> (b: u64)
    ensures
        b == whole_bits(n as nat),
{
    if n == 0 {
        return 0;
    }
    proof {
        lemma_two_to_values();
        lemma_top_bit(n as nat);
        if top_bit(n as nat) >= 32 {
            lemma_two_to_mono(32, top_bit(n as nat));
        }
    }
    let ghost t = top_bit(n as nat);
    let mut rest: u32 = n;
    let mut e: u64 = 0;
    while rest > 1
        invariant
            1 <= rest <= n,
            t == top_bit(n as nat),
            t < 32,
            e + top_bit(rest as nat) == t,
        decreases rest,
    {
        rest = rest / 2;
        e = e + 1;
    }
    assert(e == t);
    let mut m: u64 = n as u64;
    let mut k: u64 = e;
    assert(((k - e) as nat) == 0nat);
    assert(two_to(0) == 1);
    assert(n * two_to((k - e) as nat) == n) by (nonlinear_arith)
        requires
            two_to((k - e) as nat) == 1,
    ;
    while k < 52
        invariant
            e <= k <= 52,
            e == t,
            t == top_bit(n as nat),
            two_to(52) == 0x10_0000_0000_0000,
            m == n * two_to((k - e) as nat),
            two_to(k as nat) <= m < two_to((k + 1) as nat),
        decreases 52 - k,
    {
        proof {
            lemma_two_to_mono((k + 1) as nat, 52);
            let x = two_to((k - e) as nat);
            assert(two_to((k + 1 - e) as nat) == 2 * x);
            assert(n * (2 * x) == 2 * (n * x)) by (nonlinear_arith);
            assert(two_to((k + 2) as nat) == 2 * two_to((k + 1) as nat));
        }
        m = m * 2;
        k = k + 1;
    }
    proof {
        assert(two_to(53) == 0x20_0000_0000_0000);
    }
    (1023 + e) * 0x10_0000_0000_0000 + (m - 0x10_0000_0000_0000)
}

/// The direction a camera faces, as binary64 bits, for the value of its
/// `camera:direction` tag: the number that value reads as (`numeric`), else
/// the bearing of the compass point it names, else none.
pub open spec fn spec_direction(value: Option<Seq<char>>, numeric: Option<u64>) -> Option<u64> {
    match value {
        None => None,
        Some(v) => if numeric is Some {
            numeric
        } else {
            match compass_point_bearing(uppercased(trimmed(v))) {
                Some(d) => Some(whole_bits(d as nat) as u64),
                None => None,
            }
        },
    }
}

/// The camera that tags `t` describe at the given node, if they describe an
/// actual camera: its class decides the default range, every class gets the
/// default half field-of-view, and the direction comes from
/// `camera:direction`.
pub open spec fn spec_camera(
    osm_id: i64,
    lat_bits: u64,
    lon_bits: u64,
    t: Seq<(Seq<char>, Seq<char>)>,
    numeric: Option<u64>,
) -> Option<Camera> {
    match spec_camera_kind(t) {
        None => None,
        Some(kind) => Some(
            Camera {
                osm_id,
                lat_bits,
                lon_bits,
                kind,
                direction_bits: spec_direction(tag_value(t, "camera:direction"@), numeric),
                half_fov_bits: whole_bits(30) as u64,
                range_bits: whole_bits(spec_range_m(kind) as nat) as u64,
            },
        ),
    }
}

/// Maps OSM surveillance tags onto a [`Camera`], or `None` for nodes that are
/// not cameras (see [`spec_camera_kind`]).
///
/// `numeric_direction` is the `camera:direction` value read as a number of
/// degrees and brought into `[0, 360)`, as binary64 bits, when that value
/// reads as a number; `None` when it does not. A value that is not a number
/// may still name a compass point ("N", "SW", ...).
pub fn camera_from_tags(
    osm_id: i64,
    lat_bits: u64,
    lon_bits: u64,
    tags: &[(&str, &str)],
    numeric_direction: Option<u64>,
) -> (r: Option<Camera>)
    ensures
        r == spec_camera(osm_id, lat_bits, lon_bits, tags_view(tags@), numeric_direction),
{
    let kind = match camera_kind_from_tags(tags) {
        Some(k) => k,
        None => return None,
    };
    let direction_bits = match get_tag(tags, "camera:direction") {
        None => None,
        Some(v) => match numeric_direction {
            Some(d) => Some(d),
            None => match compass_point_deg(v) {
                Some(d) => Some(whole_to_bits(d)),
                None => None,
            },
        },
    };
    Some(
        Camera {
            osm_id,
            lat_bits,
            lon_bits,
            kind,
            direction_bits,
            half_fov_bits: whole_to_bits(half_fov_deg(kind)),
            range_bits: whole_to_bits(range_m(kind)),
        },
    )
}

/// A camera record keeps the node's id and coordinate and the class its tags
/// give, has a 30-degree half field of view, and an assumed range of 25 m for
/// a fixed camera, 30 m for a panning one and 20 m for a dome or an unknown
/// class.
pub proof fn lemma_camera_record(
    osm_id: i64,
    lat_bits: u64,
    lon_bits: u64,
    t: Seq<(Seq<char>, Seq<char>)>,
    numeric: Option<u64>,
)
    ensures
        spec_camera(osm_id, lat_bits, lon_bits, t, numeric) is Some <==> spec_camera_kind(t) is Some,
        spec_camera(osm_id, lat_bits, lon_bits, t, numeric) matches Some(c) ==> {
            &&& c.osm_id == osm_id
            &&& c.lat_bits == lat_bits
            &&& c.lon_bits == lon_bits
            &&& Some(c.kind) == spec_camera_kind(t)
            &&& c.half_fov_bits == whole_bits(30) as u64
            &&& c.range_bits == whole_bits(
                if c.kind == CameraKind::Fixed {
                    25
                } else if c.kind == CameraKind::Panning {
                    30
                } else {
                    20
                },
            ) as u64
        },
{
}

} // verus!
