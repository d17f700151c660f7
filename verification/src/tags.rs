//! OSM tag → model mapping: which ways are walkable, which nodes are cameras
//! (and of what class), which nodes are searchable places, and what a compass
//! point bearing means.
//!
//! Tags arrive as the `(key, value)` pairs of an OSM element. A key that
//! occurs more than once is read at its first occurrence.
use crate::model::{CameraKind, Place, PlaceKind, PlaceView};
use crate::places::{chars_eq, chars_of};
use vstd::prelude::*;

verus! {

/// String equality: true exactly when both hold the same characters.
pub(crate) fn str_eq(a: &str, b: &str) -> (r: bool)
    ensures
        r == (a@ == b@),
{
    chars_eq(&chars_of(a), &chars_of(b))
}

/// The characters of the tag pairs.
pub open spec fn tags_view(tags: Seq<(&str, &str)>) -> Seq<(Seq<char>, Seq<char>)> {
    tags.map_values(|p: (&str, &str)| (p.0@, p.1@))
}

/// The characters of an optional string.
pub open spec fn opt_view(v: Option<&str>) -> Option<Seq<char>> {
    match v {
        Some(s) => Some(s@),
        None => None,
    }
}

/// The value of the first tag whose key is `key`, if any.
pub open spec fn tag_value(t: Seq<(Seq<char>, Seq<char>)>, key: Seq<char>) -> Option<Seq<char>>
    decreases t.len(),
{
    if t.len() == 0 {
        None
    } else if t[0].0 == key {
        Some(t[0].1)
    } else {
        tag_value(t.drop_first(), key)
    }
}

/// The value of the first tag with key `key`.
pub fn get_tag<'a>(tags: &[(&'a str, &'a str)], key: &str) -> (r: Option<&'a str>)
    ensures
        opt_view(r) == tag_value(tags_view(tags@), key@),
{
    let mut i: usize = 0;
    assert(tags_view(tags@).skip(0) =~= tags_view(tags@));
    while i < tags.len()
        invariant
            0 <= i <= tags@.len(),
            tag_value(tags_view(tags@), key@) == tag_value(tags_view(tags@).skip(i as int), key@),
        decreases tags@.len() - i,
    {
        let (k, v) = tags[i];
        assert(tags_view(tags@).skip(i as int).drop_first() =~= tags_view(tags@).skip(i + 1));
        if str_eq(k, key) {
            return Some(v);
        }
        i = i + 1;
    }
    assert(tags_view(tags@).skip(i as int).len() == 0);
    None
}

/// Whether an optional tag value is exactly `lit`.
fn value_is(v: Option<&str>, lit: &str) -> (r: bool)
    ensures
        r == (opt_view(v) == Some(lit@)),
{
    match v {
        Some(s) => str_eq(s, lit),
        None => false,
    }
}

// ---------------------------------------------------------------------------
// Walkability
// ---------------------------------------------------------------------------

/// The `highway=*` classes a pedestrian may use.
pub open spec fn is_walkable_class(h: Seq<char>) -> bool {
    ||| h == "footway"@
    ||| h == "path"@
    ||| h == "pedestrian"@
    ||| h == "steps"@
    ||| h == "corridor"@
    ||| h == "living_street"@
    ||| h == "residential"@
    ||| h == "service"@
    ||| h == "track"@
    ||| h == "bridleway"@
    ||| h == "unclassified"@
    ||| h == "tertiary"@
    ||| h == "tertiary_link"@
    ||| h == "secondary"@
    ||| h == "secondary_link"@
    ||| h == "primary"@
    ||| h == "primary_link"@
    ||| h == "road"@
}

/// An explicit `foot=yes|designated|permissive`.
pub open spec fn foot_allows(foot: Option<Seq<char>>) -> bool {
    foot == Some("yes"@) || foot == Some("designated"@) || foot == Some("permissive"@)
}

/// An explicit `foot=no|private|use_sidepath`.
pub open spec fn foot_forbids(foot: Option<Seq<char>>) -> bool {
    foot == Some("no"@) || foot == Some("private"@) || foot == Some("use_sidepath"@)
}

/// A restrictive `access=no|private`.
pub open spec fn access_restricts(access: Option<Seq<char>>) -> bool {
    access == Some("no"@) || access == Some("private"@)
}

/// Whether a way with tags `t` is walkable on foot: a walkable `highway`
/// class (cycleways only when foot is explicitly allowed), not closed to
/// pedestrians by `foot`, and not closed by `access` unless `foot` opens it.
pub open spec fn spec_foot_accessible(t: Seq<(Seq<char>, Seq<char>)>) -> bool {
    match tag_value(t, "highway"@) {
        None => false,
        Some(h) => {
            let foot = tag_value(t, "foot"@);
            &&& is_walkable_class(h) || (h == "cycleway"@ && foot_allows(foot))
            &&& !foot_forbids(foot)
            &&& !(access_restricts(tag_value(t, "access"@)) && !foot_allows(foot))
        },
    }
}

fn walkable_class(h: &str) -> (r: bool)
    ensures
        r == is_walkable_class(h@),
{
    str_eq(h, "footway") || str_eq(h, "path") || str_eq(h, "pedestrian") || str_eq(h, "steps")
        || str_eq(h, "corridor") || str_eq(h, "living_street") || str_eq(h, "residential")
        || str_eq(h, "service") || str_eq(h, "track") || str_eq(h, "bridleway") || str_eq(
        h,
        "unclassified",
    ) || str_eq(h, "tertiary") || str_eq(h, "tertiary_link") || str_eq(h, "secondary")
        || str_eq(h, "secondary_link") || str_eq(h, "primary") || str_eq(h, "primary_link")
        || str_eq(h, "road")
}

/// Is this `highway=*` way walkable on foot?
///
/// Whitelist of walkable classes plus the usual German-city access rules:
/// explicit `foot=yes|designated|permissive` overrides restrictive `access`;
/// `foot=no|private|use_sidepath` always excludes; `access=no|private`
/// excludes unless foot explicitly allows. Cycleways only count when foot is
/// allowed.
pub fn foot_accessible(tags: &[(&str, &str)]) -> (r: bool)
    ensures
        r == spec_foot_accessible(tags_view(tags@)),
{
    let highway = match get_tag(tags, "highway") {
        Some(h) => h,
        None => return false,
    };
    let foot = get_tag(tags, "foot");
    let foot_allows = value_is(foot, "yes") || value_is(foot, "designated") || value_is(
        foot,
        "permissive",
    );
    let class_ok = walkable_class(highway) || (str_eq(highway, "cycleway") && foot_allows);
    if !class_ok {
        return false;
    }
    if value_is(foot, "no") || value_is(foot, "private") || value_is(foot, "use_sidepath") {
        return false;
    }
    let access = get_tag(tags, "access");
    if (value_is(access, "no") || value_is(access, "private")) && !foot_allows {
        return false;
    }
    true
}


// ---------------------------------------------------------------------------
// Cameras
// ---------------------------------------------------------------------------

/// The camera class a `camera:type` value names; anything else is `Unknown`.
pub open spec fn camera_type_kind(v: Option<Seq<char>>) -> CameraKind {
    if v == Some("dome"@) {
        CameraKind::Dome
    } else if v == Some("panning"@) {
        CameraKind::Panning
    } else if v == Some("fixed"@) {
        CameraKind::Fixed
    } else {
        CameraKind::Unknown
    }
}

/// Whether tags `t` describe a camera, and of which class: the element must
/// be `man_made=surveillance`, and `surveillance:type`, when present, must be
/// `camera` (guards, ALPR points and the like are not cameras).
pub open spec fn spec_camera_kind(t: Seq<(Seq<char>, Seq<char>)>) -> Option<CameraKind> {
    if tag_value(t, "man_made"@) != Some("surveillance"@) {
        None
    } else if tag_value(t, "surveillance:type"@) is Some && tag_value(t, "surveillance:type"@)
        != Some("camera"@) {
        None
    } else {
        Some(camera_type_kind(tag_value(t, "camera:type"@)))
    }
}

/// The camera class of an OSM element, or `None` when the element is not an
/// actual camera (see [`spec_camera_kind`]).
pub fn camera_kind_from_tags(tags: &[(&str, &str)]) -> (r: Option<CameraKind>)
    ensures
        r == spec_camera_kind(tags_view(tags@)),
{
    if !value_is(get_tag(tags, "man_made"), "surveillance") {
        return None;
    }
    let st = get_tag(tags, "surveillance:type");
    if st.is_some() && !value_is(st, "camera") {
        return None;
    }
    let ct = get_tag(tags, "camera:type");
    let kind = if value_is(ct, "dome") {
        CameraKind::Dome
    } else if value_is(ct, "panning") {
        CameraKind::Panning
    } else if value_is(ct, "fixed") {
        CameraKind::Fixed
    } else {
        CameraKind::Unknown
    };
    Some(kind)
}

/// Unicode's White_Space characters, those `char::is_whitespace` accepts:
/// U+0009..U+000D, U+0020, U+0085, U+00A0, U+1680, U+2000..U+200A, U+2028,
/// U+2029, U+202F, U+205F and U+3000.
pub open spec fn is_white_space(c: char) -> bool {
    let u = c as u32;
    ||| 0x09 <= u <= 0x0d
    ||| u == 0x20
    ||| u == 0x85
    ||| u == 0xa0
    ||| u == 0x1680
    ||| 0x2000 <= u <= 0x200a
    ||| u == 0x2028
    ||| u == 0x2029
    ||| u == 0x202f
    ||| u == 0x205f
    ||| u == 0x3000
}

/// `s` without its leading white space.
pub open spec fn trim_start(s: Seq<char>) -> Seq<char>
    decreases s.len(),
{
    if s.len() > 0 && is_white_space(s[0]) {
        trim_start(s.drop_first())
    } else {
        s
    }
}

/// `s` without its trailing white space.
pub open spec fn trim_end(s: Seq<char>) -> Seq<char>
    decreases s.len(),
{
    if s.len() > 0 && is_white_space(s.last()) {
        trim_end(s.drop_last())
    } else {
        s
    }
}

/// What `str::trim` returns for the characters `s`: `s` without leading and
/// trailing white space.
pub open spec fn trimmed(s: Seq<char>) -> Seq<char> {
    trim_end(trim_start(s))
}

/// Every character of `s` is white space.
pub open spec fn all_white_space(s: Seq<char>) -> bool {
    forall|i: int| 0 <= i < s.len() ==> is_white_space(#[trigger] s[i])
}

pub(crate) proof fn lemma_trim_start_skips(pre: Seq<char>, q: Seq<char>)
    requires
        all_white_space(pre),
    ensures
        trim_start(pre + q) == trim_start(q),
    decreases pre.len(),
{
    if pre.len() > 0 {
        assert((pre + q)[0] == pre[0]);
        assert((pre + q).drop_first() =~= pre.drop_first() + q);
        lemma_trim_start_skips(pre.drop_first(), q);
    } else {
        assert(pre + q =~= q);
    }
}

pub(crate) proof fn lemma_trim_end_skips(q: Seq<char>, post: Seq<char>)
    requires
        all_white_space(post),
    ensures
        trim_end(q + post) == trim_end(q),
    decreases post.len(),
{
    if post.len() > 0 {
        assert((q + post).last() == post.last());
        assert((q + post).drop_last() =~= q + post.drop_last());
        lemma_trim_end_skips(q, post.drop_last());
    } else {
        assert(q + post =~= q);
    }
}

proof fn lemma_trim_start_append(q: Seq<char>, post: Seq<char>)
    requires
        all_white_space(post),
    ensures
        trim_start(q + post) == (if trim_start(q).len() == 0 {
            Seq::<char>::empty()
        } else {
            trim_start(q) + post
        }),
    decreases q.len(),
{
    if q.len() == 0 {
        assert(q + post =~= post);
        lemma_trim_start_skips(post, Seq::<char>::empty());
        assert(post + Seq::<char>::empty() =~= post);
    } else {
        assert((q + post)[0] == q[0]);
        if is_white_space(q[0]) {
            assert((q + post).drop_first() =~= q.drop_first() + post);
            lemma_trim_start_append(q.drop_first(), post);
        }
    }
}

/// Trimming ignores white space added around a text.
pub(crate) proof fn lemma_trimmed_surrounding(pre: Seq<char>, q: Seq<char>, post: Seq<char>)
    requires
        all_white_space(pre),
        all_white_space(post),
    ensures
        trimmed(pre + q + post) == trimmed(q),
{
    assert(pre + q + post =~= pre + (q + post));
    lemma_trim_start_skips(pre, q + post);
    lemma_trim_start_append(q, post);
    if trim_start(q).len() > 0 {
        lemma_trim_end_skips(trim_start(q), post);
    }
}

/// `str::trim`: the string without leading and trailing white space (as
/// `char::is_whitespace` defines it).
#[verifier::external_body]
pub(crate) fn str_trim(s: &str) -> (r: &str)
    ensures
        r@ == trimmed(s@),
{
    s.trim()
}

/// What `str::to_uppercase` returns for the characters `s`.
pub uninterp spec fn uppercased(s: Seq<char>) -> Seq<char>;

/// `str::to_uppercase`: the Unicode upper-case mapping of the string.
#[verifier::external_body]
fn str_to_uppercase(s: &str) -> (r: String)
    ensures
        r@ == uppercased(s@),
{
    s.to_uppercase()
}

/// The bearing (degrees clockwise from north) of an upper-case compass point.
pub open spec fn compass_point_bearing(p: Seq<char>) -> Option<u32> {
    if p == "N"@ {
        Some(0)
    } else if p == "NE"@ {
        Some(45)
    } else if p == "E"@ {
        Some(90)
    } else if p == "SE"@ {
        Some(135)
    } else if p == "S"@ {
        Some(180)
    } else if p == "SW"@ {
        Some(225)
    } else if p == "W"@ {
        Some(270)
    } else if p == "NW"@ {
        Some(315)
    } else {
        None
    }
}

/// A `camera:direction` given as a compass point ("N", "sw", " E "...): its
/// bearing in degrees, read after trimming and upper-casing the value.
pub fn compass_point_deg(v: &str) -> (r: Option<u32>)
    ensures
        r == compass_point_bearing(uppercased(trimmed(v@))),
{
    let up = str_to_uppercase(str_trim(v));
    let u = up.as_str();
    if str_eq(u, "N") {
        Some(0)
    } else if str_eq(u, "NE") {
        Some(45)
    } else if str_eq(u, "E") {
        Some(90)
    } else if str_eq(u, "SE") {
        Some(135)
    } else if str_eq(u, "S") {
        Some(180)
    } else if str_eq(u, "SW") {
        Some(225)
    } else if str_eq(u, "W") {
        Some(270)
    } else if str_eq(u, "NW") {
        Some(315)
    } else {
        None
    }
}

// ---------------------------------------------------------------------------
// Places
// ---------------------------------------------------------------------------

/// The `place=*` values that count as a searchable locality.
pub open spec fn is_locality(p: Seq<char>) -> bool {
    ||| p == "city"@
    ||| p == "borough"@
    ||| p == "suburb"@
    ||| p == "quarter"@
    ||| p == "neighbourhood"@
    ||| p == "town"@
    ||| p == "village"@
}

/// A railway station or halt, or a public-transport station.
pub open spec fn is_station(t: Seq<(Seq<char>, Seq<char>)>) -> bool {
    ||| tag_value(t, "railway"@) == Some("station"@)
    ||| tag_value(t, "railway"@) == Some("halt"@)
    ||| tag_value(t, "public_transport"@) == Some("station"@)
}

/// The kind of searchable place tags `t` describe, if any: a named locality,
/// else a named station. Everything else (shops, benches, ...) is not indexed.
pub open spec fn spec_place_kind(t: Seq<(Seq<char>, Seq<char>)>) -> Option<PlaceKind> {
    if tag_value(t, "name"@) is None {
        None
    } else if tag_value(t, "place"@) is Some && is_locality(tag_value(t, "place"@)->0) {
        Some(PlaceKind::Locality)
    } else if is_station(t) {
        Some(PlaceKind::Station)
    } else {
        None
    }
}

fn locality_value(p: &str) -> (r: bool)
    ensures
        r == is_locality(p@),
{
    str_eq(p, "city") || str_eq(p, "borough") || str_eq(p, "suburb") || str_eq(p, "quarter")
        || str_eq(p, "neighbourhood") || str_eq(p, "town") || str_eq(p, "village")
}

/// The searchable place tags `t` describe at the given coordinate, if any.
pub open spec fn spec_place_from_tags(
    lat_bits: u64,
    lon_bits: u64,
    t: Seq<(Seq<char>, Seq<char>)>,
) -> Option<PlaceView> {
    match spec_place_kind(t) {
        Some(kind) => Some(PlaceView { name: tag_value(t, "name"@)->0, kind, lat_bits, lon_bits }),
        None => None,
    }
}

/// Localities and transit stops worth searching for. Deliberately narrow:
/// every shop and bench in OSM would bury the names people navigate by.
pub fn place_from_tags(lat_bits: u64, lon_bits: u64, tags: &[(&str, &str)]) -> (r: Option<Place>)
    ensures
        match spec_place_from_tags(lat_bits, lon_bits, tags_view(tags@)) {
            Some(pv) => r is Some && r->0@ == pv,
            None => r is None,
        },
{
    let name = match get_tag(tags, "name") {
        Some(n) => n,
        None => return None,
    };
    let place = get_tag(tags, "place");
    let is_loc = match place {
        Some(p) => locality_value(p),
        None => false,
    };
    let kind = if is_loc {
        PlaceKind::Locality
    } else {
        let railway = get_tag(tags, "railway");
        let station = value_is(railway, "station") || value_is(railway, "halt") || value_is(
            get_tag(tags, "public_transport"),
            "station",
        );
        if station {
            PlaceKind::Station
        } else {
            return None;
        }
    };
    Some(Place { name: name.to_owned(), kind, lat_bits, lon_bits })
}


// ---------------------------------------------------------------------------
// Laws
// ---------------------------------------------------------------------------

/// The access rules of walkability: no `highway` tag, no way; an explicit
/// `foot=no|private|use_sidepath` always excludes; an explicit
/// `foot=yes|designated|permissive` on a walkable class overrides a
/// restrictive `access`; cycleways count exactly when foot is allowed; and
/// classes outside the whitelist (motorways, trunk roads) never count.
pub proof fn lemma_walkability_rules(t: Seq<(Seq<char>, Seq<char>)>)
    ensures
        tag_value(t, "highway"@) is None ==> !spec_foot_accessible(t),
        foot_forbids(tag_value(t, "foot"@)) ==> !spec_foot_accessible(t),
        tag_value(t, "highway"@) is Some && is_walkable_class(tag_value(t, "highway"@)->0) && foot_allows(
            tag_value(t, "foot"@),
        ) ==> spec_foot_accessible(t),
        tag_value(t, "highway"@) == Some("cycleway"@) ==> (spec_foot_accessible(t) <==> foot_allows(
            tag_value(t, "foot"@),
        )),
        tag_value(t, "highway"@) is Some && !is_walkable_class(tag_value(t, "highway"@)->0)
            && tag_value(t, "highway"@) != Some("cycleway"@) ==> !spec_foot_accessible(t),
{
    reveal_strlit("cycleway");
    reveal_strlit("footway");
    reveal_strlit("path");
    reveal_strlit("pedestrian");
    reveal_strlit("steps");
    reveal_strlit("corridor");
    reveal_strlit("living_street");
    reveal_strlit("residential");
    reveal_strlit("service");
    reveal_strlit("track");
    reveal_strlit("bridleway");
    reveal_strlit("unclassified");
    reveal_strlit("tertiary");
    reveal_strlit("tertiary_link");
    reveal_strlit("secondary");
    reveal_strlit("secondary_link");
    reveal_strlit("primary");
    reveal_strlit("primary_link");
    reveal_strlit("road");
    reveal_strlit("yes");
    reveal_strlit("designated");
    reveal_strlit("permissive");
    reveal_strlit("no");
    reveal_strlit("private");
    reveal_strlit("use_sidepath");
    assert("footway"@.len() == 7);
    assert("path"@.len() == 4);
    assert("pedestrian"@.len() == 10);
    assert("steps"@.len() == 5);
    assert("cycleway"@[1] != "corridor"@[1]);
    assert("living_street"@.len() == 13);
    assert("residential"@.len() == 11);
    assert("service"@.len() == 7);
    assert("track"@.len() == 5);
    assert("bridleway"@.len() == 9);
    assert("unclassified"@.len() == 12);
    assert("cycleway"@[0] != "tertiary"@[0]);
    assert("tertiary_link"@.len() == 13);
    assert("secondary"@.len() == 9);
    assert("secondary_link"@.len() == 14);
    assert("primary"@.len() == 7);
    assert("primary_link"@.len() == 12);
    assert("road"@.len() == 4);
    assert("yes"@.len() == 3);
    assert("designated"@.len() == 10);
    assert("permissive"@.len() == 10);
    assert("no"@.len() == 2);
    assert("private"@.len() == 7);
    assert("use_sidepath"@.len() == 12);
    assert("cycleway"@.len() == 8);
    assert(!is_walkable_class("cycleway"@));
}

/// The camera rules: only `man_made=surveillance` elements are cameras; a
/// missing `surveillance:type` counts as a camera, an explicit non-camera
/// type (a guard, an ALPR point) does not.
pub proof fn lemma_camera_rules(t: Seq<(Seq<char>, Seq<char>)>)
    ensures
        tag_value(t, "man_made"@) != Some("surveillance"@) ==> spec_camera_kind(t) is None,
        tag_value(t, "man_made"@) == Some("surveillance"@) && tag_value(t, "surveillance:type"@) is None
            ==> spec_camera_kind(t) is Some,
        tag_value(t, "surveillance:type"@) == Some("guard"@) ==> spec_camera_kind(t) is None,
        tag_value(t, "surveillance:type"@) == Some("ALPR"@) ==> spec_camera_kind(t) is None,
{
    reveal_strlit("guard");
    reveal_strlit("ALPR");
    reveal_strlit("camera");
    assert("guard"@.len() == 5);
    assert("ALPR"@.len() == 4);
    assert("camera"@.len() == 6);
}

/// The walkable classes: a way whose only access-related tag is
/// `highway=h` is walkable exactly when `h` is footway, path, pedestrian,
/// steps, corridor, living_street, residential, service, track, bridleway,
/// unclassified, tertiary, tertiary_link, secondary, secondary_link, primary,
/// primary_link or road.
pub proof fn lemma_walkable_classes(t: Seq<(Seq<char>, Seq<char>)>, h: Seq<char>)
    requires
        tag_value(t, "highway"@) == Some(h),
        tag_value(t, "foot"@) is None,
        tag_value(t, "access"@) is None,
    ensures
        spec_foot_accessible(t) <==> (h == "footway"@ || h == "path"@ || h == "pedestrian"@
            || h == "steps"@ || h == "corridor"@ || h == "living_street"@ || h == "residential"@
            || h == "service"@ || h == "track"@ || h == "bridleway"@ || h == "unclassified"@
            || h == "tertiary"@ || h == "tertiary_link"@ || h == "secondary"@
            || h == "secondary_link"@ || h == "primary"@ || h == "primary_link"@ || h == "road"@),
{
}

/// The locality classes: a named node tagged `place=v`, for v one of city,
/// borough, suburb, quarter, neighbourhood, town or village, is a searchable
/// locality, under its name and at the node's own coordinate.
pub proof fn lemma_locality_places(
    lat_bits: u64,
    lon_bits: u64,
    t: Seq<(Seq<char>, Seq<char>)>,
    v: Seq<char>,
)
    requires
        tag_value(t, "name"@) is Some,
        tag_value(t, "place"@) == Some(v),
        v == "city"@ || v == "borough"@ || v == "suburb"@ || v == "quarter"@ || v == "neighbourhood"@
            || v == "town"@ || v == "village"@,
    ensures
        spec_place_from_tags(lat_bits, lon_bits, t) == Some(
            PlaceView { name: tag_value(t, "name"@)->0, kind: PlaceKind::Locality, lat_bits, lon_bits },
        ),
{
}

/// Every searchable place sits at the coordinate it was read with and
/// carries the element's `name`; only named elements are places.
pub proof fn lemma_place_at_its_coordinate(lat_bits: u64, lon_bits: u64, t: Seq<(Seq<char>, Seq<char>)>)
    ensures
        spec_place_from_tags(lat_bits, lon_bits, t) matches Some(p) ==> {
            &&& p.lat_bits == lat_bits
            &&& p.lon_bits == lon_bits
            &&& tag_value(t, "name"@) == Some(p.name)
        },
{
}

/// The foot and access values: a way of a walkable class (or a cycleway) is
/// closed by `foot=no`, `foot=private` or `foot=use_sidepath`; it is closed by
/// `access=no` or `access=private` unless `foot=yes`, `foot=designated` or
/// `foot=permissive` opens it; a cycleway needs one of those three foot
/// values; nothing else matters.
pub proof fn lemma_foot_and_access_values(
    t: Seq<(Seq<char>, Seq<char>)>,
    h: Seq<char>,
    foot: Option<Seq<char>>,
    access: Option<Seq<char>>,
)
    requires
        tag_value(t, "highway"@) == Some(h),
        tag_value(t, "foot"@) == foot,
        tag_value(t, "access"@) == access,
    ensures
        ({
            let opens = foot == Some("yes"@) || foot == Some("designated"@) || foot == Some("permissive"@);
            let listed = h == "footway"@ || h == "path"@ || h == "pedestrian"@ || h == "steps"@
                || h == "corridor"@ || h == "living_street"@ || h == "residential"@ || h == "service"@
                || h == "track"@ || h == "bridleway"@ || h == "unclassified"@ || h == "tertiary"@
                || h == "tertiary_link"@ || h == "secondary"@ || h == "secondary_link"@
                || h == "primary"@ || h == "primary_link"@ || h == "road"@;
            spec_foot_accessible(t) <==> {
                &&& listed || (h == "cycleway"@ && opens)
                &&& !(foot == Some("no"@) || foot == Some("private"@) || foot == Some("use_sidepath"@))
                &&& !((access == Some("no"@) || access == Some("private"@)) && !opens)
            }
        }),
{
}

/// The camera classes: for an actual camera (`man_made=surveillance`, with
/// `surveillance:type` absent or `camera`), `camera:type=dome` gives a dome,
/// `panning` a panning camera, `fixed` a fixed camera, and any other value or
/// none an unknown class.
pub proof fn lemma_camera_classes(t: Seq<(Seq<char>, Seq<char>)>, ty: Option<Seq<char>>)
    requires
        tag_value(t, "man_made"@) == Some("surveillance"@),
        tag_value(t, "surveillance:type"@) is None || tag_value(t, "surveillance:type"@) == Some("camera"@),
        tag_value(t, "camera:type"@) == ty,
    ensures
        ty == Some("dome"@) ==> spec_camera_kind(t) == Some(CameraKind::Dome),
        ty == Some("panning"@) ==> spec_camera_kind(t) == Some(CameraKind::Panning),
        ty == Some("fixed"@) ==> spec_camera_kind(t) == Some(CameraKind::Fixed),
        ty != Some("dome"@) && ty != Some("panning"@) && ty != Some("fixed"@) ==> spec_camera_kind(t)
            == Some(CameraKind::Unknown),
{
    reveal_strlit("dome");
    reveal_strlit("panning");
    reveal_strlit("fixed");
    assert("dome"@.len() == 4 && "panning"@.len() == 7 && "fixed"@.len() == 5);
    assert("dome"@[0] != "fixed"@[0]);
}

/// The station rule: a named node that is not a locality is a searchable
/// station when it is tagged `railway=station`, `railway=halt` or
/// `public_transport=station`, and is not searchable otherwise.
pub proof fn lemma_station_places(lat_bits: u64, lon_bits: u64, t: Seq<(Seq<char>, Seq<char>)>)
    requires
        tag_value(t, "name"@) is Some,
        !(tag_value(t, "place"@) == Some("city"@) || tag_value(t, "place"@) == Some("borough"@)
            || tag_value(t, "place"@) == Some("suburb"@) || tag_value(t, "place"@) == Some("quarter"@)
            || tag_value(t, "place"@) == Some("neighbourhood"@) || tag_value(t, "place"@) == Some("town"@)
            || tag_value(t, "place"@) == Some("village"@)),
    ensures
        ({
            let station = tag_value(t, "railway"@) == Some("station"@) || tag_value(t, "railway"@) == Some(
                "halt"@,
            ) || tag_value(t, "public_transport"@) == Some("station"@);
            &&& station ==> spec_place_from_tags(lat_bits, lon_bits, t) == Some(
                PlaceView { name: tag_value(t, "name"@)->0, kind: PlaceKind::Station, lat_bits, lon_bits },
            )
            &&& !station ==> spec_place_from_tags(lat_bits, lon_bits, t) is None
        }),
{
}

/// The eight compass points, clockwise from north, lie 45 degrees apart:
/// N is 0, NE 45, E 90, ..., NW 315; nothing else is a compass point.
pub proof fn lemma_compass_points(p: Seq<char>)
    ensures
        ({
            let points = seq!["N"@, "NE"@, "E"@, "SE"@, "S"@, "SW"@, "W"@, "NW"@];
            &&& forall|k: int| 0 <= k < 8 ==> compass_point_bearing(#[trigger] points[k]) == Some((45 * k) as u32)
            &&& compass_point_bearing(p) is Some <==> points.contains(p)
        }),
{
    let points = seq!["N"@, "NE"@, "E"@, "SE"@, "S"@, "SW"@, "W"@, "NW"@];
    reveal_strlit("N");
    reveal_strlit("NE");
    reveal_strlit("E");
    reveal_strlit("SE");
    reveal_strlit("S");
    reveal_strlit("SW");
    reveal_strlit("W");
    reveal_strlit("NW");
    assert forall|k: int| 0 <= k < 8 implies compass_point_bearing(#[trigger] points[k]) == Some(
        (45 * k) as u32,
    ) by {
        if k == 0 {
        } else if k == 1 {
            assert("NE"@.len() != "N"@.len());
        } else if k == 2 {
            assert("E"@[0] != "N"@[0]);
            assert("E"@.len() != "NE"@.len());
        } else if k == 3 {
            assert("SE"@.len() != "N"@.len() && "SE"@[0] != "NE"@[0] && "SE"@.len() != "E"@.len());
        } else if k == 4 {
            assert("S"@[0] != "N"@[0] && "S"@.len() != "NE"@.len() && "S"@[0] != "E"@[0] && "S"@.len()
                != "SE"@.len());
        } else if k == 5 {
            assert("SW"@.len() != "N"@.len() && "SW"@[0] != "NE"@[0] && "SW"@.len() != "E"@.len()
                && "SW"@[1] != "SE"@[1] && "SW"@.len() != "S"@.len());
        } else if k == 6 {
            assert("W"@[0] != "N"@[0] && "W"@.len() != "NE"@.len() && "W"@[0] != "E"@[0] && "W"@.len()
                != "SE"@.len() && "W"@[0] != "S"@[0] && "W"@.len() != "SW"@.len());
        } else {
            assert("NW"@.len() != "N"@.len() && "NW"@[1] != "NE"@[1] && "NW"@.len() != "E"@.len()
                && "NW"@[0] != "SE"@[0] && "NW"@.len() != "S"@.len() && "NW"@[0] != "SW"@[0]
                && "NW"@.len() != "W"@.len());
        }
    }
    if compass_point_bearing(p) is Some {
        if p == "N"@ {
            assert(points[0] == p);
        } else if p == "NE"@ {
            assert(points[1] == p);
        } else if p == "E"@ {
            assert(points[2] == p);
        } else if p == "SE"@ {
            assert(points[3] == p);
        } else if p == "S"@ {
            assert(points[4] == p);
        } else if p == "SW"@ {
            assert(points[5] == p);
        } else if p == "W"@ {
            assert(points[6] == p);
        } else {
            assert(points[7] == p);
        }
    }
    if points.contains(p) {
        let k = choose|k: int| 0 <= k < 8 && points[k] == p;
        assert(compass_point_bearing(points[k]) is Some);
    }
}

} // verus!
