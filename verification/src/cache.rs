//! On-disk cache of the fully built, exposure-scored graph.
//!
//! Building a router from an extract runs an exposure pass over every edge;
//! the cache stores the four flat inputs the router is assembled from so a
//! later launch can skip that pass. The format is a little-endian binary blob:
//!
//! ```text
//! "SWGC" | version: u32 | fingerprint: u64
//! | node count: u64 | nodes | edge count: u64 | edges
//! | camera count: u64 | cameras | place count: u64 | places
//! ```
//!
//! A node is `id, lat, lon` (three u64); an edge is `from, to, length,
//! exposure` (four u64); a camera is `osm_id: i64, lat, lon, kind: u8,
//! direction tag: u8 (0 none, 1 some) [direction: u64], half_fov, range`; a
//! place is `name length: u32, name (UTF-8), kind: u8, lat, lon`.
//!
//! The decoder accepts exactly the encodings of the current version and the
//! expected fingerprint; everything else is an error, so the caller rebuilds.
use crate::model::{views, Camera, CameraKind, Edge, Node, Place, PlaceKind, PlaceView};
use vstd::bytes::*;
use vstd::prelude::*;
use vstd::slice::slice_subrange;
use vstd::utf8::*;

verus! {

broadcast use vstd::seq_lib::group_seq_properties;

// ---------------------------------------------------------------------------
// Errors
// ---------------------------------------------------------------------------

/// The I/O error kind a rejected cache is reported under.
#[derive(Debug, Clone, Copy, PartialEq, Eq, Structural)]
pub enum ErrorKind {
    /// The bytes are not a current, valid cache (including a short read).
    InvalidData,
}

/// Why a cache was rejected.
#[derive(Debug, Clone, Copy, PartialEq, Eq, Structural)]
pub enum CacheError {
    /// The first four bytes are not the cache magic.
    NotACacheFile,
    /// The format version differs from [`VERSION`].
    VersionMismatch,
    /// The cache was written for another source extract.
    Stale,
    /// A camera kind tag is out of range.
    InvalidCameraKind,
    /// A camera direction tag is neither 0 nor 1.
    InvalidDirectionTag,
    /// A place kind tag is out of range.
    InvalidPlaceKind,
    /// A place name is not UTF-8.
    NameNotUtf8,
    /// The data ends early.
    Truncated,
}

/// The description of each error.
pub open spec fn error_message(e: CacheError) -> Seq<char> {
    match e {
        CacheError::NotACacheFile => "not a Schattenweg cache file"@,
        CacheError::VersionMismatch => "cache version mismatch"@,
        CacheError::Stale => "cache is stale (source extract changed)"@,
        CacheError::InvalidCameraKind => "invalid camera kind tag"@,
        CacheError::InvalidDirectionTag => "invalid camera direction tag"@,
        CacheError::InvalidPlaceKind => "invalid place kind tag"@,
        CacheError::NameNotUtf8 => "place name is not UTF-8"@,
        CacheError::Truncated => "failed to fill whole buffer"@,
    }
}

impl CacheError {
    /// The error kind: every rejection, a short read included, is invalid
    /// data.
    pub fn kind(&self) -> (k: ErrorKind)
        ensures
            k == ErrorKind::InvalidData,
    {
        ErrorKind::InvalidData
    }

    /// A short description of the error.
    pub fn message(&self) -> (s: &'static str)
        ensures
            s@ == error_message(*self),
    {
        match self {
            CacheError::NotACacheFile => "not a Schattenweg cache file",
            CacheError::VersionMismatch => "cache version mismatch",
            CacheError::Stale => "cache is stale (source extract changed)",
            CacheError::InvalidCameraKind => "invalid camera kind tag",
            CacheError::InvalidDirectionTag => "invalid camera direction tag",
            CacheError::InvalidPlaceKind => "invalid place kind tag",
            CacheError::NameNotUtf8 => "place name is not UTF-8",
            CacheError::Truncated => "failed to fill whole buffer",
        }
    }
}

// ---------------------------------------------------------------------------
// Little-endian integers
// ---------------------------------------------------------------------------

/// The 4 little-endian bytes of `x`.
pub open spec fn le_u32(x: u32) -> Seq<u8> {
    spec_u32_to_le_bytes(x)
}

/// The 8 little-endian bytes of `x`.
pub open spec fn le_u64(x: u64) -> Seq<u8> {
    spec_u64_to_le_bytes(x)
}

/// The u32 stored little-endian at `pos`.
pub open spec fn u32_at(b: Seq<u8>, pos: int) -> u32 {
    spec_u32_from_le_bytes(b.subrange(pos, pos + 4))
}

/// The u64 stored little-endian at `pos`.
pub open spec fn u64_at(b: Seq<u8>, pos: int) -> u64 {
    spec_u64_from_le_bytes(b.subrange(pos, pos + 8))
}

/// Reading back the bytes of an integer gives the integer, and the bytes of
/// an integer read from 8 (4) bytes are those bytes.
pub proof fn lemma_le_roundtrip()
    ensures
        forall|x: u64| #![trigger le_u64(x)] le_u64(x).len() == 8 && spec_u64_from_le_bytes(le_u64(x)) == x,
        forall|s: Seq<u8>| #![trigger spec_u64_from_le_bytes(s)] s.len() == 8 ==> le_u64(spec_u64_from_le_bytes(s)) == s,
        forall|x: u32| #![trigger le_u32(x)] le_u32(x).len() == 4 && spec_u32_from_le_bytes(le_u32(x)) == x,
        forall|s: Seq<u8>| #![trigger spec_u32_from_le_bytes(s)] s.len() == 4 ==> le_u32(spec_u32_from_le_bytes(s)) == s,
{
    lemma_auto_spec_u64_to_from_le_bytes();
    lemma_auto_spec_u32_to_from_le_bytes();
    assert forall|x: u32| #![trigger le_u32(x)]
        le_u32(x).len() == 4 && spec_u32_from_le_bytes(le_u32(x)) == x by {
        assert(spec_u32_to_le_bytes(x).len() == 4);
    }
    assert forall|s: Seq<u8>| #![trigger spec_u32_from_le_bytes(s)]
        s.len() == 4 implies le_u32(spec_u32_from_le_bytes(s)) == s by {
        assert(spec_u32_to_le_bytes(spec_u32_from_le_bytes(s)) == s);
    }
}

/// If `b` holds `enc` at `pos`, a read of 8 bytes at `pos + k` sees the
/// corresponding 8 bytes of `enc`.
proof fn lemma_window(b: Seq<u8>, pos: int, enc: Seq<u8>, k: int, n: int)
    requires
        0 <= pos,
        pos + enc.len() <= b.len(),
        b.subrange(pos, pos + enc.len()) == enc,
        0 <= k,
        k + n <= enc.len(),
        0 <= n,
    ensures
        b.subrange(pos + k, pos + k + n) == enc.subrange(k, k + n),
{
    assert(b.subrange(pos + k, pos + k + n) =~= b.subrange(pos, pos + enc.len()).subrange(k, k + n));
}

fn write_u32(w: &mut Vec<u8>, v: u32)
    ensures
        final(w)@ == old(w)@ + le_u32(v),
{
    let bytes = u32_to_le_bytes(v);
    let mut i: usize = 0;
    while i < 4
        invariant
            bytes@ == le_u32(v),
            bytes@.len() == 4,
            0 <= i <= 4,
            w@ == old(w)@ + bytes@.take(i as int),
        decreases 4 - i,
    {
        w.push(bytes[i]);
        i = i + 1;
        assert(w@ =~= old(w)@ + bytes@.take(i as int));
    }
    assert(bytes@.take(4) =~= bytes@);
}

fn write_u64(w: &mut Vec<u8>, v: u64)
    ensures
        final(w)@ == old(w)@ + le_u64(v),
{
    let bytes = u64_to_le_bytes(v);
    let mut i: usize = 0;
    while i < 8
        invariant
            bytes@ == le_u64(v),
            bytes@.len() == 8,
            0 <= i <= 8,
            w@ == old(w)@ + bytes@.take(i as int),
        decreases 8 - i,
    {
        w.push(bytes[i]);
        i = i + 1;
        assert(w@ =~= old(w)@ + bytes@.take(i as int));
    }
    assert(bytes@.take(8) =~= bytes@);
}

fn write_i64(w: &mut Vec<u8>, v: i64)
    ensures
        final(w)@ == old(w)@ + le_u64(v as u64),
{
    write_u64(w, v as u64);
}

fn write_u8(w: &mut Vec<u8>, v: u8)
    ensures
        final(w)@ == old(w)@ + seq![v],
{
    w.push(v);
    assert(w@ =~= old(w)@ + seq![v]);
}

fn read_u8(b: &[u8], pos: usize) -> (res: Result<(u8, usize), CacheError>)
    requires
        pos <= b@.len(),
    ensures
        match res {
            Ok((v, e)) => pos + 1 <= b@.len() && v == b@[pos as int] && e == pos + 1,
            Err(err) => pos + 1 > b@.len() && err == CacheError::Truncated,
        },
{
    if b.len() - pos < 1 {
        Err(CacheError::Truncated)
    } else {
        Ok((b[pos], pos + 1))
    }
}

fn read_u32(b: &[u8], pos: usize) -> (res: Result<(u32, usize), CacheError>)
    requires
        pos <= b@.len(),
    ensures
        match res {
            Ok((v, e)) => pos + 4 <= b@.len() && v == u32_at(b@, pos as int) && e == pos + 4,
            Err(err) => pos + 4 > b@.len() && err == CacheError::Truncated,
        },
{
    if b.len() - pos < 4 {
        Err(CacheError::Truncated)
    } else {
        let s = slice_subrange(b, pos, pos + 4);
        Ok((u32_from_le_bytes(s), pos + 4))
    }
}

fn read_u64(b: &[u8], pos: usize) -> (res: Result<(u64, usize), CacheError>)
    requires
        pos <= b@.len(),
    ensures
        match res {
            Ok((v, e)) => pos + 8 <= b@.len() && v == u64_at(b@, pos as int) && e == pos + 8,
            Err(err) => pos + 8 > b@.len() && err == CacheError::Truncated,
        },
{
    if b.len() - pos < 8 {
        Err(CacheError::Truncated)
    } else {
        let s = slice_subrange(b, pos, pos + 8);
        Ok((u64_from_le_bytes(s), pos + 8))
    }
}

fn read_i64(b: &[u8], pos: usize) -> (res: Result<(i64, usize), CacheError>)
    requires
        pos <= b@.len(),
    ensures
        match res {
            Ok((v, e)) => pos + 8 <= b@.len() && v == u64_at(b@, pos as int) as i64 && e == pos + 8,
            Err(err) => pos + 8 > b@.len() && err == CacheError::Truncated,
        },
{
    match read_u64(b, pos) {
        Ok((v, e)) => Ok((v as i64, e)),
        Err(err) => Err(err),
    }
}


fn write_bytes(w: &mut Vec<u8>, s: &[u8])
    ensures
        final(w)@ == old(w)@ + s@,
{
    let mut i: usize = 0;
    while i < s.len()
        invariant
            0 <= i <= s@.len(),
            w@ == old(w)@ + s@.take(i as int),
        decreases s@.len() - i,
    {
        w.push(s[i]);
        i = i + 1;
        assert(w@ =~= old(w)@ + s@.take(i as int));
    }
    assert(s@.take(s@.len() as int) =~= s@);
}

// ---------------------------------------------------------------------------
// Kind tags
// ---------------------------------------------------------------------------

/// The byte a camera kind is stored as.
pub open spec fn camera_kind_code(k: CameraKind) -> u8 {
    match k {
        CameraKind::Fixed => 0,
        CameraKind::Dome => 1,
        CameraKind::Panning => 2,
        CameraKind::Unknown => 3,
    }
}

/// The camera kind a stored byte stands for, if any.
pub open spec fn camera_kind_of_code(t: u8) -> Option<CameraKind> {
    if t == 0 {
        Some(CameraKind::Fixed)
    } else if t == 1 {
        Some(CameraKind::Dome)
    } else if t == 2 {
        Some(CameraKind::Panning)
    } else if t == 3 {
        Some(CameraKind::Unknown)
    } else {
        None
    }
}

/// The byte a place kind is stored as.
pub open spec fn place_kind_code(k: PlaceKind) -> u8 {
    match k {
        PlaceKind::Street => 0,
        PlaceKind::Locality => 1,
        PlaceKind::Station => 2,
    }
}

/// The place kind a stored byte stands for, if any.
pub open spec fn place_kind_of_code(t: u8) -> Option<PlaceKind> {
    if t == 0 {
        Some(PlaceKind::Street)
    } else if t == 1 {
        Some(PlaceKind::Locality)
    } else if t == 2 {
        Some(PlaceKind::Station)
    } else {
        None
    }
}

fn camera_kind_tag(k: CameraKind) -> (t: u8)
    ensures
        t == camera_kind_code(k),
        camera_kind_of_code(t) == Some(k),
{
    match k {
        CameraKind::Fixed => 0,
        CameraKind::Dome => 1,
        CameraKind::Panning => 2,
        CameraKind::Unknown => 3,
    }
}

fn camera_kind_from_tag(t: u8) -> (r: Result<CameraKind, CacheError>)
    ensures
        match camera_kind_of_code(t) {
            Some(k) => r == Ok::<CameraKind, CacheError>(k) && camera_kind_code(k) == t,
            None => r == Err::<CameraKind, CacheError>(CacheError::InvalidCameraKind),
        },
{
    match t {
        0 => Ok(CameraKind::Fixed),
        1 => Ok(CameraKind::Dome),
        2 => Ok(CameraKind::Panning),
        3 => Ok(CameraKind::Unknown),
        _ => Err(CacheError::InvalidCameraKind),
    }
}

fn place_kind_tag(k: PlaceKind) -> (t: u8)
    ensures
        t == place_kind_code(k),
        place_kind_of_code(t) == Some(k),
{
    match k {
        PlaceKind::Street => 0,
        PlaceKind::Locality => 1,
        PlaceKind::Station => 2,
    }
}

fn place_kind_from_tag(t: u8) -> (r: Result<PlaceKind, CacheError>)
    ensures
        match place_kind_of_code(t) {
            Some(k) => r == Ok::<PlaceKind, CacheError>(k) && place_kind_code(k) == t,
            None => r == Err::<PlaceKind, CacheError>(CacheError::InvalidPlaceKind),
        },
{
    match t {
        0 => Ok(PlaceKind::Street),
        1 => Ok(PlaceKind::Locality),
        2 => Ok(PlaceKind::Station),
        _ => Err(CacheError::InvalidPlaceKind),
    }
}

// ---------------------------------------------------------------------------
// Records
// ---------------------------------------------------------------------------

/// A record with a fixed layout in the cache: its encoding, the decoder of
/// that layout, and the two directions of their round trip.
pub trait CacheRecord: Sized + View {
    /// Values whose encoding reads back as themselves.
    spec fn encodable(v: Self::V) -> bool;

    /// The bytes a value is stored as.
    spec fn encoding(v: Self::V) -> Seq<u8>;

    /// What decoding the bytes of `b` from `pos` gives: the value and the
    /// position after it, or the first error met.
    spec fn decode_at(b: Seq<u8>, pos: int) -> Result<(Self::V, int), CacheError>;

    /// Decoding an encoding gives the value back.
    proof fn lemma_decode_encoding(v: Self::V, b: Seq<u8>, pos: int)
        requires
            Self::encodable(v),
            0 <= pos,
            pos + Self::encoding(v).len() <= b.len(),
            b.subrange(pos, pos + Self::encoding(v).len()) == Self::encoding(v),
        ensures
            Self::decode_at(b, pos) == Ok::<(Self::V, int), CacheError>(
                (v, pos + Self::encoding(v).len()),
            ),
    ;

    /// Whatever decodes was stored as the encoding of what it decodes to.
    proof fn lemma_encoding_of_decode(b: Seq<u8>, pos: int)
        requires
            0 <= pos <= b.len(),
            Self::decode_at(b, pos) is Ok,
        ensures
            ({
                let (v, end) = Self::decode_at(b, pos)->Ok_0;
                &&& Self::encodable(v)
                &&& end == pos + Self::encoding(v).len()
                &&& end <= b.len()
                &&& b.subrange(pos, end) == Self::encoding(v)
            }),
    ;

    /// Appends the encoding of `self`.
    fn write_to(&self, w: &mut Vec<u8>)
        ensures
            final(w)@ == old(w)@ + Self::encoding(self@),
    ;

    /// Decodes one record at `pos`.
    fn read_from(b: &[u8], pos: usize) -> (res: Result<(Self, usize), CacheError>)
        requires
            pos <= b@.len(),
        ensures
            match res {
                Ok((x, e)) => Self::decode_at(b@, pos as int) == Ok::<(Self::V, int), CacheError>(
                    (x@, e as int),
                ) && pos <= e <= b@.len(),
                Err(err) => Self::decode_at(b@, pos as int) == Err::<(Self::V, int), CacheError>(
                    err,
                ),
            },
    ;
}

impl CacheRecord for Node {
    open spec fn encodable(v: Node) -> bool {
        true
    }

    open spec fn encoding(v: Node) -> Seq<u8> {
        le_u64(v.id) + le_u64(v.lat_bits) + le_u64(v.lon_bits)
    }

    open spec fn decode_at(b: Seq<u8>, pos: int) -> Result<(Node, int), CacheError> {
        if pos + 24 <= b.len() {
            Ok(
                (
                    Node {
                        id: u64_at(b, pos),
                        lat_bits: u64_at(b, pos + 8),
                        lon_bits: u64_at(b, pos + 16),
                    },
                    pos + 24,
                ),
            )
        } else {
            Err(CacheError::Truncated)
        }
    }

    proof fn lemma_decode_encoding(v: Node, b: Seq<u8>, pos: int) {
        lemma_le_roundtrip();
        let enc = Self::encoding(v);
        lemma_window(b, pos, enc, 0, 8);
        lemma_window(b, pos, enc, 8, 8);
        lemma_window(b, pos, enc, 16, 8);
        assert(enc.subrange(0, 8) =~= le_u64(v.id));
        assert(enc.subrange(8, 16) =~= le_u64(v.lat_bits));
        assert(enc.subrange(16, 24) =~= le_u64(v.lon_bits));
    }

    proof fn lemma_encoding_of_decode(b: Seq<u8>, pos: int) {
        lemma_le_roundtrip();
        let (v, end) = Self::decode_at(b, pos)->Ok_0;
        assert(le_u64(v.id) == b.subrange(pos, pos + 8));
        assert(le_u64(v.lat_bits) == b.subrange(pos + 8, pos + 16));
        assert(le_u64(v.lon_bits) == b.subrange(pos + 16, pos + 24));
        assert(b.subrange(pos, end) =~= Self::encoding(v));
    }

    fn write_to(&self, w: &mut Vec<u8>) {
        write_u64(w, self.id);
        write_u64(w, self.lat_bits);
        write_u64(w, self.lon_bits);
        assert(w@ =~= old(w)@ + Self::encoding(self@));
    }

    fn read_from(b: &[u8], pos: usize) -> (res: Result<(Node, usize), CacheError>) {
        if b.len() - pos < 24 {
            return Err(CacheError::Truncated);
        }
        let (id, p) = read_u64(b, pos)?;
        let (lat_bits, p) = read_u64(b, p)?;
        let (lon_bits, p) = read_u64(b, p)?;
        Ok((Node { id, lat_bits, lon_bits }, p))
    }
}

impl CacheRecord for Edge {
    open spec fn encodable(v: Edge) -> bool {
        true
    }

    open spec fn encoding(v: Edge) -> Seq<u8> {
        le_u64(v.from) + le_u64(v.to) + le_u64(v.length_bits) + le_u64(v.exposure_bits)
    }

    open spec fn decode_at(b: Seq<u8>, pos: int) -> Result<(Edge, int), CacheError> {
        if pos + 32 <= b.len() {
            Ok(
                (
                    Edge {
                        from: u64_at(b, pos),
                        to: u64_at(b, pos + 8),
                        length_bits: u64_at(b, pos + 16),
                        exposure_bits: u64_at(b, pos + 24),
                    },
                    pos + 32,
                ),
            )
        } else {
            Err(CacheError::Truncated)
        }
    }

    proof fn lemma_decode_encoding(v: Edge, b: Seq<u8>, pos: int) {
        lemma_le_roundtrip();
        let enc = Self::encoding(v);
        lemma_window(b, pos, enc, 0, 8);
        lemma_window(b, pos, enc, 8, 8);
        lemma_window(b, pos, enc, 16, 8);
        lemma_window(b, pos, enc, 24, 8);
        assert(enc.subrange(0, 8) =~= le_u64(v.from));
        assert(enc.subrange(8, 16) =~= le_u64(v.to));
        assert(enc.subrange(16, 24) =~= le_u64(v.length_bits));
        assert(enc.subrange(24, 32) =~= le_u64(v.exposure_bits));
    }

    proof fn lemma_encoding_of_decode(b: Seq<u8>, pos: int) {
        lemma_le_roundtrip();
        let (v, end) = Self::decode_at(b, pos)->Ok_0;
        assert(le_u64(v.from) == b.subrange(pos, pos + 8));
        assert(le_u64(v.to) == b.subrange(pos + 8, pos + 16));
        assert(le_u64(v.length_bits) == b.subrange(pos + 16, pos + 24));
        assert(le_u64(v.exposure_bits) == b.subrange(pos + 24, pos + 32));
        assert(b.subrange(pos, end) =~= Self::encoding(v));
    }

    fn write_to(&self, w: &mut Vec<u8>) {
        write_u64(w, self.from);
        write_u64(w, self.to);
        write_u64(w, self.length_bits);
        write_u64(w, self.exposure_bits);
        assert(w@ =~= old(w)@ + Self::encoding(self@));
    }

    fn read_from(b: &[u8], pos: usize) -> (res: Result<(Edge, usize), CacheError>) {
        if b.len() - pos < 32 {
            return Err(CacheError::Truncated);
        }
        let (from, p) = read_u64(b, pos)?;
        let (to, p) = read_u64(b, p)?;
        let (length_bits, p) = read_u64(b, p)?;
        let (exposure_bits, p) = read_u64(b, p)?;
        Ok((Edge { from, to, length_bits, exposure_bits }, p))
    }
}


/// The bytes a camera's optional direction is stored as.
pub open spec fn direction_encoding(d: Option<u64>) -> Seq<u8> {
    match d {
        Some(x) => seq![1u8] + le_u64(x),
        None => seq![0u8],
    }
}

/// The end of a camera record once its direction is known: `half_fov` and
/// `range` at `p`.
pub open spec fn camera_tail(
    b: Seq<u8>,
    pos: int,
    kind: CameraKind,
    direction_bits: Option<u64>,
    p: int,
) -> Result<(Camera, int), CacheError> {
    if p + 16 > b.len() {
        Err(CacheError::Truncated)
    } else {
        Ok(
            (
                Camera {
                    osm_id: u64_at(b, pos) as i64,
                    lat_bits: u64_at(b, pos + 8),
                    lon_bits: u64_at(b, pos + 16),
                    kind,
                    direction_bits,
                    half_fov_bits: u64_at(b, p),
                    range_bits: u64_at(b, p + 8),
                },
                p + 16,
            ),
        )
    }
}

proof fn lemma_i64_u64_roundtrip(x: i64, u: u64)
    ensures
        (x as u64) as i64 == x,
        (u as i64) as u64 == u,
{
    assert((x as u64) as i64 == x) by (bit_vector);
    assert((u as i64) as u64 == u) by (bit_vector);
}

impl CacheRecord for Camera {
    open spec fn encodable(v: Camera) -> bool {
        true
    }

    open spec fn encoding(v: Camera) -> Seq<u8> {
        le_u64(v.osm_id as u64) + le_u64(v.lat_bits) + le_u64(v.lon_bits) + seq![
            camera_kind_code(v.kind),
        ] + direction_encoding(v.direction_bits) + le_u64(v.half_fov_bits) + le_u64(v.range_bits)
    }

    open spec fn decode_at(b: Seq<u8>, pos: int) -> Result<(Camera, int), CacheError> {
        if pos + 25 > b.len() {
            Err(CacheError::Truncated)
        } else {
            match camera_kind_of_code(b[pos + 24]) {
                None => Err(CacheError::InvalidCameraKind),
                Some(kind) => if pos + 26 > b.len() {
                    Err(CacheError::Truncated)
                } else if b[pos + 25] == 0 {
                    camera_tail(b, pos, kind, None, pos + 26)
                } else if b[pos + 25] == 1 {
                    if pos + 34 > b.len() {
                        Err(CacheError::Truncated)
                    } else {
                        camera_tail(b, pos, kind, Some(u64_at(b, pos + 26)), pos + 34)
                    }
                } else {
                    Err(CacheError::InvalidDirectionTag)
                },
            }
        }
    }

    proof fn lemma_decode_encoding(v: Camera, b: Seq<u8>, pos: int) {
        lemma_le_roundtrip();
        lemma_i64_u64_roundtrip(v.osm_id, 0);
        let enc = Self::encoding(v);
        let len = enc.len();
        lemma_window(b, pos, enc, 0, 8);
        lemma_window(b, pos, enc, 8, 8);
        lemma_window(b, pos, enc, 16, 8);
        assert(enc.subrange(0, 8) =~= le_u64(v.osm_id as u64));
        assert(enc.subrange(8, 16) =~= le_u64(v.lat_bits));
        assert(enc.subrange(16, 24) =~= le_u64(v.lon_bits));
        assert(b[pos + 24] == b.subrange(pos, pos + len)[24]);
        assert(b[pos + 25] == b.subrange(pos, pos + len)[25]);
        assert(enc[24] == camera_kind_code(v.kind));
        match v.direction_bits {
            Some(d) => {
                assert(enc[25] == 1u8);
                lemma_window(b, pos, enc, 26, 8);
                lemma_window(b, pos, enc, 34, 8);
                lemma_window(b, pos, enc, 42, 8);
                assert(enc.subrange(26, 34) =~= le_u64(d));
                assert(enc.subrange(34, 42) =~= le_u64(v.half_fov_bits));
                assert(enc.subrange(42, 50) =~= le_u64(v.range_bits));
            },
            None => {
                assert(enc[25] == 0u8);
                lemma_window(b, pos, enc, 26, 8);
                lemma_window(b, pos, enc, 34, 8);
                assert(enc.subrange(26, 34) =~= le_u64(v.half_fov_bits));
                assert(enc.subrange(34, 42) =~= le_u64(v.range_bits));
            },
        }
    }

    proof fn lemma_encoding_of_decode(b: Seq<u8>, pos: int) {
        lemma_le_roundtrip();
        let (v, end) = Self::decode_at(b, pos)->Ok_0;
        lemma_i64_u64_roundtrip(0, u64_at(b, pos));
        assert(le_u64(v.osm_id as u64) == b.subrange(pos, pos + 8));
        assert(le_u64(v.lat_bits) == b.subrange(pos + 8, pos + 16));
        assert(le_u64(v.lon_bits) == b.subrange(pos + 16, pos + 24));
        if b[pos + 25] == 0 {
            assert(le_u64(v.half_fov_bits) == b.subrange(pos + 26, pos + 34));
            assert(le_u64(v.range_bits) == b.subrange(pos + 34, pos + 42));
        } else {
            assert(le_u64(v.direction_bits->0) == b.subrange(pos + 26, pos + 34));
            assert(le_u64(v.half_fov_bits) == b.subrange(pos + 34, pos + 42));
            assert(le_u64(v.range_bits) == b.subrange(pos + 42, pos + 50));
        }
        assert(b.subrange(pos, end) =~= Self::encoding(v));
    }

    fn write_to(&self, w: &mut Vec<u8>) {
        write_i64(w, self.osm_id);
        write_u64(w, self.lat_bits);
        write_u64(w, self.lon_bits);
        write_u8(w, camera_kind_tag(self.kind));
        match self.direction_bits {
            Some(d) => {
                write_u8(w, 1);
                write_u64(w, d);
            },
            None => write_u8(w, 0),
        }
        write_u64(w, self.half_fov_bits);
        write_u64(w, self.range_bits);
        assert(w@ =~= old(w)@ + Self::encoding(self@));
    }

    fn read_from(b: &[u8], pos: usize) -> (res: Result<(Camera, usize), CacheError>) {
        if b.len() - pos < 25 {
            return Err(CacheError::Truncated);
        }
        let (osm_id, p) = read_i64(b, pos)?;
        let (lat_bits, p) = read_u64(b, p)?;
        let (lon_bits, p) = read_u64(b, p)?;
        let (kind_tag, p) = read_u8(b, p)?;
        let kind = camera_kind_from_tag(kind_tag)?;
        let (direction_tag, p) = read_u8(b, p)?;
        let (direction_bits, p) = if direction_tag == 0 {
            (None, p)
        } else if direction_tag == 1 {
            let (d, p) = read_u64(b, p)?;
            (Some(d), p)
        } else {
            return Err(CacheError::InvalidDirectionTag);
        };
        let (half_fov_bits, p) = read_u64(b, p)?;
        let (range_bits, p) = read_u64(b, p)?;
        Ok((Camera { osm_id, lat_bits, lon_bits, kind, direction_bits, half_fov_bits, range_bits }, p))
    }
}

/// `String::from_utf8`: succeeds exactly when the bytes are valid UTF-8, and
/// the string then holds the characters they decode to.
#[verifier::external_body]
fn string_from_utf8(bytes: Vec<u8>) -> (res: Option<String>)
    ensures
        res is Some <==> valid_utf8(bytes@),
        res matches Some(s) ==> s@ == decode_utf8(bytes@),
{
    String::from_utf8(bytes).ok()
}

/// The end of a place record once its name is known: kind and coordinate at `p`.
pub open spec fn place_tail(b: Seq<u8>, name: Seq<char>, p: int) -> Result<(PlaceView, int), CacheError> {
    if p + 1 > b.len() {
        Err(CacheError::Truncated)
    } else {
        match place_kind_of_code(b[p]) {
            None => Err(CacheError::InvalidPlaceKind),
            Some(kind) => if p + 17 > b.len() {
                Err(CacheError::Truncated)
            } else {
                Ok(
                    (
                        PlaceView { name, kind, lat_bits: u64_at(b, p + 1), lon_bits: u64_at(b, p + 9) },
                        p + 17,
                    ),
                )
            },
        }
    }
}

impl CacheRecord for Place {
    open spec fn encodable(v: PlaceView) -> bool {
        encode_utf8(v.name).len() <= u32::MAX
    }

    open spec fn encoding(v: PlaceView) -> Seq<u8> {
        le_u32(encode_utf8(v.name).len() as u32) + encode_utf8(v.name) + seq![
            place_kind_code(v.kind),
        ] + le_u64(v.lat_bits) + le_u64(v.lon_bits)
    }

    open spec fn decode_at(b: Seq<u8>, pos: int) -> Result<(PlaceView, int), CacheError> {
        if pos + 4 > b.len() {
            Err(CacheError::Truncated)
        } else if pos + 4 + u32_at(b, pos) > b.len() {
            Err(CacheError::Truncated)
        } else if !valid_utf8(b.subrange(pos + 4, pos + 4 + u32_at(b, pos))) {
            Err(CacheError::NameNotUtf8)
        } else {
            place_tail(
                b,
                decode_utf8(b.subrange(pos + 4, pos + 4 + u32_at(b, pos))),
                pos + 4 + u32_at(b, pos),
            )
        }
    }

    proof fn lemma_decode_encoding(v: PlaceView, b: Seq<u8>, pos: int) {
        lemma_le_roundtrip();
        broadcast use encode_utf8_valid_utf8, encode_utf8_decode_utf8;

        let enc = Self::encoding(v);
        let name = encode_utf8(v.name);
        let n = name.len() as int;
        let len = enc.len();
        lemma_window(b, pos, enc, 0, 4);
        assert(enc.subrange(0, 4) =~= le_u32(n as u32));
        assert(u32_at(b, pos) == n);
        lemma_window(b, pos, enc, 4, n);
        assert(enc.subrange(4, 4 + n) =~= name);
        assert(b[pos + 4 + n] == b.subrange(pos, pos + len)[4 + n]);
        assert(enc[4 + n] == place_kind_code(v.kind));
        lemma_window(b, pos, enc, 5 + n, 8);
        lemma_window(b, pos, enc, 13 + n, 8);
        assert(enc.subrange(5 + n, 13 + n) =~= le_u64(v.lat_bits));
        assert(enc.subrange(13 + n, 21 + n) =~= le_u64(v.lon_bits));
    }

    proof fn lemma_encoding_of_decode(b: Seq<u8>, pos: int) {
        lemma_le_roundtrip();
        let (v, end) = Self::decode_at(b, pos)->Ok_0;
        let n = u32_at(b, pos) as int;
        let bytes = b.subrange(pos + 4, pos + 4 + n);
        decode_utf8_encode_utf8(bytes);
        assert(encode_utf8(v.name) == bytes);
        assert(le_u32(n as u32) == b.subrange(pos, pos + 4));
        assert(le_u64(v.lat_bits) == b.subrange(pos + 5 + n, pos + 13 + n));
        assert(le_u64(v.lon_bits) == b.subrange(pos + 13 + n, pos + 21 + n));
        assert(b.subrange(pos, end) =~= Self::encoding(v));
    }

    fn write_to(&self, w: &mut Vec<u8>) {
        let bytes = self.name.as_str().as_bytes();
        write_u32(w, bytes.len() as u32);
        write_bytes(w, bytes);
        write_u8(w, place_kind_tag(self.kind));
        write_u64(w, self.lat_bits);
        write_u64(w, self.lon_bits);
        assert(w@ =~= old(w)@ + Self::encoding(self@));
    }

    fn read_from(b: &[u8], pos: usize) -> (res: Result<(Place, usize), CacheError>) {
        let (name_len, p) = read_u32(b, pos)?;
        let name_len = name_len as usize;
        if b.len() - p < name_len {
            return Err(CacheError::Truncated);
        }
        let bytes = vstd::slice::slice_to_vec(slice_subrange(b, p, p + name_len));
        let name = match string_from_utf8(bytes) {
            Some(s) => s,
            None => return Err(CacheError::NameNotUtf8),
        };
        let p = p + name_len;
        let (kind_tag, p) = read_u8(b, p)?;
        let kind = place_kind_from_tag(kind_tag)?;
        let (lat_bits, p) = read_u64(b, p)?;
        let (lon_bits, p) = read_u64(b, p)?;
        Ok((Place { name, kind, lat_bits, lon_bits }, p))
    }
}


// ---------------------------------------------------------------------------
// Sequences of records
// ---------------------------------------------------------------------------

/// The records of `s`, encoded one after the other.
pub open spec fn encode_seq<T: CacheRecord>(s: Seq<T::V>) -> Seq<u8>
    decreases s.len(),
{
    if s.len() == 0 {
        Seq::empty()
    } else {
        T::encoding(s[0]) + encode_seq::<T>(s.drop_first())
    }
}

/// Every value of `s` reads back as itself.
pub open spec fn all_encodable<T: CacheRecord>(s: Seq<T::V>) -> bool {
    forall|i: int| 0 <= i < s.len() ==> T::encodable(#[trigger] s[i])
}

/// Decoding `n` records one after the other from `pos`.
pub open spec fn decode_seq<T: CacheRecord>(b: Seq<u8>, pos: int, n: nat) -> Result<
    (Seq<T::V>, int),
    CacheError,
>
    decreases n,
{
    if n == 0 {
        Ok((Seq::empty(), pos))
    } else {
        match T::decode_at(b, pos) {
            Err(e) => Err(e),
            Ok((x, p)) => match decode_seq::<T>(b, p, (n - 1) as nat) {
                Err(e) => Err(e),
                Ok((xs, end)) => Ok((seq![x] + xs, end)),
            },
        }
    }
}

/// A section: the number of records, then the records.
pub open spec fn encode_section<T: CacheRecord>(s: Seq<T::V>) -> Seq<u8> {
    le_u64(s.len() as u64) + encode_seq::<T>(s)
}

/// Decoding a section at `pos`.
pub open spec fn decode_section<T: CacheRecord>(b: Seq<u8>, pos: int) -> Result<
    (Seq<T::V>, int),
    CacheError,
> {
    if pos + 8 > b.len() {
        Err(CacheError::Truncated)
    } else {
        decode_seq::<T>(b, pos + 8, u64_at(b, pos) as nat)
    }
}

proof fn lemma_encode_seq_push<T: CacheRecord>(s: Seq<T::V>, x: T::V)
    ensures
        encode_seq::<T>(s.push(x)) == encode_seq::<T>(s) + T::encoding(x),
    decreases s.len(),
{
    if s.len() == 0 {
        assert(s.push(x).drop_first() =~= Seq::<T::V>::empty());
        assert(encode_seq::<T>(s.push(x)) =~= encode_seq::<T>(s) + T::encoding(x));
    } else {
        lemma_encode_seq_push::<T>(s.drop_first(), x);
        assert(s.push(x).drop_first() =~= s.drop_first().push(x));
        assert(encode_seq::<T>(s.push(x)) =~= encode_seq::<T>(s) + T::encoding(x));
    }
}

proof fn lemma_decode_encode_seq<T: CacheRecord>(s: Seq<T::V>, b: Seq<u8>, pos: int)
    requires
        all_encodable::<T>(s),
        0 <= pos,
        pos + encode_seq::<T>(s).len() <= b.len(),
        b.subrange(pos, pos + encode_seq::<T>(s).len()) == encode_seq::<T>(s),
    ensures
        decode_seq::<T>(b, pos, s.len()) == Ok::<(Seq<T::V>, int), CacheError>(
            (s, pos + encode_seq::<T>(s).len()),
        ),
    decreases s.len(),
{
    if s.len() > 0 {
        let enc = encode_seq::<T>(s);
        let first = T::encoding(s[0]);
        let rest = s.drop_first();
        lemma_window(b, pos, enc, 0, first.len() as int);
        assert(enc.subrange(0, first.len() as int) =~= first);
        T::lemma_decode_encoding(s[0], b, pos);
        lemma_window(b, pos, enc, first.len() as int, encode_seq::<T>(rest).len() as int);
        assert(enc.subrange(first.len() as int, enc.len() as int) =~= encode_seq::<T>(rest));
        assert forall|i: int| 0 <= i < rest.len() implies T::encodable(#[trigger] rest[i]) by {
            assert(rest[i] == s[i + 1]);
        }
        lemma_decode_encode_seq::<T>(rest, b, pos + first.len());
        assert(seq![s[0]] + rest =~= s);
    }
}

proof fn lemma_encoding_of_decode_seq<T: CacheRecord>(b: Seq<u8>, pos: int, n: nat)
    requires
        0 <= pos <= b.len(),
        decode_seq::<T>(b, pos, n) is Ok,
    ensures
        ({
            let (s, end) = decode_seq::<T>(b, pos, n)->Ok_0;
            &&& s.len() == n
            &&& all_encodable::<T>(s)
            &&& end == pos + encode_seq::<T>(s).len()
            &&& end <= b.len()
            &&& b.subrange(pos, end) == encode_seq::<T>(s)
        }),
    decreases n,
{
    if n > 0 {
        T::lemma_encoding_of_decode(b, pos);
        let (x, p) = T::decode_at(b, pos)->Ok_0;
        lemma_encoding_of_decode_seq::<T>(b, p, (n - 1) as nat);
        let (xs, end) = decode_seq::<T>(b, p, (n - 1) as nat)->Ok_0;
        let s = seq![x] + xs;
        assert(s.drop_first() =~= xs);
        assert(s[0] == x);
        assert forall|i: int| 0 <= i < s.len() implies T::encodable(#[trigger] s[i]) by {
            if i > 0 {
                assert(s[i] == xs[i - 1]);
            }
        }
        assert(b.subrange(pos, end) =~= b.subrange(pos, p) + b.subrange(p, end));
    }
}

fn write_section<T: CacheRecord>(w: &mut Vec<u8>, items: &Vec<T>)
    ensures
        final(w)@ == old(w)@ + encode_section::<T>(views(items@)),
{
    write_u64(w, items.len() as u64);
    let ghost start = w@;
    let mut i: usize = 0;
    assert(views(items@.take(0)) =~= Seq::<T::V>::empty());
    while i < items.len()
        invariant
            0 <= i <= items@.len(),
            w@ == start + encode_seq::<T>(views(items@.take(i as int))),
        decreases items@.len() - i,
    {
        items[i].write_to(w);
        proof {
            lemma_encode_seq_push::<T>(views(items@.take(i as int)), items@[i as int]@);
            assert(views(items@.take(i + 1)) =~= views(items@.take(i as int)).push(items@[i as int]@));
        }
        i = i + 1;
    }
    assert(items@.take(items@.len() as int) =~= items@);
    assert(w@ =~= old(w)@ + encode_section::<T>(views(items@)));
}

/// Cap on up-front allocation from a count, so a corrupt count cannot ask for
/// a huge `Vec` before the reader meets the end of the data.
const MAX_PREALLOC: u64 = 1048576;

fn read_section<T: CacheRecord>(b: &[u8], pos: usize) -> (res: Result<(Vec<T>, usize), CacheError>)
    requires
        pos <= b@.len(),
    ensures
        match res {
            Ok((v, e)) => decode_section::<T>(b@, pos as int) == Ok::<(Seq<T::V>, int), CacheError>(
                (views(v@), e as int),
            ) && pos <= e <= b@.len(),
            Err(err) => decode_section::<T>(b@, pos as int) == Err::<(Seq<T::V>, int), CacheError>(
                err,
            ),
        },
{
    let (count, start) = read_u64(b, pos)?;
    let cap = if count < MAX_PREALLOC {
        count
    } else {
        MAX_PREALLOC
    };
    let mut out: Vec<T> = Vec::with_capacity(cap as usize);
    let mut p = start;
    let mut i: u64 = 0;
    while i < count
        invariant
            start <= p <= b@.len(),
            start == pos + 8,
            count == u64_at(b@, pos as int),
            0 <= i <= count,
            out@.len() == i,
            decode_section::<T>(b@, pos as int) == (match decode_seq::<T>(b@, p as int, (count - i) as nat) {
                Ok((xs, end)) => Ok::<(Seq<T::V>, int), CacheError>((views(out@) + xs, end)),
                Err(e) => Err::<(Seq<T::V>, int), CacheError>(e),
            }),
        decreases count - i,
    {
        match T::read_from(b, p) {
            Ok((x, e)) => {
                proof {
                    assert(views(out@.push(x)) =~= views(out@).push(x@));
                    let tail = decode_seq::<T>(b@, e as int, (count - i - 1) as nat);
                    if tail is Ok {
                        let (xs, end) = tail->Ok_0;
                        assert(views(out@) + (seq![x@] + xs) =~= views(out@).push(x@) + xs);
                    }
                }
                out.push(x);
                p = e;
                i = i + 1;
            },
            Err(err) => {
                return Err(err);
            },
        }
    }
    assert(views(out@) + Seq::<T::V>::empty() =~= views(out@));
    Ok((out, p))
}

// ---------------------------------------------------------------------------
// The whole cache
// ---------------------------------------------------------------------------

/// Format/logic version. Bump it whenever the layout changes or the scoring
/// logic that produces the cached values changes, so that a stale score never
/// outlives the code that produced it.
pub const VERSION: u32 = 1;

/// The four flat vectors a router is assembled from: exactly what the ingest
/// produces (with edges already scored) and exactly what the cache stores.
#[derive(Debug)]
pub struct Parts {
    pub nodes: Vec<Node>,
    pub edges: Vec<Edge>,
    pub cameras: Vec<Camera>,
    pub places: Vec<Place>,
}

/// The value of a [`Parts`].
#[verifier::ext_equal]
pub struct PartsView {
    pub nodes: Seq<Node>,
    pub edges: Seq<Edge>,
    pub cameras: Seq<Camera>,
    pub places: Seq<PlaceView>,
}

impl View for Parts {
    type V = PartsView;

    open spec fn view(&self) -> PartsView {
        PartsView {
            nodes: views(self.nodes@),
            edges: views(self.edges@),
            cameras: views(self.cameras@),
            places: views(self.places@),
        }
    }
}

impl PartsView {
    /// Parts whose cache reads back as themselves: every count fits its
    /// 64-bit field and every place name its 32-bit length field.
    pub open spec fn wf(self) -> bool {
        &&& self.nodes.len() <= u64::MAX
        &&& self.edges.len() <= u64::MAX
        &&& self.cameras.len() <= u64::MAX
        &&& self.places.len() <= u64::MAX
        &&& all_encodable::<Place>(self.places)
    }
}

/// The magic bytes at the head of every cache file: "SWGC".
pub open spec fn magic() -> Seq<u8> {
    seq![0x53u8, 0x57u8, 0x47u8, 0x43u8]
}

/// The header: magic, version and the fingerprint of the source extract.
pub open spec fn encode_header(fingerprint: u64) -> Seq<u8> {
    magic() + le_u32(VERSION) + le_u64(fingerprint)
}

/// The cache file of `p`, tagged with `fingerprint`.
pub open spec fn encode_parts(p: PartsView, fingerprint: u64) -> Seq<u8> {
    encode_header(fingerprint) + encode_section::<Node>(p.nodes) + encode_section::<Edge>(p.edges)
        + encode_section::<Camera>(p.cameras) + encode_section::<Place>(p.places)
}

/// What reading the four sections from `pos` gives.
pub open spec fn decode_sections(b: Seq<u8>, pos: int) -> Result<PartsView, CacheError> {
    match decode_section::<Node>(b, pos) {
        Err(e) => Err(e),
        Ok((nodes, p1)) => match decode_section::<Edge>(b, p1) {
            Err(e) => Err(e),
            Ok((edges, p2)) => match decode_section::<Camera>(b, p2) {
                Err(e) => Err(e),
                Ok((cameras, p3)) => match decode_section::<Place>(b, p3) {
                    Err(e) => Err(e),
                    Ok((places, _)) => Ok(PartsView { nodes, edges, cameras, places }),
                },
            },
        },
    }
}

/// What reading a cache from `b` gives when `expected` is the fingerprint of
/// the current extract: the header is checked in order (magic, version,
/// fingerprint), then the sections are decoded; bytes after the last place are
/// not looked at.
pub open spec fn decode_parts(b: Seq<u8>, expected: u64) -> Result<PartsView, CacheError> {
    if b.len() < 4 {
        Err(CacheError::Truncated)
    } else if b.subrange(0, 4) != magic() {
        Err(CacheError::NotACacheFile)
    } else if b.len() < 8 {
        Err(CacheError::Truncated)
    } else if u32_at(b, 4) != VERSION {
        Err(CacheError::VersionMismatch)
    } else if b.len() < 16 {
        Err(CacheError::Truncated)
    } else if u64_at(b, 8) != expected {
        Err(CacheError::Stale)
    } else {
        decode_sections(b, 16)
    }
}

/// Serialises `parts` onto `w`, tagged with `fingerprint`.
pub fn write(w: &mut Vec<u8>, parts: &Parts, fingerprint: u64)
    ensures
        final(w)@ == old(w)@ + encode_parts(parts@, fingerprint),
{
    w.push(0x53);
    w.push(0x57);
    w.push(0x47);
    w.push(0x43);
    write_u32(w, VERSION);
    write_u64(w, fingerprint);
    write_section(w, &parts.nodes);
    write_section(w, &parts.edges);
    write_section(w, &parts.cameras);
    write_section(w, &parts.places);
    assert(w@ =~= old(w)@ + encode_parts(parts@, fingerprint));
}

/// Reads parts back, requiring the magic and [`VERSION`] to match and the
/// stored fingerprint to equal `expected_fingerprint`. Any mismatch, short
/// read or out-of-range tag is an error whose [`CacheError::kind`] is
/// [`ErrorKind::InvalidData`], so the caller falls back to rebuilding from
/// the extract.
pub fn read(r: &[u8], expected_fingerprint: u64) -> (res: Result<Parts, CacheError>)
    ensures
        match res {
            Ok(p) => decode_parts(r@, expected_fingerprint) == Ok::<PartsView, CacheError>(p@),
            Err(e) => decode_parts(r@, expected_fingerprint) == Err::<PartsView, CacheError>(e),
        },
{
    if r.len() < 4 {
        return Err(CacheError::Truncated);
    }
    if !(r[0] == 0x53 && r[1] == 0x57 && r[2] == 0x47 && r[3] == 0x43) {
        assert(r@.subrange(0, 4) != magic()) by {
            if r@.subrange(0, 4) == magic() {
                assert(r@[0] == r@.subrange(0, 4)[0]);
                assert(r@[1] == r@.subrange(0, 4)[1]);
                assert(r@[2] == r@.subrange(0, 4)[2]);
                assert(r@[3] == r@.subrange(0, 4)[3]);
            }
        }
        return Err(CacheError::NotACacheFile);
    }
    assert(r@.subrange(0, 4) =~= magic());
    let (version, p) = read_u32(r, 4)?;
    if version != VERSION {
        return Err(CacheError::VersionMismatch);
    }
    let (fingerprint, p) = read_u64(r, p)?;
    if fingerprint != expected_fingerprint {
        return Err(CacheError::Stale);
    }
    let (nodes, p) = read_section::<Node>(r, p)?;
    let (edges, p) = read_section::<Edge>(r, p)?;
    let (cameras, p) = read_section::<Camera>(r, p)?;
    let (places, _) = read_section::<Place>(r, p)?;
    Ok(Parts { nodes, edges, cameras, places })
}


// ---------------------------------------------------------------------------
// Laws
// ---------------------------------------------------------------------------

proof fn lemma_decode_encode_section<T: CacheRecord>(s: Seq<T::V>, b: Seq<u8>, pos: int)
    requires
        all_encodable::<T>(s),
        s.len() <= u64::MAX,
        0 <= pos,
        pos + encode_section::<T>(s).len() <= b.len(),
        b.subrange(pos, pos + encode_section::<T>(s).len()) == encode_section::<T>(s),
    ensures
        decode_section::<T>(b, pos) == Ok::<(Seq<T::V>, int), CacheError>(
            (s, pos + encode_section::<T>(s).len()),
        ),
{
    lemma_le_roundtrip();
    let enc = encode_section::<T>(s);
    lemma_window(b, pos, enc, 0, 8);
    assert(enc.subrange(0, 8) =~= le_u64(s.len() as u64));
    let body = encode_seq::<T>(s);
    lemma_window(b, pos, enc, 8, body.len() as int);
    assert(enc.subrange(8, 8 + body.len() as int) =~= body);
    lemma_decode_encode_seq::<T>(s, b, pos + 8);
}

proof fn lemma_encoding_of_decode_section<T: CacheRecord>(b: Seq<u8>, pos: int)
    requires
        0 <= pos <= b.len(),
        decode_section::<T>(b, pos) is Ok,
    ensures
        ({
            let (s, end) = decode_section::<T>(b, pos)->Ok_0;
            &&& all_encodable::<T>(s)
            &&& s.len() <= u64::MAX
            &&& end == pos + encode_section::<T>(s).len()
            &&& end <= b.len()
            &&& b.subrange(pos, end) == encode_section::<T>(s)
        }),
{
    lemma_le_roundtrip();
    lemma_encoding_of_decode_seq::<T>(b, pos + 8, u64_at(b, pos) as nat);
    let (s, end) = decode_section::<T>(b, pos)->Ok_0;
    assert(le_u64(s.len() as u64) == b.subrange(pos, pos + 8));
    assert(b.subrange(pos, end) =~= b.subrange(pos, pos + 8) + b.subrange(pos + 8, end));
}

/// A read gives back what a write wrote: decoding the cache of well-formed
/// parts, followed by any bytes at all, with the fingerprint it was written
/// with, yields exactly those parts.
pub proof fn lemma_read_write_roundtrip(p: PartsView, fingerprint: u64, rest: Seq<u8>)
    requires
        p.wf(),
    ensures
        decode_parts(encode_parts(p, fingerprint) + rest, fingerprint) == Ok::<PartsView, CacheError>(p),
{
    lemma_le_roundtrip();
    let e = encode_parts(p, fingerprint);
    let b = e + rest;
    let h = encode_header(fingerprint);
    let s1 = encode_section::<Node>(p.nodes);
    let s2 = encode_section::<Edge>(p.edges);
    let s3 = encode_section::<Camera>(p.cameras);
    let s4 = encode_section::<Place>(p.places);
    assert(h.len() == 16);
    assert(b.subrange(0, 4) =~= magic());
    assert(b.subrange(4, 8) =~= le_u32(VERSION));
    assert(b.subrange(8, 16) =~= le_u64(fingerprint));
    let p1: int = 16 + s1.len() as int;
    let p2: int = p1 + s2.len();
    let p3: int = p2 + s3.len();
    assert(b.subrange(16, p1) =~= s1);
    assert(b.subrange(p1, p2) =~= s2);
    assert(b.subrange(p2, p3) =~= s3);
    assert(b.subrange(p3, p3 + s4.len()) =~= s4);
    assert forall|i: int| 0 <= i < p.nodes.len() implies Node::encodable(#[trigger] p.nodes[i]) by {}
    assert forall|i: int| 0 <= i < p.edges.len() implies Edge::encodable(#[trigger] p.edges[i]) by {}
    assert forall|i: int| 0 <= i < p.cameras.len() implies Camera::encodable(
        #[trigger] p.cameras[i],
    ) by {}
    lemma_decode_encode_section::<Node>(p.nodes, b, 16);
    lemma_decode_encode_section::<Edge>(p.edges, b, p1);
    lemma_decode_encode_section::<Camera>(p.cameras, b, p2);
    lemma_decode_encode_section::<Place>(p.places, b, p3);
}

/// Only caches are accepted: whatever a read accepts begins with the cache of
/// the (well-formed) parts it returns, written with the expected fingerprint.
pub proof fn lemma_read_accepts_only_writes(b: Seq<u8>, fingerprint: u64)
    requires
        decode_parts(b, fingerprint) is Ok,
    ensures
        ({
            let p = decode_parts(b, fingerprint)->Ok_0;
            let e = encode_parts(p, fingerprint);
            &&& p.wf()
            &&& e.len() <= b.len()
            &&& b.subrange(0, e.len() as int) == e
        }),
{
    lemma_le_roundtrip();
    let p = decode_parts(b, fingerprint)->Ok_0;
    lemma_encoding_of_decode_section::<Node>(b, 16);
    let (nodes, p1) = decode_section::<Node>(b, 16)->Ok_0;
    lemma_encoding_of_decode_section::<Edge>(b, p1);
    let (edges, p2) = decode_section::<Edge>(b, p1)->Ok_0;
    lemma_encoding_of_decode_section::<Camera>(b, p2);
    let (cameras, p3) = decode_section::<Camera>(b, p2)->Ok_0;
    lemma_encoding_of_decode_section::<Place>(b, p3);
    let (places, p4) = decode_section::<Place>(b, p3)->Ok_0;
    assert(le_u32(VERSION) == b.subrange(4, 8));
    assert(le_u64(fingerprint) == b.subrange(8, 16));
    let e = encode_parts(p, fingerprint);
    assert(b.subrange(0, p4) =~= b.subrange(0, 4) + b.subrange(4, 8) + b.subrange(8, 16) + b.subrange(
        16,
        p1,
    ) + b.subrange(p1, p2) + b.subrange(p2, p3) + b.subrange(p3, p4));
    assert(b.subrange(0, p4) =~= e);
}

/// A cache written for one extract is refused as stale for any other
/// fingerprint.
pub proof fn lemma_read_rejects_other_fingerprint(
    p: PartsView,
    fingerprint: u64,
    expected: u64,
    rest: Seq<u8>,
)
    requires
        fingerprint != expected,
    ensures
        decode_parts(encode_parts(p, fingerprint) + rest, expected) == Err::<PartsView, CacheError>(
            CacheError::Stale,
        ),
{
    lemma_le_roundtrip();
    let b = encode_parts(p, fingerprint) + rest;
    assert(b.subrange(0, 4) =~= magic());
    assert(b.subrange(4, 8) =~= le_u32(VERSION));
    assert(b.subrange(8, 16) =~= le_u64(fingerprint));
}

/// A cache whose first byte was changed is not recognised as a cache.
pub proof fn lemma_read_rejects_bad_magic(p: PartsView, fingerprint: u64, byte: u8)
    requires
        byte != 0x53u8,
    ensures
        decode_parts(encode_parts(p, fingerprint).update(0, byte), fingerprint) == Err::<
            PartsView,
            CacheError,
        >(CacheError::NotACacheFile),
{
    let e = encode_parts(p, fingerprint);
    assert(encode_header(fingerprint).len() == 16) by {
        lemma_le_roundtrip();
    }
    assert(e.len() >= 16);
    let b = e.update(0, byte);
    assert(b.subrange(0, 4)[0] == byte);
    assert(magic()[0] == 0x53u8);
    assert(b.subrange(0, 4) != magic());
}

/// A cache whose version field holds another format version is refused.
pub proof fn lemma_read_rejects_other_version(p: PartsView, fingerprint: u64, version: u32)
    requires
        version != VERSION,
    ensures
        ({
            let e = encode_parts(p, fingerprint);
            decode_parts(e.subrange(0, 4) + le_u32(version) + e.skip(8), fingerprint) == Err::<
                PartsView,
                CacheError,
            >(CacheError::VersionMismatch)
        }),
{
    lemma_le_roundtrip();
    let e = encode_parts(p, fingerprint);
    assert(encode_header(fingerprint).len() == 16);
    assert(e.len() >= 16);
    let b = e.subrange(0, 4) + le_u32(version) + e.skip(8);
    assert(b.subrange(0, 4) =~= e.subrange(0, 4));
    assert(e.subrange(0, 4) =~= magic());
    assert(b.subrange(4, 8) =~= le_u32(version));
}

/// Every strict prefix of a cache is refused: a truncated file never reads as
/// valid.
pub proof fn lemma_read_rejects_truncation(p: PartsView, fingerprint: u64, k: int)
    requires
        p.wf(),
        0 <= k < encode_parts(p, fingerprint).len(),
    ensures
        decode_parts(encode_parts(p, fingerprint).take(k), fingerprint) is Err,
{
    let e = encode_parts(p, fingerprint);
    let t = e.take(k);
    if decode_parts(t, fingerprint) is Ok {
        let q = decode_parts(t, fingerprint)->Ok_0;
        lemma_read_accepts_only_writes(t, fingerprint);
        let eq = encode_parts(q, fingerprint);
        assert(e =~= eq + e.skip(eq.len() as int)) by {
            assert forall|i: int| 0 <= i < eq.len() implies e[i] == eq[i] by {
                assert(t.subrange(0, eq.len() as int)[i] == t[i]);
            }
        }
        lemma_read_write_roundtrip(q, fingerprint, e.skip(eq.len() as int));
        lemma_read_write_roundtrip(p, fingerprint, Seq::empty());
        assert(e + Seq::<u8>::empty() =~= e);
        assert(q == p);
    }
}


// ---------------------------------------------------------------------------
// Fingerprint of the source extract
// ---------------------------------------------------------------------------

/// The first multiplier of the mix (odd, so invertible modulo 2^64).
pub const MIX_A: u64 = 0xbf58_476d_1ce4_e5b9;
/// The second multiplier of the mix (odd, so invertible modulo 2^64).
pub const MIX_B: u64 = 0x94d0_49bb_1331_11eb;

/// `x` rotated left by 32 bits.
pub open spec fn rotl32(x: u64) -> u64 {
    (x << 32u64) | (x >> 32u64)
}

/// Multiplication modulo 2^64.
pub open spec fn mul64(x: u64, y: u64) -> u64 {
    ((x as nat * y as nat) % 0x1_0000_0000_0000_0000nat) as u64
}

/// The splitmix-style finaliser that spreads its input over all bits.
pub open spec fn mix(x: u64) -> u64 {
    let y = mul64(x ^ (x >> 30u64), MIX_A);
    let z = mul64(y ^ (y >> 27u64), MIX_B);
    z ^ (z >> 31u64)
}

/// The fingerprint of an extract of `len` bytes last modified at
/// `mtime_secs`: the length mixed with the rotated modification time.
pub open spec fn spec_fingerprint(len: u64, mtime_secs: i64) -> u64 {
    mix(len ^ rotl32(mtime_secs as u64))
}

/// A cheap identifier for a source extract: its byte length mixed with its
/// last modification time. Replacing the extract changes either, and with it
/// the fingerprint, so the old cache is rejected.
pub fn fingerprint(len: u64, mtime_secs: i64) -> (fp: u64)
    ensures
        fp == spec_fingerprint(len, mtime_secs),
{
    let m = mtime_secs as u64;
    let mut x = len ^ ((m << 32u64) | (m >> 32u64));
    x = (x ^ (x >> 30u64)).wrapping_mul(MIX_A);
    x = (x ^ (x >> 27u64)).wrapping_mul(MIX_B);
    x ^ (x >> 31u64)
}

proof fn lemma_mul64_undo(x: u64, c: u64, inv: u64, k: int)
    requires
        k >= 0,
        c as int * inv as int == k * 0x1_0000_0000_0000_0000int + 1,
    ensures
        mul64(mul64(x, c), inv) == x,
{
    let m: int = 0x1_0000_0000_0000_0000int;
    let xc: int = x as int * c as int;
    vstd::arithmetic::div_mod::lemma_mul_mod_noop_left(xc, inv as int, m);
    vstd::arithmetic::mul::lemma_mul_is_associative(x as int, c as int, inv as int);
    vstd::arithmetic::mul::lemma_mul_is_distributive_add(x as int, k * m, 1);
    vstd::arithmetic::mul::lemma_mul_is_associative(x as int, k, m);
    vstd::arithmetic::mul::lemma_mul_is_commutative(x as int * k, m);
    vstd::arithmetic::div_mod::lemma_mod_multiples_vanish(x as int * k, x as int, m);
    vstd::arithmetic::div_mod::lemma_small_mod(x as nat, m as nat);
    assert(mul64(x, c) as int == xc % m);
}

proof fn lemma_mix_injective(a: u64, b: u64)
    requires
        mix(a) == mix(b),
    ensures
        a == b,
{
    let ya = mul64(a ^ (a >> 30u64), MIX_A);
    let yb = mul64(b ^ (b >> 30u64), MIX_A);
    let za = mul64(ya ^ (ya >> 27u64), MIX_B);
    let zb = mul64(yb ^ (yb >> 27u64), MIX_B);
    assert(za ^ (za >> 31u64) == zb ^ (zb >> 31u64) ==> za == zb) by (bit_vector);
    lemma_mul64_undo(ya ^ (ya >> 27u64), MIX_B, 0x3196_42b2_d24d_8ec3, 2077064247507883091);
    lemma_mul64_undo(yb ^ (yb >> 27u64), MIX_B, 0x3196_42b2_d24d_8ec3, 2077064247507883091);
    assert(ya ^ (ya >> 27u64) == yb ^ (yb >> 27u64) ==> ya == yb) by (bit_vector);
    lemma_mul64_undo(a ^ (a >> 30u64), MIX_A, 0x96de_1b17_3f11_9089, 8125545580553827436);
    lemma_mul64_undo(b ^ (b >> 30u64), MIX_A, 0x96de_1b17_3f11_9089, 8125545580553827436);
    assert(a ^ (a >> 30u64) == b ^ (b >> 30u64) ==> a == b) by (bit_vector);
}

/// The fingerprint reacts to both inputs: extracts that differ in length, or
/// in modification time, never share a fingerprint.
pub proof fn lemma_fingerprint_reacts_to_len_and_mtime(len1: u64, len2: u64, mtime1: i64, mtime2: i64)
    requires
        len1 != len2 || mtime1 != mtime2,
        len1 == len2 || mtime1 == mtime2,
    ensures
        spec_fingerprint(len1, mtime1) != spec_fingerprint(len2, mtime2),
{
    if spec_fingerprint(len1, mtime1) == spec_fingerprint(len2, mtime2) {
        let r1 = rotl32(mtime1 as u64);
        let r2 = rotl32(mtime2 as u64);
        lemma_mix_injective(len1 ^ r1, len2 ^ r2);
        let m1 = mtime1 as u64;
        let m2 = mtime2 as u64;
        assert(len1 ^ r1 == len2 ^ r2 && r1 == r2 ==> len1 == len2) by (bit_vector);
        assert(len1 ^ r1 == len1 ^ r2 ==> r1 == r2) by (bit_vector);
        assert(((m1 << 32u64) | (m1 >> 32u64)) == ((m2 << 32u64) | (m2 >> 32u64)) ==> m1 == m2)
            by (bit_vector);
        assert((mtime1 as u64) == (mtime2 as u64) ==> mtime1 == mtime2) by (bit_vector);
    }
}

} // verus!
