//! Minimal MVT (Mapbox Vector Tile) decoder for building footprints.
//!
//! Decodes the `building` layer of a vector tile into footprint records:
//! feature id, `render_height` value (in metres, as stored), the
//! layer's extent, and the polygon rings in tile pixel coordinates
//! (`0..extent`). Projecting those pixels to the map and triangulating
//! them happens in the renderer. Vector tiles only use varint and
//! length-delimited fields, plus the fixed-width numbers of the `Value`
//! message; `crate::protobuf` reads them.
use vstd::prelude::*;
use crate::protobuf::{
    Reader, packed_u32, packed_u32_from, tag_at, varint_at, ld_at, skip_at, lemma_reads_progress,
    lemma_reads_prefix, lemma_reads_shift, zigzag, zigzag_value, zigzag64, zigzag64_value,
};

verus! {

/// Errors the decoder reports: a layer, or one of a layer's fields,
/// runs past the end of its buffer.
#[derive(Copy, Clone, Debug, PartialEq, Eq, Structural)]
pub enum MvtError {
    Truncated,
}

/// The number a tile `Value` message holds, as stored: the IEEE-754
/// bits of a `float` or `double`, or a 64-bit integer.
#[derive(Copy, Clone, Debug, PartialEq, Eq, Structural)]
pub enum MvtNumber {
    /// `float_value`: the bits of an IEEE-754 single.
    Float(u32),
    /// `double_value`: the bits of an IEEE-754 double.
    Double(u64),
    /// `int_value`.
    Int(i64),
    /// `uint_value`.
    UInt(u64),
    /// `sint_value` (zigzag-decoded).
    SInt(i64),
}

/// Whether a number is greater than zero. A float is: exactly when its
/// sign bit is clear and it is neither zero nor NaN, i.e. its bits lie
/// between 1 and those of positive infinity.
pub open spec fn number_positive(n: MvtNumber) -> bool {
    match n {
        MvtNumber::Float(bits) => 0 < bits <= 0x7f80_0000,
        MvtNumber::Double(bits) => 0 < bits <= 0x7ff0_0000_0000_0000,
        MvtNumber::Int(v) => v > 0,
        MvtNumber::UInt(v) => v > 0,
        MvtNumber::SInt(v) => v > 0,
    }
}

impl MvtNumber {
    /// Whether this number is greater than zero.
    pub fn is_positive(&self) -> (b: bool)
        ensures
            b == number_positive(*self),
    {
        match *self {
            MvtNumber::Float(bits) => 0 < bits && bits <= 0x7f80_0000,
            MvtNumber::Double(bits) => 0 < bits && bits <= 0x7ff0_0000_0000_0000,
            MvtNumber::Int(v) => v > 0,
            MvtNumber::UInt(v) => v > 0,
            MvtNumber::SInt(v) => v > 0,
        }
    }
}

/// Little-endian `u32` from the four bytes at `p`.
pub open spec fn le_u32(buf: Seq<u8>, p: int) -> u32 {
    (buf[p] + 0x100 * buf[p + 1] + 0x1_0000 * buf[p + 2] + 0x100_0000 * buf[p + 3]) as u32
}

/// Little-endian `u64` from the eight bytes at `p`.
pub open spec fn le_u64(buf: Seq<u8>, p: int) -> u64 {
    (le_u32(buf, p) + 0x1_0000_0000 * le_u32(buf, p + 4)) as u64
}

/// A `u64` read as a two's-complement `i64`.
pub open spec fn as_signed(v: u64) -> i64 {
    if v < 0x8000_0000_0000_0000 {
        v as i64
    } else {
        (v - 0x1_0000_0000_0000_0000) as i64
    }
}

/// The number held by a serialised `Value` message, scanning its fields
/// from `pos`: the first `float` (field 2, 32-bit), `double` (field 3,
/// 64-bit), `int` (field 4, varint), `uint` (field 5) or `sint`
/// (field 6) field decides; other fields are skipped. `None` when a read
/// fails or no numeric field comes.
pub open spec fn value_number_from(buf: Seq<u8>, pos: int) -> Option<MvtNumber>
    decreases buf.len() - pos,
{
    if pos < 0 || pos >= buf.len() {
        None
    } else {
        let (t, p1) = tag_at(buf, pos);
        proof {
            lemma_reads_progress(buf, pos, 0);
        }
        match t {
            None => None,
            Some((field, wire)) => {
                proof {
                    lemma_reads_progress(buf, p1, wire);
                }
                if field == 2 && wire == 5 {
                    if p1 + 4 <= buf.len() {
                        Some(MvtNumber::Float(le_u32(buf, p1)))
                    } else {
                        None
                    }
                } else if field == 3 && wire == 1 {
                    if p1 + 8 <= buf.len() {
                        Some(MvtNumber::Double(le_u64(buf, p1)))
                    } else {
                        None
                    }
                } else if field == 4 && wire == 0 {
                    match varint_at(buf, p1).0 {
                        Some(v) => Some(MvtNumber::Int(as_signed(v))),
                        None => None,
                    }
                } else if field == 5 && wire == 0 {
                    match varint_at(buf, p1).0 {
                        Some(v) => Some(MvtNumber::UInt(v)),
                        None => None,
                    }
                } else if field == 6 && wire == 0 {
                    match varint_at(buf, p1).0 {
                        Some(v) => Some(MvtNumber::SInt(zigzag64_value(v) as i64)),
                        None => None,
                    }
                } else {
                    value_number_from(buf, skip_at(buf, p1, wire))
                }
            },
        }
    }
}

fn read_le_u32(r: &Reader) -> (v: Option<u32>)
    ensures
        v == (if r.pos() + 4 <= r.data().len() {
            Some(le_u32(r.data(), r.pos()))
        } else {
            None::<u32>
        }),
{
    match (r.peek_at(0), r.peek_at(1), r.peek_at(2), r.peek_at(3)) {
        (Some(b0), Some(b1), Some(b2), Some(b3)) => Some(
            b0 as u32 + 0x100 * (b1 as u32) + 0x1_0000 * (b2 as u32) + 0x100_0000 * (b3 as u32),
        ),
        _ => None,
    }
}

fn read_le_u64(r: &Reader) -> (v: Option<u64>)
    ensures
        v == (if r.pos() + 8 <= r.data().len() {
            Some(le_u64(r.data(), r.pos()))
        } else {
            None::<u64>
        }),
{
    let lo = match (r.peek_at(0), r.peek_at(1), r.peek_at(2), r.peek_at(3)) {
        (Some(b0), Some(b1), Some(b2), Some(b3)) => b0 as u32 + 0x100 * (b1 as u32) + 0x1_0000 * (
        b2 as u32) + 0x100_0000 * (b3 as u32),
        _ => {
            return None;
        },
    };
    let hi = match (r.peek_at(4), r.peek_at(5), r.peek_at(6), r.peek_at(7)) {
        (Some(b0), Some(b1), Some(b2), Some(b3)) => b0 as u32 + 0x100 * (b1 as u32) + 0x1_0000 * (
        b2 as u32) + 0x100_0000 * (b3 as u32),
        _ => {
            return None;
        },
    };
    Some(lo as u64 + 0x1_0000_0000 * (hi as u64))
}

fn signed(v: u64) -> (r: i64)
    ensures
        r == as_signed(v),
{
    if v < 0x8000_0000_0000_0000 {
        v as i64
    } else {
        (v - 0x8000_0000_0000_0000) as i64 + i64::MIN
    }
}

/// Extracts the number a serialised MVT `Value` message holds.
pub fn value_number(bytes: &[u8]) -> (v: Option<MvtNumber>)
    ensures
        v == value_number_from(bytes@, 0),
{
    let mut r = Reader::new(bytes);
    loop
        invariant
            r.data() == bytes@,
            0 <= r.pos() <= bytes@.len(),
            value_number_from(bytes@, r.pos()) == value_number_from(bytes@, 0),
        decreases bytes@.len() - r.pos(),
    {
        if r.done() {
            return None;
        }
        let ghost p0 = r.pos();
        proof {
            lemma_reads_progress(bytes@, p0, 0);
        }
        match r.tag() {
            None => {
                return None;
            },
            Some((field, wire)) => {
                proof {
                    lemma_reads_progress(bytes@, r.pos(), wire);
                }
                if field == 2 && wire == 5 {
                    return match read_le_u32(&r) {
                        Some(b) => Some(MvtNumber::Float(b)),
                        None => None,
                    };
                } else if field == 3 && wire == 1 {
                    return match read_le_u64(&r) {
                        Some(b) => Some(MvtNumber::Double(b)),
                        None => None,
                    };
                } else if field == 4 && wire == 0 {
                    return match r.varint() {
                        Some(v) => Some(MvtNumber::Int(signed(v))),
                        None => None,
                    };
                } else if field == 5 && wire == 0 {
                    return match r.varint() {
                        Some(v) => Some(MvtNumber::UInt(v)),
                        None => None,
                    };
                } else if field == 6 && wire == 0 {
                    return match r.varint() {
                        Some(v) => Some(MvtNumber::SInt(zigzag64(v))),
                        None => None,
                    };
                } else {
                    r.skip(wire);
                }
            },
        }
    }
}

// ---------------------------------------------------------------------------
// Geometry
// ---------------------------------------------------------------------------

/// `v` wrapped into the `i32` range (two's complement), for `v` within
/// one turn of it.
pub open spec fn wrap_i32(v: int) -> i32 {
    if v > i32::MAX {
        (v - 0x1_0000_0000) as i32
    } else if v < i32::MIN {
        (v + 0x1_0000_0000) as i32
    } else {
        v as i32
    }
}

fn wrapping_step(c: i32, d: i32) -> (r: i32)
    ensures
        r == wrap_i32(c + d),
{
    let s: i64 = c as i64 + d as i64;
    if s > i32::MAX as i64 {
        (s - 0x1_0000_0000) as i32
    } else if s < i32::MIN as i64 {
        (s + 0x1_0000_0000) as i32
    } else {
        s as i32
    }
}

/// A finished ring is kept only if it has at least three points.
pub open spec fn flush(ring: Seq<(i32, i32)>, rings: Seq<Seq<(i32, i32)>>) -> Seq<Seq<(i32, i32)>> {
    if ring.len() >= 3 {
        rings.push(ring)
    } else {
        rings
    }
}

/// Interprets an MVT geometry command stream from index `i`, with `rem`
/// coordinate pairs still owed to the current MoveTo/LineTo, cursor
/// `(cx, cy)`, the ring being built and the rings finished so far.
/// Command integers hold the command in their low three bits and a
/// repeat count above them: MoveTo (1) finishes the current ring and
/// starts a new one, LineTo (2) extends it, ClosePath (7) finishes it;
/// each MoveTo/LineTo point is a zigzag-encoded delta from the cursor.
/// A stream that ends inside a command's points yields the rings
/// finished before it; an unknown command ends the stream.
pub open spec fn rings_from(
    g: Seq<u32>,
    i: int,
    rem: nat,
    cx: i32,
    cy: i32,
    ring: Seq<(i32, i32)>,
    rings: Seq<Seq<(i32, i32)>>,
) -> Seq<Seq<(i32, i32)>>
    decreases g.len() - i, rem,
{
    if i < 0 {
        rings
    } else if rem > 0 {
        if i + 1 >= g.len() {
            rings
        } else {
            let nx = wrap_i32(cx + zigzag_value(g[i]));
            let ny = wrap_i32(cy + zigzag_value(g[i + 1]));
            rings_from(g, i + 2, (rem - 1) as nat, nx, ny, ring.push((nx, ny)), rings)
        }
    } else if i >= g.len() {
        flush(ring, rings)
    } else {
        let cmd = g[i] % 8;
        let count = (g[i] / 8) as nat;
        if cmd == 1 {
            rings_from(g, i + 1, count, cx, cy, Seq::empty(), flush(ring, rings))
        } else if cmd == 2 {
            rings_from(g, i + 1, count, cx, cy, ring, rings)
        } else if cmd == 7 {
            rings_from(g, i + 1, 0, cx, cy, Seq::empty(), flush(ring, rings))
        } else {
            flush(ring, rings)
        }
    }
}

/// The rings (ring 0 the exterior, the rest holes) a geometry command
/// stream draws, in tile pixel coordinates.
pub open spec fn geometry_rings_spec(g: Seq<u32>) -> Seq<Seq<(i32, i32)>> {
    rings_from(g, 0, 0, 0, 0, Seq::empty(), Seq::empty())
}

/// The view of a list of point lists.
pub open spec fn rings_view(v: Seq<Vec<(i32, i32)>>) -> Seq<Seq<(i32, i32)>> {
    Seq::new(v.len(), |k: int| v[k]@)
}

/// Parse a geometry command stream into rings of MVT pixel coords.
/// Ring 0 is the exterior; rings 1+ are holes.
pub fn geometry_rings(geom: &[u32]) -> (rings: Vec<Vec<(i32, i32)>>)
    ensures
        rings_view(rings@) == geometry_rings_spec(geom@),
{
    let n = geom.len();
    let ghost g = geom@;
    let mut rings: Vec<Vec<(i32, i32)>> = Vec::new();
    let mut ring: Vec<(i32, i32)> = Vec::new();
    let mut cx: i32 = 0;
    let mut cy: i32 = 0;
    let mut i: usize = 0;
    let mut stop = false;
    assert(rings_view(rings@) =~= Seq::<Seq<(i32, i32)>>::empty());
    while i < n && !stop
        invariant
            n == g.len(),
            g == geom@,
            0 <= i <= n,
            !stop ==> rings_from(g, i as int, 0, cx, cy, ring@, rings_view(rings@))
                == geometry_rings_spec(g),
            stop ==> flush(ring@, rings_view(rings@)) == geometry_rings_spec(g),
        decreases n - i,
    {
        let cmd_int = geom[i];
        let cmd = cmd_int % 8;
        let count = cmd_int / 8;
        i = i + 1;
        let ghost i1 = i;
        if cmd == 1 || cmd == 2 {
            if cmd == 1 {
                let ghost rs = rings_view(rings@);
                if ring.len() >= 3 {
                    rings.push(ring);
                    assert(rings_view(rings@) =~= rs.push(rings@[rings@.len() - 1]@));
                }
                ring = Vec::new();
            }
            let mut k: u32 = 0;
            while k < count
                invariant
                    n == g.len(),
                    g == geom@,
                    0 <= i <= n,
                    i1 <= i,
                    k <= count,
                    rings_from(g, i as int, (count - k) as nat, cx, cy, ring@, rings_view(rings@))
                        == geometry_rings_spec(g),
                decreases count - k,
            {
                if n - i < 2 {
                    return rings;
                }
                let dx = zigzag(geom[i]);
                let dy = zigzag(geom[i + 1]);
                cx = wrapping_step(cx, dx);
                cy = wrapping_step(cy, dy);
                ring.push((cx, cy));
                i = i + 2;
                k = k + 1;
            }
        } else if cmd == 7 {
            let ghost rs = rings_view(rings@);
            if ring.len() >= 3 {
                rings.push(ring);
                assert(rings_view(rings@) =~= rs.push(rings@[rings@.len() - 1]@));
            }
            ring = Vec::new();
        } else {
            stop = true;
        }
    }
    let ghost rs = rings_view(rings@);
    if ring.len() >= 3 {
        rings.push(ring);
        assert(rings_view(rings@) =~= rs.push(rings@[rings@.len() - 1]@));
    }
    rings
}

// ---------------------------------------------------------------------------
// Features
// ---------------------------------------------------------------------------

/// The fields of a feature message the decoder reads.
pub struct FeatureFields {
    pub id: u64,
    pub tags: Seq<u8>,
    pub geom_type: u32,
    pub geometry: Seq<u8>,
}

/// `v` if present, else `d`.
pub open spec fn or_default<T>(v: Option<T>, d: T) -> T {
    match v {
        Some(x) => x,
        None => d,
    }
}

/// Scans a feature message from `pos`: field 1 is the id, 2 the packed
/// tags, 3 the geometry type, 4 the packed geometry commands; the last
/// occurrence of each wins, a field that cannot be read counts as 0 or
/// empty, and other fields are skipped.
pub open spec fn feature_fields(buf: Seq<u8>, pos: int, st: FeatureFields) -> FeatureFields
    decreases buf.len() - pos,
{
    if pos < 0 || pos >= buf.len() {
        st
    } else {
        let (t, p1) = tag_at(buf, pos);
        proof {
            lemma_reads_progress(buf, pos, 0);
        }
        match t {
            None => st,
            Some((field, wire)) => {
                proof {
                    lemma_reads_progress(buf, p1, wire);
                }
                if field == 1 {
                    let (v, p2) = varint_at(buf, p1);
                    feature_fields(buf, p2, FeatureFields { id: or_default(v, 0), ..st })
                } else if field == 2 {
                    let (s, p2) = ld_at(buf, p1);
                    feature_fields(buf, p2, FeatureFields { tags: or_default(s, Seq::empty()), ..st })
                } else if field == 3 {
                    let (v, p2) = varint_at(buf, p1);
                    feature_fields(
                        buf,
                        p2,
                        FeatureFields { geom_type: (or_default(v, 0) % 0x1_0000_0000) as u32, ..st },
                    )
                } else if field == 4 {
                    let (s, p2) = ld_at(buf, p1);
                    feature_fields(
                        buf,
                        p2,
                        FeatureFields { geometry: or_default(s, Seq::empty()), ..st },
                    )
                } else {
                    feature_fields(buf, skip_at(buf, p1, wire), st)
                }
            },
        }
    }
}

/// A feature's fields before any are read.
pub open spec fn no_fields() -> FeatureFields {
    FeatureFields { id: 0, tags: Seq::empty(), geom_type: 0, geometry: Seq::empty() }
}

/// The height candidate of tag pair `j`: the value it points at, when
/// its key is `key`, its value index is in range and the value is a
/// positive number.
pub open spec fn pair_height(tags: Seq<u32>, j: int, key: int, values: Seq<Seq<u8>>) -> Option<
    MvtNumber,
> {
    if tags[2 * j] as int == key && (tags[2 * j + 1] as int) < values.len() {
        match value_number_from(values[tags[2 * j + 1] as int], 0) {
            Some(v) => if number_positive(v) {
                Some(v)
            } else {
                None
            },
            None => None,
        }
    } else {
        None
    }
}

/// The height a feature's first `npairs` tag pairs give: the last
/// candidate among them, if any.
pub open spec fn height_from_pairs(tags: Seq<u32>, npairs: nat, key: int, values: Seq<Seq<u8>>) -> Option<
    MvtNumber,
>
    decreases npairs,
{
    if npairs == 0 {
        None
    } else {
        match pair_height(tags, npairs - 1, key, values) {
            Some(v) => Some(v),
            None => height_from_pairs(tags, (npairs - 1) as nat, key, values),
        }
    }
}

/// A building footprint decoded from a tile.
pub struct BuildingRecord {
    pub id: u64,
    pub height: Option<MvtNumber>,
    pub extent: u32,
    pub rings: Seq<Seq<(i32, i32)>>,
}

/// Where a building's height in metres came from, in priority order.
#[derive(Copy, Clone, Debug, PartialEq, Eq, Structural)]
pub enum HeightSource {
    /// `building:height` OSM tag — most trustworthy.
    Tagged,
    /// `building:levels` × metres per level.
    Levels,
    /// Neither tag present; rendered at the default height.
    Default,
}

/// A building footprint decoded from a vector tile, in tile pixel
/// coordinates.
pub struct RawBuilding {
    /// The feature id (the OSM way id for OpenFreeMap tiles).
    pub osm_way_id: u64,
    /// The positive `render_height` the feature carries, in metres as
    /// stored; `None` when it has none.
    pub height: Option<MvtNumber>,
    /// The layer's extent: pixel coordinates run over `0..extent`.
    pub extent: u32,
    /// Ring 0 is the exterior, rings 1+ are holes.
    pub rings: Vec<Vec<(i32, i32)>>,
}

impl View for RawBuilding {
    type V = BuildingRecord;

    open spec fn view(&self) -> BuildingRecord {
        BuildingRecord {
            id: self.osm_way_id,
            height: self.height,
            extent: self.extent,
            rings: rings_view(self.rings@),
        }
    }
}

/// The building a feature message describes, if it is a polygon with an
/// exterior ring of at least three points.
pub open spec fn feature_building(
    bytes: Seq<u8>,
    extent: u32,
    height_key: Option<int>,
    values: Seq<Seq<u8>>,
) -> Option<BuildingRecord> {
    let f = feature_fields(bytes, 0, no_fields());
    let rings = geometry_rings_spec(packed_u32_from(f.geometry, 0));
    if f.geom_type != 3 || rings.len() == 0 || rings[0].len() < 3 {
        None
    } else {
        let tags = packed_u32_from(f.tags, 0);
        Some(
            BuildingRecord {
                id: f.id,
                height: match height_key {
                    Some(k) => height_from_pairs(tags, tags.len() / 2, k, values),
                    None => None,
                },
                extent,
                rings,
            },
        )
    }
}

fn read_feature_fields(bytes: &[u8]) -> (r: (u64, &[u8], u32, &[u8]))
    ensures
        ({
            let f = feature_fields(bytes@, 0, no_fields());
            &&& r.0 == f.id
            &&& r.1@ == f.tags
            &&& r.2 == f.geom_type
            &&& r.3@ == f.geometry
        }),
{
    let mut id: u64 = 0;
    let empty: &[u8] = &[];
    let mut tags: &[u8] = empty;
    let mut geom_type: u32 = 0;
    let mut geom: &[u8] = empty;
    assert(empty@ =~= Seq::<u8>::empty());
    let mut r = Reader::new(bytes);
    loop
        invariant
            r.data() == bytes@,
            empty@ == Seq::<u8>::empty(),
            0 <= r.pos() <= bytes@.len(),
            feature_fields(
                bytes@,
                r.pos(),
                FeatureFields { id, tags: tags@, geom_type, geometry: geom@ },
            ) == feature_fields(bytes@, 0, no_fields()),
        decreases bytes@.len() - r.pos(),
    {
        if r.done() {
            return (id, tags, geom_type, geom);
        }
        proof {
            lemma_reads_progress(bytes@, r.pos(), 0);
        }
        match r.tag() {
            None => {
                return (id, tags, geom_type, geom);
            },
            Some((field, wire)) => {
                proof {
                    lemma_reads_progress(bytes@, r.pos(), wire);
                }
                if field == 1 {
                    id = match r.varint() {
                        Some(v) => v,
                        None => 0,
                    };
                } else if field == 2 {
                    tags = match r.ld() {
                        Some(s) => s,
                        None => empty,
                    };
                } else if field == 3 {
                    geom_type = match r.varint() {
                        Some(v) => (v % 0x1_0000_0000) as u32,
                        None => 0,
                    };
                } else if field == 4 {
                    geom = match r.ld() {
                        Some(s) => s,
                        None => empty,
                    };
                } else {
                    r.skip(wire);
                }
            },
        }
    }
}

/// The view of a list of byte slices.
pub open spec fn slices_view(v: Seq<&[u8]>) -> Seq<Seq<u8>> {
    Seq::new(v.len(), |k: int| v[k]@)
}

/// Decode one feature message of the building layer and append its
/// footprint to `out` when it is a polygon with a usable exterior ring.
/// `height_key` is the index of the `render_height` key among the
/// layer's keys, `values` the layer's value messages.
pub fn decode_feature(
    bytes: &[u8],
    extent: u32,
    height_key: Option<usize>,
    values: &Vec<&[u8]>,
    out: &mut Vec<RawBuilding>,
)
    ensures
        ({
            let b = feature_building(
                bytes@,
                extent,
                match height_key {
                    Some(k) => Some(k as int),
                    None => None::<int>,
                },
                slices_view(values@),
            );
            &&& b is None ==> final(out)@ == old(out)@
            &&& b matches Some(rec) ==> final(out)@.len() == old(out)@.len() + 1
                && final(out)@.subrange(0, old(out)@.len() as int) == old(out)@
                && final(out)@[old(out)@.len() as int]@ == rec
        }),
{
    let (id, tags_packed, geom_type, geom_packed) = read_feature_fields(bytes);
    if geom_type != 3 {
        return ;
    }
    let geom = packed_u32(geom_packed);
    let rings = geometry_rings(geom.as_slice());
    if rings.len() == 0 || rings[0].len() < 3 {
        proof {
            if rings@.len() > 0 {
                assert(rings_view(rings@)[0] == rings@[0]@);
            }
        }
        return ;
    }
    let mut height: Option<MvtNumber> = None;
    let ghost vals = slices_view(values@);
    let ghost hk = match height_key {
        Some(k) => Some(k as int),
        None => None::<int>,
    };
    let tags = packed_u32(tags_packed);
    match height_key {
        Some(h_ki) => {
            let npairs = tags.len() / 2;
            let mut j: usize = 0;
            while j < npairs
                invariant
                    npairs == tags@.len() / 2,
                    0 <= j <= npairs,
                    vals == slices_view(values@),
                    height == height_from_pairs(tags@, j as nat, h_ki as int, vals),
                decreases npairs - j,
            {
                let key = tags[2 * j];
                let vi = tags[2 * j + 1];
                if key as usize == h_ki && (vi as usize) < values.len() {
                    let v = value_number(values[vi as usize]);
                    assert(vals[vi as int] == values@[vi as int]@);
                    match v {
                        Some(x) => {
                            if x.is_positive() {
                                height = Some(x);
                            }
                        },
                        None => {},
                    }
                }
                j = j + 1;
            }
        },
        None => {},
    }
    let rec = RawBuilding { osm_way_id: id, height, extent, rings };
    let ghost old_out = out@;
    out.push(rec);
    assert(out@.subrange(0, old_out.len() as int) =~= old_out);
}

// ---------------------------------------------------------------------------
// Layers and tiles
// ---------------------------------------------------------------------------

/// The fields of a layer message the decoder reads.
pub struct LayerFields {
    pub name: Seq<u8>,
    pub features: Seq<Seq<u8>>,
    pub keys: Seq<Seq<u8>>,
    pub values: Seq<Seq<u8>>,
    pub extent: u32,
}

/// Scans a layer message from `pos`: field 1 is the name (last one
/// wins), 2 a feature, 3 a key, 4 a value, 5 the extent; other fields
/// are skipped. Any of fields 1–5 that cannot be read makes the layer
/// truncated.
pub open spec fn layer_fields(buf: Seq<u8>, pos: int, st: LayerFields) -> Result<
    LayerFields,
    MvtError,
>
    decreases buf.len() - pos,
{
    if pos < 0 || pos >= buf.len() {
        Ok(st)
    } else {
        let (t, p1) = tag_at(buf, pos);
        proof {
            lemma_reads_progress(buf, pos, 0);
        }
        match t {
            None => Ok(st),
            Some((field, wire)) => {
                proof {
                    lemma_reads_progress(buf, p1, wire);
                }
                if 1 <= field <= 4 {
                    let (s, p2) = ld_at(buf, p1);
                    match s {
                        None => Err(MvtError::Truncated),
                        Some(s) => layer_fields(
                            buf,
                            p2,
                            if field == 1 {
                                LayerFields { name: s, ..st }
                            } else if field == 2 {
                                LayerFields { features: st.features.push(s), ..st }
                            } else if field == 3 {
                                LayerFields { keys: st.keys.push(s), ..st }
                            } else {
                                LayerFields { values: st.values.push(s), ..st }
                            },
                        ),
                    }
                } else if field == 5 {
                    let (v, p2) = varint_at(buf, p1);
                    match v {
                        None => Err(MvtError::Truncated),
                        Some(v) => layer_fields(
                            buf,
                            p2,
                            LayerFields { extent: (v % 0x1_0000_0000) as u32, ..st },
                        ),
                    }
                } else {
                    layer_fields(buf, skip_at(buf, p1, wire), st)
                }
            },
        }
    }
}

/// A layer before any field is read: unnamed, empty, extent 4096.
pub open spec fn empty_layer() -> LayerFields {
    LayerFields {
        name: Seq::empty(),
        features: Seq::empty(),
        keys: Seq::empty(),
        values: Seq::empty(),
        extent: 4096,
    }
}

/// The UTF-8 bytes of `building`.
pub open spec fn building_name() -> Seq<u8> {
    seq![98u8, 117, 105, 108, 100, 105, 110, 103]
}

/// The UTF-8 bytes of `render_height`.
pub open spec fn render_height_key() -> Seq<u8> {
    seq![114u8, 101, 110, 100, 101, 114, 95, 104, 101, 105, 103, 104, 116]
}

/// Index of the first key equal to `k`, from index `from` on.
pub open spec fn key_index(keys: Seq<Seq<u8>>, k: Seq<u8>, from: int) -> Option<int>
    decreases keys.len() - from,
{
    if from < 0 || from >= keys.len() {
        None
    } else if keys[from] == k {
        Some(from)
    } else {
        key_index(keys, k, from + 1)
    }
}

/// The buildings the first `n` features yield, in order.
pub open spec fn features_buildings(
    features: Seq<Seq<u8>>,
    n: nat,
    extent: u32,
    height_key: Option<int>,
    values: Seq<Seq<u8>>,
) -> Seq<BuildingRecord>
    decreases n,
{
    if n == 0 {
        Seq::empty()
    } else {
        let r = features_buildings(features, (n - 1) as nat, extent, height_key, values);
        match feature_building(features[n - 1], extent, height_key, values) {
            Some(b) => r.push(b),
            None => r,
        }
    }
}

/// The buildings a layer message yields: none unless the layer is named
/// `building`, else one per polygon feature, in order.
pub open spec fn layer_buildings(layer: Seq<u8>) -> Result<Seq<BuildingRecord>, MvtError> {
    match layer_fields(layer, 0, empty_layer()) {
        Err(e) => Err(e),
        Ok(f) => if f.name != building_name() {
            Ok(Seq::empty())
        } else {
            Ok(
                features_buildings(
                    f.features,
                    f.features.len(),
                    f.extent,
                    key_index(f.keys, render_height_key(), 0),
                    f.values,
                ),
            )
        },
    }
}

/// The buildings a tile yields, scanning its top-level fields from
/// `pos`: each layer (field 3, length-delimited) in turn; other fields
/// are skipped and an unreadable field key ends the tile.
pub open spec fn tile_buildings_from(buf: Seq<u8>, pos: int) -> Result<Seq<BuildingRecord>, MvtError>
    decreases buf.len() - pos,
{
    if pos < 0 || pos >= buf.len() {
        Ok(Seq::empty())
    } else {
        let (t, p1) = tag_at(buf, pos);
        proof {
            lemma_reads_progress(buf, pos, 0);
        }
        match t {
            None => Ok(Seq::empty()),
            Some((field, wire)) => {
                proof {
                    lemma_reads_progress(buf, p1, wire);
                }
                if field == 3 && wire == 2 {
                    let (s, p2) = ld_at(buf, p1);
                    match s {
                        None => Err(MvtError::Truncated),
                        Some(layer) => match layer_buildings(layer) {
                            Err(e) => Err(e),
                            Ok(bs) => match tile_buildings_from(buf, p2) {
                                Err(e) => Err(e),
                                Ok(rest) => Ok(bs + rest),
                            },
                        },
                    }
                } else {
                    tile_buildings_from(buf, skip_at(buf, p1, wire))
                }
            },
        }
    }
}

/// The view of a list of decoded buildings.
pub open spec fn records_view(v: Seq<RawBuilding>) -> Seq<BuildingRecord> {
    Seq::new(v.len(), |k: int| v[k]@)
}

fn byte_text_eq(s: &[u8], t: &[u8]) -> (b: bool)
    ensures
        b == (s@ == t@),
{
    if s.len() != t.len() {
        return false;
    }
    let mut i: usize = 0;
    while i < s.len()
        invariant
            s@.len() == t@.len(),
            0 <= i <= s@.len(),
            forall|k: int| 0 <= k < i ==> s@[k] == t@[k],
        decreases s@.len() - i,
    {
        if s[i] != t[i] {
            return false;
        }
        i = i + 1;
    }
    assert(s@ =~= t@);
    true
}

/// Scans a layer message's fields.
fn read_layer_fields<'a>(bytes: &'a [u8]) -> (r: Result<
    (&'a [u8], Vec<&'a [u8]>, Vec<&'a [u8]>, Vec<&'a [u8]>, u32),
    MvtError,
>)
    ensures
        match layer_fields(bytes@, 0, empty_layer()) {
            Err(e) => r == Err::<(&'a [u8], Vec<&'a [u8]>, Vec<&'a [u8]>, Vec<&'a [u8]>, u32), MvtError>(e),
            Ok(f) => r matches Ok(x) && x.0@ == f.name && slices_view(x.1@) == f.features
                && slices_view(x.2@) == f.keys && slices_view(x.3@) == f.values && x.4 == f.extent,
        },
{
    let empty: &[u8] = &[];
    let mut name: &'a [u8] = empty;
    let mut features: Vec<&'a [u8]> = Vec::new();
    let mut keys: Vec<&'a [u8]> = Vec::new();
    let mut values: Vec<&'a [u8]> = Vec::new();
    let mut extent: u32 = 4096;
    assert(empty@ =~= Seq::<u8>::empty());
    assert(slices_view(features@) =~= Seq::<Seq<u8>>::empty());
    let mut r = Reader::new(bytes);
    loop
        invariant
            r.data() == bytes@,
            0 <= r.pos() <= bytes@.len(),
            layer_fields(
                bytes@,
                r.pos(),
                LayerFields {
                    name: name@,
                    features: slices_view(features@),
                    keys: slices_view(keys@),
                    values: slices_view(values@),
                    extent,
                },
            ) == layer_fields(bytes@, 0, empty_layer()),
        decreases bytes@.len() - r.pos(),
    {
        let ghost st = LayerFields {
            name: name@,
            features: slices_view(features@),
            keys: slices_view(keys@),
            values: slices_view(values@),
            extent,
        };
        if r.done() {
            return Ok((name, features, keys, values, extent));
        }
        proof {
            lemma_reads_progress(bytes@, r.pos(), 0);
        }
        match r.tag() {
            None => {
                return Ok((name, features, keys, values, extent));
            },
            Some((field, wire)) => {
                proof {
                    lemma_reads_progress(bytes@, r.pos(), wire);
                }
                if 1 <= field && field <= 4 {
                    let s = match r.ld() {
                        Some(s) => s,
                        None => {
                            return Err(MvtError::Truncated);
                        },
                    };
                    if field == 1 {
                        name = s;
                    } else if field == 2 {
                        features.push(s);
                        assert(slices_view(features@) =~= st.features.push(s@));
                    } else if field == 3 {
                        keys.push(s);
                        assert(slices_view(keys@) =~= st.keys.push(s@));
                    } else {
                        values.push(s);
                        assert(slices_view(values@) =~= st.values.push(s@));
                    }
                } else if field == 5 {
                    extent = match r.varint() {
                        Some(v) => (v % 0x1_0000_0000) as u32,
                        None => {
                            return Err(MvtError::Truncated);
                        },
                    };
                } else {
                    r.skip(wire);
                }
            },
        }
    }
}

/// Decode one layer message; when it is the `building` layer, append the
/// footprint of each of its polygon features to `out`. A truncated
/// layer is an error and leaves `out` as it was.
pub fn decode_layer(bytes: &[u8], out: &mut Vec<RawBuilding>) -> (res: Result<(), MvtError>)
    ensures
        match layer_buildings(bytes@) {
            Err(e) => res == Err::<(), MvtError>(e) && final(out)@ == old(out)@,
            Ok(bs) => res is Ok && records_view(final(out)@) == records_view(old(out)@) + bs,
        },
{
    let (name, features, keys, values, extent) = match read_layer_fields(bytes) {
        Ok(x) => x,
        Err(e) => {
            return Err(e);
        },
    };
    let building: [u8; 8] = [98, 117, 105, 108, 100, 105, 110, 103];
    assert(building@ =~= building_name());
    if !byte_text_eq(name, building.as_slice()) {
        assert(records_view(out@) + Seq::<BuildingRecord>::empty() =~= records_view(out@));
        return Ok(());
    }
    let render_height: [u8; 13] = [114, 101, 110, 100, 101, 114, 95, 104, 101, 105, 103, 104, 116];
    assert(render_height@ =~= render_height_key());
    let mut height_key: Option<usize> = None;
    let mut k: usize = 0;
    while k < keys.len() && height_key.is_none()
        invariant
            0 <= k <= keys@.len(),
            height_key is None ==> key_index(slices_view(keys@), render_height_key(), 0)
                == key_index(slices_view(keys@), render_height_key(), k as int),
            height_key matches Some(h) ==> key_index(slices_view(keys@), render_height_key(), 0)
                == Some(h as int),
            render_height@ == render_height_key(),
        decreases keys@.len() - k,
    {
        assert(slices_view(keys@)[k as int] == keys@[k as int]@);
        if byte_text_eq(keys[k], render_height.as_slice()) {
            height_key = Some(k);
        }
        k = k + 1;
    }
    let ghost hk = key_index(slices_view(keys@), render_height_key(), 0);
    assert(hk == match height_key {
        Some(k) => Some(k as int),
        None => None::<int>,
    });
    let ghost start = records_view(out@);
    let ghost feats = slices_view(features@);
    let mut f: usize = 0;
    assert(start + Seq::<BuildingRecord>::empty() =~= start);
    while f < features.len()
        invariant
            0 <= f <= features@.len(),
            feats == slices_view(features@),
            hk == match height_key {
                Some(k) => Some(k as int),
                None => None::<int>,
            },
            records_view(out@) == start + features_buildings(
                feats,
                f as nat,
                extent,
                hk,
                slices_view(values@),
            ),
        decreases features@.len() - f,
    {
        let ghost before = out@;
        assert(feats[f as int] == features@[f as int]@);
        decode_feature(features[f], extent, height_key, &values, out);
        proof {
            let prev = features_buildings(feats, f as nat, extent, hk, slices_view(values@));
            match feature_building(feats[f as int], extent, hk, slices_view(values@)) {
                Some(b) => {
                    assert(records_view(out@) =~= records_view(before).push(b));
                    assert(start + prev.push(b) =~= (start + prev).push(b));
                },
                None => {},
            }
        }
        f = f + 1;
    }
    Ok(())
}

/// Decode a raw MVT tile body into building footprints. Only the
/// `"building"` layer contributes; other layers are read past.
pub fn decode_tile_buildings(bytes: &[u8]) -> (res: Result<Vec<RawBuilding>, MvtError>)
    ensures
        match tile_buildings_from(bytes@, 0) {
            Err(e) => res == Err::<Vec<RawBuilding>, MvtError>(e),
            Ok(bs) => res matches Ok(v) && records_view(v@) == bs,
        },
{
    let mut out: Vec<RawBuilding> = Vec::new();
    let mut r = Reader::new(bytes);
    let ghost total = tile_buildings_from(bytes@, 0);
    assert(records_view(out@) =~= Seq::<BuildingRecord>::empty());
    loop
        invariant
            r.data() == bytes@,
            0 <= r.pos() <= bytes@.len(),
            total == tile_buildings_from(bytes@, 0),
            match tile_buildings_from(bytes@, r.pos()) {
                Err(e) => total == Err::<Seq<BuildingRecord>, MvtError>(e),
                Ok(rest) => total == Ok::<Seq<BuildingRecord>, MvtError>(
                    records_view(out@) + rest,
                ),
            },
        decreases bytes@.len() - r.pos(),
    {
        if r.done() {
            assert(records_view(out@) + Seq::<BuildingRecord>::empty() =~= records_view(out@));
            return Ok(out);
        }
        proof {
            lemma_reads_progress(bytes@, r.pos(), 0);
        }
        match r.tag() {
            None => {
                assert(records_view(out@) + Seq::<BuildingRecord>::empty() =~= records_view(
                    out@,
                ));
                return Ok(out);
            },
            Some((field, wire)) => {
                proof {
                    lemma_reads_progress(bytes@, r.pos(), wire);
                }
                if field == 3 && wire == 2 {
                    let layer = match r.ld() {
                        Some(s) => s,
                        None => {
                            return Err(MvtError::Truncated);
                        },
                    };
                    let ghost before = records_view(out@);
                    match decode_layer(layer, &mut out) {
                        Ok(()) => {
                            proof {
                                match tile_buildings_from(bytes@, r.pos()) {
                                    Ok(rest) => {
                                        let bs = layer_buildings(layer@)->Ok_0;
                                        assert(before + (bs + rest) =~= (before + bs) + rest);
                                    },
                                    Err(e) => {},
                                }
                            }
                        },
                        Err(e) => {
                            return Err(e);
                        },
                    }
                } else {
                    r.skip(wire);
                }
            },
        }
    }
}

// ---------------------------------------------------------------------------
// Laws
// ---------------------------------------------------------------------------

/// Every ring in a list has at least three points.
pub open spec fn rings_closed(rings: Seq<Seq<(i32, i32)>>) -> bool {
    forall|k: int| 0 <= k < rings.len() ==> (#[trigger] rings[k]).len() >= 3
}

/// A footprint the decoder can hand out: an exterior ring, every ring
/// with at least three points, and a height, when present, above zero.
pub open spec fn well_formed_building(b: BuildingRecord) -> bool {
    &&& b.rings.len() >= 1
    &&& rings_closed(b.rings)
    &&& b.height matches Some(h) ==> number_positive(h)
}

proof fn lemma_flush_closed(ring: Seq<(i32, i32)>, rings: Seq<Seq<(i32, i32)>>)
    requires
        rings_closed(rings),
    ensures
        rings_closed(flush(ring, rings)),
{
    if ring.len() >= 3 {
        assert forall|k: int| 0 <= k < rings.push(ring).len() implies (#[trigger] rings.push(
            ring,
        )[k]).len() >= 3 by {
            if k < rings.len() {
                assert(rings.push(ring)[k] == rings[k]);
            }
        }
    }
}

/// Geometry decoding never keeps a ring of fewer than three points.
pub proof fn lemma_rings_from_closed(
    g: Seq<u32>,
    i: int,
    rem: nat,
    cx: i32,
    cy: i32,
    ring: Seq<(i32, i32)>,
    rings: Seq<Seq<(i32, i32)>>,
)
    requires
        rings_closed(rings),
    ensures
        rings_closed(rings_from(g, i, rem, cx, cy, ring, rings)),
    decreases g.len() - i, rem,
{
    if i < 0 {
    } else if rem > 0 {
        if i + 1 < g.len() {
            let nx = wrap_i32(cx + zigzag_value(g[i]));
            let ny = wrap_i32(cy + zigzag_value(g[i + 1]));
            lemma_rings_from_closed(g, i + 2, (rem - 1) as nat, nx, ny, ring.push((nx, ny)), rings);
        }
    } else if i >= g.len() {
        lemma_flush_closed(ring, rings);
    } else {
        let cmd = g[i] % 8;
        let count = (g[i] / 8) as nat;
        lemma_flush_closed(ring, rings);
        if cmd == 1 {
            lemma_rings_from_closed(g, i + 1, count, cx, cy, Seq::empty(), flush(ring, rings));
        } else if cmd == 2 {
            lemma_rings_from_closed(g, i + 1, count, cx, cy, ring, rings);
        } else if cmd == 7 {
            lemma_rings_from_closed(g, i + 1, 0, cx, cy, Seq::empty(), flush(ring, rings));
        }
    }
}

proof fn lemma_height_positive(tags: Seq<u32>, npairs: nat, key: int, values: Seq<Seq<u8>>)
    ensures
        height_from_pairs(tags, npairs, key, values) matches Some(h) ==> number_positive(h),
    decreases npairs,
{
    if npairs > 0 {
        lemma_height_positive(tags, (npairs - 1) as nat, key, values);
    }
}

/// A feature yields only well-formed footprints.
pub proof fn lemma_feature_building_well_formed(
    bytes: Seq<u8>,
    extent: u32,
    height_key: Option<int>,
    values: Seq<Seq<u8>>,
)
    ensures
        feature_building(bytes, extent, height_key, values) matches Some(b)
            ==> well_formed_building(b),
{
    let f = feature_fields(bytes, 0, no_fields());
    lemma_rings_from_closed(
        packed_u32_from(f.geometry, 0),
        0,
        0,
        0,
        0,
        Seq::empty(),
        Seq::empty(),
    );
    let tags = packed_u32_from(f.tags, 0);
    if let Some(k) = height_key {
        lemma_height_positive(tags, tags.len() / 2, k, values);
    }
}

/// All items of a sequence of footprints are well formed.
pub open spec fn all_well_formed(bs: Seq<BuildingRecord>) -> bool {
    forall|k: int| 0 <= k < bs.len() ==> well_formed_building(#[trigger] bs[k])
}

proof fn lemma_features_well_formed(
    features: Seq<Seq<u8>>,
    n: nat,
    extent: u32,
    height_key: Option<int>,
    values: Seq<Seq<u8>>,
)
    ensures
        all_well_formed(features_buildings(features, n, extent, height_key, values)),
    decreases n,
{
    if n > 0 {
        lemma_features_well_formed(features, (n - 1) as nat, extent, height_key, values);
        lemma_feature_building_well_formed(features[n - 1], extent, height_key, values);
        let r = features_buildings(features, (n - 1) as nat, extent, height_key, values);
        if let Some(b) = feature_building(features[n - 1], extent, height_key, values) {
            assert forall|k: int| 0 <= k < r.push(b).len() implies well_formed_building(
                #[trigger] r.push(b)[k],
            ) by {
                if k < r.len() {
                    assert(r.push(b)[k] == r[k]);
                }
            }
        }
    }
}

/// A layer yields only well-formed footprints.
pub proof fn lemma_layer_well_formed(layer: Seq<u8>)
    ensures
        layer_buildings(layer) matches Ok(bs) ==> all_well_formed(bs),
{
    if let Ok(f) = layer_fields(layer, 0, empty_layer()) {
        lemma_features_well_formed(
            f.features,
            f.features.len(),
            f.extent,
            key_index(f.keys, render_height_key(), 0),
            f.values,
        );
    }
}

/// Every footprint decoded from a tile has an exterior ring, no ring of
/// fewer than three points, and a positive height whenever it has one.
pub proof fn lemma_tile_buildings_well_formed(buf: Seq<u8>, pos: int)
    ensures
        tile_buildings_from(buf, pos) matches Ok(bs) ==> all_well_formed(bs),
    decreases buf.len() - pos,
{
    if 0 <= pos < buf.len() {
        lemma_reads_progress(buf, pos, 0);
        let (t, p1) = tag_at(buf, pos);
        if let Some((field, wire)) = t {
            lemma_reads_progress(buf, p1, wire);
            if field == 3 && wire == 2 {
                let (s, p2) = ld_at(buf, p1);
                if let Some(layer) = s {
                    lemma_layer_well_formed(layer);
                    lemma_tile_buildings_well_formed(buf, p2);
                    if let (Ok(bs), Ok(rest)) = (layer_buildings(layer), tile_buildings_from(buf, p2)) {
                        assert forall|k: int| 0 <= k < (bs + rest).len() implies well_formed_building(
                            #[trigger] (bs + rest)[k],
                        ) by {
                            if k < bs.len() {
                                assert((bs + rest)[k] == bs[k]);
                            } else {
                                assert((bs + rest)[k] == rest[k - bs.len()]);
                            }
                        }
                    }
                }
            } else {
                lemma_tile_buildings_well_formed(buf, skip_at(buf, p1, wire));
            }
        }
    }
}


proof fn lemma_tile_scan_shift(a: Seq<u8>, b: Seq<u8>, p: int)
    requires
        0 <= p <= b.len(),
    ensures
        tile_buildings_from(a + b, a.len() + p) == tile_buildings_from(b, p),
    decreases b.len() - p,
{
    if p < b.len() {
        lemma_reads_shift(a, b, p, 0);
        lemma_reads_progress(b, p, 0);
        let (t, p1) = tag_at(b, p);
        match t {
            None => {},
            Some((field, wire)) => {
                lemma_reads_shift(a, b, p1, wire);
                lemma_reads_progress(b, p1, wire);
                if field == 3 && wire == 2 {
                    let (l, p2) = ld_at(b, p1);
                    if l is Some {
                        lemma_tile_scan_shift(a, b, p2);
                    }
                } else {
                    lemma_tile_scan_shift(a, b, skip_at(b, p1, wire));
                }
            },
        }
    }
}

proof fn lemma_layer_key(layer: Seq<u8>)
    requires
        layer.len() > 0,
        layer[0] == 0x1Au8,
    ensures
        tag_at(layer, 0) == (Some((3u32, 2u8)), 1int),
{
    assert(crate::protobuf::varint_len(layer, 0) == Some(1nat));
    assert(layer.subrange(0, 1) =~= seq![0x1Au8]);
    assert(seq![0x1Au8].drop_last() =~= Seq::<u8>::empty());
    let one = seq![0x1Au8];
    assert(one.len() == 1);
    assert(one.last() == 0x1Au8);
    assert(one.last() % 128 == 26);
    assert(crate::protobuf::pow128(0) == 1);
    assert(one.drop_last() =~= Seq::<u8>::empty());
    assert(crate::protobuf::base128_value(Seq::<u8>::empty()) == 0);
    assert(crate::protobuf::base128_value(one.drop_last()) == 0);
    assert(crate::protobuf::base128_value(one) == crate::protobuf::base128_value(one.drop_last()) + (one.last() % 128) as nat * crate::protobuf::pow128((one.len() - 1) as nat));
    assert(crate::protobuf::base128_value(one) == 26);
}

/// Only the `building` layer yields buildings: a tile that starts with
/// a whole layer field (key byte `0x1A`, then the layer's length and
/// bytes) holding any other layer decodes exactly as the rest of the
/// tile does on its own.
pub proof fn lemma_other_layer_skipped(layer: Seq<u8>, body: Seq<u8>, rest: Seq<u8>)
    requires
        layer.len() > 0,
        layer[0] == 0x1Au8,
        ld_at(layer, 1) == (Some(body), layer.len() as int),
        layer_fields(body, 0, empty_layer()) matches Ok(f) && f.name != building_name(),
    ensures
        tile_buildings_from(layer + rest, 0) == tile_buildings_from(rest, 0),
{
    let buf = layer + rest;
    lemma_layer_key(layer);
    lemma_reads_prefix(layer, rest, 0);
    lemma_reads_prefix(layer, rest, 1);
    assert(tag_at(buf, 0) == (Some((3u32, 2u8)), 1int));
    assert(ld_at(buf, 1) == (Some(body), layer.len() as int));
    assert(layer_buildings(body) == Ok::<Seq<BuildingRecord>, MvtError>(Seq::empty()));
    lemma_tile_scan_shift(layer, rest, 0);
    assert(tile_buildings_from(buf, layer.len() as int) == tile_buildings_from(rest, 0));
    match tile_buildings_from(rest, 0) {
        Ok(bs) => {
            assert(Seq::<BuildingRecord>::empty() + bs =~= bs);
        },
        Err(_) => {},
    }
}


/// Whether `buf` from `pos` on is a run of whole fields: each key and
/// each field body complete, with a wire type the reader knows.
pub open spec fn whole_fields(buf: Seq<u8>, pos: int) -> bool
    decreases buf.len() - pos,
{
    if pos < 0 || pos > buf.len() {
        false
    } else if pos == buf.len() {
        true
    } else {
        let (t, p1) = tag_at(buf, pos);
        proof {
            lemma_reads_progress(buf, pos, 0);
        }
        match t {
            None => false,
            Some((_, wire)) => {
                proof {
                    lemma_reads_progress(buf, p1, wire);
                }
                let body_whole = if wire == 0 {
                    varint_at(buf, p1).0 is Some
                } else if wire == 1 {
                    p1 + 8 <= buf.len()
                } else if wire == 2 {
                    ld_at(buf, p1).0 is Some
                } else if wire == 5 {
                    p1 + 4 <= buf.len()
                } else {
                    false
                };
                body_whole && whole_fields(buf, skip_at(buf, p1, wire))
            },
        }
    }
}

/// The buildings of a scan followed by those of a further scan.
pub open spec fn then_scan(
    first: Result<Seq<BuildingRecord>, MvtError>,
    rest: Result<Seq<BuildingRecord>, MvtError>,
) -> Result<Seq<BuildingRecord>, MvtError> {
    match first {
        Err(e) => Err(e),
        Ok(bs) => match rest {
            Ok(more) => Ok(bs + more),
            Err(e) => Err(e),
        },
    }
}

proof fn lemma_whole_field_reads(a: Seq<u8>, c: Seq<u8>, p: int)
    requires
        0 <= p < a.len(),
        whole_fields(a, p),
    ensures
        tag_at(a, p).0 is Some,
        tag_at(a + c, p) == tag_at(a, p),
        p < tag_at(a, p).1 <= a.len(),
        ({
            let (field, wire) = tag_at(a, p).0->Some_0;
            let p1 = tag_at(a, p).1;
            &&& skip_at(a + c, p1, wire) == skip_at(a, p1, wire)
            &&& p1 <= skip_at(a, p1, wire) <= a.len()
            &&& whole_fields(a, skip_at(a, p1, wire))
            &&& (wire == 2 ==> ld_at(a, p1).0 is Some && ld_at(a + c, p1) == ld_at(a, p1)
                && ld_at(a, p1).1 == skip_at(a, p1, wire))
        }),
{
    lemma_reads_progress(a, p, 0);
    lemma_reads_prefix(a, c, p);
    let (t, p1) = tag_at(a, p);
    let (field, wire) = t->Some_0;
    lemma_reads_progress(a, p1, wire);
    lemma_reads_prefix(a, c, p1);
}

#[verifier::rlimit(40)]
proof fn lemma_append_scan(a: Seq<u8>, c: Seq<u8>, p: int)
    requires
        0 <= p <= a.len(),
        whole_fields(a, p),
    ensures
        tile_buildings_from(a + c, p) == then_scan(
            tile_buildings_from(a, p),
            tile_buildings_from(a + c, a.len() as int),
        ),
    decreases a.len() - p,
{
    let ac = a + c;
    let tail = tile_buildings_from(ac, a.len() as int);
    if p == a.len() {
        match tail {
            Ok(more) => {
                assert(Seq::<BuildingRecord>::empty() + more =~= more);
            },
            Err(_) => {},
        }
    } else {
        lemma_whole_field_reads(a, c, p);
        let (t, p1) = tag_at(a, p);
        let (field, wire) = t->Some_0;
        let next = skip_at(a, p1, wire);
        lemma_append_scan(a, c, next);
        if field == 3 && wire == 2 {
            let l = ld_at(a, p1).0->Some_0;
            match layer_buildings(l) {
                Ok(bs) => match tile_buildings_from(a, next) {
                    Ok(r) => match tail {
                        Ok(more) => {
                            assert(bs + (r + more) =~= (bs + r) + more);
                        },
                        Err(_) => {},
                    },
                    Err(_) => {},
                },
                Err(_) => {},
            }
        }
    }
}

/// Only the `building` layer yields buildings: appending a whole layer
/// field (key byte `0x1A`, then the layer's length and bytes) that holds
/// any other layer to a tile made of whole fields leaves what the tile
/// decodes to unchanged.
pub proof fn lemma_appended_layer_skipped(tile: Seq<u8>, layer: Seq<u8>, body: Seq<u8>)
    requires
        whole_fields(tile, 0),
        layer.len() > 0,
        layer[0] == 0x1Au8,
        ld_at(layer, 1) == (Some(body), layer.len() as int),
        layer_fields(body, 0, empty_layer()) matches Ok(f) && f.name != building_name(),
    ensures
        tile_buildings_from(tile + layer, 0) == tile_buildings_from(tile, 0),
{
    lemma_append_scan(tile, layer, 0);
    lemma_tile_scan_shift(tile, layer, 0);
    lemma_other_layer_skipped(layer, body, Seq::<u8>::empty());
    assert(layer + Seq::<u8>::empty() =~= layer);
    assert(tile_buildings_from(Seq::<u8>::empty(), 0) == Ok::<Seq<BuildingRecord>, MvtError>(
        Seq::empty(),
    ));
    match tile_buildings_from(tile, 0) {
        Ok(bs) => {
            assert(bs + Seq::<BuildingRecord>::empty() =~= bs);
        },
        Err(_) => {},
    }
}


proof fn lemma_single_byte_key(buf: Seq<u8>, byte: u8)
    requires
        buf.len() > 0,
        buf[0] == byte,
        byte < 128,
    ensures
        tag_at(buf, 0) == (Some(((byte / 8) as u32, (byte % 8) as u8)), 1int),
{
    assert(crate::protobuf::varint_len(buf, 0) == Some(1nat));
    assert(buf.subrange(0, 1) =~= seq![byte]);
    let one = seq![byte];
    assert(one.len() == 1);
    assert(one.last() == byte);
    assert(crate::protobuf::pow128(0) == 1);
    assert(one.drop_last() =~= Seq::<u8>::empty());
    assert(crate::protobuf::base128_value(Seq::<u8>::empty()) == 0);
    assert(crate::protobuf::base128_value(one) == crate::protobuf::base128_value(one.drop_last())
        + (one.last() % 128) as nat * crate::protobuf::pow128((one.len() - 1) as nat));
    assert(one.last() % 128 == byte);
    assert((byte as nat) * 1 == byte as nat);
    assert(crate::protobuf::base128_value(one) == byte);
}

/// A `sint_value` (field 6, varint) reads back as the signed number it
/// zigzag-encodes: a varint `n` stands for `k` with `n == 2k` when
/// `k >= 0` and `n == -2k - 1` when `k < 0`.
pub proof fn lemma_sint_value_reads_zigzag(rest: Seq<u8>)
    requires
        varint_at(rest, 0).0 is Some,
    ensures
        ({
            let n = varint_at(rest, 0).0->Some_0 as int;
            value_number_from(seq![0x30u8] + rest, 0) matches Some(MvtNumber::SInt(k)) && (if k
                >= 0 {
                n == 2 * k
            } else {
                n == -2 * k - 1
            })
        }),
{
    let buf = seq![0x30u8] + rest;
    lemma_single_byte_key(buf, 0x30u8);
    lemma_reads_shift(seq![0x30u8], rest, 0, 0);
    let v = varint_at(rest, 0).0->Some_0;
    assert(varint_at(buf, 1).0 == Some(v));
    if v % 2 == 0 {
        assert(zigzag64_value(v) == (v / 2) as int);
        assert((v / 2) as int <= i64::MAX);
    } else {
        assert(zigzag64_value(v) == -((v / 2) as int) - 1);
        assert(-((v / 2) as int) - 1 >= i64::MIN);
    }
}


/// Decoding never drops or reorders rings already finished: the rings
/// a stream yields after some finished rings are those rings followed
/// by what the stream yields on its own. In particular every ring the
/// stream completes with at least three points is kept, whatever came
/// before it.
pub proof fn lemma_finished_rings_kept(
    g: Seq<u32>,
    i: int,
    rem: nat,
    cx: i32,
    cy: i32,
    ring: Seq<(i32, i32)>,
    rings: Seq<Seq<(i32, i32)>>,
)
    ensures
        rings_from(g, i, rem, cx, cy, ring, rings) == rings + rings_from(
            g,
            i,
            rem,
            cx,
            cy,
            ring,
            Seq::empty(),
        ),
    decreases g.len() - i, rem,
{
    let e = Seq::<Seq<(i32, i32)>>::empty();
    assert(rings + e =~= rings);
    assert(flush(ring, rings) =~= rings + flush(ring, e));
    if i < 0 {
    } else if rem > 0 {
        if i + 1 < g.len() {
            let nx = wrap_i32(cx + zigzag_value(g[i]));
            let ny = wrap_i32(cy + zigzag_value(g[i + 1]));
            lemma_finished_rings_kept(g, i + 2, (rem - 1) as nat, nx, ny, ring.push((nx, ny)), rings);
            lemma_finished_rings_kept(g, i + 2, (rem - 1) as nat, nx, ny, ring.push((nx, ny)), e);
        }
    } else if i < g.len() {
        let cmd = g[i] % 8;
        let count = (g[i] / 8) as nat;
        if cmd == 1 || cmd == 7 {
            let c = if cmd == 1 { count } else { 0 };
            lemma_finished_rings_kept(g, i + 1, c, cx, cy, Seq::empty(), flush(ring, rings));
            lemma_finished_rings_kept(g, i + 1, c, cx, cy, Seq::empty(), flush(ring, e));
            let r = rings_from(g, i + 1, c, cx, cy, Seq::empty(), e);
            assert(flush(ring, rings) + r =~= rings + (flush(ring, e) + r));
        } else if cmd == 2 {
            lemma_finished_rings_kept(g, i + 1, count, cx, cy, ring, rings);
            lemma_finished_rings_kept(g, i + 1, count, cx, cy, ring, e);
        }
    }
}


/// The points reached from `(cx, cy)` by the zigzag-encoded coordinate
/// deltas `d`, taken in pairs.
pub open spec fn walk(cx: i32, cy: i32, d: Seq<u32>) -> Seq<(i32, i32)>
    decreases d.len(),
{
    if d.len() < 2 {
        Seq::empty()
    } else {
        let nx = wrap_i32(cx + zigzag_value(d[0]));
        let ny = wrap_i32(cy + zigzag_value(d[1]));
        seq![(nx, ny)] + walk(nx, ny, d.subrange(2, d.len() as int))
    }
}

/// Where the walk of `d` from `(cx, cy)` ends.
pub open spec fn walk_end(cx: i32, cy: i32, d: Seq<u32>) -> (i32, i32)
    decreases d.len(),
{
    if d.len() < 2 {
        (cx, cy)
    } else {
        let nx = wrap_i32(cx + zigzag_value(d[0]));
        let ny = wrap_i32(cy + zigzag_value(d[1]));
        walk_end(nx, ny, d.subrange(2, d.len() as int))
    }
}

proof fn lemma_line_points(
    g: Seq<u32>,
    i: int,
    rem: nat,
    cx: i32,
    cy: i32,
    ring: Seq<(i32, i32)>,
    rings: Seq<Seq<(i32, i32)>>,
)
    requires
        0 <= i,
        i + 2 * rem <= g.len(),
    ensures
        ({
            let d = g.subrange(i, i + 2 * rem);
            let (ex, ey) = walk_end(cx, cy, d);
            rings_from(g, i, rem, cx, cy, ring, rings) == rings_from(
                g,
                i + 2 * rem,
                0,
                ex,
                ey,
                ring + walk(cx, cy, d),
                rings,
            )
        }),
    decreases rem,
{
    let d = g.subrange(i, i + 2 * rem);
    if rem == 0 {
        assert(d.len() == 0);
        assert(ring + walk(cx, cy, d) =~= ring);
    } else {
        let nx = wrap_i32(cx + zigzag_value(g[i]));
        let ny = wrap_i32(cy + zigzag_value(g[i + 1]));
        lemma_line_points(g, i + 2, (rem - 1) as nat, nx, ny, ring.push((nx, ny)), rings);
        let d2 = g.subrange(i + 2, i + 2 + 2 * (rem - 1));
        assert(d.subrange(2, d.len() as int) =~= d2);
        assert(d[0] == g[i] && d[1] == g[i + 1]);
        assert(ring.push((nx, ny)) + walk(nx, ny, d2) =~= ring + (seq![(nx, ny)] + walk(nx, ny, d2)));
    }
}

/// One ring per MoveTo: a block `MoveTo(x, y) LineTo(n points) ClosePath`
/// with `n >= 2` yields, ahead of whatever follows it, the ring of its
/// start point and the `n` points its deltas lead to; the stream then
/// goes on from the block's last point.
pub proof fn lemma_ring_block(g: Seq<u32>, j: int, n: nat, cx: i32, cy: i32)
    requires
        0 <= j,
        n >= 2,
        j + 5 + 2 * n <= g.len(),
        g[j] == 9,
        g[j + 3] == 8 * n + 2,
        g[j + 4 + 2 * n] == 15,
    ensures
        ({
            let sx = wrap_i32(cx + zigzag_value(g[j + 1]));
            let sy = wrap_i32(cy + zigzag_value(g[j + 2]));
            let d = g.subrange(j + 4, j + 4 + 2 * n);
            let ring = seq![(sx, sy)] + walk(sx, sy, d);
            let (ex, ey) = walk_end(sx, sy, d);
            &&& ring.len() == n + 1
            &&& rings_from(g, j, 0, cx, cy, Seq::empty(), Seq::empty()) == seq![ring]
                + rings_from(g, j + 5 + 2 * n, 0, ex, ey, Seq::empty(), Seq::empty())
        }),
{
    let sx = wrap_i32(cx + zigzag_value(g[j + 1]));
    let sy = wrap_i32(cy + zigzag_value(g[j + 2]));
    let d = g.subrange(j + 4, j + 4 + 2 * n);
    let e = Seq::<Seq<(i32, i32)>>::empty();
    let (ex, ey) = walk_end(sx, sy, d);
    lemma_walk_len(sx, sy, d);
    assert(g[j] % 8 == 1 && g[j] / 8 == 1);
    assert(flush(Seq::<(i32, i32)>::empty(), e) == e);
    // MoveTo's single point.
    assert(rings_from(g, j + 1, 1, cx, cy, Seq::empty(), e) == rings_from(
        g,
        j + 3,
        0,
        sx,
        sy,
        seq![(sx, sy)],
        e,
    )) by {
        assert(Seq::<(i32, i32)>::empty().push((sx, sy)) =~= seq![(sx, sy)]);
    }
    assert(g[j + 3] % 8 == 2 && g[j + 3] / 8 == n);
    lemma_line_points(g, j + 4, n, sx, sy, seq![(sx, sy)], e);
    let ring = seq![(sx, sy)] + walk(sx, sy, d);
    assert(g[j + 4 + 2 * n] % 8 == 7);
    assert(flush(ring, e) =~= seq![ring]);
    lemma_finished_rings_kept(g, j + 5 + 2 * n, 0, ex, ey, Seq::empty(), seq![ring]);
}

proof fn lemma_walk_len(cx: i32, cy: i32, d: Seq<u32>)
    ensures
        walk(cx, cy, d).len() == d.len() / 2,
    decreases d.len(),
{
    if d.len() >= 2 {
        let nx = wrap_i32(cx + zigzag_value(d[0]));
        let ny = wrap_i32(cy + zigzag_value(d[1]));
        lemma_walk_len(nx, ny, d.subrange(2, d.len() as int));
    }
}

} // verus!
