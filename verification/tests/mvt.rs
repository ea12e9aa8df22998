use aegis::mvt::{
    decode_feature, decode_layer, decode_tile_buildings, geometry_rings, value_number, MvtError,
    MvtNumber, RawBuilding,
};
use aegis::protobuf::{packed_u32, zigzag, zigzag64, Reader};

fn varint(mut v: u64) -> Vec<u8> {
    let mut out = Vec::new();
    loop {
        let b = (v & 0x7f) as u8;
        v >>= 7;
        if v == 0 {
            out.push(b);
            return out;
        }
        out.push(b | 0x80);
    }
}

fn key(field: u32, wire: u8) -> Vec<u8> {
    varint(((field as u64) << 3) | wire as u64)
}

fn field_varint(field: u32, v: u64) -> Vec<u8> {
    let mut out = key(field, 0);
    out.extend(varint(v));
    out
}

fn field_bytes(field: u32, bytes: &[u8]) -> Vec<u8> {
    let mut out = key(field, 2);
    out.extend(varint(bytes.len() as u64));
    out.extend_from_slice(bytes);
    out
}

fn packed(vals: &[u32]) -> Vec<u8> {
    let mut out = Vec::new();
    for &v in vals {
        out.extend(varint(v as u64));
    }
    out
}

fn zz(v: i32) -> u32 {
    ((v << 1) ^ (v >> 31)) as u32
}

/// MoveTo (10,10), LineTo (+10,0) (0,+10), ClosePath.
fn triangle_geometry() -> Vec<u32> {
    vec![9, zz(10), zz(10), 18, zz(10), zz(0), zz(0), zz(10), 15]
}

fn feature(id: u64, tags: &[u32], geom_type: u64, geom: &[u32]) -> Vec<u8> {
    let mut f = field_varint(1, id);
    f.extend(field_bytes(2, &packed(tags)));
    f.extend(field_varint(3, geom_type));
    f.extend(field_bytes(4, &packed(geom)));
    f
}

fn double_value(x: f64) -> Vec<u8> {
    let mut v = key(3, 1);
    v.extend_from_slice(&x.to_le_bytes());
    v
}

fn building_layer(features: &[Vec<u8>], values: &[Vec<u8>]) -> Vec<u8> {
    let mut l = field_bytes(1, b"building");
    for f in features {
        l.extend(field_bytes(2, f));
    }
    l.extend(field_bytes(3, b"name"));
    l.extend(field_bytes(3, b"render_height"));
    for v in values {
        l.extend(field_bytes(4, v));
    }
    l.extend(field_varint(5, 512));
    l
}

#[test]
fn reader_reads_varints_tags_and_fields() {
    let bytes = [0xAC, 0x02, 0x08, 0x0A, 0x03, b'a', b'b', b'c', 0x01];
    let mut r = Reader::new(&bytes);
    assert_eq!(r.varint(), Some(300));
    assert_eq!(r.tag(), Some((1, 0)));
    assert_eq!(r.tag(), Some((1, 2)));
    assert_eq!(r.ld(), Some(&b"abc"[..]));
    assert!(!r.done());
    r.skip(0);
    assert!(r.done());
    assert_eq!(r.varint(), None);
}

#[test]
fn reader_failures_leave_documented_positions() {
    let truncated = [0x80, 0x80];
    let mut r = Reader::new(&truncated);
    assert_eq!(r.varint(), None);
    assert!(r.done());
    let overlong = [0xFFu8; 12];
    let mut r = Reader::new(&overlong);
    assert_eq!(r.varint(), None);
    assert_eq!(r.position(), 10);
    let too_long = [0x05, 1, 2];
    let mut r = Reader::new(&too_long);
    assert_eq!(r.ld(), None);
    assert_eq!(r.position(), 1);
    let mut r = Reader::new(&too_long);
    r.skip(1);
    assert!(r.done());
    let mut r = Reader::new(&too_long);
    r.skip(3);
    assert!(r.done());
}

#[test]
fn ten_byte_varint_keeps_low_64_bits() {
    let mut bytes = vec![0xFFu8; 9];
    bytes.push(0x01);
    let mut r = Reader::new(&bytes);
    assert_eq!(r.varint(), Some(u64::MAX));
    let mut bytes = vec![0x80u8; 9];
    bytes.push(0x7F);
    let mut r = Reader::new(&bytes);
    assert_eq!(r.varint(), Some(1u64 << 63));
}

#[test]
fn zigzag_decodes_both_signs() {
    assert_eq!(zigzag(0), 0);
    assert_eq!(zigzag(1), -1);
    assert_eq!(zigzag(2), 1);
    assert_eq!(zigzag(3), -2);
    assert_eq!(zigzag(u32::MAX), i32::MIN);
    assert_eq!(zigzag(u32::MAX - 1), i32::MAX);
    assert_eq!(zigzag64(u64::MAX), i64::MIN);
}

#[test]
fn packed_u32_truncates_to_32_bits_and_stops_on_bad_varint() {
    let mut bytes = varint(5);
    bytes.extend(varint((1u64 << 32) + 7));
    bytes.push(0x80);
    assert_eq!(packed_u32(&bytes), vec![5, 7]);
    assert_eq!(packed_u32(&[]), Vec::<u32>::new());
}

#[test]
fn value_number_reads_each_kind() {
    let mut v = key(2, 5);
    v.extend_from_slice(&2.5f32.to_bits().to_le_bytes());
    assert_eq!(value_number(&v), Some(MvtNumber::Float(2.5f32.to_bits())));
    assert_eq!(
        value_number(&double_value(25.0)),
        Some(MvtNumber::Double(25.0f64.to_bits()))
    );
    assert_eq!(value_number(&field_varint(4, u64::MAX)), Some(MvtNumber::Int(-1)));
    assert_eq!(value_number(&field_varint(5, 42)), Some(MvtNumber::UInt(42)));
    assert_eq!(value_number(&field_varint(6, 3)), Some(MvtNumber::SInt(-2)));
    let mut s = field_bytes(1, b"text");
    s.extend(field_varint(5, 9));
    assert_eq!(value_number(&s), Some(MvtNumber::UInt(9)));
    assert_eq!(value_number(&field_bytes(1, b"text")), None);
    let mut short = key(3, 1);
    short.extend_from_slice(&[0, 0, 0]);
    assert_eq!(value_number(&short), None);
}

#[test]
fn positivity_follows_ieee_ordering() {
    assert!(MvtNumber::Float(1.0f32.to_bits()).is_positive());
    assert!(!MvtNumber::Float((-1.0f32).to_bits()).is_positive());
    assert!(!MvtNumber::Float(0.0f32.to_bits()).is_positive());
    assert!(!MvtNumber::Float(f32::NAN.to_bits()).is_positive());
    assert!(MvtNumber::Float(f32::INFINITY.to_bits()).is_positive());
    assert!(MvtNumber::Double(1e-300f64.to_bits()).is_positive());
    assert!(!MvtNumber::Double((-0.0f64).to_bits()).is_positive());
    assert!(!MvtNumber::Int(0).is_positive());
    assert!(MvtNumber::UInt(3).is_positive());
    assert!(!MvtNumber::SInt(-3).is_positive());
}

#[test]
fn geometry_rings_decodes_triangle() {
    let rings = geometry_rings(&triangle_geometry());
    assert_eq!(rings, vec![vec![(10, 10), (20, 10), (20, 20)]]);
}

#[test]
fn geometry_rings_drops_short_and_truncated_rings() {
    // A two-point ring is dropped at the next MoveTo; the hole follows.
    let g = vec![
        9, zz(1), zz(1), 10, zz(1), zz(1), 15, 9, zz(5), zz(5), 18, zz(1), zz(0), zz(0),
        zz(1), 15,
    ];
    let rings = geometry_rings(&g);
    assert_eq!(rings, vec![vec![(7, 7), (8, 7), (8, 8)]]);
    // Stream ending inside LineTo's points loses the open ring.
    let g = vec![9, zz(1), zz(1), 26, zz(1), zz(0), zz(0), zz(1), zz(0)];
    assert!(geometry_rings(&g).is_empty());
    // Unknown command ends the stream but keeps a large-enough ring.
    let g = vec![9, zz(0), zz(0), 18, zz(1), zz(0), zz(0), zz(1), 3, 9, zz(9), zz(9)];
    assert_eq!(geometry_rings(&g), vec![vec![(0, 0), (1, 0), (1, 1)]]);
}

#[test]
fn decode_feature_keeps_polygons_with_height() {
    let height = double_value(25.0);
    let values: Vec<&[u8]> = vec![&[][..], &height[..]];
    let bytes = feature(77, &[1, 1], 3, &triangle_geometry());
    let mut out: Vec<RawBuilding> = Vec::new();
    decode_feature(&bytes, 4096, Some(1), &values, &mut out);
    assert_eq!(out.len(), 1);
    assert_eq!(out[0].osm_way_id, 77);
    assert_eq!(out[0].height, Some(MvtNumber::Double(25.0f64.to_bits())));
    assert_eq!(out[0].extent, 4096);
    assert_eq!(out[0].rings, vec![vec![(10, 10), (20, 10), (20, 20)]]);
    // Lines (type 2) are not buildings.
    let line = feature(78, &[], 2, &triangle_geometry());
    decode_feature(&line, 4096, Some(1), &values, &mut out);
    assert_eq!(out.len(), 1);
    // No height key: height stays unknown.
    decode_feature(&bytes, 4096, None, &values, &mut out);
    assert_eq!(out.len(), 2);
    assert_eq!(out[1].height, None);
}

#[test]
fn decode_tile_reads_building_layer_only() {
    let values = vec![double_value(30.0), double_value(-4.0)];
    let features = vec![
        feature(1, &[1, 0], 3, &triangle_geometry()),
        feature(2, &[1, 1], 3, &triangle_geometry()),
        feature(3, &[], 1, &[9, zz(1), zz(1)]),
    ];
    let layer = building_layer(&features, &values);
    let mut other = field_bytes(1, b"water");
    other.extend(field_bytes(2, &feature(9, &[], 3, &triangle_geometry())));
    let mut tile = field_bytes(3, &other);
    tile.extend(field_varint(7, 1));
    tile.extend(field_bytes(3, &layer));
    let buildings = decode_tile_buildings(&tile).expect("tile decodes");
    assert_eq!(buildings.len(), 2);
    assert_eq!(buildings[0].osm_way_id, 1);
    assert_eq!(buildings[0].height, Some(MvtNumber::Double(30.0f64.to_bits())));
    assert_eq!(buildings[0].extent, 512);
    assert_eq!(buildings[1].osm_way_id, 2);
    assert_eq!(buildings[1].height, None);
}

#[test]
fn truncated_layer_is_an_error() {
    let layer = building_layer(&[feature(1, &[], 3, &triangle_geometry())], &[]);
    let mut tile = key(3, 2);
    tile.extend(varint(layer.len() as u64 + 5));
    tile.extend_from_slice(&layer);
    assert_eq!(decode_tile_buildings(&tile).err(), Some(MvtError::Truncated));
    let mut bad_layer = field_bytes(1, b"building");
    bad_layer.extend(key(5, 0));
    bad_layer.push(0x80);
    let mut out = Vec::new();
    assert_eq!(decode_layer(&bad_layer, &mut out), Err(MvtError::Truncated));
    assert!(out.is_empty());
}

#[test]
fn empty_tile_has_no_buildings() {
    assert_eq!(decode_tile_buildings(&[]).map(|v| v.len()).ok(), Some(0));
}

#[test]
fn other_layer_in_front_changes_nothing() {
    let values = vec![double_value(12.0)];
    let rest = {
        let layer = building_layer(&[feature(4, &[1, 0], 3, &triangle_geometry())], &values);
        field_bytes(3, &layer)
    };
    let mut roads = field_bytes(1, b"roads");
    roads.extend(field_bytes(2, &feature(8, &[], 2, &[9, zz(0), zz(0), 10, zz(5), zz(5)])));
    let mut tile = field_bytes(3, &roads);
    tile.extend_from_slice(&rest);
    let with = decode_tile_buildings(&tile).expect("tile decodes");
    let without = decode_tile_buildings(&rest).expect("rest decodes");
    assert_eq!(with.len(), 1);
    assert_eq!(without.len(), 1);
    assert_eq!(with[0].osm_way_id, without[0].osm_way_id);
    assert_eq!(with[0].height, without[0].height);
    assert_eq!(with[0].rings, without[0].rings);
}

#[test]
fn other_layer_appended_changes_nothing() {
    let values = vec![double_value(9.5)];
    let tile = field_bytes(3, &building_layer(&[feature(6, &[1, 0], 3, &triangle_geometry())], &values));
    let mut water = field_bytes(1, b"water");
    water.extend(field_bytes(2, &feature(2, &[], 3, &triangle_geometry())));
    let mut longer = tile.clone();
    longer.extend(field_bytes(3, &water));
    let a = decode_tile_buildings(&tile).expect("tile decodes");
    let b = decode_tile_buildings(&longer).expect("longer tile decodes");
    assert_eq!(a.len(), 1);
    assert_eq!(b.len(), 1);
    assert_eq!((b[0].osm_way_id, b[0].height, &b[0].rings), (a[0].osm_way_id, a[0].height, &a[0].rings));
}
