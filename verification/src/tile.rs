//! XYZ tiles: identity, grid arithmetic, and URL formation.
//!
//! A `TileId` is a `(z, x, y)` triple under the OSM / web-mapping
//! convention: zoom `z`, integer tile column `x` (east-increasing),
//! integer tile row `y` (south-increasing). The world fits in `(0, 0, 0)`;
//! at zoom `z` there are `2^z × 2^z` Web Mercator tiles.
use vstd::prelude::*;
use vstd::arithmetic::power2::{pow2, lemma_pow2_pos, lemma_pow2_unfold};
use vstd::bits::{lemma_u32_shl_is_mul, lemma_u32_pow2_no_overflow};
use crate::text::{decimal, push_decimal, push_str};

verus! {

/// An XYZ tile address.
#[derive(Copy, Clone, Debug, PartialEq, Eq, Hash, Structural)]
pub struct TileId {
    pub z: u8,
    pub x: u32,
    pub y: u32,
}

/// Which provider's tile pyramid a `TileId` resolves to. Both use the
/// same Web Mercator XYZ pyramid; only the URL differs.
#[derive(Copy, Clone, Debug, PartialEq, Eq, Structural)]
pub enum TileProvider {
    /// Carto Voyager OSM-derived street basemap. PNG, retina @2x.
    Carto,
    /// EOX-hosted Sentinel-2 cloudless mosaic. JPEG, 256×256, CC BY 4.0.
    Sentinel2Cloudless,
}

/// Tile-grid shape of a basemap's pyramid.
#[derive(Copy, Clone, Debug, PartialEq, Eq, Hash, Structural)]
pub enum TileProjection {
    /// Square Web Mercator grid: `2^z × 2^z` tiles.
    WebMercator,
    /// Equirectangular (EPSG:4326) grid, twice as wide as tall:
    /// `2·2^z × 2^z` tiles.
    Equirectangular,
}

/// Highest zoom the Sentinel-2 cloudless layer publishes.
pub const SENTINEL2_MAX_Z: u8 = 14;

/// `User-Agent` value for native HTTP — identifies the project to any
/// tile provider that logs / rate-limits by UA.
pub const TILE_USER_AGENT: &'static str = "aegis/0.1.0 (https://github.com/timthirion/aeGIS)";

/// Number of tile columns of a grid at zoom `z`.
pub open spec fn grid_width(projection: TileProjection, z: nat) -> nat {
    match projection {
        TileProjection::WebMercator => pow2(z),
        TileProjection::Equirectangular => 2 * pow2(z),
    }
}

/// Number of tile rows of a grid at zoom `z`.
pub open spec fn grid_height(z: nat) -> nat {
    pow2(z)
}

/// `2^z` as a `u32`.
pub fn tiles_per_axis(z: u8) -> (n: u32)
    requires
        z < 32,
    ensures
        n == pow2(z as nat),
        n >= 1,
{
    proof {
        lemma_u32_pow2_no_overflow(z as nat);
        lemma_u32_shl_is_mul(1, z as u32);
    }
    1u32 << z
}

/// Number of tile columns at zoom `z` for the given grid.
pub fn tile_grid_width(projection: TileProjection, z: u8) -> (n: u32)
    requires
        z < 31,
    ensures
        n == grid_width(projection, z as nat),
        n >= 1,
{
    let n = tiles_per_axis(z);
    match projection {
        TileProjection::WebMercator => n,
        TileProjection::Equirectangular => {
            proof {
                lemma_u32_pow2_no_overflow((z + 1) as nat);
                lemma_pow2_unfold((z + 1) as nat);
            }
            2 * n
        },
    }
}

/// Number of tile rows at zoom `z`.
pub fn tile_grid_height(z: u8) -> (n: u32)
    requires
        z < 32,
    ensures
        n == grid_height(z as nat),
        n >= 1,
{
    tiles_per_axis(z)
}

/// `v` clamped into `[0, max]`.
pub open spec fn clamp_spec(v: int, max: int) -> int {
    if v < 0 {
        0
    } else if v > max {
        max
    } else {
        v
    }
}

/// Clamps a (possibly out-of-grid) tile index into `[0, max]`.
pub fn clamp_index(v: i64, max: u32) -> (r: u32)
    ensures
        r == clamp_spec(v as int, max as int),
{
    if v < 0 {
        0
    } else if v > max as i64 {
        max
    } else {
        v as u32
    }
}

/// The tiles of row `y` with columns `x_lo .. x_end` (exclusive), west to east.
pub open spec fn row_tiles(z: u8, x_lo: int, x_end: int, y: u32) -> Seq<TileId>
    decreases x_end - x_lo,
{
    if x_end <= x_lo {
        Seq::empty()
    } else {
        row_tiles(z, x_lo, x_end - 1, y).push(TileId { z, x: (x_end - 1) as u32, y })
    }
}

/// The tiles with columns `x_lo ..= x_hi` and rows `y_lo .. y_end`
/// (exclusive), row by row from north to south, west to east within a row.
pub open spec fn rect_tiles(z: u8, x_lo: int, x_hi: int, y_lo: int, y_end: int) -> Seq<TileId>
    decreases y_end - y_lo,
{
    if y_end <= y_lo {
        Seq::empty()
    } else {
        rect_tiles(z, x_lo, x_hi, y_lo, y_end - 1) + row_tiles(z, x_lo, x_hi + 1, (y_end - 1) as u32)
    }
}

/// All tiles at zoom `z` with `x_lo <= x <= x_hi` and `y_lo <= y <= y_hi`,
/// in row-major order (north→south, west→east within each row).
pub fn tiles_in_rect(z: u8, x_lo: u32, x_hi: u32, y_lo: u32, y_hi: u32) -> (tiles: Vec<TileId>)
    ensures
        tiles@ == rect_tiles(z, x_lo as int, x_hi as int, y_lo as int, y_hi + 1),
{
    let mut tiles: Vec<TileId> = Vec::new();
    if x_lo > x_hi {
        proof {
            lemma_rect_of_empty_rows(z, x_lo as int, x_hi as int, y_lo as int, y_hi + 1);
        }
        return tiles;
    }
    let mut y: u64 = y_lo as u64;
    while y <= y_hi as u64
        invariant
            x_lo <= x_hi,
            y_lo <= y <= y_hi as u64 + 1 || (y == y_lo && y_lo > y_hi),
            tiles@ == rect_tiles(z, x_lo as int, x_hi as int, y_lo as int, y as int),
        decreases y_hi as u64 + 1 - y,
    {
        let mut x: u64 = x_lo as u64;
        let ghost before = tiles@;
        while x <= x_hi as u64
            invariant
                x_lo <= x <= x_hi as u64 + 1,
                y <= y_hi,
                tiles@ == before + row_tiles(z, x_lo as int, x as int, y as u32),
            decreases x_hi as u64 + 1 - x,
        {
            tiles.push(TileId { z, x: x as u32, y: y as u32 });
            x = x + 1;
        }
        y = y + 1;
    }
    proof {
        if y_lo > y_hi {
            assert(rect_tiles(z, x_lo as int, x_hi as int, y_lo as int, y_hi + 1) == Seq::<
                TileId,
            >::empty());
        }
    }
    tiles
}

proof fn lemma_row_empty(z: u8, x_lo: int, x_end: int, y: u32)
    requires
        x_end <= x_lo,
    ensures
        row_tiles(z, x_lo, x_end, y) == Seq::<TileId>::empty(),
{
}

proof fn lemma_rect_of_empty_rows(z: u8, x_lo: int, x_hi: int, y_lo: int, y_end: int)
    requires
        x_hi < x_lo,
    ensures
        rect_tiles(z, x_lo, x_hi, y_lo, y_end) == Seq::<TileId>::empty(),
    decreases y_end - y_lo,
{
    if y_end > y_lo {
        lemma_rect_of_empty_rows(z, x_lo, x_hi, y_lo, y_end - 1);
        lemma_row_empty(z, x_lo, x_hi + 1, (y_end - 1) as u32);
        assert(Seq::<TileId>::empty() + Seq::<TileId>::empty() =~= Seq::<TileId>::empty());
    }
}

/// A tile lies in `row_tiles` exactly when it sits in that row and column range.
pub proof fn lemma_row_tiles_contains(z: u8, x_lo: int, x_end: int, y: u32, t: TileId)
    requires
        0 <= x_lo,
        x_end <= u32::MAX + 1,
    ensures
        row_tiles(z, x_lo, x_end, y).contains(t) <==> (t.z == z && t.y == y && x_lo <= t.x
            < x_end),
    decreases x_end - x_lo,
{
    if x_end > x_lo {
        lemma_row_tiles_contains(z, x_lo, x_end - 1, y, t);
        let s = row_tiles(z, x_lo, x_end - 1, y);
        let last = TileId { z, x: (x_end - 1) as u32, y };
        if s.push(last).contains(t) {
            let i = choose|i: int| 0 <= i < s.push(last).len() && s.push(last)[i] == t;
            if i < s.len() {
                assert(s.contains(t));
            }
        }
        if t.z == z && t.y == y && x_lo <= t.x < x_end {
            if t.x == x_end - 1 {
                assert(s.push(last)[s.len() as int] == t);
            } else {
                let j = choose|j: int| 0 <= j < s.len() && s[j] == t;
                assert(s.push(last)[j] == t);
            }
        }
    }
}

/// A tile lies in `rect_tiles` exactly when it sits inside the rectangle.
pub proof fn lemma_rect_tiles_contains(
    z: u8,
    x_lo: int,
    x_hi: int,
    y_lo: int,
    y_end: int,
    t: TileId,
)
    requires
        0 <= x_lo,
        x_hi <= u32::MAX,
        0 <= y_lo,
        y_end <= u32::MAX + 1,
    ensures
        rect_tiles(z, x_lo, x_hi, y_lo, y_end).contains(t) <==> (t.z == z && x_lo <= t.x <= x_hi
            && y_lo <= t.y < y_end),
    decreases y_end - y_lo,
{
    if y_end > y_lo {
        lemma_rect_tiles_contains(z, x_lo, x_hi, y_lo, y_end - 1, t);
        lemma_row_tiles_contains(z, x_lo, x_hi + 1, (y_end - 1) as u32, t);
        let a = rect_tiles(z, x_lo, x_hi, y_lo, y_end - 1);
        let b = row_tiles(z, x_lo, x_hi + 1, (y_end - 1) as u32);
        if (a + b).contains(t) {
            let i = choose|i: int| 0 <= i < (a + b).len() && (a + b)[i] == t;
            if i < a.len() {
                assert(a.contains(t));
            } else {
                assert(b[i - a.len()] == t);
                assert(b.contains(t));
            }
        }
        if a.contains(t) {
            let j = choose|j: int| 0 <= j < a.len() && a[j] == t;
            assert((a + b)[j] == t);
        }
        if b.contains(t) {
            let j = choose|j: int| 0 <= j < b.len() && b[j] == t;
            assert((a + b)[a.len() + j] == t);
        }
    }
}

/// Tiles covering a viewport whose tile-index bounds have been worked
/// out in floating point (floored, with any margin already applied):
/// each bound is clamped into the grid at zoom `z`, then the
/// rectangle is listed row by row.
pub fn clamped_tile_rect(
    z: u8,
    projection: TileProjection,
    x_lo: i64,
    x_hi: i64,
    y_lo: i64,
    y_hi: i64,
) -> (tiles: Vec<TileId>)
    requires
        z < 31,
    ensures
        tiles@ == rect_tiles(
            z,
            clamp_spec(x_lo as int, grid_width(projection, z as nat) - 1),
            clamp_spec(x_hi as int, grid_width(projection, z as nat) - 1),
            clamp_spec(y_lo as int, grid_height(z as nat) - 1),
            clamp_spec(y_hi as int, grid_height(z as nat) - 1) + 1,
        ),
{
    let max_x = tile_grid_width(projection, z) - 1;
    let max_y = tile_grid_height(z) - 1;
    let a = clamp_index(x_lo, max_x);
    let b = clamp_index(x_hi, max_x);
    let c = clamp_index(y_lo, max_y);
    let d = clamp_index(y_hi, max_y);
    tiles_in_rect(z, a, b, c, d)
}

impl TileId {
    /// The tile at zoom `z` whose column and row are the floored
    /// fractional tile coordinates `fx`, `fy`, clamped into
    /// `[0, 2^z)` so a point slightly past the antimeridian or the
    /// projection's latitude clamp still lands on a valid tile.
    pub fn from_floored(z: u8, fx: i64, fy: i64) -> (t: TileId)
        requires
            z < 32,
        ensures
            t.z == z,
            t.x == clamp_spec(fx as int, pow2(z as nat) - 1),
            t.y == clamp_spec(fy as int, pow2(z as nat) - 1),
    {
        let max = tiles_per_axis(z) - 1;
        TileId { z, x: clamp_index(fx, max), y: clamp_index(fy, max) }
    }

    /// The parent tile one zoom level coarser, which covers this tile
    /// and its three siblings.
    pub fn parent(&self) -> (p: TileId)
        requires
            self.z > 0,
        ensures
            p == parent_of(*self),
    {
        TileId { z: self.z - 1, x: self.x / 2, y: self.y / 2 }
    }

    /// URL for this tile from the given provider. Carto serves
    /// `{z}/{x}/{y}@2x.png`; EOX's WMTS endpoint serves `{z}/{y}/{x}.jpg`.
    pub fn tile_url(&self, provider: TileProvider) -> (url: String)
        ensures
            url@ == tile_url_spec(*self, provider),
    {
        let mut s = String::new();
        match provider {
            TileProvider::Carto => {
                push_str(&mut s, "https://a.basemaps.cartocdn.com/rastertiles/voyager/");
                push_decimal(&mut s, self.z as u64);
                push_str(&mut s, "/");
                push_decimal(&mut s, self.x as u64);
                push_str(&mut s, "/");
                push_decimal(&mut s, self.y as u64);
                push_str(&mut s, "@2x.png");
            },
            TileProvider::Sentinel2Cloudless => {
                push_str(
                    &mut s,
                    "https://tiles.maps.eox.at/wmts/1.0.0/s2cloudless-2020_3857/default/g/",
                );
                push_decimal(&mut s, self.z as u64);
                push_str(&mut s, "/");
                push_decimal(&mut s, self.y as u64);
                push_str(&mut s, "/");
                push_decimal(&mut s, self.x as u64);
                push_str(&mut s, ".jpg");
            },
        }
        s
    }
}

/// Parent of a tile: one zoom coarser, both indices halved.
pub open spec fn parent_of(t: TileId) -> TileId {
    TileId { z: (t.z - 1) as u8, x: t.x / 2, y: t.y / 2 }
}

/// The URL a provider serves a tile at.
pub open spec fn tile_url_spec(t: TileId, provider: TileProvider) -> Seq<char> {
    match provider {
        TileProvider::Carto => "https://a.basemaps.cartocdn.com/rastertiles/voyager/"@ + decimal(
            t.z as nat,
        ) + "/"@ + decimal(t.x as nat) + "/"@ + decimal(t.y as nat) + "@2x.png"@,
        TileProvider::Sentinel2Cloudless => "https://tiles.maps.eox.at/wmts/1.0.0/s2cloudless-2020_3857/default/g/"@
            + decimal(t.z as nat) + "/"@ + decimal(t.y as nat) + "/"@ + decimal(t.x as nat)
            + ".jpg"@,
    }
}

/// The parents of `visible` to prefetch alongside them: when the first
/// visible tile is above zoom 0, every distinct parent of a visible
/// tile, each listed once; otherwise none.
pub fn parent_prefetch(visible: &[TileId]) -> (parents: Vec<TileId>)
    requires
        visible@.len() > 0 && visible@[0].z > 0 ==> forall|i: int|
            0 <= i < visible@.len() ==> #[trigger] visible@[i].z > 0,
    ensures
        visible@.len() == 0 || visible@[0].z == 0 ==> parents@.len() == 0,
        visible@.len() > 0 && visible@[0].z > 0 ==> {
            &&& parents@.no_duplicates()
            &&& forall|p: TileId|
                parents@.contains(p) <==> exists|i: int|
                    0 <= i < visible@.len() && parent_of(#[trigger] visible@[i]) == p
        },
{
    let mut parents: Vec<TileId> = Vec::new();
    if visible.len() == 0 || visible[0].z == 0 {
        return parents;
    }
    let mut i: usize = 0;
    while i < visible.len()
        invariant
            0 <= i <= visible@.len(),
            forall|k: int| 0 <= k < visible@.len() ==> #[trigger] visible@[k].z > 0,
            parents@.no_duplicates(),
            forall|p: TileId|
                parents@.contains(p) <==> exists|k: int|
                    0 <= k < i && parent_of(#[trigger] visible@[k]) == p,
        decreases visible@.len() - i,
    {
        let p = visible[i].parent();
        let mut seen = false;
        let mut j: usize = 0;
        while j < parents.len()
            invariant
                0 <= j <= parents@.len(),
                seen <==> exists|k: int| 0 <= k < j && parents@[k] == p,
            decreases parents@.len() - j,
        {
            if parents[j] == p {
                seen = true;
            }
            j = j + 1;
        }
        let ghost old_parents = parents@;
        if !seen {
            parents.push(p);
            proof {
                assert forall|a: int, b: int|
                    0 <= a < b < parents@.len() implies parents@[a] != parents@[b] by {
                    if b == parents@.len() - 1 {
                        assert(old_parents[a] == parents@[a]);
                    } else {
                        assert(old_parents[a] == parents@[a] && old_parents[b] == parents@[b]);
                    }
                }
            }
        }
        proof {
            assert forall|q: TileId| parents@.contains(q) implies exists|k: int|
                0 <= k < i + 1 && parent_of(#[trigger] visible@[k]) == q by {
                if q == p {
                    assert(parent_of(visible@[i as int]) == q);
                } else {
                    assert(old_parents.contains(q));
                }
            }
            assert forall|q: TileId|
                (exists|k: int| 0 <= k < i + 1 && parent_of(#[trigger] visible@[k]) == q)
                implies parents@.contains(q) by {
                let k = choose|k: int| 0 <= k < i + 1 && parent_of(#[trigger] visible@[k]) == q;
                if k == i {
                    if seen {
                        let m = choose|m: int| 0 <= m < old_parents.len() && old_parents[m] == p;
                        assert(parents@[m] == q);
                    } else {
                        assert(parents@[parents@.len() - 1] == q);
                    }
                } else {
                    assert(old_parents.contains(q));
                    let m = choose|m: int| 0 <= m < old_parents.len() && old_parents[m] == q;
                    assert(parents@[m] == q);
                }
            }
        }
        i = i + 1;
    }
    parents
}

/// Decoded raster tile: RGBA8 byte buffer plus its dimensions in pixels.
#[derive(Debug, Clone)]
pub struct DecodedTile {
    pub width: u32,
    pub height: u32,
    pub rgba: Vec<u8>,
}

#[verifier::external_type_specification]
#[verifier::external_body]
pub struct ExImageError(image::ImageError);

/// The image a PNG byte string decodes to, as width, height and RGBA8
/// pixel bytes; `None` when it does not decode.
pub uninterp spec fn png_decoding(bytes: Seq<u8>) -> Option<(u32, u32, Seq<u8>)>;

/// Calls `image::load_from_memory_with_format(bytes, ImageFormat::Png)`
/// and converts the image to RGBA8 (`to_rgba8`, `dimensions`,
/// `into_raw`). Claimed: the result is a function of the bytes alone,
/// and an RGBA8 buffer holds at least four bytes per pixel (the
/// `ImageBuffer` invariant).
#[verifier::external_body]
fn load_png_rgba(bytes: &[u8]) -> (r: Result<(u32, u32, Vec<u8>), image::ImageError>)
    ensures
        match r {
            Ok((w, h, px)) => png_decoding(bytes@) == Some((w, h, px@)) && px@.len() >= 4 * w * h,
            Err(_) => png_decoding(bytes@) is None,
        },
{
    let img = image::load_from_memory_with_format(bytes, image::ImageFormat::Png)?;
    let rgba = img.to_rgba8();
    let (w, h) = rgba.dimensions();
    Ok((w, h, rgba.into_raw()))
}

/// Calls `image::load_from_memory(bytes)` and converts the image to
/// RGBA8 (`to_rgba8`, `dimensions`, `into_raw`). Claimed: an RGBA8
/// buffer holds at least four bytes per pixel (the `ImageBuffer`
/// invariant). Left unsaid: which image comes back, and whether the call
/// succeeds. The format is guessed first through format-detection hooks
/// that any code in the process may register, so the outcome is not a
/// function of the bytes alone.
#[verifier::external_body]
fn load_any_rgba(bytes: &[u8]) -> (r: Result<(u32, u32, Vec<u8>), image::ImageError>)
    ensures
        r matches Ok((w, h, px)) ==> px@.len() >= 4 * w * h,
{
    let img = image::load_from_memory(bytes)?;
    let rgba = img.to_rgba8();
    let (w, h) = rgba.dimensions();
    Ok((w, h, rgba.into_raw()))
}

/// Decode PNG bytes from the wire into a [`DecodedTile`].
pub fn decode_png(bytes: &[u8]) -> (r: Result<DecodedTile, image::ImageError>)
    ensures
        r is Ok <==> png_decoding(bytes@) is Some,
        r matches Ok(t) ==> png_decoding(bytes@) == Some((t.width, t.height, t.rgba@)) && t.rgba@.len()
            >= 4 * t.width * t.height,
{
    match load_png_rgba(bytes) {
        Ok((width, height, rgba)) => Ok(DecodedTile { width, height, rgba }),
        Err(e) => Err(e),
    }
}

/// Decode raster bytes of any enabled format (PNG, JPEG), guessing the
/// format from the bytes. Which image comes back rests on the `image`
/// crate's format guess; every decoded tile holds at least four bytes
/// per pixel.
pub fn decode_image(bytes: &[u8]) -> (r: Result<DecodedTile, image::ImageError>)
    ensures
        r matches Ok(t) ==> t.rgba@.len() >= 4 * t.width * t.height,
{
    match load_any_rgba(bytes) {
        Ok((width, height, rgba)) => Ok(DecodedTile { width, height, rgba }),
        Err(e) => Err(e),
    }
}

/// A tile lies within the quarter of the world its parent covers: the
/// parent is one zoom coarser and the tile is one of its four children.
pub proof fn lemma_parent_covers(t: TileId)
    requires
        t.z > 0,
    ensures
        parent_of(t).z + 1 == t.z,
        2 * parent_of(t).x <= t.x <= 2 * parent_of(t).x + 1,
        2 * parent_of(t).y <= t.y <= 2 * parent_of(t).y + 1,
{
}

/// Every tile a clamped viewport rectangle lists lies inside the grid at
/// its zoom, and every in-grid tile of the clamped rectangle is listed.
pub proof fn lemma_clamped_rect_in_grid(
    z: u8,
    projection: TileProjection,
    x_lo: i64,
    x_hi: i64,
    y_lo: i64,
    y_hi: i64,
    t: TileId,
)
    requires
        z < 31,
    ensures
        ({
            let w = grid_width(projection, z as nat);
            let h = grid_height(z as nat);
            let a = clamp_spec(x_lo as int, w - 1);
            let b = clamp_spec(x_hi as int, w - 1);
            let c = clamp_spec(y_lo as int, h - 1);
            let d = clamp_spec(y_hi as int, h - 1);
            &&& rect_tiles(z, a, b, c, d + 1).contains(t) ==> t.z == z && t.x < w && t.y < h
            &&& rect_tiles(z, a, b, c, d + 1).contains(t) <==> (t.z == z && a <= t.x <= b && c
                <= t.y <= d)
        }),
{
    lemma_u32_pow2_no_overflow(z as nat);
    lemma_u32_pow2_no_overflow((z + 1) as nat);
    lemma_pow2_unfold((z + 1) as nat);
    lemma_pow2_pos(z as nat);
    let w = grid_width(projection, z as nat);
    let h = grid_height(z as nat);
    lemma_rect_tiles_contains(
        z,
        clamp_spec(x_lo as int, w - 1),
        clamp_spec(x_hi as int, w - 1),
        clamp_spec(y_lo as int, h - 1),
        clamp_spec(y_hi as int, h - 1) + 1,
        t,
    );
}

} // verus!
