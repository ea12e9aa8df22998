//! Streaming Blue Marble tiles from NASA GIBS.
//!
//! GIBS serves the `BlueMarble_ShadedRelief_Bathymetry` layer as a WMTS
//! pyramid in **EPSG:4326** (equirectangular): at zoom `z` the grid is
//! `2·2^z` tiles wide and `2^z` tiles tall, z=0 through z=7.
use vstd::prelude::*;
use vstd::arithmetic::power2::{pow2, lemma_pow2_unfold};
use vstd::bits::lemma_u32_pow2_no_overflow;
use crate::text::{decimal, push_decimal, push_str};
use crate::tile::{clamp_index, clamp_spec, tiles_per_axis};

verus! {

/// WMTS endpoint for the BlueMarble_ShadedRelief_Bathymetry layer.
/// JPEG, EPSG:4326, 500m at the deepest zoom.
pub const GIBS_BASE_URL: &'static str = "https://gibs.earthdata.nasa.gov/wmts/epsg4326/best/BlueMarble_ShadedRelief_Bathymetry/default/500m";

/// Highest zoom GIBS publishes for this layer. z=8 returns 400.
pub const BM_MAX_Z: u8 = 7;

/// Zoom level the bundled 4096×2048 Earth texture is equivalent to in
/// the GIBS pyramid. Streaming at or below it is wasted bandwidth.
pub const BM_BUNDLED_EQUIV_Z: u8 = 2;

/// A Blue Marble tile address in the EPSG:4326 grid.
#[derive(Copy, Clone, Debug, PartialEq, Eq, Hash, Structural)]
pub struct BmTileId {
    pub z: u8,
    pub x: u32,
    pub y: u32,
}

/// The GIBS URL of a tile; WMTS orders the path `{z}/{y}/{x}`.
pub open spec fn bm_url_spec(t: BmTileId) -> Seq<char> {
    GIBS_BASE_URL@ + "/"@ + decimal(t.z as nat) + "/"@ + decimal(t.y as nat) + "/"@ + decimal(
        t.x as nat,
    ) + ".jpeg"@
}

impl BmTileId {
    /// GIBS WMTS endpoint URL for this tile. The WMTS path order is
    /// `{TileMatrix}/{TileRow}/{TileCol}` = `{z}/{y}/{x}`.
    pub fn url(&self) -> (u: String)
        ensures
            u@ == bm_url_spec(*self),
    {
        let mut s = String::new();
        push_str(&mut s, GIBS_BASE_URL);
        push_str(&mut s, "/");
        push_decimal(&mut s, self.z as u64);
        push_str(&mut s, "/");
        push_decimal(&mut s, self.y as u64);
        push_str(&mut s, "/");
        push_decimal(&mut s, self.x as u64);
        push_str(&mut s, ".jpeg");
        s
    }
}

/// The GIBS zoom for a camera zoom already reduced to
/// `round(camera_zoom - 2)`: `None` when that does not exceed the
/// bundled texture's equivalent zoom, otherwise the value capped at
/// [`BM_MAX_Z`].
pub fn gibs_zoom_for_rounded(suggested: i32) -> (z: Option<u8>)
    ensures
        suggested < BM_BUNDLED_EQUIV_Z + 1 ==> z is None,
        suggested >= BM_BUNDLED_EQUIV_Z + 1 ==> z == Some(
            (if suggested > BM_MAX_Z {
                BM_MAX_Z as int
            } else {
                suggested as int
            }) as u8,
        ),
{
    let max = BM_MAX_Z as i32;
    let min = BM_BUNDLED_EQUIV_Z as i32 + 1;
    if suggested < min {
        None
    } else if suggested > max {
        Some(max as u8)
    } else {
        Some(suggested as u8)
    }
}

/// Row `y` of the grid, columns `x_lo .. x_end` (exclusive).
pub open spec fn bm_row(z: u8, x_lo: int, x_end: int, y: u32) -> Seq<BmTileId>
    decreases x_end - x_lo,
{
    if x_end <= x_lo {
        Seq::empty()
    } else {
        bm_row(z, x_lo, x_end - 1, y).push(BmTileId { z, x: (x_end - 1) as u32, y })
    }
}

/// Columns `x_lo ..= x_hi`, rows `y_lo .. y_end`, row by row.
pub open spec fn bm_rect(z: u8, x_lo: int, x_hi: int, y_lo: int, y_end: int) -> Seq<BmTileId>
    decreases y_end - y_lo,
{
    if y_end <= y_lo {
        Seq::empty()
    } else {
        bm_rect(z, x_lo, x_hi, y_lo, y_end - 1) + bm_row(z, x_lo, x_hi + 1, (y_end - 1) as u32)
    }
}

/// The GIBS tiles at `gibs_z` covering a viewport whose tile-index
/// bounds were worked out from its longitude/latitude extent: each
/// bound is clamped into the `2·2^z × 2^z` grid, and the rectangle is
/// listed row by row, west to east within a row.
pub fn bm_tile_rect(gibs_z: u8, x_lo: i64, x_hi: i64, y_lo: i64, y_hi: i64) -> (tiles: Vec<
    BmTileId,
>)
    requires
        gibs_z < 31,
    ensures
        tiles@ == bm_rect(
            gibs_z,
            clamp_spec(x_lo as int, 2 * pow2(gibs_z as nat) - 1),
            clamp_spec(x_hi as int, 2 * pow2(gibs_z as nat) - 1),
            clamp_spec(y_lo as int, pow2(gibs_z as nat) - 1),
            clamp_spec(y_hi as int, pow2(gibs_z as nat) - 1) + 1,
        ),
{
    let n_y = tiles_per_axis(gibs_z);
    proof {
        lemma_u32_pow2_no_overflow((gibs_z + 1) as nat);
        lemma_pow2_unfold((gibs_z + 1) as nat);
    }
    let n_x = 2 * n_y;
    let a = clamp_index(x_lo, n_x - 1);
    let b = clamp_index(x_hi, n_x - 1);
    let c = clamp_index(y_lo, n_y - 1);
    let d = clamp_index(y_hi, n_y - 1);
    let mut tiles: Vec<BmTileId> = Vec::new();
    if a > b {
        proof {
            lemma_bm_rect_empty(gibs_z, a as int, b as int, c as int, d + 1);
        }
        return tiles;
    }
    let mut y: u64 = c as u64;
    while y <= d as u64
        invariant
            a <= b,
            c <= y <= d as u64 + 1 || (y == c && c > d),
            tiles@ == bm_rect(gibs_z, a as int, b as int, c as int, y as int),
        decreases d as u64 + 1 - y,
    {
        let mut x: u64 = a as u64;
        let ghost before = tiles@;
        while x <= b as u64
            invariant
                a <= x <= b as u64 + 1,
                y <= d,
                tiles@ == before + bm_row(gibs_z, a as int, x as int, y as u32),
            decreases b as u64 + 1 - x,
        {
            tiles.push(BmTileId { z: gibs_z, x: x as u32, y: y as u32 });
            x = x + 1;
        }
        y = y + 1;
    }
    tiles
}

proof fn lemma_bm_rect_empty(z: u8, x_lo: int, x_hi: int, y_lo: int, y_end: int)
    requires
        x_hi < x_lo,
    ensures
        bm_rect(z, x_lo, x_hi, y_lo, y_end) == Seq::<BmTileId>::empty(),
    decreases y_end - y_lo,
{
    if y_end > y_lo {
        lemma_bm_rect_empty(z, x_lo, x_hi, y_lo, y_end - 1);
        assert(bm_row(z, x_lo, x_hi + 1, (y_end - 1) as u32) == Seq::<BmTileId>::empty());
        assert(Seq::<BmTileId>::empty() + Seq::<BmTileId>::empty() =~= Seq::<BmTileId>::empty());
    }
}

/// A GIBS tile lies in `bm_row` exactly when it sits in that row and column range.
pub proof fn lemma_bm_row_contains(z: u8, x_lo: int, x_end: int, y: u32, t: BmTileId)
    requires
        0 <= x_lo,
        x_end <= u32::MAX + 1,
    ensures
        bm_row(z, x_lo, x_end, y).contains(t) <==> (t.z == z && t.y == y && x_lo <= t.x
            < x_end),
    decreases x_end - x_lo,
{
    if x_end > x_lo {
        lemma_bm_row_contains(z, x_lo, x_end - 1, y, t);
        let s = bm_row(z, x_lo, x_end - 1, y);
        let last = BmTileId { z, x: (x_end - 1) as u32, y };
        if s.push(last).contains(t) {
            let i = choose|i: int| 0 <= i < s.push(last).len() && s.push(last)[i] == t;
            if i < s.len() {
                assert(s.contains(t));
            }
        }
        if t.z == z && t.y == y && x_lo <= t.x < x_end {
            if t.x == x_end - 1 {
                assert(s.push(last)[s.len() as int] == t);
            } else {
                let j = choose|j: int| 0 <= j < s.len() && s[j] == t;
                assert(s.push(last)[j] == t);
            }
        }
    }
}

/// A GIBS tile lies in `bm_rect` exactly when it sits inside the rectangle.
pub proof fn lemma_bm_rect_contains(
    z: u8,
    x_lo: int,
    x_hi: int,
    y_lo: int,
    y_end: int,
    t: BmTileId,
)
    requires
        0 <= x_lo,
        x_hi <= u32::MAX,
        0 <= y_lo,
        y_end <= u32::MAX + 1,
    ensures
        bm_rect(z, x_lo, x_hi, y_lo, y_end).contains(t) <==> (t.z == z && x_lo <= t.x <= x_hi
            && y_lo <= t.y < y_end),
    decreases y_end - y_lo,
{
    if y_end > y_lo {
        lemma_bm_rect_contains(z, x_lo, x_hi, y_lo, y_end - 1, t);
        lemma_bm_row_contains(z, x_lo, x_hi + 1, (y_end - 1) as u32, t);
        let a = bm_rect(z, x_lo, x_hi, y_lo, y_end - 1);
        let b = bm_row(z, x_lo, x_hi + 1, (y_end - 1) as u32);
        if (a + b).contains(t) {
            let i = choose|i: int| 0 <= i < (a + b).len() && (a + b)[i] == t;
            if i < a.len() {
                assert(a.contains(t));
            } else {
                assert(b[i - a.len()] == t);
                assert(b.contains(t));
            }
        }
        if a.contains(t) {
            let j = choose|j: int| 0 <= j < a.len() && a[j] == t;
            assert((a + b)[j] == t);
        }
        if b.contains(t) {
            let j = choose|j: int| 0 <= j < b.len() && b[j] == t;
            assert((a + b)[a.len() + j] == t);
        }
    }
}

} // verus!
