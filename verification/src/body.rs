//! Body abstraction — Earth, Mars and the Moon.
//!
//! A `Body` collects the parts that vary across worlds and that the
//! tile logic reads: its basemaps (URL templates, tile-grid projection,
//! published zoom range, attribution, polar-cap colours) and whether the
//! political overlay applies. Rendering parameters (home view,
//! atmosphere, night dimming, textures) live with the renderer.
use vstd::prelude::*;
use crate::text::{chars_of, decimal, push_chars, push_decimal};
use crate::tile::{tile_url_spec, TileId, TileProjection, TileProvider};

verus! {

/// Stable identifier for a body.
#[derive(Copy, Clone, Debug, PartialEq, Eq, Hash, Structural)]
pub enum BodyId {
    Earth,
    Mars,
    Moon,
}

/// Stable identifier for a basemap *within* a body: the URL-safe slug
/// used in URL state ("map", "satellite", "color", ...).
#[derive(Copy, Clone, Debug, PartialEq, Eq, Hash)]
pub struct BasemapId(pub &'static str);

/// Polar-cap colour pair, `[r, g, b, a]` sRGB8 each.
#[derive(Copy, Clone, Debug)]
pub struct CapColors {
    /// `[r, g, b, a]` sRGB8 for the north cap.
    pub north: [u8; 4],
    /// `[r, g, b, a]` sRGB8 for the south cap.
    pub south: [u8; 4],
}

/// One basemap option a user can select for a body.
pub struct Basemap {
    pub id: BasemapId,
    /// User-facing label rendered in the basemap toggle.
    pub display_name: &'static str,
    pub projection: TileProjection,
    /// URL template with `{z}`, `{x}`, `{y}` substitutions.
    pub url_template: &'static str,
    /// Maximum zoom this basemap publishes worldwide.
    pub max_z: u8,
    /// HTML attribution string shown while this basemap is active.
    pub attribution_html: &'static str,
    /// Polar-cap colours for this basemap.
    pub cap_colors: CapColors,
}

/// A spherical body the renderer can show.
pub struct Body {
    pub id: BodyId,
    /// User-facing label rendered in the body switcher tooltip.
    pub display_name: &'static str,
    /// Glyph rendered in the body switcher button.
    pub icon: &'static str,
    /// Available basemaps; the first is the default on body switch.
    pub basemaps: Vec<Basemap>,
    /// Whether the country-outline overlay applies to this body.
    pub show_political_overlays: bool,
}

/// Whether two strings hold the same characters.
pub fn same_text(a: &str, b: &str) -> (r: bool)
    ensures
        r == (a@ == b@),
{
    let ca = chars_of(a);
    let cb = chars_of(b);
    if ca.len() != cb.len() {
        return false;
    }
    let mut i: usize = 0;
    while i < ca.len()
        invariant
            ca@ == a@,
            cb@ == b@,
            ca@.len() == cb@.len(),
            0 <= i <= ca@.len(),
            forall|k: int| 0 <= k < i ==> ca@[k] == cb@[k],
        decreases ca@.len() - i,
    {
        if ca[i] != cb[i] {
            return false;
        }
        i = i + 1;
    }
    assert(ca@ =~= cb@);
    true
}

/// Index of the first basemap of `b` whose slug is `id`, if any.
pub open spec fn first_basemap_index(b: &Body, id: BasemapId, from: int) -> Option<int>
    decreases b.basemaps@.len() - from,
{
    if from < 0 || from >= b.basemaps@.len() {
        None
    } else if b.basemaps@[from].id.0@ == id.0@ {
        Some(from)
    } else {
        first_basemap_index(b, id, from + 1)
    }
}

proof fn lemma_first_basemap_index(b: &Body, id: BasemapId, from: int)
    requires
        0 <= from,
    ensures
        (exists|i: int| from <= i < b.basemaps@.len() && b.basemaps@[i].id.0@ == id.0@) <==> first_basemap_index(b, id, from) is Some,
        first_basemap_index(b, id, from) matches Some(k) ==> from <= k < b.basemaps@.len() && b.basemaps@[k].id.0@ == id.0@
            && forall|j: int| from <= j < k ==> b.basemaps@[j].id.0@ != id.0@,
    decreases b.basemaps@.len() - from,
{
    if from < b.basemaps@.len() && b.basemaps@[from].id.0@ != id.0@ {
        lemma_first_basemap_index(b, id, from + 1);
    }
}

impl Body {
    /// Look up a basemap on this body by id. The id must be one of the
    /// body's basemaps (a miss is a programming error).
    pub fn basemap(&self, id: BasemapId) -> (m: &Basemap)
        requires
            exists|i: int| 0 <= i < self.basemaps@.len() && self.basemaps@[i].id.0@ == id.0@,
        ensures
            first_basemap_index(self, id, 0) matches Some(k) && *m == self.basemaps@[k],
            m.id.0@ == id.0@,
    {
        proof {
            lemma_first_basemap_index(self, id, 0);
        }
        let mut i: usize = 0;
        while i < self.basemaps.len()
            invariant
                0 <= i <= self.basemaps@.len(),
                first_basemap_index(self, id, 0) == first_basemap_index(self, id, i as int),
                first_basemap_index(self, id, 0) is Some,
            decreases self.basemaps@.len() - i,
        {
            if same_text(self.basemaps[i].id.0, id.0) {
                return &self.basemaps[i];
            }
            i = i + 1;
        }
        proof {
            assert(first_basemap_index(self, id, i as int) is None);
        }
        &self.basemaps[0]
    }

    /// The default basemap on this body (first in its list).
    pub fn default_basemap(&self) -> (id: BasemapId)
        requires
            self.basemaps@.len() > 0,
        ensures
            id == self.basemaps@[0].id,
    {
        self.basemaps[0].id
    }
}

/// Whether basemap `m` has exactly these settings.
pub open spec fn basemap_is(
    m: Basemap,
    id: Seq<char>,
    display_name: Seq<char>,
    projection: TileProjection,
    url_template: Seq<char>,
    max_z: u8,
    attribution_html: Seq<char>,
    north: Seq<u8>,
    south: Seq<u8>,
) -> bool {
    &&& m.id.0@ == id
    &&& m.display_name@ == display_name
    &&& m.projection == projection
    &&& m.url_template@ == url_template
    &&& m.max_z == max_z
    &&& m.attribution_html@ == attribution_html
    &&& m.cap_colors.north@ == north
    &&& m.cap_colors.south@ == south
}

/// Whether `b` is Earth as the catalog describes it.
pub open spec fn is_earth(b: Body) -> bool {
    &&& b.id == BodyId::Earth
    &&& b.display_name@ == "Earth"@
    &&& b.icon@ == "🌍"@
    &&& b.show_political_overlays
    &&& b.basemaps@.len() == 2
    &&& basemap_is(
        b.basemaps@[0],
        "map"@,
        "Map"@,
        TileProjection::WebMercator,
        "https://a.basemaps.cartocdn.com/rastertiles/voyager/{z}/{x}/{y}@2x.png"@,
        19,
        "© <a href=\"https://www.openstreetmap.org/copyright\">OpenStreetMap</a> contributors, © <a href=\"https://carto.com/attributions\">CARTO</a>"@,
        seq![170, 206, 212, 255],
        seq![246, 239, 229, 255],
    )
    &&& basemap_is(
        b.basemaps@[1],
        "satellite"@,
        "Satellite"@,
        TileProjection::WebMercator,
        "https://services.arcgisonline.com/ArcGIS/rest/services/World_Imagery/MapServer/tile/{z}/{y}/{x}"@,
        19,
        "Source: <a href=\"https://www.esri.com/en-us/legal/copyright-trademarks\">Esri</a>, Maxar, Earthstar Geographics, and the GIS User Community"@,
        seq![190, 215, 230, 255],
        seq![248, 250, 252, 255],
    )
}

/// Whether `b` is Mars as the catalog describes it.
pub open spec fn is_mars(b: Body) -> bool {
    &&& b.id == BodyId::Mars
    &&& b.display_name@ == "Mars"@
    &&& b.icon@ == "🔴"@
    &&& !b.show_political_overlays
    &&& b.basemaps@.len() == 2
    &&& basemap_is(
        b.basemaps@[0],
        "color"@,
        "Color"@,
        TileProjection::Equirectangular,
        "https://trek.nasa.gov/tiles/Mars/EQ/Mars_Viking_MDIM21_ClrMosaic_global_232m/1.0.0/default/default028mm/{z}/{y}/{x}.jpg"@,
        7,
        "Imagery: <a href=\"https://trek.nasa.gov/mars/\">NASA</a> / Viking MDIM 2.1"@,
        seq![240, 235, 228, 255],
        seq![240, 235, 228, 255],
    )
    &&& basemap_is(
        b.basemaps@[1],
        "terrain"@,
        "Terrain"@,
        TileProjection::Equirectangular,
        "https://trek.nasa.gov/tiles/Mars/EQ/Mars_MGS_MOLA_ClrShade_merge_global_463m/1.0.0/default/default028mm/{z}/{y}/{x}.jpg"@,
        6,
        "Topography: <a href=\"https://trek.nasa.gov/mars/\">NASA</a> / MGS MOLA Color Hillshade"@,
        seq![180, 180, 188, 255],
        seq![180, 180, 188, 255],
    )
}

/// Whether `b` is the Moon as the catalog describes it.
pub open spec fn is_moon(b: Body) -> bool {
    &&& b.id == BodyId::Moon
    &&& b.display_name@ == "Moon"@
    &&& b.icon@ == "🌙"@
    &&& !b.show_political_overlays
    &&& b.basemaps@.len() == 1
    &&& basemap_is(
        b.basemaps@[0],
        "mosaic"@,
        "Mosaic"@,
        TileProjection::Equirectangular,
        "https://trek.nasa.gov/tiles/Moon/EQ/LRO_WAC_Mosaic_Global_303ppd_v02/1.0.0/default/default028mm/{z}/{y}/{x}.jpg"@,
        7,
        "Imagery: <a href=\"https://trek.nasa.gov/moon/\">NASA</a> / LRO LROC WAC"@,
        seq![180, 180, 188, 255],
        seq![180, 180, 188, 255],
    )
}

/// Earth: Carto "map" and Esri "satellite" basemaps.
pub fn earth() -> (b: Body)
    ensures
        is_earth(b),
{
    let mut basemaps: Vec<Basemap> = Vec::new();
    basemaps.push(Basemap {
        id: BasemapId("map"),
        display_name: "Map",
        projection: TileProjection::WebMercator,
        url_template: "https://a.basemaps.cartocdn.com/rastertiles/voyager/{z}/{x}/{y}@2x.png",
        max_z: 19,
        attribution_html: "© <a href=\"https://www.openstreetmap.org/copyright\">OpenStreetMap</a> contributors, © <a href=\"https://carto.com/attributions\">CARTO</a>",
        cap_colors: CapColors { north: [170, 206, 212, 255], south: [246, 239, 229, 255] },
    });
    basemaps.push(Basemap {
        id: BasemapId("satellite"),
        display_name: "Satellite",
        projection: TileProjection::WebMercator,
        url_template: "https://services.arcgisonline.com/ArcGIS/rest/services/World_Imagery/MapServer/tile/{z}/{y}/{x}",
        max_z: 19,
        attribution_html: "Source: <a href=\"https://www.esri.com/en-us/legal/copyright-trademarks\">Esri</a>, Maxar, Earthstar Geographics, and the GIS User Community",
        cap_colors: CapColors { north: [190, 215, 230, 255], south: [248, 250, 252, 255] },
    });
    Body {
        id: BodyId::Earth,
        display_name: "Earth",
        icon: "🌍",
        basemaps,
        show_political_overlays: true,
    }
}

/// Mars: NASA Trek Viking colour mosaic and MOLA terrain basemaps.
pub fn mars() -> (b: Body)
    ensures
        is_mars(b),
{
    let mut basemaps: Vec<Basemap> = Vec::new();
    basemaps.push(Basemap {
        id: BasemapId("color"),
        display_name: "Color",
        projection: TileProjection::Equirectangular,
        url_template: "https://trek.nasa.gov/tiles/Mars/EQ/Mars_Viking_MDIM21_ClrMosaic_global_232m/1.0.0/default/default028mm/{z}/{y}/{x}.jpg",
        max_z: 7,
        attribution_html: "Imagery: <a href=\"https://trek.nasa.gov/mars/\">NASA</a> / Viking MDIM 2.1",
        cap_colors: CapColors { north: [240, 235, 228, 255], south: [240, 235, 228, 255] },
    });
    basemaps.push(Basemap {
        id: BasemapId("terrain"),
        display_name: "Terrain",
        projection: TileProjection::Equirectangular,
        url_template: "https://trek.nasa.gov/tiles/Mars/EQ/Mars_MGS_MOLA_ClrShade_merge_global_463m/1.0.0/default/default028mm/{z}/{y}/{x}.jpg",
        max_z: 6,
        attribution_html: "Topography: <a href=\"https://trek.nasa.gov/mars/\">NASA</a> / MGS MOLA Color Hillshade",
        cap_colors: CapColors { north: [180, 180, 188, 255], south: [180, 180, 188, 255] },
    });
    Body {
        id: BodyId::Mars,
        display_name: "Mars",
        icon: "🔴",
        basemaps,
        show_political_overlays: false,
    }
}

/// The Moon: NASA Trek LRO WAC mosaic basemap.
pub fn moon() -> (b: Body)
    ensures
        is_moon(b),
{
    let mut basemaps: Vec<Basemap> = Vec::new();
    basemaps.push(Basemap {
        id: BasemapId("mosaic"),
        display_name: "Mosaic",
        projection: TileProjection::Equirectangular,
        url_template: "https://trek.nasa.gov/tiles/Moon/EQ/LRO_WAC_Mosaic_Global_303ppd_v02/1.0.0/default/default028mm/{z}/{y}/{x}.jpg",
        max_z: 7,
        attribution_html: "Imagery: <a href=\"https://trek.nasa.gov/moon/\">NASA</a> / LRO LROC WAC",
        cap_colors: CapColors { north: [180, 180, 188, 255], south: [180, 180, 188, 255] },
    });
    Body {
        id: BodyId::Moon,
        display_name: "Moon",
        icon: "🌙",
        basemaps,
        show_political_overlays: false,
    }
}

/// All bodies the renderer can currently render, in switcher order.
pub fn all() -> (bodies: Vec<Body>)
    ensures
        bodies@.len() == 3,
        is_earth(bodies@[0]),
        is_mars(bodies@[1]),
        is_moon(bodies@[2]),
{
    let mut bodies: Vec<Body> = Vec::new();
    bodies.push(earth());
    bodies.push(mars());
    bodies.push(moon());
    bodies
}

/// Look up a body by id.
pub fn by_id(id: BodyId) -> (b: Body)
    ensures
        id == BodyId::Earth ==> is_earth(b),
        id == BodyId::Mars ==> is_mars(b),
        id == BodyId::Moon ==> is_moon(b),
{
    match id {
        BodyId::Earth => earth(),
        BodyId::Mars => mars(),
        BodyId::Moon => moon(),
    }
}

/// Index of the first `}` in `t` at or after `i` (`t.len()` if none).
pub open spec fn brace_end(t: Seq<char>, i: int) -> int
    decreases t.len() - i,
{
    if i < 0 || i >= t.len() {
        t.len() as int
    } else if t[i] == '}' {
        i
    } else {
        brace_end(t, i + 1)
    }
}

pub proof fn lemma_brace_end(t: Seq<char>, i: int)
    requires
        0 <= i <= t.len(),
    ensures
        i <= brace_end(t, i) <= t.len(),
        brace_end(t, i) < t.len() ==> t[brace_end(t, i)] == '}',
    decreases t.len() - i,
{
    if i < t.len() && t[i] != '}' {
        lemma_brace_end(t, i + 1);
    }
}

/// What a `{name}` placeholder becomes: the decimal zoom, column or row
/// for `z`, `x`, `y`; any other name is kept as written.
pub open spec fn placeholder(name: Seq<char>, z: nat, x: nat, y: nat) -> Seq<char> {
    if name == seq!['z'] {
        decimal(z)
    } else if name == seq!['x'] {
        decimal(x)
    } else if name == seq!['y'] {
        decimal(y)
    } else {
        seq!['{'] + name + seq!['}']
    }
}

/// Template `t` from index `i` on with its placeholders substituted. A
/// `{` opens a placeholder whose name runs to the next `}` (or to the
/// end of the template); every other character is copied.
pub open spec fn expand_from(t: Seq<char>, i: int, z: nat, x: nat, y: nat) -> Seq<char>
    decreases t.len() + 1 - i,
{
    if i < 0 || i >= t.len() {
        Seq::empty()
    } else if t[i] != '{' {
        seq![t[i]] + expand_from(t, i + 1, z, x, y)
    } else {
        let close = brace_end(t, i + 1);
        proof {
            lemma_brace_end(t, i + 1);
        }
        placeholder(t.subrange(i + 1, close), z, x, y) + expand_from(t, close + 1, z, x, y)
    }
}

/// Format `{z}`, `{x}`, `{y}` substitutions in a basemap's URL template
/// against the given tile address. Unknown placeholders are preserved.
pub fn format_tile_url(template: &str, z: u8, x: u32, y: u32) -> (url: String)
    ensures
        url@ == expand_from(template@, 0, z as nat, x as nat, y as nat),
{
    let t = chars_of(template);
    let n = t.len();
    let ghost ts = template@;
    let mut out = String::new();
    let mut i: usize = 0;
    assert(Seq::<char>::empty() + expand_from(ts, 0, z as nat, x as nat, y as nat) =~= expand_from(
        ts,
        0,
        z as nat,
        x as nat,
        y as nat,
    ));
    while i < n
        invariant
            t@ == ts,
            n == ts.len(),
            0 <= i <= n,
            out@ + expand_from(ts, i as int, z as nat, x as nat, y as nat) == expand_from(
                ts,
                0,
                z as nat,
                x as nat,
                y as nat,
            ),
        decreases n - i,
    {
        let ghost before = out@;
        if t[i] != '{' {
            out.push(t[i]);
            assert(before + expand_from(ts, i as int, z as nat, x as nat, y as nat) =~= out@
                + expand_from(ts, i + 1, z as nat, x as nat, y as nat));
            i = i + 1;
        } else {
            let mut j = i + 1;
            while j < n && t[j] != '}'
                invariant
                    t@ == ts,
                    n == ts.len(),
                    i < j <= n,
                    brace_end(ts, j as int) == brace_end(ts, i + 1),
                decreases n - j,
            {
                j = j + 1;
            }
            proof {
                lemma_brace_end(ts, i + 1);
            }
            let ghost name = ts.subrange(i + 1, j as int);
            let ghost i_old = i as int;
            assert(brace_end(ts, j as int) == j as int);
            assert(ts[i_old] == '{');
            if j - i == 2 && t[i + 1] == 'z' {
                assert(name =~= seq!['z']);
                push_decimal(&mut out, z as u64);
                assert(out@ == before + placeholder(name, z as nat, x as nat, y as nat));
            } else if j - i == 2 && t[i + 1] == 'x' {
                assert(name =~= seq!['x']);
                push_decimal(&mut out, x as u64);
                assert(name != seq!['z']) by {
                    assert(name[0] != seq!['z'][0]);
                }
                assert(out@ == before + placeholder(name, z as nat, x as nat, y as nat));
            } else if j - i == 2 && t[i + 1] == 'y' {
                assert(name =~= seq!['y']);
                push_decimal(&mut out, y as u64);
                assert(name != seq!['z'] && name != seq!['x']) by {
                    assert(name[0] != seq!['z'][0]);
                    assert(name[0] != seq!['x'][0]);
                }
                assert(out@ == before + placeholder(name, z as nat, x as nat, y as nat));
            } else {
                proof {
                    if name == seq!['z'] || name == seq!['x'] || name == seq!['y'] {
                        assert(name.len() == 1);
                        assert(name[0] == t@[i + 1]);
                    }
                }
                out.push('{');
                push_chars(&mut out, t.as_slice(), i + 1, j);
                out.push('}');
                assert(out@ =~= before + (seq!['{'] + name + seq!['}']));
                assert(out@ == before + placeholder(name, z as nat, x as nat, y as nat));
            }
            if j < n {
                i = j + 1;
            } else {
                i = n;
            }
            assert(expand_from(ts, j + 1, z as nat, x as nat, y as nat) == expand_from(
                ts,
                i as int,
                z as nat,
                x as nat,
                y as nat,
            ));
            assert(expand_from(ts, i_old, z as nat, x as nat, y as nat) == placeholder(
                name,
                z as nat,
                x as nat,
                y as nat,
            ) + expand_from(ts, i as int, z as nat, x as nat, y as nat));
            assert((before + placeholder(name, z as nat, x as nat, y as nat)) + expand_from(
                ts,
                i as int,
                z as nat,
                x as nat,
                y as nat,
            ) =~= before + (placeholder(name, z as nat, x as nat, y as nat) + expand_from(
                ts,
                i as int,
                z as nat,
                x as nat,
                y as nat,
            )));
        }
    }
    assert(out@ + Seq::<char>::empty() =~= out@);
    out
}

/// A template with no `{` from index `i` on is copied unchanged.
pub proof fn lemma_expand_plain(t: Seq<char>, i: int, z: nat, x: nat, y: nat)
    requires
        0 <= i <= t.len(),
        forall|k: int| i <= k < t.len() ==> t[k] != '{',
    ensures
        expand_from(t, i, z, x, y) == t.subrange(i, t.len() as int),
    decreases t.len() - i,
{
    if i < t.len() {
        lemma_expand_plain(t, i + 1, z, x, y);
        assert(seq![t[i]] + t.subrange(i + 1, t.len() as int) =~= t.subrange(i, t.len() as int));
    } else {
        assert(t.subrange(i, t.len() as int) =~= Seq::<char>::empty());
    }
}


/// Whether every `{` of `t` is closed by a later `}`.
pub open spec fn placeholders_closed(t: Seq<char>) -> bool {
    forall|k: int|
        0 <= k < t.len() && #[trigger] t[k] == '{' ==> exists|j: int| k < j < t.len() && t[j] == '}'
}

proof fn lemma_brace_end_prefix(a: Seq<char>, b: Seq<char>, i: int)
    requires
        0 <= i <= a.len(),
        exists|j: int| i <= j < a.len() && a[j] == '}',
    ensures
        brace_end(a + b, i) == brace_end(a, i),
        brace_end(a, i) < a.len(),
    decreases a.len() - i,
{
    let j = choose|j: int| i <= j < a.len() && a[j] == '}';
    assert((a + b)[i] == a[i]);
    if a[i] != '}' {
        assert(j > i);
        lemma_brace_end_prefix(a, b, i + 1);
    }
}

proof fn lemma_brace_end_shift(a: Seq<char>, b: Seq<char>, j: int)
    requires
        0 <= j <= b.len(),
    ensures
        brace_end(a + b, a.len() + j) == a.len() + brace_end(b, j),
    decreases b.len() - j,
{
    if j < b.len() {
        assert((a + b)[a.len() + j] == b[j]);
        if b[j] != '}' {
            lemma_brace_end_shift(a, b, j + 1);
        }
    }
}

proof fn lemma_expand_shift(a: Seq<char>, b: Seq<char>, j: int, z: nat, x: nat, y: nat)
    requires
        0 <= j,
    ensures
        expand_from(a + b, a.len() + j, z, x, y) == expand_from(b, j, z, x, y),
    decreases b.len() + 1 - j,
{
    if j < b.len() {
        assert((a + b)[a.len() + j] == b[j]);
        if b[j] != '{' {
            lemma_expand_shift(a, b, j + 1, z, x, y);
        } else {
            lemma_brace_end(b, j + 1);
            lemma_brace_end_shift(a, b, j + 1);
            let close = brace_end(b, j + 1);
            assert((a + b).subrange(a.len() + j + 1, a.len() + close) =~= b.subrange(j + 1, close));
            lemma_expand_shift(a, b, close + 1, z, x, y);
        }
    }
}

proof fn lemma_expand_concat_from(a: Seq<char>, b: Seq<char>, i: int, z: nat, x: nat, y: nat)
    requires
        0 <= i <= a.len(),
        placeholders_closed(a),
    ensures
        expand_from(a + b, i, z, x, y) == expand_from(a, i, z, x, y) + expand_from(b, 0, z, x, y),
    decreases a.len() + 1 - i,
{
    if i == a.len() {
        lemma_expand_shift(a, b, 0, z, x, y);
        assert(expand_from(a, i, z, x, y) + expand_from(b, 0, z, x, y) =~= expand_from(
            b,
            0,
            z,
            x,
            y,
        ));
    } else {
        assert((a + b)[i] == a[i]);
        if a[i] != '{' {
            lemma_expand_concat_from(a, b, i + 1, z, x, y);
            assert(seq![a[i]] + (expand_from(a, i + 1, z, x, y) + expand_from(b, 0, z, x, y)) =~= (
            seq![a[i]] + expand_from(a, i + 1, z, x, y)) + expand_from(b, 0, z, x, y));
        } else {
            assert(a[i] == '{');
            lemma_brace_end_prefix(a, b, i + 1);
            lemma_brace_end(a, i + 1);
            let close = brace_end(a, i + 1);
            assert((a + b).subrange(i + 1, close) =~= a.subrange(i + 1, close));
            lemma_expand_concat_from(a, b, close + 1, z, x, y);
            let ph = placeholder(a.subrange(i + 1, close), z, x, y);
            assert(ph + (expand_from(a, close + 1, z, x, y) + expand_from(b, 0, z, x, y)) =~= (ph
                + expand_from(a, close + 1, z, x, y)) + expand_from(b, 0, z, x, y));
        }
    }
}

/// Formatting a template made of two parts is formatting each part,
/// provided every placeholder the first part opens is closed in it.
pub proof fn lemma_expand_concat(a: Seq<char>, b: Seq<char>, z: nat, x: nat, y: nat)
    requires
        placeholders_closed(a),
    ensures
        expand_from(a + b, 0, z, x, y) == expand_from(a, 0, z, x, y) + expand_from(b, 0, z, x, y),
{
    lemma_expand_concat_from(a, b, 0, z, x, y);
}


proof fn lemma_plain_template(t: Seq<char>, z: nat, x: nat, y: nat)
    requires
        forall|k: int| 0 <= k < t.len() ==> t[k] != '{',
    ensures
        placeholders_closed(t),
        expand_from(t, 0, z, x, y) == t,
{
    lemma_expand_plain(t, 0, z, x, y);
    assert(t.subrange(0, t.len() as int) =~= t);
}

proof fn lemma_single_placeholder(c: char, z: nat, x: nat, y: nat)
    requires
        c != '{' && c != '}',
    ensures
        placeholders_closed(seq!['{', c, '}']),
        expand_from(seq!['{', c, '}'], 0, z, x, y) == placeholder(seq![c], z, x, y),
{
    let s = seq!['{', c, '}'];
    assert(s[0] == '{' && s[1] == c && s[2] == '}');
    assert(brace_end(s, 2) == 2);
    assert(brace_end(s, 1) == 2);
    assert(s.subrange(1, 2) =~= seq![c]);
    assert(expand_from(s, 3, z, x, y) == Seq::<char>::empty());
    assert(placeholder(seq![c], z, x, y) + Seq::<char>::empty() =~= placeholder(seq![c], z, x, y));
    assert forall|k: int| 0 <= k < s.len() && #[trigger] s[k] == '{' implies exists|j: int|
        k < j < s.len() && s[j] == '}' by {
        assert(k == 0);
        assert(s[2] == '}');
    }
}

proof fn lemma_placeholder_names(z: nat, x: nat, y: nat)
    ensures
        placeholder(seq!['z'], z, x, y) == decimal(z),
        placeholder(seq!['x'], z, x, y) == decimal(x),
        placeholder(seq!['y'], z, x, y) == decimal(y),
{
    assert(seq!['x'] != seq!['z']) by {
        assert(seq!['x'][0] != seq!['z'][0]);
    }
    assert(seq!['y'] != seq!['z'] && seq!['y'] != seq!['x']) by {
        assert(seq!['y'][0] != seq!['z'][0]);
        assert(seq!['y'][0] != seq!['x'][0]);
    }
}

proof fn lemma_carto_template(z: nat, x: nat, y: nat)
    ensures
        expand_from(
            "https://a.basemaps.cartocdn.com/rastertiles/voyager/{z}/{x}/{y}@2x.png"@,
            0,
            z,
            x,
            y,
        ) == "https://a.basemaps.cartocdn.com/rastertiles/voyager/"@ + (decimal(z) + ("/"@ + (
        decimal(x) + ("/"@ + (decimal(y) + "@2x.png"@))))),
{
    let zs = seq!['{', 'z', '}'];
    let xs = seq!['{', 'x', '}'];
    let ys = seq!['{', 'y', '}'];
    let slash = "/"@;
    let p = "https://a.basemaps.cartocdn.com/rastertiles/voyager/"@;
    let tail = "@2x.png"@;
    assert(forall|k: int| 0 <= k < p.len() ==> p[k] != '{') by {
        reveal_strlit("https://a.basemaps.cartocdn.com/rastertiles/voyager/");
    }
    assert(forall|k: int| 0 <= k < tail.len() ==> tail[k] != '{') by {
        reveal_strlit("@2x.png");
    }
    assert(forall|k: int| 0 <= k < slash.len() ==> slash[k] != '{') by {
        reveal_strlit("/");
    }
    lemma_plain_template(p, z, x, y);
    lemma_plain_template(tail, z, x, y);
    lemma_plain_template(slash, z, x, y);
    lemma_single_placeholder('z', z, x, y);
    lemma_single_placeholder('x', z, x, y);
    lemma_single_placeholder('y', z, x, y);
    lemma_placeholder_names(z, x, y);
    let r5 = ys + tail;
    let r4 = slash + r5;
    let r3 = xs + r4;
    let r2 = slash + r3;
    let r1 = zs + r2;
    assert("https://a.basemaps.cartocdn.com/rastertiles/voyager/{z}/{x}/{y}@2x.png"@ =~= p + r1)
        by {
        reveal_strlit("https://a.basemaps.cartocdn.com/rastertiles/voyager/{z}/{x}/{y}@2x.png");
        reveal_strlit("https://a.basemaps.cartocdn.com/rastertiles/voyager/");
        reveal_strlit("/");
        reveal_strlit("@2x.png");
    }
    lemma_expand_concat(ys, tail, z, x, y);
    lemma_expand_concat(slash, r5, z, x, y);
    lemma_expand_concat(xs, r4, z, x, y);
    lemma_expand_concat(slash, r3, z, x, y);
    lemma_expand_concat(zs, r2, z, x, y);
    lemma_expand_concat(p, r1, z, x, y);
}

proof fn lemma_sentinel_template(z: nat, x: nat, y: nat)
    ensures
        expand_from(
            "https://tiles.maps.eox.at/wmts/1.0.0/s2cloudless-2020_3857/default/g/{z}/{y}/{x}.jpg"@,
            0,
            z,
            x,
            y,
        ) == "https://tiles.maps.eox.at/wmts/1.0.0/s2cloudless-2020_3857/default/g/"@ + (decimal(z)
            + ("/"@ + (decimal(y) + ("/"@ + (decimal(x) + ".jpg"@))))),
{
    let zs = seq!['{', 'z', '}'];
    let xs = seq!['{', 'x', '}'];
    let ys = seq!['{', 'y', '}'];
    let slash = "/"@;
    let q = "https://tiles.maps.eox.at/wmts/1.0.0/s2cloudless-2020_3857/default/g/"@;
    let jpg = ".jpg"@;
    assert(forall|k: int| 0 <= k < q.len() ==> q[k] != '{') by {
        reveal_strlit("https://tiles.maps.eox.at/wmts/1.0.0/s2cloudless-2020_3857/default/g/");
    }
    assert(forall|k: int| 0 <= k < jpg.len() ==> jpg[k] != '{') by {
        reveal_strlit(".jpg");
    }
    assert(forall|k: int| 0 <= k < slash.len() ==> slash[k] != '{') by {
        reveal_strlit("/");
    }
    lemma_plain_template(q, z, x, y);
    lemma_plain_template(jpg, z, x, y);
    lemma_plain_template(slash, z, x, y);
    lemma_single_placeholder('z', z, x, y);
    lemma_single_placeholder('x', z, x, y);
    lemma_single_placeholder('y', z, x, y);
    lemma_placeholder_names(z, x, y);
    let s5 = xs + jpg;
    let s4 = slash + s5;
    let s3 = ys + s4;
    let s2 = slash + s3;
    let s1 = zs + s2;
    assert("https://tiles.maps.eox.at/wmts/1.0.0/s2cloudless-2020_3857/default/g/{z}/{y}/{x}.jpg"@
        =~= q + s1) by {
        reveal_strlit(
            "https://tiles.maps.eox.at/wmts/1.0.0/s2cloudless-2020_3857/default/g/{z}/{y}/{x}.jpg",
        );
        reveal_strlit("https://tiles.maps.eox.at/wmts/1.0.0/s2cloudless-2020_3857/default/g/");
        reveal_strlit("/");
        reveal_strlit(".jpg");
    }
    lemma_expand_concat(xs, jpg, z, x, y);
    lemma_expand_concat(slash, s5, z, x, y);
    lemma_expand_concat(ys, s4, z, x, y);
    lemma_expand_concat(slash, s3, z, x, y);
    lemma_expand_concat(zs, s2, z, x, y);
    lemma_expand_concat(q, s1, z, x, y);
}

/// A tile's URL from either provider is what `format_tile_url` makes of
/// that provider's template: for Carto, the template of Earth's "map"
/// basemap; for Sentinel-2 cloudless, EOX's `{z}/{y}/{x}` template.
pub proof fn lemma_tile_url_is_template(t: TileId)
    ensures
        tile_url_spec(t, TileProvider::Carto) == expand_from(
            "https://a.basemaps.cartocdn.com/rastertiles/voyager/{z}/{x}/{y}@2x.png"@,
            0,
            t.z as nat,
            t.x as nat,
            t.y as nat,
        ),
        tile_url_spec(t, TileProvider::Sentinel2Cloudless) == expand_from(
            "https://tiles.maps.eox.at/wmts/1.0.0/s2cloudless-2020_3857/default/g/{z}/{y}/{x}.jpg"@,
            0,
            t.z as nat,
            t.x as nat,
            t.y as nat,
        ),
{
    let (z, x, y) = (t.z as nat, t.x as nat, t.y as nat);
    lemma_carto_template(z, x, y);
    lemma_sentinel_template(z, x, y);
    assert(tile_url_spec(t, TileProvider::Carto) =~= "https://a.basemaps.cartocdn.com/rastertiles/voyager/"@
        + (decimal(z) + ("/"@ + (decimal(x) + ("/"@ + (decimal(y) + "@2x.png"@))))));
    assert(tile_url_spec(t, TileProvider::Sentinel2Cloudless)
        =~= "https://tiles.maps.eox.at/wmts/1.0.0/s2cloudless-2020_3857/default/g/"@ + (decimal(z)
        + ("/"@ + (decimal(y) + ("/"@ + (decimal(x) + ".jpg"@))))));
}

} // verus!
