use aegis::body::{all, by_id, earth, format_tile_url, mars, moon, BasemapId, BodyId};
use aegis::tile::{TileId, TileProvider};

#[test]
fn earth_has_map_and_satellite_basemaps() {
    let earth = earth();
    assert_eq!(earth.basemaps.len(), 2);
    assert_eq!(earth.basemaps[0].id, BasemapId("map"));
    assert_eq!(earth.basemaps[1].id, BasemapId("satellite"));
}

#[test]
fn earth_default_basemap_is_map_unless_changed() {
    assert_eq!(earth().default_basemap(), BasemapId("map"));
}

#[test]
fn body_basemap_lookup_finds_the_right_one() {
    let earth = earth();
    let map = earth.basemap(BasemapId("map"));
    let sat = earth.basemap(BasemapId("satellite"));
    assert!(map.url_template.contains("cartocdn"));
    assert!(sat.url_template.contains("arcgisonline"));
}

#[test]
fn format_tile_url_substitutes_correctly() {
    let url = format_tile_url("https://example.com/{z}/{x}/{y}.png", 5, 9, 12);
    assert_eq!(url, "https://example.com/5/9/12.png");
}

#[test]
fn format_tile_url_handles_esri_yx_order() {
    let url = format_tile_url(
        "https://services.arcgisonline.com/ArcGIS/rest/services/World_Imagery/MapServer/tile/{z}/{y}/{x}",
        5,
        9,
        12,
    );
    assert_eq!(
        url,
        "https://services.arcgisonline.com/ArcGIS/rest/services/World_Imagery/MapServer/tile/5/12/9"
    );
}

#[test]
fn format_tile_url_preserves_unknown_substitutions() {
    let url = format_tile_url("https://example.com/{z}?q={q}", 3, 0, 0);
    assert_eq!(url, "https://example.com/3?q={q}");
}

#[test]
fn format_tile_url_unclosed_brace_is_kept_and_closed() {
    assert_eq!(format_tile_url("a{zz", 1, 2, 3), "a{zz}");
    assert_eq!(format_tile_url("{z", 7, 0, 0), "7");
    assert_eq!(format_tile_url("{}", 7, 0, 0), "{}");
    assert_eq!(format_tile_url("", 7, 0, 0), "");
    assert_eq!(format_tile_url("x}y", 7, 0, 0), "x}y");
}

#[test]
fn format_tile_url_matches_tile_url_for_carto() {
    let earth = earth();
    let t = TileId { z: 12, x: 1049, y: 1522 };
    assert_eq!(
        format_tile_url(earth.basemaps[0].url_template, t.z, t.x, t.y),
        t.tile_url(TileProvider::Carto)
    );
}

#[test]
fn all_bodies_includes_earth() {
    let bodies = all();
    assert!(bodies.iter().any(|b| b.id == BodyId::Earth));
    assert_eq!(bodies.len(), 3);
}

#[test]
fn by_id_round_trips() {
    let earth = by_id(BodyId::Earth);
    assert_eq!(earth.id, BodyId::Earth);
    assert_eq!(earth.display_name, "Earth");
    assert_eq!(by_id(BodyId::Mars).display_name, "Mars");
    assert_eq!(by_id(BodyId::Moon).basemaps.len(), 1);
}

#[test]
fn mars_and_moon_catalogs() {
    let mars = mars();
    assert_eq!(mars.basemap(BasemapId("terrain")).max_z, 6);
    assert!(!mars.show_political_overlays);
    assert_eq!(moon().default_basemap(), BasemapId("mosaic"));
}

#[test]
fn format_tile_url_of_joined_templates_joins_urls() {
    let a = "https://example.com/{z}/";
    let b = "{x}/{y}?k={key}";
    let joined = format!("{a}{b}");
    assert_eq!(
        format_tile_url(&joined, 4, 3, 2),
        format!("{}{}", format_tile_url(a, 4, 3, 2), format_tile_url(b, 4, 3, 2))
    );
    assert_eq!(format_tile_url(&joined, 4, 3, 2), "https://example.com/4/3/2?k={key}");
}

#[test]
fn sentinel_tile_url_is_its_template_formatted() {
    let t = TileId { z: 9, x: 130, y: 20 };
    assert_eq!(
        format_tile_url(
            "https://tiles.maps.eox.at/wmts/1.0.0/s2cloudless-2020_3857/default/g/{z}/{y}/{x}.jpg",
            t.z,
            t.x,
            t.y
        ),
        t.tile_url(TileProvider::Sentinel2Cloudless)
    );
}

#[test]
fn catalog_labels_attributions_and_caps() {
    let e = earth();
    assert_eq!(e.icon, "🌍");
    assert_eq!(e.basemaps[0].display_name, "Map");
    assert_eq!(e.basemaps[1].display_name, "Satellite");
    assert!(e.basemaps[0].attribution_html.contains("OpenStreetMap"));
    assert_eq!(e.basemaps[0].cap_colors.north, [170, 206, 212, 255]);
    assert_eq!(e.basemaps[1].cap_colors.south, [248, 250, 252, 255]);
    let m = mars();
    assert_eq!(m.basemaps[1].display_name, "Terrain");
    assert_eq!(m.basemaps[1].cap_colors.north, [180, 180, 188, 255]);
    let moon = moon();
    assert_eq!(moon.icon, "🌙");
    assert!(moon.basemaps[0].attribution_html.contains("LRO"));
}
