use aegis::bm_tile::{bm_tile_rect, gibs_zoom_for_rounded, BmTileId, BM_MAX_Z};
use aegis::tile::{
    clamped_tile_rect, parent_prefetch, tile_grid_height, tile_grid_width, tiles_in_rect,
    TileId, TileProjection, TileProvider, TILE_USER_AGENT,
};

#[test]
fn url_uses_wmts_zyx_order() {
    let t = BmTileId { z: 3, x: 5, y: 2 };
    assert_eq!(
        t.url(),
        "https://gibs.earthdata.nasa.gov/wmts/epsg4326/best/\
         BlueMarble_ShadedRelief_Bathymetry/default/500m/3/2/5.jpeg"
    );
}

#[test]
fn sentinel2_url_uses_eox_wmts_zyx_order() {
    let tile = TileId { z: 5, x: 9, y: 12 };
    assert_eq!(
        tile.tile_url(TileProvider::Sentinel2Cloudless),
        "https://tiles.maps.eox.at/wmts/1.0.0/s2cloudless-2020_3857/default/g/\
         5/12/9.jpg"
    );
}

#[test]
fn user_agent_identifies_project_and_version() {
    assert!(TILE_USER_AGENT.starts_with("aegis/"));
    assert!(TILE_USER_AGENT.contains("0.1.0"));
    assert!(TILE_USER_AGENT.contains("github.com"));
}

#[test]
fn chicago_tile_url_at_z10() {
    let tile = TileId { z: 10, x: 262, y: 380 };
    assert_eq!(
        tile.tile_url(TileProvider::Carto),
        "https://a.basemaps.cartocdn.com/rastertiles/voyager/10/262/380@2x.png"
    );
}

#[test]
fn tile_url_multi_digit_and_zero_indices() {
    let tile = TileId { z: 0, x: 0, y: 0 };
    assert_eq!(
        tile.tile_url(TileProvider::Carto),
        "https://a.basemaps.cartocdn.com/rastertiles/voyager/0/0/0@2x.png"
    );
    let tile = TileId { z: 19, x: 4_294_967_295, y: 100_000 };
    assert_eq!(
        tile.tile_url(TileProvider::Sentinel2Cloudless),
        "https://tiles.maps.eox.at/wmts/1.0.0/s2cloudless-2020_3857/default/g/19/100000/4294967295.jpg"
    );
}

#[test]
fn grid_dimensions_per_projection() {
    assert_eq!(tile_grid_width(TileProjection::WebMercator, 0), 1);
    assert_eq!(tile_grid_width(TileProjection::WebMercator, 3), 8);
    assert_eq!(tile_grid_width(TileProjection::Equirectangular, 0), 2);
    assert_eq!(tile_grid_width(TileProjection::Equirectangular, 3), 16);
    assert_eq!(tile_grid_height(3), 8);
}

#[test]
fn from_floored_clamps_at_world_edges() {
    let t = TileId::from_floored(5, -3, 40);
    assert_eq!(t, TileId { z: 5, x: 0, y: 31 });
    let t = TileId::from_floored(10, 262, 380);
    assert_eq!(t, TileId { z: 10, x: 262, y: 380 });
    let t = TileId::from_floored(0, 7, -7);
    assert_eq!(t, TileId { z: 0, x: 0, y: 0 });
}

#[test]
fn tiles_in_rect_is_row_major() {
    let tiles = tiles_in_rect(4, 2, 4, 7, 8);
    let expected: Vec<TileId> = vec![
        TileId { z: 4, x: 2, y: 7 },
        TileId { z: 4, x: 3, y: 7 },
        TileId { z: 4, x: 4, y: 7 },
        TileId { z: 4, x: 2, y: 8 },
        TileId { z: 4, x: 3, y: 8 },
        TileId { z: 4, x: 4, y: 8 },
    ];
    assert_eq!(tiles, expected);
    assert!(tiles_in_rect(4, 5, 4, 0, 3).is_empty());
    assert!(tiles_in_rect(4, 0, 3, 2, 1).is_empty());
}

#[test]
fn clamped_rect_keeps_inside_grid() {
    let tiles = clamped_tile_rect(1, TileProjection::WebMercator, -5, 10, -2, 0);
    assert_eq!(
        tiles,
        vec![TileId { z: 1, x: 0, y: 0 }, TileId { z: 1, x: 1, y: 0 }]
    );
    let tiles = clamped_tile_rect(0, TileProjection::Equirectangular, -100, 100, -100, 100);
    assert_eq!(
        tiles,
        vec![TileId { z: 0, x: 0, y: 0 }, TileId { z: 0, x: 1, y: 0 }]
    );
    assert_eq!(clamped_tile_rect(0, TileProjection::WebMercator, 0, 0, 0, 0).len(), 1);
}

#[test]
fn parent_prefetch_dedupes_parents() {
    let visible = vec![
        TileId { z: 3, x: 4, y: 6 },
        TileId { z: 3, x: 5, y: 6 },
        TileId { z: 3, x: 4, y: 7 },
        TileId { z: 3, x: 6, y: 7 },
    ];
    let parents = parent_prefetch(&visible);
    assert_eq!(
        parents,
        vec![TileId { z: 2, x: 2, y: 3 }, TileId { z: 2, x: 3, y: 3 }]
    );
    assert!(parent_prefetch(&[TileId { z: 0, x: 0, y: 0 }]).is_empty());
    assert!(parent_prefetch(&[]).is_empty());
    assert_eq!(TileId { z: 7, x: 9, y: 4 }.parent(), TileId { z: 6, x: 4, y: 2 });
}

#[test]
fn gibs_zoom_below_bundled_equivalent_is_none() {
    for suggested in [-2, 0, 1, 2] {
        assert_eq!(gibs_zoom_for_rounded(suggested), None);
    }
}

#[test]
fn gibs_zoom_mid_and_capped() {
    assert_eq!(gibs_zoom_for_rounded(3), Some(3));
    assert_eq!(gibs_zoom_for_rounded(4), Some(4));
    assert_eq!(gibs_zoom_for_rounded(13), Some(BM_MAX_Z));
    assert_eq!(gibs_zoom_for_rounded(17), Some(BM_MAX_Z));
}

#[test]
fn bm_rect_z0_world_is_two_tiles_wide() {
    let tiles = bm_tile_rect(0, -10, 10, -10, 10);
    assert_eq!(
        tiles,
        vec![BmTileId { z: 0, x: 0, y: 0 }, BmTileId { z: 0, x: 1, y: 0 }]
    );
    let tiles = bm_tile_rect(3, 4, 4, 2, 2);
    assert_eq!(tiles, vec![BmTileId { z: 3, x: 4, y: 2 }]);
}
