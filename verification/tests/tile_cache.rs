use aegis::tile::{DecodedTile, TileId};
use aegis::tile_cache::TileCache;

fn t(z: u8, x: u32, y: u32) -> TileId {
    TileId { z, x, y }
}

fn sorted(mut v: Vec<TileId>) -> Vec<TileId> {
    v.sort_by_key(|t| (t.z, t.x, t.y));
    v
}

#[test]
fn first_frame_requests_visible_and_parents() {
    let mut c: TileCache<u32> = TileCache::new();
    let visible = [t(3, 4, 2), t(3, 5, 2), t(3, 4, 3)];
    let fetches = c.ensure_visible_tiles(&visible);
    assert_eq!(sorted(fetches), vec![t(2, 2, 1), t(3, 4, 2), t(3, 4, 3), t(3, 5, 2)]);
    assert!(c.knows(t(2, 2, 1)));
}

#[test]
fn second_frame_requests_nothing() {
    let mut c: TileCache<u32> = TileCache::new();
    let visible = [t(1, 0, 0), t(1, 1, 0)];
    assert_eq!(c.ensure_visible_tiles(&visible).len(), 3);
    assert!(c.ensure_visible_tiles(&visible).is_empty());
}

#[test]
fn zoom_zero_has_no_parents() {
    let mut c: TileCache<u32> = TileCache::new();
    assert_eq!(c.ensure_visible_tiles(&[t(0, 0, 0)]), vec![t(0, 0, 0)]);
    assert!(c.ensure_visible_tiles(&[]).is_empty());
}

#[test]
fn failed_tiles_are_not_requested_again() {
    let mut c: TileCache<u32> = TileCache::new();
    assert!(c.request_if_new(t(2, 1, 1)));
    c.tile_failed(t(2, 1, 1));
    assert!(c.knows(t(2, 1, 1)));
    assert!(!c.request_if_new(t(2, 1, 1)));
    assert_eq!(c.ensure_visible_tiles(&[t(2, 1, 1)]), vec![t(1, 0, 0)]);
    assert_eq!(c.get(t(2, 1, 1)), None);
}

#[test]
fn loaded_tiles_keep_their_payload() {
    let mut c: TileCache<u32> = TileCache::new();
    assert!(c.request_if_new(t(4, 3, 3)));
    c.tile_loaded(t(4, 3, 3), 7);
    assert_eq!(c.get(t(4, 3, 3)), Some(&7));
    assert!(!c.request_if_new(t(4, 3, 3)));
    c.tile_loaded(t(4, 3, 3), 9);
    assert_eq!(c.get(t(4, 3, 3)), Some(&9));
    assert_eq!(c.get(t(4, 3, 2)), None);
}

#[test]
fn draw_list_is_coarse_first_and_skips_deeper_tiles() {
    let mut c: TileCache<u32> = TileCache::new();
    c.tile_loaded(t(5, 1, 1), 1);
    c.tile_loaded(t(3, 0, 0), 2);
    c.tile_loaded(t(4, 0, 1), 3);
    c.tile_loaded(t(3, 1, 0), 4);
    let order = c.draw_list(4);
    assert_eq!(order.len(), 3);
    assert_eq!(order[2], t(4, 0, 1));
    assert_eq!(sorted(order[..2].to_vec()), vec![t(3, 0, 0), t(3, 1, 0)]);
    assert!(c.draw_list(2).is_empty());
    assert_eq!(c.draw_list(255).len(), 4);
}

#[test]
fn upload_tile_keeps_decoded_pixels() {
    let mut c: TileCache<DecodedTile> = TileCache::new();
    assert!(c.request_if_new(t(1, 1, 0)));
    c.upload_tile(t(1, 1, 0), DecodedTile { width: 2, height: 1, rgba: vec![1, 2, 3, 4, 5, 6, 7, 8] });
    assert_eq!(c.get(t(1, 1, 0)).map(|d| (d.width, d.height, d.rgba.len())), Some((2, 1, 8)));
    assert!(!c.request_if_new(t(1, 1, 0)));
}
