use pathfinder_tiling::device::{MetalTimerQuery, MetalUniform};
use pathfinder_tiling::geometry::{RectI, Vector2I};
use pathfinder_tiling::gpu_data::{AlphaTileVertex, SolidTileVertex, TileObjectPrimitive};
use pathfinder_tiling::tile_map::DenseTileMap;
use pathfinder_tiling::tiles::{
    get_or_allocate_alpha_tile_index, pack_and_cull, pack_fill, write_backdrops, ZBuffer, MASK_TILES_ACROSS,
    TILE_HEIGHT, TILE_WIDTH,
};

fn rect(x: i32, y: i32, w: i32, h: i32) -> RectI {
    RectI::new(Vector2I::new(x, y), Vector2I::new(w, h))
}

fn solid(backdrop: i8) -> TileObjectPrimitive {
    TileObjectPrimitive { alpha_tile_index: !0, backdrop }
}

#[test]
fn default_tile_is_solid_and_blank() {
    let tile = TileObjectPrimitive::default();
    assert!(tile.is_solid());
    assert_eq!(tile.backdrop, 0);
    assert_eq!(tile.alpha_tile_index, 0xFFFF);
    assert!(!TileObjectPrimitive { alpha_tile_index: 3, backdrop: 0 }.is_solid());
}

#[test]
fn vertex_mask_and_position() {
    let v = AlphaTileVertex::new(
        Vector2I::new(3, 4),
        257,
        Vector2I::new(1, 1),
        9,
        -2,
        Vector2I::new(100, 200),
    );
    assert_eq!(v.tile_x, 4);
    assert_eq!(v.tile_y, 5);
    assert_eq!(v.mask_u, 511);
    assert_eq!(v.mask_v, 511);
    assert_eq!(v.color_u, 100);
    assert_eq!(v.color_v, 200);
    assert_eq!(v.backdrop, -2);
    assert_eq!(v.object_index, 9);
    assert_eq!(v.tile_position(), Vector2I::new(4, 5));

    let w = AlphaTileVertex::new(Vector2I::new(0, 0), 255, Vector2I::new(1, 0), 0, 0, Vector2I::new(0, 0));
    assert_eq!(w.mask_u, 65535);
    assert_eq!(w.mask_v, 0);
    let z = AlphaTileVertex::new(Vector2I::new(0, 0), 0, Vector2I::new(0, 0), 0, 0, Vector2I::new(0, 0));
    assert_eq!((z.mask_u, z.mask_v), (0, 0));
    assert_eq!(MASK_TILES_ACROSS, 256);
    assert_eq!((TILE_WIDTH, TILE_HEIGHT), (16, 16));
}

#[test]
fn tile_map_indexes_row_by_row() {
    let map = DenseTileMap::new_filled(rect(2, -1, 3, 2), 7u8);
    assert_eq!(map.data.len(), 6);
    assert!(map.data.iter().all(|&v| v == 7));
    assert_eq!(map.coords_to_index(Vector2I::new(2, -1)), Some(0));
    assert_eq!(map.coords_to_index(Vector2I::new(4, 0)), Some(5));
    assert_eq!(map.coords_to_index(Vector2I::new(3, 0)), Some(4));
    assert_eq!(map.coords_to_index(Vector2I::new(5, 0)), None);
    assert_eq!(map.coords_to_index(Vector2I::new(2, 1)), None);
    assert_eq!(map.index_to_coords(4), Vector2I::new(3, 0));
    assert_eq!(map.index_to_coords(2), Vector2I::new(4, -1));
}

#[test]
fn z_buffer_keeps_the_largest_object() {
    let mut z = ZBuffer::new(rect(0, 0, 2, 2));
    z.update(Vector2I::new(1, 0), 5);
    z.update(Vector2I::new(1, 0), 3);
    z.update(Vector2I::new(0, 1), 2);
    assert_eq!(z.depths.data, vec![0, 5, 2, 0]);
    z.update(Vector2I::new(1, 0), 8);
    assert_eq!(z.depths.data, vec![0, 8, 2, 0]);
}

fn three_tiles() -> DenseTileMap<TileObjectPrimitive> {
    let mut tiles = DenseTileMap::new_filled(rect(1, 1, 3, 1), TileObjectPrimitive::default());
    tiles.data[0] = solid(1);
    tiles.data[1] = TileObjectPrimitive { alpha_tile_index: 4, backdrop: -1 };
    tiles.data[2] = solid(0);
    tiles
}

fn uvs(n: usize) -> Vec<Vector2I> {
    (0..4 * n).map(|i| Vector2I::new(i as i32, 1000 + i as i32)).collect()
}

#[test]
fn opaque_solid_tile_goes_to_z_buffer_only() {
    let tiles = three_tiles();
    let mut z = ZBuffer::new(rect(0, 0, 4, 2));
    z.update(Vector2I::new(1, 1), 9);
    let alpha = pack_and_cull(&tiles, 6, true, &uvs(3), &mut z);
    assert_eq!(alpha.len(), 1);
    let t = alpha[0];
    assert_eq!(t.upper_left.tile_position(), Vector2I::new(2, 1));
    assert_eq!(t.lower_right.tile_position(), Vector2I::new(3, 2));
    assert_eq!(t.upper_right.tile_position(), Vector2I::new(3, 1));
    assert_eq!(t.lower_left.tile_position(), Vector2I::new(2, 2));
    assert_eq!(t.upper_left.backdrop, -1);
    assert_eq!(t.upper_left.object_index, 6);
    assert_eq!((t.upper_left.color_u, t.upper_left.color_v), (4, 1004));
    assert_eq!((t.lower_right.color_u, t.lower_right.color_v), (7, 1007));
    assert_eq!((t.upper_left.mask_u, t.upper_left.mask_v), (1023, 0));
    // Tile (1, 1) was already held by object 9; tile (2, 1) is an alpha tile.
    assert_eq!(z.depths.data, vec![0, 0, 0, 0, 0, 9, 0, 0]);

    let mut z = ZBuffer::new(rect(0, 0, 4, 2));
    pack_and_cull(&tiles, 6, true, &uvs(3), &mut z);
    assert_eq!(z.depths.data, vec![0, 0, 0, 0, 0, 6, 0, 0]);
}

#[test]
fn translucent_solid_tile_becomes_an_alpha_tile() {
    let tiles = three_tiles();
    let mut z = ZBuffer::new(rect(0, 0, 4, 2));
    let alpha = pack_and_cull(&tiles, 2, false, &uvs(3), &mut z);
    assert_eq!(alpha.len(), 2);
    assert_eq!(alpha[0].upper_left.tile_position(), Vector2I::new(1, 1));
    assert_eq!(alpha[0].upper_left.backdrop, 1);
    assert_eq!((alpha[0].upper_left.mask_u, alpha[0].upper_left.mask_v), (65279, 65279));
    assert_eq!(alpha[1].upper_left.tile_position(), Vector2I::new(2, 1));
    assert!(z.depths.data.iter().all(|&d| d == 0));
}

#[test]
fn blank_tiles_are_dropped() {
    let tiles = DenseTileMap::new_filled(rect(0, 0, 2, 2), TileObjectPrimitive::default());
    let mut z = ZBuffer::new(rect(0, 0, 2, 2));
    assert!(pack_and_cull(&tiles, 1, true, &uvs(4), &mut z).is_empty());
    assert!(pack_and_cull(&tiles, 1, false, &uvs(4), &mut z).is_empty());
    assert!(z.depths.data.iter().all(|&d| d == 0));
}

#[test]
fn plain_device_records() {
    let u = MetalUniform { vertex_index: Some(3), fragment_index: None };
    assert_eq!(u, MetalUniform { vertex_index: Some(3), fragment_index: None });
    assert_eq!(MetalTimerQuery, MetalTimerQuery);
    let s = SolidTileVertex { tile_x: 1, tile_y: 2, color_u: 3, color_v: 4, object_index: 5, pad: 0 };
    assert_eq!(s.tile_y, 2);
}

#[test]
fn backdrops_fill_the_span_between_edges() {
    let mut tiles = DenseTileMap::new_filled(rect(0, 0, 4, 2), TileObjectPrimitive::default());
    tiles.data[5] = TileObjectPrimitive { alpha_tile_index: 3, backdrop: 0 };
    write_backdrops(&mut tiles, 1, 1, 3, 1);
    let backdrops: Vec<i8> = tiles.data.iter().map(|t| t.backdrop).collect();
    assert_eq!(backdrops, vec![0, 0, 0, 0, 0, 1, 1, 0]);
    assert_eq!(tiles.data[5].alpha_tile_index, 3);
    assert!(tiles.data[6].is_solid());
    // Neighbours in the span with no edge between them agree.
    assert_eq!(tiles.data[5].backdrop, tiles.data[6].backdrop);
}

#[test]
fn backdrops_clamp_and_skip_columns_outside() {
    let mut tiles = DenseTileMap::new_filled(rect(2, 0, 2, 1), TileObjectPrimitive::default());
    write_backdrops(&mut tiles, 0, -5, 10, 300);
    assert_eq!(tiles.data[0].backdrop, 127);
    assert_eq!(tiles.data[1].backdrop, 127);
    write_backdrops(&mut tiles, 0, 3, 4, -1000);
    assert_eq!(tiles.data[0].backdrop, 127);
    assert_eq!(tiles.data[1].backdrop, -128);
    write_backdrops(&mut tiles, 1, 0, 10, 5);
    write_backdrops(&mut tiles, 0, 4, 2, 5);
    assert_eq!((tiles.data[0].backdrop, tiles.data[1].backdrop), (127, -128));
}

#[test]
fn alpha_tile_slots_are_handed_out_once_per_tile() {
    let mut tiles = DenseTileMap::new_filled(rect(0, 0, 2, 2), solid(2));
    let mut next = 10u16;
    assert_eq!(get_or_allocate_alpha_tile_index(&mut tiles, Vector2I::new(1, 0), &mut next), 10);
    assert_eq!(next, 11);
    assert_eq!(get_or_allocate_alpha_tile_index(&mut tiles, Vector2I::new(0, 1), &mut next), 11);
    assert_eq!(get_or_allocate_alpha_tile_index(&mut tiles, Vector2I::new(1, 0), &mut next), 10);
    assert_eq!(next, 12);
    assert_eq!(tiles.data[1], TileObjectPrimitive { alpha_tile_index: 10, backdrop: 2 });
    assert_eq!(tiles.data[2], TileObjectPrimitive { alpha_tile_index: 11, backdrop: 2 });
    assert!(tiles.data[0].is_solid() && tiles.data[3].is_solid());
}

#[test]
fn fills_pack_whole_pixels_and_fractions() {
    let p = pack_fill(0x3_41, 0xA_07, 0xF_FF, 0x0_80).unwrap();
    assert_eq!(p.px_from, 0xA3);
    assert_eq!(p.px_to, 0x0F);
    assert_eq!((p.subpx_from_x, p.subpx_from_y, p.subpx_to_x, p.subpx_to_y), (0x41, 0x07, 0xFF, 0x80));
    assert_eq!(pack_fill(100, 0, 100, 4095), None);
    let q = pack_fill(0, 0, 1, 0).unwrap();
    assert_eq!((q.px_from, q.px_to, q.subpx_to_x), (0, 0, 1));
}

#[test]
fn empty_tile_map_has_no_entries() {
    let map = DenseTileMap::new_filled(rect(4, 4, 0, 3), TileObjectPrimitive::default());
    assert!(map.data.is_empty());
    assert_eq!(map.coords_to_index(Vector2I::new(4, 4)), None);
    let mut z = ZBuffer::new(rect(0, 0, 8, 8));
    assert!(pack_and_cull(&map, 0, true, &vec![], &mut z).is_empty());
}
