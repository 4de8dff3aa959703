use pathfinder_content::render_target::RenderTargetId;
use pathfinder_tiling::allocator::{
    TextureAllocator, TextureAtlasAllocator, TextureLocation, ATLAS_TEXTURE_LENGTH,
};
use pathfinder_tiling::geometry::{next_power_of_two, RectI, Vector2I};
use pathfinder_tiling::gpu_data::PaintPageId;

fn rect(x: i32, y: i32, w: i32, h: i32) -> RectI {
    RectI::new(Vector2I::new(x, y), Vector2I::new(w, h))
}

fn overlap(a: &RectI, b: &RectI) -> bool {
    a.origin.x < b.origin.x + b.size.x
        && b.origin.x < a.origin.x + a.size.x
        && a.origin.y < b.origin.y + b.size.y
        && b.origin.y < a.origin.y + a.size.y
}

#[test]
fn test_allocation_and_freeing() {
    quickcheck::quickcheck(prop_allocation_and_freeing_work as fn(u32, Vec<(u32, u32)>) -> bool);

    fn prop_allocation_and_freeing_work(mut length: u32, mut sizes: Vec<(u32, u32)>) -> bool {
        length = u32::next_power_of_two(length).max(1);

        for &mut (ref mut width, ref mut height) in &mut sizes {
            *width = (*width).min(length).max(1);
            *height = (*height).min(length).max(1);
        }

        let mut allocator = TextureAtlasAllocator::with_length(length);
        let mut locations = vec![];
        for &(width, height) in &sizes {
            let size = Vector2I::new(width as i32, height as i32);
            if let Some(location) = allocator.allocate(size) {
                locations.push(location);
            }
        }

        for location in locations {
            allocator.free(location);
        }

        assert!(allocator.is_empty());

        true
    }
}

#[test]
fn atlas_of_four_fills_in_quadrant_order_then_opens_a_page() {
    let mut allocator = TextureAllocator::with_atlas_length(4);
    let two = Vector2I::new(2, 2);
    let expected = [rect(0, 0, 2, 2), rect(2, 0, 2, 2), rect(0, 2, 2, 2), rect(2, 2, 2, 2)];
    for want in expected.iter() {
        let location = allocator.allocate(two);
        assert_eq!(location, TextureLocation { page: PaintPageId(0), rect: *want });
    }
    let fifth = allocator.allocate(Vector2I::new(1, 1));
    assert_eq!(fifth, TextureLocation { page: PaintPageId(1), rect: rect(0, 0, 1, 1) });
    assert_eq!(allocator.page_count(), 2);
}

#[test]
fn freeing_one_of_two_leaves_the_atlas_in_use() {
    let mut atlas = TextureAtlasAllocator::with_length(4);
    let big = atlas.allocate(Vector2I::new(2, 2)).unwrap();
    let small = atlas.allocate(Vector2I::new(1, 1)).unwrap();
    assert_eq!(big, rect(0, 0, 2, 2));
    assert_eq!(small, rect(2, 0, 1, 1));
    atlas.free(big);
    assert!(!atlas.is_empty());
    atlas.free(small);
    assert!(atlas.is_empty());
}

#[test]
fn unit_requests_fill_a_page_of_eight_before_the_next() {
    let mut allocator = TextureAllocator::with_atlas_length(8);
    let mut locations = vec![];
    for _ in 0..200 {
        locations.push(allocator.allocate(Vector2I::new(1, 1)));
    }
    for (i, location) in locations.iter().enumerate() {
        assert_eq!(location.page, PaintPageId((i / 64) as u32));
        assert_eq!(location.rect.size, Vector2I::new(1, 1));
    }
    assert_eq!(allocator.page_count(), 4);
    for page in 0..4 {
        let on_page: Vec<&TextureLocation> =
            locations.iter().filter(|l| l.page == PaintPageId(page)).collect();
        for a in 0..on_page.len() {
            for b in (a + 1)..on_page.len() {
                assert!(!overlap(&on_page[a].rect, &on_page[b].rect));
            }
        }
    }
}

#[test]
fn oversize_request_gets_an_image_page_of_its_own() {
    let mut allocator = TextureAllocator::new();
    let first = allocator.allocate(Vector2I::new(3, 3));
    assert_eq!(first.page, PaintPageId(0));
    let image = allocator.allocate(Vector2I::new(ATLAS_TEXTURE_LENGTH as i32 + 1, 1));
    assert_eq!(image.page, PaintPageId(1));
    assert_eq!(image.rect, rect(0, 0, 1025, 1));
    assert_eq!(allocator.page_size(PaintPageId(1)), Vector2I::new(1025, 1));
    assert_eq!(allocator.page_size(PaintPageId(0)), Vector2I::new(1024, 1024));
    assert_eq!(allocator.page_render_target_id(PaintPageId(1)), None);
    let next = allocator.allocate(Vector2I::new(3, 3));
    assert_eq!(next, TextureLocation { page: PaintPageId(0), rect: rect(4, 0, 4, 4) });
    assert_eq!(allocator.page_count(), 2);
}

#[test]
fn block_side_is_next_power_of_two_of_larger_side() {
    let mut atlas = TextureAtlasAllocator::with_length(64);
    assert_eq!(atlas.allocate(Vector2I::new(3, 5)).unwrap().size, Vector2I::new(8, 8));
    assert_eq!(atlas.allocate(Vector2I::new(17, 1)).unwrap().size, Vector2I::new(32, 32));
    assert_eq!(atlas.allocate(Vector2I::new(0, 0)).unwrap().size, Vector2I::new(1, 1));
    assert_eq!(atlas.allocate(Vector2I::new(-4, 2)).unwrap().size, Vector2I::new(2, 2));
}

#[test]
fn full_atlas_refuses_and_stays_unchanged() {
    let mut atlas = TextureAtlasAllocator::with_length(4);
    let whole = atlas.allocate(Vector2I::new(4, 4)).unwrap();
    assert_eq!(whole, rect(0, 0, 4, 4));
    assert_eq!(atlas.allocate(Vector2I::new(1, 1)), None);
    assert_eq!(atlas.allocate(Vector2I::new(5, 5)), None);
    atlas.free(whole);
    assert!(atlas.is_empty());
    assert_eq!(atlas.allocate(Vector2I::new(1, 1)), Some(rect(0, 0, 1, 1)));
    assert_eq!(atlas.size(), 4);
}

#[test]
fn freed_block_is_reused_first() {
    let mut atlas = TextureAtlasAllocator::new();
    let a = atlas.allocate(Vector2I::new(16, 16)).unwrap();
    let b = atlas.allocate(Vector2I::new(16, 16)).unwrap();
    assert_eq!(b, rect(16, 0, 16, 16));
    atlas.free(a);
    assert_eq!(atlas.allocate(Vector2I::new(10, 2)), Some(rect(0, 0, 16, 16)));
}

#[test]
fn render_target_pages_keep_their_id() {
    let mut allocator = TextureAllocator::new();
    let id = RenderTargetId { scene: 2, render_target: 7 };
    let location = allocator.allocate_render_target(Vector2I::new(300, 200), id);
    assert_eq!(location, TextureLocation { page: PaintPageId(0), rect: rect(0, 0, 300, 200) });
    assert_eq!(allocator.page_render_target_id(PaintPageId(0)), Some(id));
    assert_eq!(allocator.page_size(PaintPageId(0)), Vector2I::new(300, 200));
    let small = allocator.allocate(Vector2I::new(1, 1));
    assert_eq!(small.page, PaintPageId(1));
}

#[test]
fn next_power_of_two_values() {
    assert_eq!(next_power_of_two(0), 1);
    assert_eq!(next_power_of_two(1), 1);
    assert_eq!(next_power_of_two(5), 8);
    assert_eq!(next_power_of_two(64), 64);
    assert_eq!(next_power_of_two(65), 128);
    assert_eq!(next_power_of_two(0x8000_0000), 0x8000_0000);
}

#[test]
fn request_of_exactly_atlas_size_takes_a_whole_atlas_page() {
    let mut allocator = TextureAllocator::with_atlas_length(16);
    let first = allocator.allocate(Vector2I::new(16, 9));
    assert_eq!(first, TextureLocation { page: PaintPageId(0), rect: rect(0, 0, 16, 16) });
    let second = allocator.allocate(Vector2I::new(1, 16));
    assert_eq!(second, TextureLocation { page: PaintPageId(1), rect: rect(0, 0, 16, 16) });
    let third = allocator.allocate(Vector2I::new(17, 16));
    assert_eq!(third, TextureLocation { page: PaintPageId(2), rect: rect(0, 0, 17, 16) });
    assert_eq!(allocator.page_size(PaintPageId(1)), Vector2I::new(16, 16));
    assert_eq!(allocator.page_size(PaintPageId(2)), Vector2I::new(17, 16));
}

#[test]
fn round_trip_in_several_orders_leaves_the_atlas_empty() {
    let sizes = [(5, 3), (1, 1), (8, 8), (2, 7), (16, 1), (3, 3), (1, 2), (4, 4)];
    for order in 0..3 {
        let mut atlas = TextureAtlasAllocator::with_length(32);
        let mut rects: Vec<RectI> = sizes
            .iter()
            .filter_map(|&(w, h)| atlas.allocate(Vector2I::new(w, h)))
            .collect();
        assert_eq!(rects.len(), sizes.len());
        for a in 0..rects.len() {
            for b in (a + 1)..rects.len() {
                assert!(!overlap(&rects[a], &rects[b]));
            }
        }
        match order {
            0 => {}
            1 => rects.reverse(),
            _ => rects.sort_by_key(|r| (r.size.x, r.origin.y, r.origin.x)),
        }
        for (i, r) in rects.iter().enumerate() {
            assert!(!atlas.is_empty());
            atlas.free(*r);
            assert_eq!(atlas.is_empty(), i + 1 == rects.len());
        }
    }
}

#[test]
fn freed_square_is_placed_again_where_it_was() {
    let mut atlas = TextureAtlasAllocator::with_length(4);
    let big = atlas.allocate(Vector2I::new(2, 2)).unwrap();
    let small = atlas.allocate(Vector2I::new(1, 1)).unwrap();
    atlas.free(big);
    assert_eq!(atlas.allocate(Vector2I::new(2, 2)), Some(rect(0, 0, 2, 2)));
    // Allocating and freeing the same block leaves later placements as before.
    let extra = atlas.allocate(Vector2I::new(1, 1)).unwrap();
    assert_eq!(extra, rect(3, 0, 1, 1));
    atlas.free(extra);
    assert_eq!(atlas.allocate(Vector2I::new(1, 1)), Some(rect(3, 0, 1, 1)));
    assert_eq!(small, rect(2, 0, 1, 1));
}
