use agray::lights::{FalloffType, LightType};
use agray::tiles::{
    assemble_image, bucket_grid, bucket_sequence, buckets_per_side, floor_sqrt, generate_buckets,
    tile_counts, tile_rect, tile_slot, Bucket, BucketState, Rect, Rgba,
};

fn ring(c: (u32, u32), p: (u32, u32)) -> u32 {
    let dx = (p.0 as i64 - c.0 as i64).unsigned_abs() as u32;
    let dy = (p.1 as i64 - c.1 as i64).unsigned_abs() as u32;
    dx.max(dy)
}

#[test]
fn sequence_starts_at_center_and_covers_grid() {
    let s = bucket_sequence(5, 4);
    assert_eq!(s.len(), 20);
    assert_eq!(s[0], (2, 2));
    let mut sorted = s.clone();
    sorted.sort();
    let mut all = Vec::new();
    for x in 0..5 {
        for y in 0..4 {
            all.push((x, y));
        }
    }
    assert_eq!(sorted, all);
    for w in s.windows(2) {
        let (a, b) = (w[0], w[1]);
        let key = |p: (u32, u32)| (ring((2, 2), p), p.1, p.0);
        assert!(key(a) < key(b));
    }
}

#[test]
fn sequence_first_ring_order() {
    let s = bucket_sequence(3, 3);
    assert_eq!(
        s,
        vec![(1, 1), (0, 0), (1, 0), (2, 0), (0, 1), (2, 1), (0, 2), (1, 2), (2, 2)]
    );
}

#[test]
fn sequence_of_empty_grid() {
    assert!(bucket_sequence(0, 0).is_empty());
    assert!(bucket_sequence(0, 3).is_empty());
}

#[test]
fn tile_layout_of_image() {
    assert_eq!(tile_counts(100, 64), (4, 2));
    assert_eq!(tile_counts(1080, 1080), (34, 34));
    assert_eq!(tile_rect(3, 1, 100, 64), Rect { x: 96, y: 32, width: 4, height: 32 });
    assert_eq!(tile_rect(0, 0, 100, 64), Rect { x: 0, y: 0, width: 32, height: 32 });
    assert_eq!(tile_slot(3, 1, 4, 2), 7);
}

fn rendered_tiles(width: u32, height: u32) -> Vec<Bucket> {
    let (nx, ny) = tile_counts(width, height);
    let mut tiles = Vec::new();
    for ty in 0..ny {
        for tx in 0..nx {
            let rect = tile_rect(tx, ty, width, height);
            let mut b = Bucket::new(rect);
            for y in 0..rect.height as usize {
                for x in 0..rect.width as usize {
                    let gx = rect.x as usize + x;
                    let gy = rect.y as usize + y;
                    b.set_color(x, y, Rgba { r: gx as u8, g: gy as u8, b: 7, a: 255 });
                }
            }
            tiles.push(b);
        }
    }
    tiles
}

#[test]
fn pixel_buffer_size_and_channel_order() {
    let (w, h) = (70u32, 40u32);
    let img = assemble_image(w, h, &rendered_tiles(w, h));
    assert_eq!(img.len(), (w * h * 4) as usize);
    for y in 0..h as usize {
        for x in 0..w as usize {
            let o = (y * w as usize + x) * 4;
            assert_eq!(&img[o..o + 4], &[x as u8, y as u8, 7, 255]);
        }
    }
}

#[test]
fn empty_scene_image_is_black() {
    // fresh buckets hold opaque black, which is what a ray that hits nothing gives
    let (w, h) = (8u32, 8u32);
    let tiles = vec![Bucket::new(tile_rect(0, 0, w, h))];
    let img = assemble_image(w, h, &tiles);
    assert_eq!(img.len(), 256);
    for p in img.chunks(4) {
        assert_eq!(p, &[0, 0, 0, 255]);
    }
}

#[test]
fn bucket_colors() {
    let mut b = Bucket::new(Rect { x: 10, y: 20, width: 3, height: 2 });
    assert_eq!(b.state, BucketState::NotProcessed);
    assert_eq!(b.buffer.as_ref().unwrap().len(), 6);
    let red = Rgba { r: 255, g: 0, b: 0, a: 255 };
    b.set_color(2, 1, red);
    assert_eq!(b.get_color(2, 1), Some(red));
    assert_eq!(b.buffer.as_ref().unwrap()[5], red);
    assert_eq!(b.get_color(0, 0), Some(Rgba::black()));
    assert_eq!(b.get_color(0, 2), None);
    b.set_color(0, 5, red);
    assert_eq!(b.buffer.as_ref().unwrap().iter().filter(|p| **p == red).count(), 1);
}

/// Checks that the buckets lie inside `rect`, share no pixel, cover it, and come
/// ring by ring from the center bucket; gives their rectangles.
fn check_partition(buckets: &[Bucket], rect: Rect, bw: u32, bh: u32) -> Vec<Rect> {
    let mut seen = vec![0u32; (rect.width * rect.height) as usize];
    for b in buckets {
        let r = b.rect;
        assert!(r.x >= rect.x && r.x + r.width <= rect.x + rect.width);
        assert!(r.y >= rect.y && r.y + r.height <= rect.y + rect.height);
        assert_eq!(b.state, BucketState::NotProcessed);
        assert_eq!(b.buffer.as_ref().unwrap().len(), (r.width * r.height) as usize);
        for y in r.y..r.y + r.height {
            for x in r.x..r.x + r.width {
                seen[((y - rect.y) * rect.width + (x - rect.x)) as usize] += 1;
            }
        }
    }
    assert!(seen.iter().all(|&n| n == 1));
    let cols = (rect.width + bw - 1) / bw;
    let rows = (rect.height + bh - 1) / bh;
    let center = (cols / 2, rows / 2);
    let rings: Vec<u32> = buckets
        .iter()
        .map(|b| ring(center, ((b.rect.x - rect.x) / bw, (b.rect.y - rect.y) / bh)))
        .collect();
    assert!(rings.windows(2).all(|w| w[0] <= w[1]));
    buckets.iter().map(|b| b.rect).collect()
}

#[test]
fn grid_of_buckets() {
    let rect = Rect { x: 0, y: 0, width: 10, height: 10 };
    let g = bucket_grid(rect, 3, 3);
    // 3 pixels a bucket: 4 across and down, the last column and row 1 pixel wide
    assert_eq!(g.len(), 16);
    let rects = check_partition(&g, rect, 3, 3);
    assert_eq!(rects[0], Rect { x: 6, y: 6, width: 3, height: 3 });
    assert_eq!(rects[1], Rect { x: 3, y: 3, width: 3, height: 3 });
    assert!(rects.contains(&Rect { x: 9, y: 9, width: 1, height: 1 }));
    let rect = Rect { x: 0, y: 0, width: 100, height: 50 };
    let g = bucket_grid(rect, 3, 2);
    // 33 by 25 pixels: 4 across (the last 1 pixel wide), 2 down
    assert_eq!(g.len(), 8);
    check_partition(&g, rect, 33, 25);
    let rect = Rect { x: 5, y: 5, width: 2, height: 3 };
    let g = bucket_grid(rect, 4, 4);
    // steps of at least one pixel
    assert_eq!(g.len(), 6);
    check_partition(&g, rect, 1, 1);
}

#[test]
fn grid_center_comes_first() {
    let rect = Rect { x: 0, y: 0, width: 9, height: 9 };
    let g = bucket_grid(rect, 3, 3);
    let rects = check_partition(&g, rect, 3, 3);
    assert_eq!(rects[0], Rect { x: 3, y: 3, width: 3, height: 3 });
    assert_eq!(rects[1], Rect { x: 0, y: 0, width: 3, height: 3 });
    assert_eq!(rects[8], Rect { x: 6, y: 6, width: 3, height: 3 });
}

#[test]
fn generate_buckets_full_width() {
    let rect = Rect { x: 0, y: 0, width: 1080, height: 1080 };
    let b = generate_buckets(1080, 1080, rect, 75);
    // 1080 / 75 = 14 pixels a bucket, 78 per side, the last 2 pixels wide
    assert_eq!(b.len(), 78 * 78);
    let rects = check_partition(&b, rect, 14, 14);
    assert_eq!(rects[0], Rect { x: 14 * 39, y: 14 * 39, width: 14, height: 14 });
    assert!(rects.contains(&Rect { x: 1078, y: 0, width: 2, height: 14 }));
}

#[test]
fn buckets_per_side_for_a_part() {
    let rect = Rect { x: 0, y: 0, width: 200, height: 200 };
    assert_eq!(buckets_per_side(1080, rect, 75, 8), 4);
    assert_eq!(buckets_per_side(1080, rect, 75, 12), 6);
    assert_eq!(buckets_per_side(1080, rect, 3, 12), 3);
    assert_eq!(buckets_per_side(200, rect, 75, 12), 75);
    let g = generate_buckets(1080, 1080, rect, 75);
    assert!(!g.is_empty());
}

#[test]
fn floor_sqrt_values() {
    assert_eq!(floor_sqrt(0), 0);
    assert_eq!(floor_sqrt(16), 4);
    assert_eq!(floor_sqrt(24), 4);
    assert_eq!(floor_sqrt(25), 5);
    assert_eq!(floor_sqrt(u64::MAX), 0xFFFF_FFFF);
}

#[test]
fn light_kinds() {
    let kinds = [LightType::Spot, LightType::Point, LightType::Directional, LightType::Area];
    assert_eq!(kinds.iter().filter(|k| **k == LightType::Area).count(), 1);
    assert_ne!(FalloffType::Linear, FalloffType::Quadratic);
    assert_eq!(FalloffType::NoFalloff, FalloffType::NoFalloff);
}
