//! The mosaic layout engine, exercised over the counts the tiling rules
//! distinguish.

use experiences::layout::{ceil_units, denom_check, layout, Tile};

fn tiles_overlap(a: &Tile, b: &Tile) -> bool {
    !(a.x + a.w <= b.x || b.x + b.w <= a.x || a.y + a.h <= b.y || b.y + b.h <= a.y)
}

#[test]
fn layout_counts_bounds_disjointness_and_area() {
    for n in 0usize..=24 {
        let (tiles, den) = layout(n, 0, 0, 400);
        assert_eq!(tiles.len(), n);
        let span = 400u64 * den;
        let mut area: u128 = 0;
        for t in tiles.iter() {
            assert!(t.x + t.w <= span);
            assert!(t.y + t.h <= span);
            area += (t.w as u128) * (t.h as u128);
        }
        for i in 0..tiles.len() {
            for j in (i + 1)..tiles.len() {
                assert!(
                    !tiles_overlap(&tiles[i], &tiles[j]),
                    "tiles {} and {} overlap for n = {}",
                    i,
                    j,
                    n
                );
            }
        }
        if n > 0 {
            assert_eq!(area, (span as u128) * (span as u128), "area gap for n = {}", n);
        } else {
            assert_eq!(area, 0);
        }
    }
}

#[test]
fn layout_small_counts_cover_exactly() {
    let (tiles, den) = layout(0, 0, 0, 400);
    assert_eq!(den, 1);
    assert!(tiles.is_empty());

    let (tiles, den) = layout(1, 0, 0, 400);
    assert_eq!(den, 1);
    assert_eq!(tiles.len(), 1);
    assert_eq!((tiles[0].x, tiles[0].y, tiles[0].w, tiles[0].h), (0, 0, 400, 400));

    // two items: full width, half height, stacked
    let (tiles, den) = layout(2, 0, 0, 400);
    assert_eq!(den, 2);
    assert_eq!(tiles.len(), 2);
    assert_eq!((tiles[0].x, tiles[0].y, tiles[0].w, tiles[0].h), (0, 0, 800, 400));
    assert_eq!((tiles[1].x, tiles[1].y, tiles[1].w, tiles[1].h), (0, 400, 800, 400));

    // three items: two quarter tiles over a full-width bottom half
    let (tiles, den) = layout(3, 0, 0, 400);
    assert_eq!(den, 2);
    assert_eq!(tiles.len(), 3);
    assert_eq!((tiles[0].x, tiles[0].y, tiles[0].w, tiles[0].h), (0, 0, 400, 400));
    assert_eq!((tiles[1].x, tiles[1].y, tiles[1].w, tiles[1].h), (400, 0, 400, 400));
    assert_eq!((tiles[2].x, tiles[2].y, tiles[2].w, tiles[2].h), (0, 400, 800, 400));
}

#[test]
fn layout_four_items_gives_four_square_tiles() {
    // four items in a 400 by 400 region are four 200 by 200 pixel tiles
    let (tiles, den) = layout(4, 0, 0, 400);
    assert_eq!(tiles.len(), 4);
    let mut corners = Vec::new();
    for t in tiles.iter() {
        let x = ceil_units(t.x, den);
        let y = ceil_units(t.y, den);
        let w = ceil_units(t.w, den);
        let h = ceil_units(t.h, den);
        assert_eq!(w, 200);
        assert_eq!(h, 200);
        corners.push((x, y));
    }
    corners.sort();
    assert_eq!(corners, vec![(0, 0), (0, 200), (200, 0), (200, 200)]);
}

#[test]
fn layout_critical_range_fills_top_and_left_only() {
    // five items force a side length of 2 in the critical range: two top
    // tiles, one left tile, and a two-way split of the inner square
    let (tiles, den) = layout(5, 0, 0, 100);
    assert_eq!(tiles.len(), 5);
    assert_eq!(den, 4);
    let span = 100u64 * den;
    let b = span / 2;
    assert_eq!((tiles[0].x, tiles[0].y), (0, 0));
    assert_eq!((tiles[1].x, tiles[1].y), (b, 0));
    assert_eq!((tiles[2].x, tiles[2].y), (0, b));
    // the inner square starts one block in and splits top/bottom
    assert_eq!((tiles[3].x, tiles[3].y), (b, b));
    assert_eq!(tiles[3].w, b);
    assert_eq!(tiles[3].h, b / 2);
    assert_eq!((tiles[4].x, tiles[4].y), (b, b + b / 2));
}

#[test]
fn layout_ten_items_uses_forced_side_three() {
    let (tiles, den) = layout(10, 0, 0, 300);
    assert_eq!(tiles.len(), 10);
    let span = 300u64 * den;
    let b = span / 3;
    // the ring holds eight blocks of side b, interleaved top/bottom then
    // left/right
    for t in tiles.iter().take(8) {
        assert_eq!(t.w, b);
        assert_eq!(t.h, b);
    }
    assert_eq!((tiles[0].x, tiles[0].y), (0, 0));
    assert_eq!((tiles[1].x, tiles[1].y), (0, span - b));
    assert_eq!((tiles[6].x, tiles[6].y), (0, b));
    assert_eq!((tiles[7].x, tiles[7].y), (span - b, b));
}

#[test]
fn ceil_units_rounds_up() {
    assert_eq!(ceil_units(0, 3), 0);
    assert_eq!(ceil_units(1, 3), 1);
    assert_eq!(ceil_units(3, 3), 1);
    assert_eq!(ceil_units(4, 3), 2);
    assert_eq!(ceil_units(599, 2), 300);
    assert_eq!(ceil_units(600, 2), 300);
}

#[test]
fn denominators_of_small_counts() {
    assert_eq!(denom_check(0), Some(1));
    assert_eq!(denom_check(1), Some(1));
    assert_eq!(denom_check(2), Some(2));
    assert_eq!(denom_check(3), Some(2));
    assert_eq!(denom_check(4), Some(2));
    assert_eq!(denom_check(5), Some(4));
    assert_eq!(denom_check(24), Some(30));
}
