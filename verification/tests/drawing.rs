use eldiron_core::draw2d::Draw2D;
use eldiron_core::tileset::{Tile, TileMap};
use eldiron_core::region::TileUsage;

/// A blank frame of `stride x height` pixels, all channels `bg`.
fn frame(stride: usize, height: usize, bg: u8) -> Vec<u8> {
    vec![bg; stride * height * 4]
}

fn px(frame: &[u8], stride: usize, x: usize, y: usize) -> [u8; 4] {
    let i = x * 4 + y * stride * 4;
    [frame[i], frame[i + 1], frame[i + 2], frame[i + 3]]
}

/// The integer blend the drawing primitives use.
fn mix(a: u8, b: u8, m: u8) -> u8 {
    (((255 - m as u32) * a as u32 + m as u32 * b as u32) / 255) as u8
}

#[test]
fn draw_rect_fills_exactly_the_rect() {
    let d = Draw2D {};
    let mut f = frame(8, 6, 0);
    d.draw_rect(&mut f, &(2, 1, 3, 2), 8, &[10, 20, 30, 40]);
    assert_eq!(px(&f, 8, 2, 1), [10, 20, 30, 40]);
    assert_eq!(px(&f, 8, 4, 2), [10, 20, 30, 40]);
    assert_eq!(px(&f, 8, 1, 1), [0, 0, 0, 0]);
    assert_eq!(px(&f, 8, 5, 1), [0, 0, 0, 0]);
    assert_eq!(px(&f, 8, 2, 3), [0, 0, 0, 0]);
}

#[test]
fn blend_rect_uses_the_color_alpha() {
    let d = Draw2D {};
    let mut f = frame(4, 4, 100);
    d.blend_rect(&mut f, &(1, 1, 2, 2), 4, &[200, 0, 50, 128]);
    let expected = [mix(100, 200, 128), mix(100, 0, 128), mix(100, 50, 128), 255];
    assert_eq!(px(&f, 4, 1, 1), expected);
    assert_eq!(px(&f, 4, 2, 2), expected);
    assert_eq!(px(&f, 4, 0, 0), [100, 100, 100, 100]);
}

#[test]
fn draw_rect_outline_touches_only_the_border() {
    let d = Draw2D {};
    let mut f = frame(6, 6, 0);
    d.draw_rect_outline(&mut f, &(1, 1, 4, 3), 6, [9, 9, 9, 9]);
    // Corners and edges.
    assert_eq!(px(&f, 6, 1, 1), [9, 9, 9, 9]);
    assert_eq!(px(&f, 6, 4, 3), [9, 9, 9, 9]);
    assert_eq!(px(&f, 6, 2, 1), [9, 9, 9, 9]);
    assert_eq!(px(&f, 6, 1, 2), [9, 9, 9, 9]);
    assert_eq!(px(&f, 6, 4, 2), [9, 9, 9, 9]);
    // The interior stays.
    assert_eq!(px(&f, 6, 2, 2), [0, 0, 0, 0]);
    assert_eq!(px(&f, 6, 3, 2), [0, 0, 0, 0]);
}

#[test]
fn draw_square_pattern_alternates_lines() {
    let d = Draw2D {};
    let mut f = frame(6, 6, 0);
    d.draw_square_pattern(&mut f, &(0, 0, 6, 6), 6, &[1, 1, 1, 1], &[7, 7, 7, 7], 3);
    assert_eq!(px(&f, 6, 0, 0), [7, 7, 7, 7]);
    assert_eq!(px(&f, 6, 3, 1), [7, 7, 7, 7]);
    assert_eq!(px(&f, 6, 1, 3), [7, 7, 7, 7]);
    assert_eq!(px(&f, 6, 1, 1), [1, 1, 1, 1]);
    assert_eq!(px(&f, 6, 4, 2), [1, 1, 1, 1]);
}

#[test]
fn copy_and_blend_slices() {
    let d = Draw2D {};
    // A 2x1 source: an opaque red pixel and a half-transparent green one.
    let source = vec![255, 0, 0, 255, 0, 255, 0, 128];
    let mut f = frame(4, 3, 10);
    d.copy_slice(&mut f, &source, &(1, 1, 2, 1), 4);
    assert_eq!(px(&f, 4, 1, 1), [255, 0, 0, 255]);
    assert_eq!(px(&f, 4, 2, 1), [0, 255, 0, 128]);
    assert_eq!(px(&f, 4, 0, 1), [10, 10, 10, 10]);

    let mut g = frame(4, 3, 10);
    d.blend_slice(&mut g, &source, &(1, 1, 2, 1), 4);
    assert_eq!(px(&g, 4, 1, 1), [mix(10, 255, 255), mix(10, 0, 255), mix(10, 0, 255), 255]);
    assert_eq!(px(&g, 4, 2, 1), [mix(10, 0, 128), mix(10, 255, 128), mix(10, 0, 128), 255]);
    assert_eq!(px(&g, 4, 3, 1), [10, 10, 10, 10]);
}

#[test]
fn blend_slice_safe_clips_to_the_safe_rect() {
    let d = Draw2D {};
    let source = vec![255u8; 2 * 2 * 4];
    let mut f = frame(4, 4, 0);
    // The blit starts at (-1, 0): only its right column lands inside.
    d.blend_slice_safe(&mut f, &source, &(-1, 0, 2, 2), 4, &(0, 0, 4, 4));
    assert_eq!(px(&f, 4, 0, 0), [255, 255, 255, 255]);
    assert_eq!(px(&f, 4, 0, 1), [255, 255, 255, 255]);
    assert_eq!(px(&f, 4, 1, 0), [0, 0, 0, 0]);
}

#[test]
fn draw_rect_safe_clips_to_the_safe_rect() {
    let d = Draw2D {};
    let mut f = frame(4, 4, 0);
    d.draw_rect_safe(&mut f, &(2, 2, 5, 5), 4, &[3, 3, 3, 3], &(0, 0, 4, 4));
    assert_eq!(px(&f, 4, 2, 2), [3, 3, 3, 3]);
    assert_eq!(px(&f, 4, 3, 3), [3, 3, 3, 3]);
    assert_eq!(px(&f, 4, 1, 1), [0, 0, 0, 0]);
}

#[test]
fn blend_mask_weights_by_the_mask() {
    let d = Draw2D {};
    let mut f = frame(4, 4, 100);
    let mask = vec![0u8, 255u8];
    d.blend_mask(&mut f, &(1, 1, 0, 0), 4, &mask, &(2, 1), &[200, 200, 200, 255]);
    assert_eq!(px(&f, 4, 1, 1), [mix(100, 200, 0), mix(100, 200, 0), mix(100, 200, 0), 255]);
    assert_eq!(
        px(&f, 4, 2, 1),
        [mix(100, 200, 255), mix(100, 200, 255), mix(100, 200, 255), 255],
    );
    assert_eq!(px(&f, 4, 3, 1), [100, 100, 100, 100]);
}

/// A 2x1-cell tile map with 1-pixel cells: cell (0,0) is opaque red,
/// cell (1,0) is opaque blue and is the animation frame of cell (0,0).
fn tiny_map() -> TileMap {
    TileMap {
        id: 0,
        pixels: vec![255, 0, 0, 255, 0, 0, 255, 255],
        width: 2,
        height: 1,
        grid_size: 1,
        tiles: vec![(
            (0, 0),
            Tile { usage: TileUsage::Environment, anim_tiles: vec![(0, 0), (1, 0)] },
        )],
    }
}

#[test]
fn draw_animated_tile_follows_the_counter() {
    let d = Draw2D {};
    let map = tiny_map();
    // Counter 0 shows the cell itself (red), counter 1 its second frame
    // (blue), scaled onto 2x2 destination pixels.
    let mut f = frame(4, 4, 0);
    d.draw_animated_tile(&mut f, &(1, 1), &map, 4, &(0, 0), 0, 2);
    assert_eq!(px(&f, 4, 1, 1), [255, 0, 0, 255]);
    assert_eq!(px(&f, 4, 2, 2), [255, 0, 0, 255]);
    assert_eq!(px(&f, 4, 0, 0), [0, 0, 0, 0]);
    let mut g = frame(4, 4, 0);
    d.draw_animated_tile(&mut g, &(1, 1), &map, 4, &(0, 0), 1, 2);
    assert_eq!(px(&g, 4, 1, 1), [0, 0, 255, 255]);
    // A cell without metadata draws itself: cell (1,0) is blue.
    let mut h = frame(4, 4, 0);
    d.draw_animated_tile(&mut h, &(0, 0), &map, 4, &(1, 0), 7, 1);
    assert_eq!(px(&h, 4, 0, 0), [0, 0, 255, 255]);
}

#[test]
fn scale_chunk_samples_nearest_neighbour() {
    let d = Draw2D {};
    // A 2x1 source scaled onto 4x2: left half red, right half green.
    let source = vec![255, 0, 0, 255, 0, 255, 0, 255];
    let mut f = frame(4, 2, 0);
    d._scale_chunk(&mut f, &(0, 0, 4, 2), 4, &source, &(2, 1));
    assert_eq!(px(&f, 4, 0, 0), [255, 0, 0, 255]);
    assert_eq!(px(&f, 4, 1, 1), [255, 0, 0, 255]);
    assert_eq!(px(&f, 4, 2, 0), [0, 255, 0, 255]);
    assert_eq!(px(&f, 4, 3, 1), [0, 255, 0, 255]);
}
