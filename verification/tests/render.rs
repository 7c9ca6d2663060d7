use fabrik::render::{draw_circle, draw_line, rgb, set_pixel, HEIGHT, WIDTH};

fn pixel_at(buffer: &[u32], x: usize, y: usize) -> u32 {
    buffer[y * WIDTH + x]
}

#[test]
fn rgb_packs_channels() {
    assert_eq!(rgb(0, 0, 0), 0x0000_0000);
    assert_eq!(rgb(255, 255, 255), 0x00ff_ffff);
    assert_eq!(rgb(255, 75, 75), 0x00ff_4b4b);
    assert_eq!(rgb(25, 25, 38), 0x0019_1926);
    assert_eq!(rgb(1, 2, 3), 0x0001_0203);
}

#[test]
fn set_pixel_writes_one_cell() {
    let mut buffer: Vec<u32> = vec![0; WIDTH * HEIGHT];
    set_pixel(&mut buffer, 3, 2, 0xabcdef);
    assert_eq!(buffer.len(), WIDTH * HEIGHT);
    assert_eq!(pixel_at(&buffer, 3, 2), 0xabcdef);
    assert_eq!(pixel_at(&buffer, 2, 2), 0);
    assert_eq!(pixel_at(&buffer, 4, 2), 0);
    assert_eq!(pixel_at(&buffer, 3, 1), 0);
    assert_eq!(pixel_at(&buffer, 3, 3), 0);
}

#[test]
fn set_pixel_ignores_out_of_frame() {
    let mut buffer: Vec<u32> = vec![7; WIDTH * HEIGHT];
    set_pixel(&mut buffer, -1, 5, 9);
    set_pixel(&mut buffer, WIDTH as i32, 5, 9);
    set_pixel(&mut buffer, 5, -1, 9);
    set_pixel(&mut buffer, 5, HEIGHT as i32, 9);
    assert!(buffer.iter().all(|&c| c == 7));
}

#[test]
fn circle_radius_zero_is_one_pixel() {
    let mut buffer: Vec<u32> = vec![0; WIDTH * HEIGHT];
    draw_circle(&mut buffer, 10, 10, 0, 5);
    assert_eq!(pixel_at(&buffer, 10, 10), 5);
    assert_eq!(pixel_at(&buffer, 11, 10), 0);
    assert_eq!(pixel_at(&buffer, 10, 11), 0);
    assert_eq!(pixel_at(&buffer, 9, 9), 0);
}

#[test]
fn circle_fills_disc_exactly() {
    let mut buffer: Vec<u32> = vec![0; WIDTH * HEIGHT];
    draw_circle(&mut buffer, 100, 100, 2, 1);
    // On the axes, two pixels out is inside the disc.
    assert_eq!(pixel_at(&buffer, 102, 100), 1);
    assert_eq!(pixel_at(&buffer, 98, 100), 1);
    assert_eq!(pixel_at(&buffer, 100, 102), 1);
    assert_eq!(pixel_at(&buffer, 100, 98), 1);
    // One step diagonally is inside (1 + 1 <= 4).
    assert_eq!(pixel_at(&buffer, 101, 101), 1);
    // The corner of the bounding square is outside (4 + 4 > 4).
    assert_eq!(pixel_at(&buffer, 102, 102), 0);
    // Just past the rim on an axis is outside.
    assert_eq!(pixel_at(&buffer, 103, 100), 0);
}

#[test]
fn circle_clips_to_frame() {
    let mut buffer: Vec<u32> = vec![0; WIDTH * HEIGHT];
    draw_circle(&mut buffer, 0, 0, 3, 4);
    assert_eq!(buffer.len(), WIDTH * HEIGHT);
    assert_eq!(pixel_at(&buffer, 0, 0), 4);
    assert_eq!(pixel_at(&buffer, 3, 0), 4);
    assert_eq!(pixel_at(&buffer, 0, 3), 4);
    assert_eq!(pixel_at(&buffer, 3, 3), 0);
}

#[test]
fn line_single_point_stamps_block() {
    let mut buffer: Vec<u32> = vec![0; WIDTH * HEIGHT];
    draw_line(&mut buffer, 5, 5, 5, 5, 2);
    for y in 4usize..=6usize {
        for x in 4usize..=6usize {
            assert_eq!(pixel_at(&buffer, x, y), 2);
        }
    }
    assert_eq!(pixel_at(&buffer, 7, 5), 0);
    assert_eq!(pixel_at(&buffer, 5, 7), 0);
    assert_eq!(pixel_at(&buffer, 3, 3), 0);
}

#[test]
fn horizontal_line_is_three_pixels_thick() {
    let mut buffer: Vec<u32> = vec![0; WIDTH * HEIGHT];
    draw_line(&mut buffer, 10, 20, 20, 20, 6);
    for x in 9usize..=21usize {
        assert_eq!(pixel_at(&buffer, x, 19), 6);
        assert_eq!(pixel_at(&buffer, x, 20), 6);
        assert_eq!(pixel_at(&buffer, x, 21), 6);
    }
    assert_eq!(pixel_at(&buffer, 8, 20), 0);
    assert_eq!(pixel_at(&buffer, 22, 20), 0);
    assert_eq!(pixel_at(&buffer, 15, 18), 0);
    assert_eq!(pixel_at(&buffer, 15, 22), 0);
}

#[test]
fn diagonal_line_covers_its_band() {
    let mut buffer: Vec<u32> = vec![0; WIDTH * HEIGHT];
    draw_line(&mut buffer, 0, 0, 3, 3, 9);
    // The walk visits (0,0), (1,1), (2,2), (3,3); both endpoints' blocks
    // are painted.
    assert_eq!(pixel_at(&buffer, 0, 0), 9);
    assert_eq!(pixel_at(&buffer, 3, 3), 9);
    assert_eq!(pixel_at(&buffer, 2, 1), 9);
    assert_eq!(pixel_at(&buffer, 1, 2), 9);
    assert_eq!(pixel_at(&buffer, 4, 4), 9);
    // Far off the band nothing changes.
    assert_eq!(pixel_at(&buffer, 0, 3), 0);
    assert_eq!(pixel_at(&buffer, 3, 0), 0);
    assert_eq!(pixel_at(&buffer, 6, 6), 0);
}

#[test]
fn line_reaches_endpoints_any_direction() {
    let dirs: [(i32, i32); 4] = [(40, 9), (3, 9), (-6, 25), (-9, -31)];
    for d in dirs {
        let ex: i32 = d.0;
        let ey: i32 = d.1;
        let mut buffer: Vec<u32> = vec![0; WIDTH * HEIGHT];
        draw_line(&mut buffer, 50, 50, 50 + ex, 50 + ey, 1);
        assert_eq!(pixel_at(&buffer, 50, 50), 1);
        assert_eq!(pixel_at(&buffer, (50 + ex) as usize, (50 + ey) as usize), 1);
    }
}

#[test]
fn line_clips_to_frame_without_panic() {
    let mut buffer: Vec<u32> = vec![0; WIDTH * HEIGHT];
    draw_line(&mut buffer, -5, -5, 5, 5, 3);
    assert_eq!(buffer.len(), WIDTH * HEIGHT);
    assert_eq!(pixel_at(&buffer, 0, 0), 3);
    assert_eq!(pixel_at(&buffer, 5, 5), 3);
}
