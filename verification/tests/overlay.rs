use raster_pathfinding::frontier::{Frontier, Ticket};
use raster_pathfinding::overlay::{draw_circle, Canvas};

fn blank(width: u32, height: u32) -> Canvas {
    Canvas::open(width, height, vec![0u8; (3 * width * height) as usize]).unwrap()
}

fn pixel(bytes: &Vec<u8>, width: u32, x: u32, y: u32) -> (u8, u8, u8) {
    let i = ((y * width + x) * 3) as usize;
    (bytes[i], bytes[i + 1], bytes[i + 2])
}

fn reference(width: u32, height: u32, cx: u32, cy: u32, radius: u32, color: [u8; 3]) -> Vec<u8> {
    let mut img = image::RgbImage::new(width, height);
    let r = radius as i32;
    for dy in -r..=r {
        for dx in -r..=r {
            let far = (dx * dx + dy * dy) as f32;
            if far <= (radius * radius) as f32 {
                let x = cx as i32 + dx;
                let y = cy as i32 + dy;
                if x >= 0 && x < width as i32 && y >= 0 && y < height as i32 {
                    img.put_pixel(x as u32, y as u32, image::Rgb(color));
                }
            }
        }
    }
    img.into_raw()
}

#[test]
fn a_disc_of_radius_one_is_a_plus() {
    let mut canvas = blank(5, 5);
    draw_circle(&mut canvas, 2, 2, 1, (255, 10, 20));
    assert_eq!(canvas.width(), 5);
    assert_eq!(canvas.height(), 5);
    let bytes = canvas.close();
    assert_eq!(bytes.len(), 75);
    for y in 0..5u32 {
        for x in 0..5u32 {
            let on = (x == 2 && (1..=3).contains(&y)) || (y == 2 && (1..=3).contains(&x));
            let expected = if on { (255, 10, 20) } else { (0, 0, 0) };
            assert_eq!(pixel(&bytes, 5, x, y), expected);
        }
    }
}

#[test]
fn a_disc_of_radius_zero_is_one_pixel() {
    let mut canvas = blank(3, 2);
    draw_circle(&mut canvas, 1, 1, 0, (1, 2, 3));
    let bytes = canvas.close();
    let mut expected = vec![0u8; 18];
    expected[12] = 1;
    expected[13] = 2;
    expected[14] = 3;
    assert_eq!(bytes, expected);
}

#[test]
fn a_disc_is_cut_at_the_edge_of_the_image() {
    let mut canvas = blank(4, 3);
    draw_circle(&mut canvas, 0, 0, 3, (9, 9, 9));
    let bytes = canvas.close();
    // Row 0: columns 0..=3; row 1 and row 2: columns 0..=2 (1 + 9 > 9 and 4 + 9 > 9).
    let on = [
        [true, true, true, true],
        [true, true, true, false],
        [true, true, true, false],
    ];
    for y in 0..3u32 {
        for x in 0..4u32 {
            let expected = if on[y as usize][x as usize] { (9, 9, 9) } else { (0, 0, 0) };
            assert_eq!(pixel(&bytes, 4, x, y), expected);
        }
    }
}

#[test]
fn a_disc_centred_outside_still_reaches_in() {
    let mut canvas = blank(3, 3);
    draw_circle(&mut canvas, 4, 1, 2, (7, 8, 9));
    let bytes = canvas.close();
    for y in 0..3u32 {
        for x in 0..3u32 {
            let expected = if x == 2 && y == 1 { (7, 8, 9) } else { (0, 0, 0) };
            assert_eq!(pixel(&bytes, 3, x, y), expected);
        }
    }
}

#[test]
fn painting_agrees_with_pixel_by_pixel_painting() {
    for (w, h) in [(1u32, 1u32), (7, 5), (16, 9)] {
        for radius in 0..6u32 {
            for (cx, cy) in [(0u32, 0u32), (3, 2), (w - 1, h - 1), (w + 2, 1), (2, h + 3)] {
                let mut canvas = blank(w, h);
                draw_circle(&mut canvas, cx, cy, radius, (200, 100, 50));
                assert_eq!(canvas.close(), reference(w, h, cx, cy, radius, [200, 100, 50]));
            }
        }
    }
}

#[test]
fn later_discs_paint_over_earlier_ones() {
    let mut canvas = blank(5, 1);
    draw_circle(&mut canvas, 1, 0, 1, (1, 1, 1));
    draw_circle(&mut canvas, 2, 0, 1, (2, 2, 2));
    assert_eq!(canvas.close(), vec![1, 1, 1, 2, 2, 2, 2, 2, 2, 2, 2, 2, 0, 0, 0]);
}

#[test]
fn a_canvas_needs_three_bytes_for_each_pixel() {
    assert!(Canvas::open(2, 2, vec![0; 11]).is_none());
    assert!(Canvas::open(2, 2, vec![0; 12]).is_some());
    assert!(Canvas::open(u32::MAX, u32::MAX, vec![0; 12]).is_none());
    assert!(Canvas::open(0, 5, vec![]).is_some());
    let kept = Canvas::open(1, 1, vec![4, 5, 6, 7]).unwrap();
    assert_eq!(kept.width(), 1);
    assert_eq!(kept.height(), 1);
    assert_eq!(kept.close(), vec![4, 5, 6, 7]);
}

#[test]
fn the_frontier_serves_the_least_key_first_and_equal_keys_in_order() {
    let mut frontier = Frontier::new();
    let tickets = vec![
        Ticket { key: 5, round: 0, slot: 0, node: 10 },
        Ticket { key: 3, round: 2, slot: 1, node: 11 },
        Ticket { key: 3, round: 1, slot: 4, node: 12 },
        Ticket { key: 3, round: 1, slot: 2, node: 13 },
        Ticket { key: 9, round: 0, slot: 0, node: 14 },
        Ticket { key: 0, round: 7, slot: 7, node: 15 },
        Ticket { key: 5, round: 0, slot: 1, node: 16 },
    ];
    for t in &tickets {
        frontier.push(*t);
    }
    assert_eq!(frontier.len(), 7);
    let mut served = Vec::new();
    loop {
        match frontier.pop() {
            Some(t) => served.push(t.node),
            None => break,
        }
    }
    assert_eq!(served, vec![15, 13, 12, 11, 10, 16, 14]);
    assert_eq!(frontier.len(), 0);
    assert!(frontier.pop().is_none());
}
