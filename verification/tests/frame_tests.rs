use vedelo::frame::{draw_filled_rect, draw_rect, Frame};
use vedelo::geometry::Rect;

fn blank(w: usize, h: usize) -> Frame {
    Frame::new(w, h, vec![0u8; w * h * 3]).unwrap()
}

fn pixel(f: &Frame, x: usize, y: usize) -> [u8; 3] {
    let w = f.width();
    let b = f.as_bytes();
    let i = (y * w + x) * 3;
    [b[i], b[i + 1], b[i + 2]]
}

#[test]
fn frame_new_checks_length() {
    assert!(Frame::new(2, 2, vec![0u8; 12]).is_some());
    assert!(Frame::new(2, 2, vec![0u8; 11]).is_none());
    assert!(Frame::new(0, 5, Vec::new()).is_some());
    assert!(Frame::new((i32::MAX as usize) + 1, 0, Vec::new()).is_none());
}

#[test]
fn set_pixel_inside_and_outside() {
    let mut f = blank(3, 2);
    f.set_pixel(2, 1, [1, 2, 3]);
    assert_eq!(pixel(&f, 2, 1), [1, 2, 3]);
    assert_eq!(pixel(&f, 1, 1), [0, 0, 0]);
    let before = f.as_bytes().clone();
    f.set_pixel(3, 0, [9, 9, 9]);
    f.set_pixel(-1, 0, [9, 9, 9]);
    f.set_pixel(0, 2, [9, 9, 9]);
    assert_eq!(f.as_bytes(), &before);
}

#[test]
fn filled_rect_is_clipped() {
    let mut f = blank(4, 4);
    draw_filled_rect(&mut f, Rect::new(-1, 2, 3, 10), [7, 8, 9]);
    for y in 0..4 {
        for x in 0..4 {
            let expected = if x < 2 && y >= 2 { [7, 8, 9] } else { [0, 0, 0] };
            assert_eq!(pixel(&f, x, y), expected, "pixel {x},{y}");
        }
    }
}

#[test]
fn filled_rect_outside_frame_changes_nothing() {
    let mut f = blank(4, 4);
    draw_filled_rect(&mut f, Rect::new(10, 10, 3, 3), [7, 8, 9]);
    draw_filled_rect(&mut f, Rect::new(1, 1, 0, 3), [7, 8, 9]);
    assert!(f.as_bytes().iter().all(|&b| b == 0));
}

#[test]
fn outline_is_two_pixels_thick() {
    let mut f = blank(8, 8);
    draw_rect(&mut f, Rect::new(1, 1, 6, 6), [255, 0, 0]);
    for y in 0..8 {
        for x in 0..8 {
            let in_box = (1..7).contains(&x) && (1..7).contains(&y);
            let inner = (3..5).contains(&x) && (3..5).contains(&y);
            let expected = if in_box && !inner { [255, 0, 0] } else { [0, 0, 0] };
            assert_eq!(pixel(&f, x, y), expected, "pixel {x},{y}");
        }
    }
}

#[test]
fn outline_of_thin_box_spills_sideways() {
    // For a one-pixel-wide box the second left column `x + 1` and the second
    // right column `x + width - 2` lie outside it, one on each side.
    let mut f = blank(5, 5);
    draw_rect(&mut f, Rect::new(2, 1, 1, 3), [1, 1, 1]);
    for y in 0..5 {
        for x in 0..5 {
            let painted = (1..4).contains(&x) && (1..4).contains(&y);
            let expected = if painted { [1, 1, 1] } else { [0, 0, 0] };
            assert_eq!(pixel(&f, x, y), expected, "pixel {x},{y}");
        }
    }
}

#[test]
fn drawing_twice_equals_drawing_once() {
    let mut f = blank(6, 6);
    f.set_pixel(0, 0, [5, 5, 5]);
    let mut g = blank(6, 6);
    g.set_pixel(0, 0, [5, 5, 5]);
    let r = Rect::new(-2, 1, 5, 4);
    draw_rect(&mut f, r, [9, 8, 7]);
    draw_rect(&mut g, r, [9, 8, 7]);
    draw_rect(&mut g, r, [9, 8, 7]);
    assert_eq!(f.as_bytes(), g.as_bytes());
}

#[test]
fn outline_stays_inside_box_of_size_two() {
    let mut f = blank(6, 6);
    draw_rect(&mut f, Rect::new(2, 2, 2, 2), [4, 4, 4]);
    for y in 0..6 {
        for x in 0..6 {
            let inside = (2..4).contains(&x) && (2..4).contains(&y);
            let expected = if inside { [4, 4, 4] } else { [0, 0, 0] };
            assert_eq!(pixel(&f, x, y), expected);
        }
    }
}

#[test]
fn into_bytes_returns_pixels() {
    let mut f = blank(1, 1);
    f.set_pixel(0, 0, [1, 2, 3]);
    assert_eq!(f.height(), 1);
    assert_eq!(f.into_bytes(), vec![1, 2, 3]);
}
