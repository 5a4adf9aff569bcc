use vedelo::cli::parse_batch_size;
use vedelo::detector_output::{detections_per_image, needs_transpose, rows_of_image, OutputShapeError};
use vedelo::frame::Frame;
use vedelo::letterbox::{
    letterbox_batch, letterbox_offsets, pack_letterboxed, PreprocessError, PAD_VALUE,
};

#[test]
fn batch_size_accepts_positive_integers() {
    assert_eq!(parse_batch_size("8"), Ok(8));
    assert_eq!(parse_batch_size("+16"), Ok(16));
}

#[test]
fn batch_size_rejects_zero() {
    assert_eq!(parse_batch_size("0"), Err("must be at least 1".to_string()));
}

#[test]
fn batch_size_rejects_non_numbers() {
    for bad in ["", "abc", "-1", " 4", "4 ", "1_000", "+", "99999999999999999999999"] {
        assert_eq!(parse_batch_size(bad), Err("must be a positive integer".to_string()), "{bad:?}");
    }
}

#[test]
fn channel_first_output_is_transposed() {
    assert!(needs_transpose(&vec![2, 6, 300]));
    assert!(!needs_transpose(&vec![2, 300, 6]));
    assert!(!needs_transpose(&vec![6, 6]));
    assert_eq!(detections_per_image(&vec![2, 6, 300], 2), Ok(300));
    assert_eq!(detections_per_image(&vec![2, 300, 6], 2), Ok(300));
    assert_eq!(detections_per_image(&vec![1, 6, 6], 1), Ok(6));
}

#[test]
fn wrong_output_shapes_are_rejected() {
    assert_eq!(detections_per_image(&vec![1, 300, 6], 2), Err(OutputShapeError::UnexpectedShape));
    assert_eq!(detections_per_image(&vec![2, 300, 5], 2), Err(OutputShapeError::UnexpectedShape));
    assert_eq!(detections_per_image(&vec![2, 300], 2), Err(OutputShapeError::UnexpectedShape));
    assert_eq!(detections_per_image(&vec![2, 300, 6, 1], 2), Err(OutputShapeError::UnexpectedShape));
}

#[test]
fn rows_of_each_image() {
    assert_eq!(rows_of_image(0, 10, 120), (0, 60));
    assert_eq!(rows_of_image(1, 10, 120), (60, 120));
}

#[test]
fn offsets_centre_the_picture() {
    assert_eq!(letterbox_offsets(10, 4, 10), (3, 0));
    assert_eq!(letterbox_offsets(10, 5, 7), (2, 1));
}

#[test]
fn packing_centres_each_picture_on_padding() {
    // A 2x1 picture in a 4x4 slot: one column of padding on the left, and the
    // single row lands on row 1 ((4 - 1) / 2).
    let picture = vec![1, 2, 3, 4, 5, 6];
    let out = pack_letterboxed(&vec![picture], &vec![(2, 1)], 4);
    assert_eq!(out.len(), 4 * 4 * 3);
    for py in 0..4 {
        for px in 0..4 {
            for c in 0..3 {
                let v = out[(py * 4 + px) * 3 + c];
                let expected = if py == 1 && (1..3).contains(&px) {
                    ((px - 1) * 3 + c + 1) as u8
                } else {
                    PAD_VALUE
                };
                assert_eq!(v, expected, "({px},{py},{c})");
            }
        }
    }
}

#[test]
fn packing_keeps_slots_apart() {
    let a = vec![10u8; 3];
    let b = vec![20u8; 2 * 2 * 3];
    let out = pack_letterboxed(&vec![a, b], &vec![(1, 1), (2, 2)], 2);
    assert_eq!(out.len(), 2 * 2 * 2 * 3);
    // Slot 0: the pixel sits at (0, 0) ((2 - 1) / 2 == 0); the rest is padding.
    assert_eq!(&out[0..3], &[10, 10, 10]);
    assert!(out[3..12].iter().all(|&v| v == PAD_VALUE));
    // Slot 1 is filled by its picture.
    assert!(out[12..24].iter().all(|&v| v == 20));
}

#[test]
fn letterbox_of_same_size_frame_copies_it() {
    let data: Vec<u8> = (0..(3 * 2 * 3)).map(|v| v as u8).collect();
    let frame = Frame::new(3, 2, data.clone()).unwrap();
    let out = letterbox_batch(&vec![frame], &vec![(3, 2)], 3).unwrap();
    // Row 0 of the slot is padding ((3 - 2) / 2 == 0 gives top padding 0,
    // so the picture occupies rows 0 and 1 and row 2 is padding).
    assert_eq!(&out[0..18], &data[..]);
    assert!(out[18..27].iter().all(|&v| v == PAD_VALUE));
}

#[test]
fn letterbox_resizes_through_nearest_neighbour() {
    // A 2x2 frame scaled to 1x1 samples one of its pixels.
    let data = vec![1, 1, 1, 2, 2, 2, 3, 3, 3, 4, 4, 4];
    let frame = Frame::new(2, 2, data).unwrap();
    let out = letterbox_batch(&vec![frame], &vec![(1, 1)], 1).unwrap();
    assert_eq!(out.len(), 3);
    assert_ne!(out, vec![1, 1, 1]);
    assert!([2u8, 3, 4].contains(&out[0]));
    assert_eq!(out[0], out[1]);
    assert_eq!(out[1], out[2]);
}

#[test]
fn letterbox_rejects_empty_source() {
    let ok = Frame::new(1, 1, vec![1, 2, 3]).unwrap();
    let empty = Frame::new(0, 0, Vec::new()).unwrap();
    let r = letterbox_batch(&vec![ok, empty], &vec![(1, 1), (1, 1)], 2);
    assert_eq!(r, Err(PreprocessError::EmptySource { index: 1 }));
}

#[test]
fn letterbox_of_empty_size_is_all_padding() {
    let empty = Frame::new(0, 0, Vec::new()).unwrap();
    let out = letterbox_batch(&vec![empty], &vec![(0, 0)], 2).unwrap();
    assert_eq!(out, vec![PAD_VALUE; 12]);
}

#[test]
fn batch_size_rejects_signed_and_zero_forms() {
    assert_eq!(parse_batch_size("-3"), Err("must be a positive integer".to_string()));
    assert_eq!(parse_batch_size("+0"), Err("must be at least 1".to_string()));
    assert_eq!(parse_batch_size("007"), Ok(7));
}
