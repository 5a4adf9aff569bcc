use vstd::prelude::*;

verus! {

/// Number of values per detection row: `x1, y1, x2, y2, score, class`.
pub const DETECTION_FIELDS: i64 = 6;

/// Why a detector output tensor was rejected.
#[derive(Clone, Copy, Debug, PartialEq, Eq, Structural)]
pub enum OutputShapeError {
    /// The output is not `[batch, detections, 6]` for the batch given.
    UnexpectedShape,
}

/// Whether the raw output is laid out `[batch, 6, detections]` and must be
/// transposed to `[batch, detections, 6]`.
pub open spec fn is_channel_first(shape: Seq<i64>) -> bool {
    shape.len() == 3 && shape[1] == DETECTION_FIELDS
}

/// Shape of the output once a channel-first layout is transposed.
pub open spec fn row_major_shape(shape: Seq<i64>) -> Seq<i64> {
    if is_channel_first(shape) {
        seq![shape[0], shape[2], shape[1]]
    } else {
        shape
    }
}

pub fn needs_transpose(shape: &Vec<i64>) -> (r: bool)
    ensures
        r == is_channel_first(shape@),
{
    shape.len() == 3 && shape[1] == DETECTION_FIELDS
}

/// Number of detection rows per image in a detector output of the given raw
/// shape (tensor dimensions are never negative and never exceed the address
/// space), for a batch of `batch` images.
/// The output must be, after transposing a channel-first layout,
/// `[batch, detections, 6]`.
pub fn detections_per_image(shape: &Vec<i64>, batch: usize) -> (r: Result<usize, OutputShapeError>)
    requires
        forall|i: int| 0 <= i < shape.len() ==> 0 <= #[trigger] shape@[i] <= usize::MAX,
    ensures
        ({
            let s = row_major_shape(shape@);
            match r {
                Ok(n) => s.len() == 3 && s[0] == batch && s[2] == DETECTION_FIELDS && n == s[1],
                Err(_) => !(s.len() == 3 && s[0] == batch && s[2] == DETECTION_FIELDS),
            }
        }),
{
    let transposed = needs_transpose(shape);
    if shape.len() != 3 {
        return Err(OutputShapeError::UnexpectedShape);
    }
    let (s0, s1, s2) = if transposed {
        (shape[0], shape[2], shape[1])
    } else {
        (shape[0], shape[1], shape[2])
    };
    let ghost rs = row_major_shape(shape@);
    assert(rs.len() == 3 && rs[0] == s0 && rs[1] == s1 && rs[2] == s2);
    if s0 as i128 != batch as i128 || s2 != DETECTION_FIELDS {
        return Err(OutputShapeError::UnexpectedShape);
    }
    Ok(s1 as usize)
}

/// Range `[start, end)` of the flat output values that belong to image
/// `batch_index`, each image having `num_dets` rows of six values.
pub fn rows_of_image(batch_index: usize, num_dets: usize, total_len: usize) -> (r: (usize, usize))
    requires
        (batch_index + 1) * num_dets * 6 <= total_len,
    ensures
        r.0 == batch_index * num_dets * 6,
        r.1 == r.0 + num_dets * 6,
{
    assert(batch_index * num_dets * 6 + num_dets * 6 == (batch_index + 1) * num_dets * 6) by (nonlinear_arith);
    let start = batch_index * num_dets * 6;
    (start, start + num_dets * 6)
}

} // verus!
