use vstd::prelude::*;

use kornia_image::{Image, ImageError, ImageSize, InterpolationMode};
use kornia_imgproc::resize::resize_fast_rgb;

verus! {

/// Errors of `kornia_image` and `kornia_imgproc`.
#[verifier::external_type_specification]
#[verifier::external_body]
pub struct ExImageError(ImageError);

/// The RGB image that `kornia_imgproc`'s nearest-neighbour resize produces from
/// a `src_w x src_h` image when asked for `dst_w x dst_h`. Its sampling
/// positions come from floating-point scale factors, so they are not written
/// out here.
pub uninterp spec fn nearest_resized(
    src: Seq<u8>,
    src_w: nat,
    src_h: nat,
    dst_w: nat,
    dst_h: nat,
) -> Seq<u8>;

/// Nearest-neighbour resize of an RGB image by
/// `kornia_imgproc::resize::resize_fast_rgb` (version 0.2.0) with
/// `InterpolationMode::Nearest`, through `kornia_image::Image`.
///
/// Claimed of the crate's code: building the source and destination images
/// cannot fail when the byte count matches and the destination size fits in a
/// `usize`; the resize fails exactly when the destination has pixels and the
/// source has none; otherwise the result has `dst_w * dst_h * 3` bytes, and it
/// is named `nearest_resized` of the arguments.
#[verifier::external_body]
pub(crate) fn resize_nearest_rgb(
    src: &Vec<u8>,
    src_w: usize,
    src_h: usize,
    dst_w: usize,
    dst_h: usize,
) -> (r: Result<Vec<u8>, ImageError>)
    requires
        src.len() == src_w * src_h * 3,
        dst_w * dst_h * 3 <= usize::MAX,
    ensures
        r is Err <==> (dst_w > 0 && dst_h > 0 && (src_w == 0 || src_h == 0)),
        r matches Ok(v) ==> v@ == nearest_resized(
            src@,
            src_w as nat,
            src_h as nat,
            dst_w as nat,
            dst_h as nat,
        ) && v.len() == dst_w * dst_h * 3,
{
    let src_img = Image::<u8, 3>::new(ImageSize { width: src_w, height: src_h }, src.clone())?;
    let mut dst = Image::<u8, 3>::from_size_val(ImageSize { width: dst_w, height: dst_h }, 0)?;
    resize_fast_rgb(&src_img, &mut dst, InterpolationMode::Nearest)?;
    Ok(dst.into_vec())
}

} // verus!
