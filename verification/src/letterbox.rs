use vstd::prelude::*;

use crate::frame::Frame;
use crate::resize::{nearest_resized, resize_nearest_rgb};

verus! {

/// Byte value of the padding around a letterboxed image.
pub const PAD_VALUE: u8 = 114;

/// Number of bytes in one `target x target` RGB slot.
pub open spec fn slot_len(target: int) -> int {
    target * target * 3
}

/// Position of byte `c` of pixel (`px`, `py`) of slot `b` in a batch buffer.
pub open spec fn slot_index(b: int, target: int, px: int, py: int, c: int) -> int {
    b * slot_len(target) + (py * target + px) * 3 + c
}

/// Slot, column, row and channel that byte `k` of a batch buffer belongs to.
pub open spec fn slot_of(k: int, target: int) -> int {
    k / slot_len(target)
}

pub open spec fn col_of(k: int, target: int) -> int {
    ((k % slot_len(target)) / 3) % target
}

pub open spec fn row_of(k: int, target: int) -> int {
    ((k % slot_len(target)) / 3) / target
}

pub open spec fn chan_of(k: int, target: int) -> int {
    (k % slot_len(target)) % 3
}

/// Horizontal and vertical offsets that centre a `new_w x new_h` image in a
/// `target x target` square.
pub open spec fn pad_left(target: int, new_w: int) -> int {
    (target - new_w) / 2
}

/// Whether pixel (`px`, `py`) of a slot is covered by the centred image.
pub open spec fn in_picture(target: int, new_w: int, new_h: int, px: int, py: int) -> bool {
    let dw = pad_left(target, new_w);
    let dh = pad_left(target, new_h);
    dw <= px < dw + new_w && dh <= py < dh + new_h
}

/// Byte `c` of pixel (`px`, `py`) of a slot holding a centred `new_w x new_h`
/// image: the image's byte where it covers the pixel, padding elsewhere.
pub open spec fn letterbox_value(
    resized: Seq<u8>,
    new_w: int,
    new_h: int,
    target: int,
    px: int,
    py: int,
    c: int,
) -> u8 {
    let dw = pad_left(target, new_w);
    let dh = pad_left(target, new_h);
    if in_picture(target, new_w, new_h, px, py) {
        resized[((py - dh) * new_w + (px - dw)) * 3 + c]
    } else {
        PAD_VALUE
    }
}

/// A batch buffer of `target x target` RGB slots, slot `i` holding
/// `resized[i]` (of size `sizes[i]`) centred on padding.
pub open spec fn letterboxed(resized: Seq<Seq<u8>>, sizes: Seq<(usize, usize)>, target: int) -> Seq<
    u8,
> {
    Seq::new(
        (resized.len() * slot_len(target)) as nat,
        |k: int|
            letterbox_value(
                resized[slot_of(k, target)],
                sizes[slot_of(k, target)].0 as int,
                sizes[slot_of(k, target)].1 as int,
                target,
                col_of(k, target),
                row_of(k, target),
                chan_of(k, target),
            ),
    )
}

proof fn lemma_slot_index_decodes(b: int, target: int, px: int, py: int, c: int)
    requires
        target > 0,
        0 <= b,
        0 <= px < target,
        0 <= py < target,
        0 <= c < 3,
    ensures
        slot_of(slot_index(b, target, px, py, c), target) == b,
        col_of(slot_index(b, target, px, py, c), target) == px,
        row_of(slot_index(b, target, px, py, c), target) == py,
        chan_of(slot_index(b, target, px, py, c), target) == c,
{
    let s = slot_len(target);
    let r = (py * target + px) * 3 + c;
    assert(0 <= py * target + px < target * target) by (nonlinear_arith)
        requires
            0 <= px < target,
            0 <= py < target,
    ;
    assert(0 <= r < s);
    vstd::arithmetic::mul::lemma_mul_is_commutative(b, s);
    vstd::arithmetic::div_mod::lemma_fundamental_div_mod_converse(slot_index(b, target, px, py, c), s, b, r);
    vstd::arithmetic::div_mod::lemma_fundamental_div_mod_converse(r, 3, py * target + px, c);
    vstd::arithmetic::div_mod::lemma_fundamental_div_mod_converse(py * target + px, target, py, px);
}

proof fn lemma_slot_coords(k: int, target: int, n: int)
    requires
        target > 0,
        0 <= n,
        0 <= k < n * slot_len(target),
    ensures
        0 <= slot_of(k, target) < n,
        0 <= col_of(k, target) < target,
        0 <= row_of(k, target) < target,
        0 <= chan_of(k, target) < 3,
        k == slot_index(
            slot_of(k, target),
            target,
            col_of(k, target),
            row_of(k, target),
            chan_of(k, target),
        ),
{
    let s = slot_len(target);
    assert(s > 0) by (nonlinear_arith)
        requires
            target > 0,
            s == target * target * 3,
    ;
    let b = k / s;
    let r = k % s;
    let p = r / 3;
    vstd::arithmetic::div_mod::lemma_fundamental_div_mod(k, s);
    vstd::arithmetic::div_mod::lemma_fundamental_div_mod(r, 3);
    vstd::arithmetic::div_mod::lemma_fundamental_div_mod(p, target);
    vstd::arithmetic::div_mod::lemma_mod_bound(k, s);
    vstd::arithmetic::div_mod::lemma_div_pos_is_pos(k, s);
    assert(b < n) by {
        vstd::arithmetic::mul::lemma_mul_is_commutative(n, s);
        vstd::arithmetic::div_mod::lemma_multiply_divide_lt(k, s, n);
    }
    assert(p < target * target) by {
        vstd::arithmetic::mul::lemma_mul_is_associative(target, target, 3);
        vstd::arithmetic::mul::lemma_mul_is_commutative(target * target, 3);
        vstd::arithmetic::div_mod::lemma_multiply_divide_lt(r, 3, target * target);
    }
    assert(p / target < target) by {
        vstd::arithmetic::div_mod::lemma_multiply_divide_lt(p, target, target);
    }
    vstd::arithmetic::div_mod::lemma_div_pos_is_pos(p, target);
    vstd::arithmetic::div_mod::lemma_div_pos_is_pos(r, 3);
    assert(target * (p / target) == (p / target) * target) by {
        vstd::arithmetic::mul::lemma_mul_is_commutative(target, p / target);
    }
    assert(s * b == b * s) by {
        vstd::arithmetic::mul::lemma_mul_is_commutative(s, b);
    }
}

/// Pixels of the centred image already copied once the rows above `y`, and the
/// first `x` pixels of row `y`, of the image are done.
pub open spec fn pasted_upto(
    target: int,
    new_w: int,
    new_h: int,
    y: int,
    x: int,
    px: int,
    py: int,
) -> bool {
    let dw = pad_left(target, new_w);
    let dh = pad_left(target, new_h);
    ||| dw <= px < dw + new_w && dh <= py < dh + y
    ||| py == dh + y && dw <= px < dw + x
}

/// The byte of the resized image that lands on byte `k` of its slot.
pub open spec fn source_byte(resized: Seq<u8>, new_w: int, new_h: int, target: int, k: int) -> u8 {
    resized[((row_of(k, target) - pad_left(target, new_h)) * new_w + (col_of(k, target)
        - pad_left(target, new_w))) * 3 + chan_of(k, target)]
}

#[verifier::rlimit(40)]
#[verifier::loop_isolation(false)]
fn paste_into_slot(
    padded: &mut Vec<u8>,
    num_slots: usize,
    b: usize,
    target: usize,
    resized: &Vec<u8>,
    new_w: usize,
    new_h: usize,
)
    requires
        target > 0,
        b < num_slots,
        new_w <= target,
        new_h <= target,
        resized.len() == new_w * new_h * 3,
        old(padded).len() == num_slots * slot_len(target as int),
    ensures
        final(padded).len() == old(padded).len(),
        forall|k: int|
            0 <= k < old(padded).len() ==> #[trigger] final(padded)@[k] == if slot_of(k, target as int)
                == b && in_picture(
                target as int,
                new_w as int,
                new_h as int,
                col_of(k, target as int),
                row_of(k, target as int),
            ) {
                source_byte(resized@, new_w as int, new_h as int, target as int, k)
            } else {
                old(padded)@[k]
            },
{
    let ghost t = target as int;
    let ghost nw = new_w as int;
    let ghost nh = new_h as int;
    let ghost old_bytes = padded@;
    let ghost n = num_slots as int;
    let dw = (target - new_w) / 2;
    let dh = (target - new_h) / 2;
    assert(dw + new_w <= target && dh + new_h <= target);
    let ghost s = slot_len(t);
    assert((b + 1) * s <= n * s) by (nonlinear_arith)
        requires
            b < n,
            s >= 0,
    ;
    assert(s == target * target * 3);
    let len = padded.len();
    assert(s <= (b + 1) * s) by (nonlinear_arith)
        requires
            0 <= b,
            s >= 0,
    ;
    assert(b * s <= (b + 1) * s) by (nonlinear_arith)
        requires
            0 <= b,
            s >= 0,
    ;
    let slot_bytes = target * target * 3;
    let batch_offset = b * slot_bytes;
    let mut y: usize = 0;
    while y < new_h
        invariant
            padded@.len() == old_bytes.len(),
            0 <= y <= new_h,
            forall|k: int|
                0 <= k < old_bytes.len() ==> #[trigger] padded@[k] == if slot_of(k, t) == b
                    && pasted_upto(t, nw, nh, y as int, 0, col_of(k, t), row_of(k, t)) {
                    source_byte(resized@, nw, nh, t, k)
                } else {
                    old_bytes[k]
                },
        decreases new_h - y,
    {
        let mut x: usize = 0;
        while x < new_w
            invariant
                padded@.len() == old_bytes.len(),
                0 <= y < new_h,
                0 <= x <= new_w,
                forall|k: int|
                    0 <= k < old_bytes.len() ==> #[trigger] padded@[k] == if slot_of(k, t) == b
                        && pasted_upto(t, nw, nh, y as int, x as int, col_of(k, t), row_of(k, t)) {
                        source_byte(resized@, nw, nh, t, k)
                    } else {
                        old_bytes[k]
                    },
            decreases new_w - x,
        {
            let px = x + dw;
            let py = y + dh;
            assert(py * target + px < target * target) by (nonlinear_arith)
                requires
                    px < target,
                    py < target,
            ;
            assert(batch_offset + (py * target + px) * 3 + 3 <= padded@.len()) by (nonlinear_arith)
                requires
                    batch_offset == b * s,
                    (b + 1) * s <= padded@.len(),
                    py * target + px < target * target,
                    s == target * target * 3,
            ;
            assert(y * new_w + x < new_w * new_h) by (nonlinear_arith)
                requires
                    x < new_w,
                    y < new_h,
            ;
            let dst = batch_offset + (py * target + px) * 3;
            let src = (y * new_w + x) * 3;
            let ghost before = padded@;
            padded.set(dst, resized[src]);
            padded.set(dst + 1, resized[src + 1]);
            padded.set(dst + 2, resized[src + 2]);
            proof {
                assert forall|k: int| 0 <= k < old_bytes.len() implies #[trigger] padded@[k]
                    == if slot_of(k, t) == b && pasted_upto(
                    t,
                    nw,
                    nh,
                    y as int,
                    x + 1,
                    col_of(k, t),
                    row_of(k, t),
                ) {
                    source_byte(resized@, nw, nh, t, k)
                } else {
                    old_bytes[k]
                } by {
                    lemma_slot_coords(k, t, n);
                    let kb = slot_of(k, t);
                    let kx = col_of(k, t);
                    let ky = row_of(k, t);
                    let kc = chan_of(k, t);
                    if kb == b && kx == px && ky == py {
                        lemma_slot_index_decodes(b as int, t, px as int, py as int, kc);
                        assert(k == dst + kc);
                    } else {
                        if k == dst || k == dst + 1 || k == dst + 2 {
                            lemma_slot_index_decodes(b as int, t, px as int, py as int, k - dst);
                        }
                        assert(before[k] == padded@[k]);
                    }
                }
            }
            x = x + 1;
        }
        proof {
            assert forall|k: int| 0 <= k < old_bytes.len() implies #[trigger] padded@[k] == if slot_of(
                k,
                t,
            ) == b && pasted_upto(t, nw, nh, y + 1, 0, col_of(k, t), row_of(k, t)) {
                source_byte(resized@, nw, nh, t, k)
            } else {
                old_bytes[k]
            } by {}
        }
        y = y + 1;
    }
    proof {
        assert forall|k: int| 0 <= k < old_bytes.len() implies #[trigger] padded@[k] == if slot_of(k, t)
            == b && in_picture(t, nw, nh, col_of(k, t), row_of(k, t)) {
            source_byte(resized@, nw, nh, t, k)
        } else {
            old_bytes[k]
        } by {}
    }
}

/// The contents of a batch of byte images, as sequences.
pub open spec fn image_bytes(images: Seq<Vec<u8>>) -> Seq<Seq<u8>> {
    images.map_values(|v: Vec<u8>| v@)
}

/// Packs already-resized RGB images into one batch buffer of
/// `target x target` slots: slot `i` holds `resized[i]` (of size
/// `sizes[i] = (width, height)`) centred, the remaining bytes are `PAD_VALUE`.
pub fn pack_letterboxed(resized: &Vec<Vec<u8>>, sizes: &Vec<(usize, usize)>, target: usize) -> (r: Vec<
    u8,
>)
    requires
        resized.len() == sizes.len(),
        forall|i: int|
            0 <= i < sizes.len() ==> (#[trigger] sizes@[i]).0 <= target && sizes@[i].1 <= target
                && resized@[i].len() == sizes@[i].0 * sizes@[i].1 * 3,
        resized.len() * slot_len(target as int) <= usize::MAX,
    ensures
        r@ == letterboxed(image_bytes(resized@), sizes@, target as int),
{
    let ghost t = target as int;
    let n = resized.len();
    let ghost images = image_bytes(resized@);
    if target == 0 {
        let r: Vec<u8> = Vec::new();
        assert(r@ =~= letterboxed(images, sizes@, t));
        return r;
    }
    assert(target * target * 3 <= n * (target * target * 3) || n == 0) by (nonlinear_arith)
        requires
            n >= 0,
            target > 0,
    ;
    let slot_bytes: usize = if n == 0 {
        0
    } else {
        target * target * 3
    };
    let total = n * slot_bytes;
    assert(total == n * slot_len(t)) by {
        if n == 0 {
            assert(n * slot_len(t) == 0) by (nonlinear_arith)
                requires
                    n == 0,
            ;
        }
    }
    let mut padded: Vec<u8> = Vec::new();
    let mut i: usize = 0;
    while i < total
        invariant
            i <= total,
            padded@.len() == i,
            forall|k: int| 0 <= k < i ==> #[trigger] padded@[k] == PAD_VALUE,
        decreases total - i,
    {
        padded.push(PAD_VALUE);
        i = i + 1;
    }
    let mut b: usize = 0;
    while b < n
        invariant
            n == resized.len(),
            n == sizes.len(),
            target > 0,
            t == target,
            images == image_bytes(resized@),
            forall|i: int|
                0 <= i < sizes.len() ==> (#[trigger] sizes@[i]).0 <= target && sizes@[i].1 <= target
                    && resized@[i].len() == sizes@[i].0 * sizes@[i].1 * 3,
            b <= n,
            padded@.len() == total,
            total == n * slot_len(t),
            forall|k: int|
                0 <= k < total ==> #[trigger] padded@[k] == if slot_of(k, t) < b {
                    letterboxed(images, sizes@, t)[k]
                } else {
                    PAD_VALUE
                },
        decreases n - b,
    {
        let (nw, nh) = sizes[b];
        assert(sizes@[b as int].0 <= target);
        let ghost before = padded@;
        paste_into_slot(&mut padded, n, b, target, &resized[b], nw, nh);
        proof {
            assert(images[b as int] == resized@[b as int]@);
            assert forall|k: int| 0 <= k < total implies #[trigger] padded@[k] == if slot_of(k, t) < b
                + 1 {
                letterboxed(images, sizes@, t)[k]
            } else {
                PAD_VALUE
            } by {
                lemma_slot_coords(k, t, n as int);
                assert(before[k] == if slot_of(k, t) < b {
                    letterboxed(images, sizes@, t)[k]
                } else {
                    PAD_VALUE
                });
            }
        }
        b = b + 1;
    }
    assert(padded@ =~= letterboxed(images, sizes@, t)) by {
        assert forall|k: int| 0 <= k < total implies #[trigger] padded@[k] == letterboxed(images, sizes@, t)[k] by {
            lemma_slot_coords(k, t, n as int);
        }
    }
    padded
}

/// Why a batch could not be letterboxed.
#[derive(Clone, Copy, Debug, PartialEq, Eq, Structural)]
pub enum PreprocessError {
    /// Frame `index` has no pixels but was to be resized to a non-empty size.
    EmptySource { index: usize },
}

/// Left and top padding that centre a `new_w x new_h` image in a
/// `target x target` square.
pub fn letterbox_offsets(target: usize, new_w: usize, new_h: usize) -> (r: (usize, usize))
    requires
        new_w <= target,
        new_h <= target,
    ensures
        r.0 == pad_left(target as int, new_w as int),
        r.1 == pad_left(target as int, new_h as int),
        r.0 == (target - new_w) / 2,
        r.1 == (target - new_h) / 2,
{
    ((target - new_w) / 2, (target - new_h) / 2)
}

/// Whether resizing `frame` to `size` fails: the frame has no pixels while the
/// requested size has some.
pub open spec fn resize_fails(frame: Frame, size: (usize, usize)) -> bool {
    size.0 > 0 && size.1 > 0 && (frame.width_spec() == 0 || frame.height_spec() == 0)
}

/// Each frame resized, by nearest neighbour, to its requested size.
pub open spec fn resized_frames(frames: Seq<Frame>, sizes: Seq<(usize, usize)>) -> Seq<Seq<u8>> {
    Seq::new(
        frames.len(),
        |i: int|
            nearest_resized(
                frames[i].bytes(),
                frames[i].width_spec(),
                frames[i].height_spec(),
                sizes[i].0 as nat,
                sizes[i].1 as nat,
            ),
    )
}

/// Detector input for a batch of frames: frame `i` is resized by nearest
/// neighbour to `sizes[i]` and centred in slot `i` of a buffer of
/// `target x target` RGB slots filled with `PAD_VALUE`. Fails on the first
/// frame that has no pixels but must be resized to a non-empty size.
pub fn letterbox_batch(frames: &Vec<Frame>, sizes: &Vec<(usize, usize)>, target: usize) -> (r: Result<
    Vec<u8>,
    PreprocessError,
>)
    requires
        frames.len() == sizes.len(),
        forall|i: int| 0 <= i < frames.len() ==> (#[trigger] frames@[i]).wf(),
        forall|i: int|
            0 <= i < sizes.len() ==> (#[trigger] sizes@[i]).0 <= target && sizes@[i].1 <= target,
        frames.len() * slot_len(target as int) <= usize::MAX,
    ensures
        match r {
            Ok(v) => {
                &&& forall|i: int| 0 <= i < frames.len() ==> !resize_fails(frames@[i], #[trigger] sizes@[i])
                &&& v@ == letterboxed(resized_frames(frames@, sizes@), sizes@, target as int)
            },
            Err(PreprocessError::EmptySource { index }) => {
                &&& index < frames.len()
                &&& resize_fails(frames@[index as int], sizes@[index as int])
                &&& forall|i: int| 0 <= i < index ==> !resize_fails(frames@[i], #[trigger] sizes@[i])
            },
        },
{
    let n = frames.len();
    let mut resized: Vec<Vec<u8>> = Vec::new();
    let mut i: usize = 0;
    while i < n
        invariant
            n == frames.len(),
            n == sizes.len(),
            forall|j: int| 0 <= j < frames.len() ==> (#[trigger] frames@[j]).wf(),
            forall|j: int|
                0 <= j < sizes.len() ==> (#[trigger] sizes@[j]).0 <= target && sizes@[j].1 <= target,
            n * slot_len(target as int) <= usize::MAX,
            i <= n,
            resized@.len() == i,
            forall|j: int| 0 <= j < i ==> !resize_fails(frames@[j], #[trigger] sizes@[j]),
            forall|j: int|
                0 <= j < i ==> (#[trigger] resized@[j])@ == resized_frames(frames@, sizes@)[j]
                    && resized@[j].len() == sizes@[j].0 * sizes@[j].1 * 3,
        decreases n - i,
    {
        let frame = &frames[i];
        let (nw, nh) = sizes[i];
        let fw = frame.width();
        let fh = frame.height();
        assert(sizes@[i as int].0 <= target && sizes@[i as int].1 <= target);
        assert(nw * nh * 3 <= usize::MAX) by (nonlinear_arith)
            requires
                nw <= target,
                nh <= target,
                i < n,
                n * (target * target * 3) <= usize::MAX,
        ;
        match resize_nearest_rgb(frame.as_bytes(), fw, fh, nw, nh) {
            Ok(v) => {
                resized.push(v);
            },
            Err(_) => {
                return Err(PreprocessError::EmptySource { index: i });
            },
        }
        i = i + 1;
    }
    assert(image_bytes(resized@) =~= resized_frames(frames@, sizes@));
    Ok(pack_letterboxed(&resized, sizes, target))
}

/// The picture is centred: the padding on its left (top) is at most the
/// padding on its right (bottom), and at most one pixel less.
pub proof fn lemma_letterbox_centred(target: int, new_w: int)
    requires
        0 <= new_w <= target,
    ensures
        0 <= pad_left(target, new_w),
        pad_left(target, new_w) <= target - new_w - pad_left(target, new_w) <= pad_left(target, new_w)
            + 1,
{
}

/// A picture that already fills the square is copied unchanged: every byte of
/// its slot is the picture's byte at the same position.
pub proof fn lemma_letterbox_full_size(resized: Seq<u8>, target: int, px: int, py: int, c: int)
    requires
        target > 0,
        0 <= px < target,
        0 <= py < target,
    ensures
        letterbox_value(resized, target, target, target, px, py, c) == resized[(py * target + px) * 3
            + c],
{
}

/// Bytes of a slot outside the centred picture are padding.
pub proof fn lemma_letterbox_padding(
    resized: Seq<Seq<u8>>,
    sizes: Seq<(usize, usize)>,
    target: int,
    k: int,
)
    requires
        0 <= k < letterboxed(resized, sizes, target).len(),
        !in_picture(
            target,
            sizes[slot_of(k, target)].0 as int,
            sizes[slot_of(k, target)].1 as int,
            col_of(k, target),
            row_of(k, target),
        ),
    ensures
        letterboxed(resized, sizes, target)[k] == PAD_VALUE,
{
}

/// Where each picture lands in its slot: byte `c` of pixel `(x, y)` of
/// picture `b` (of size `new_w x new_h`) is byte `c` of pixel
/// `((target - new_w) / 2 + x, (target - new_h) / 2 + y)` of slot `b`, so the
/// picture's top-left corner sits at the offsets that `letterbox_offsets`
/// returns.
pub proof fn lemma_letterbox_placement(
    resized: Seq<Seq<u8>>,
    sizes: Seq<(usize, usize)>,
    target: int,
    b: int,
    x: int,
    y: int,
    c: int,
)
    requires
        resized.len() == sizes.len(),
        0 <= b < resized.len(),
        sizes[b].0 <= target,
        sizes[b].1 <= target,
        0 <= x < sizes[b].0,
        0 <= y < sizes[b].1,
        0 <= c < 3,
    ensures
        ({
            let (new_w, new_h) = (sizes[b].0 as int, sizes[b].1 as int);
            let k = b * (target * target * 3) + (((target - new_h) / 2 + y) * target + (target
                - new_w) / 2 + x) * 3 + c;
            &&& 0 <= k < letterboxed(resized, sizes, target).len()
            &&& letterboxed(resized, sizes, target)[k] == resized[b][(y * new_w + x) * 3 + c]
        }),
{
    let (new_w, new_h) = (sizes[b].0 as int, sizes[b].1 as int);
    let px = (target - new_w) / 2 + x;
    let py = (target - new_h) / 2 + y;
    lemma_slot_placed(resized.len() as int, target, b, px, py, c);
}

/// Bytes of slot `b` outside the picture's box, columns
/// `(target - new_w) / 2 ..` and rows `(target - new_h) / 2 ..` of the
/// picture's size, are padding.
pub proof fn lemma_letterbox_margin(
    resized: Seq<Seq<u8>>,
    sizes: Seq<(usize, usize)>,
    target: int,
    b: int,
    px: int,
    py: int,
    c: int,
)
    requires
        resized.len() == sizes.len(),
        0 <= b < resized.len(),
        0 <= px < target,
        0 <= py < target,
        0 <= c < 3,
        !({
            let (new_w, new_h) = (sizes[b].0 as int, sizes[b].1 as int);
            &&& (target - new_w) / 2 <= px < (target - new_w) / 2 + new_w
            &&& (target - new_h) / 2 <= py < (target - new_h) / 2 + new_h
        }),
    ensures
        ({
            let k = b * (target * target * 3) + (py * target + px) * 3 + c;
            &&& 0 <= k < letterboxed(resized, sizes, target).len()
            &&& letterboxed(resized, sizes, target)[k] == PAD_VALUE
        }),
{
    lemma_slot_placed(resized.len() as int, target, b, px, py, c);
}

proof fn lemma_slot_placed(n: int, target: int, b: int, px: int, py: int, c: int)
    requires
        0 <= b < n,
        0 <= px < target,
        0 <= py < target,
        0 <= c < 3,
    ensures
        0 <= b * (target * target * 3) + (py * target + px) * 3 + c < n * slot_len(target),
        slot_of(b * (target * target * 3) + (py * target + px) * 3 + c, target) == b,
        col_of(b * (target * target * 3) + (py * target + px) * 3 + c, target) == px,
        row_of(b * (target * target * 3) + (py * target + px) * 3 + c, target) == py,
        chan_of(b * (target * target * 3) + (py * target + px) * 3 + c, target) == c,
{
    lemma_slot_index_decodes(b, target, px, py, c);
    let s = slot_len(target);
    assert(0 <= (py * target + px) * 3 + c < s) by (nonlinear_arith)
        requires
            0 <= px < target,
            0 <= py < target,
            0 <= c < 3,
            s == target * target * 3,
    ;
    assert(0 <= b * s && b * s + s <= n * s) by (nonlinear_arith)
        requires
            0 <= b < n,
            s >= 0,
    ;
}

} // verus!
