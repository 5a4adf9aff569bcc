# vedelo

Verified core of a video vehicle tracker: detections from a YOLO model are
associated across frames by a SORT-style tracker and drawn onto the frames.

`src/` (verified with Verus):

- `geometry` — boxes, and the integer intersection/union terms of IoU.
- `frame` — RGB frames; filled boxes, two-pixel outlines, single pixels, all
  clipped to the frame, specified pixel by pixel.
- `letterbox` — detector input: frames resized (through `kornia-imgproc`) and
  centred on padding in square slots of one batch buffer.
- `resize` — the `kornia-imgproc` nearest-neighbour resize.
- `detector_output` — layout checks of the detector's output tensor.
- `assignment` — the `hungarian` minimum-cost assignment.
- `tracker` — the tracker: prediction, class-gated costs, assignment,
  matching, new ids, expiry; with its invariant and laws.
- `cli` — the batch-size argument.

`app/` holds the program around it: argument parsing, video decoding and
encoding, libtorch inference, the Kalman motion model, glyph rendering and
every floating-point step (IoU quotient, cost conversion, box decoding,
letterbox scale).
