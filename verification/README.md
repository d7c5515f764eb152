# koharu

Verified logic of a manga translation tool, written in Rust and proved with
Verus.

- `src/inpainting` keeps the forward passes of erase models within bounds:
  strategies for large images (`strategy`), rectangles and padding
  (`geometry`), scaling (`scaling`), the balloon-fill fast path (`balloon`,
  `polygon`, `statistics`) and transparency (`alpha`).
- `src/lama.rs` joins them to the LaMa inpainter, `src/pipeline.rs` to the page
  pipeline.
- `src/codex.rs` builds requests for images, `src/credentials.rs` names and
  judges saved API keys.
- `src/raster.rs` holds images, `src/binary64.rs` double precision numbers, and
  `src/imaging.rs` the calls into `image` and `imageproc`. What is stated of
  these calls, and of four functions of the standard library in `codex` and
  `credentials`, is believed; everything else is proved.
- `app` is ordinary Rust around the library: tensors, files, credential stores
  and the engine of the pipeline.

Sizes that a function cannot handle are left out by its `requires`. Functions
whose names start with `is_`, and `lama::accepts`, test these conditions for
callers that are not verified.
