# flowd

Parsing and marshalling of flowd v2 frames, with every function of the
library proved against its contract.

A frame is the byte `2`, a frame type line, header lines `key:value`, an
empty line, a body whose size the `length` header gives, and a NUL byte.

- `src/chars.rs`: byte and character classes.
- `src/decimal.rs`: decimal text of `usize` values, read and written.
- `src/wire.rs`: the streaming frame grammar (`frame_full`), built on nom's
  `split_at_position1`.
- `src/buffer.rs`, `src/parser.rs`: the streaming parser over a `circular`
  ring buffer, and what one round of reading a stream decides (`run_step`).
- `src/frame.rs`: frames with their well-known fields (`IP`) and `IP::marshal`.
- `src/read.rs`: reading a frame line by line (`FrameBuilder`, `parse_frame`).
- `src/laws.rs`: marshalled frames read back unchanged; parsed frames do not
  depend on the bytes that follow them; the parser's buffer only doubles.
- `app/`: file and stream I/O around the library.
