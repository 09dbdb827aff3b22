# opus_native

The bit-exact parts of an Opus codec in Rust, verified with Verus: packet
framing, the range coder, CELT pulse vectors and Laplace symbols, SILK gains,
stereo weights and loss concealment, Ogg pages, multistream layouts, and the
decisions of the encoder and the decoder.

## Layout

- `src/` is the library. Every function states what it returns in `requires` and
  `ensures`, and Verus proves it.
  - `packet`: the table-of-contents byte, frame packing, self-delimited framing.
  - `range`: the range coder. `model` is its mathematical model, `message` the
    law that a decoder finds every symbol that was coded.
  - `celt`: `cwrs` (pulse vectors), `laplace` (coarse energy), `laplace_fit`
    (the models that the format can ask for all fit), `budget` and `encoder`
    (side information under a bit budget).
  - `silk`: fixed-point arithmetic, gains, stereo prediction, linear prediction,
    loss concealment (`plc`, `conceal`), comfort noise (`cng`), and `encode`.
  - `ogg`: checksum, pages, the packet reader and the page writer; `round_trip`
    holds the law that packets survive being written and read, `streams` what a
    checksum notices and how bitstreams share a stream.
  - `decoder`, `encoder`, `multistream`: which layers code a frame, how
    redundancy and mode transitions are handled, how streams are split and
    routed.
  - `pcm`, `text`, `prof`, `demo`: buffer shapes, decimal numbers, profiler
    totals, and the files that test bitstreams are kept in.
- `tests/` runs the library on concrete values.
- `app/` computes the audio in floating point around the library, and holds the
  Python bindings and the profiler's clock.

## Trusted code

The library trusts one function outside it: `core::time::Duration::from_micros`,
whose result is named `duration_of_micros` in `packet`.
