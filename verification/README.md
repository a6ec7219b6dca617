# sismokaos

Seismic preprocessing and feature extraction for miniSEED archives: gap
filling, detrending, band-pass filtering and decimation of the E/N/Z
components, then per-window statistical, spectral and chaotic features, or a
flat little-endian `f32` dump of the preprocessed streams with a JSON sidecar.

## Layout

- `src/` — the verified library (Verus). It holds the integer and text
  bookkeeping of the pipeline, each function with a contract:
  - `gaps` — interior gaps of a trace and the mask of interpolated samples;
  - `decimation` — slice-and-stride decimation and the phase that keeps it on
    the global sample grid across blocks;
  - `blocks` — how the assembled streams are cut into filter blocks;
  - `windows` — sliding-window scheduling over a chunked stream, window ids;
  - `rawbin` — interleaved little-endian sample layout, NaN counts, segment
    table;
  - `components` — E/N/Z component of a source identifier;
  - `schema` — column order of the feature table;
  - `events`, `text` — pipeline events, console progress report, decimal
    rendering.
- `app/` — the command-line program: argument parsing, configuration, file
  I/O, miniSEED decoding, filtering, FFT and all floating-point feature
  computation, calling into the library for the decisions above.
- `tests/` — tests of the library.
