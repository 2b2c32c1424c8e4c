# streamyard-stitcher

Rebuilds a StreamYard cloud master with high-resolution local tracks: the layouts, graphics
and transitions of the cloud recording, with the picture and sound of the local files.

The decisions live in a Verus library (`src/`), whose functions carry contracts that are
proved. Around it, `app/` runs `ffmpeg` and `ffprobe`, reads and writes files, computes
colour histograms and prints.

| Step | Modules |
|---|---|
| Classify the input files | `names`, `offset`, `probe` |
| Align the audio | `media`, `sync`, `wide` |
| Detect the layout | `sampling`, `frame`, `colour`, `components`, `tiles`, `appearance`, `matching`, `layout`, `timeline` |
| Keep the fixed overlays | `chrome`, `mask` |
| Plan the encode | `windows`, `composer`, `plan` |
| Shared | `model`, `geometry`, `order`, `text`, `clock` |

Conventions inside the library:

- Times are whole nanoseconds, similarities whole billionths, audio samples 16-bit integers.
  Ratios and correlations are exact fractions that are compared by cross-multiplication.
- A spec function states what a result is; the `law_` functions state what holds across
  functions, such as that the windows cover the output but for gaps of a microsecond, and
  that no segment is lost.
- What is taken on trust: `String::push` and `str::to_lowercase` of the standard library, and
  the parsing and reading of JSON values by `serde_json`.
