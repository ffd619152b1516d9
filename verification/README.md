# olooper

The core of oLooper, a practice player for DJs that pulls the audio loops
out of legacy Flash `.swf` movies and projector `.exe` files, keeps them
in a library and plays them as gapless loops.

`src/` is the library, written in Verus: every function carries a
contract and is proved against it.

- `import/` — SWF containers (`FWS`, `CWS`, `ZWS` refused), the
  `DefineSound` and streaming-sound tags, IMA ADPCM decoding to WAV, and
  locating the movie embedded in a projector `.exe`.
- `player` — decoded buffers, millisecond/frame arithmetic, the gapless
  region source, zero-crossing snapping, loop transport, load requests
  and the decode cache.
- `library` — safe names, tags, content hashes, cue/loop validation,
  gapless MP3 trimming and the bookkeeping of an import.
- `paths` — the portable library location and the names given to files.
- `analysis`, `autoloop`, `waveform` — tempo folding, boundary snapping
  and waveform buckets.
- `bytes`, `text`, `wav` — little-endian fields, decimal/hexadecimal
  text and PCM16 WAV writing; bit reading lives in `import::bits`.

Calls into `flate2`, `rodio`, `sha2` and `std::path` go through small
trusted wrappers whose contracts name what the outside code returns.

`app/` is the desktop side: the SQLite catalog, files, the audio device
and threads, and the floating-point signal analysis. `tests/` runs the
library on concrete inputs.
