# ttcore

The core of a pad-driven breakbeat sequencer: the pad's keys hold, loop and stop onsets
(slices of WAV samples) on two layers, phrases record and replay what a layer played, and
a signal side reads the onsets' samples tick by tick.

`src/` is the library, verified with Verus:

- `fs` – the file-access trait a platform implements, modelled by file contents, cursors and
  a log of the calls made to it; exact reads, and the WAV chunk scan.
- `memory` – a verified in-memory implementation of that trait.
- `signal` – an opened onset: cursor, wrapping seeks and reads over its PCM block.
- `state` – inputs, events, kits, phrases, the phrase writer, and the per-tick step of an
  onset event on the signal side.
- `model` – the mathematical model of the state handler that the contracts speak of.
- `handler` – the state handler: buffering and passing inputs, phrase output and sync,
  ticks, recording, and the timing setters.
- `input` – the pad's key map, number entry, held-key loops, ramp keys and the throbber.
- `dialog` – the audio configuration dialog's key handling.
- `xrni` – the scan of a Renoise instrument description (read with quick-xml), the decoding
  of its FLAC sample (with claxon), and the kit of its slices.
- `arith` – Euclidean remainder and truncating division.
- `laws` – properties that span several operations.

Levels (pan, gain, speed) are floating point; the library carries them as `f32` bit
patterns and the program computes them. `app/` is the program: terminal screens, MIDI,
audio output, the float parts of the signal path, kit files, and the instrument extractor
(`xrni-extract` as first argument).

## What the proofs rest on

- The file-access trait is for each platform to implement. The library's proofs see only
  the trait's contracts; an implementation in plain Rust, such as the program's
  `LinuxFileHandler`, is trusted to follow them (it cannot state the model functions, so
  nothing checks it). `memory::MemoryFiles` is an implementation that Verus checks.
- The calls into quick-xml and claxon are trusted: their results are named, not proved.
- The state handler is modelled for positive timing only: ticks per input and per step in
  `1..=i32::MAX`, at least one step per measure, and steps per measure times ticks per
  step within `u32`. Other values make the handler divide by zero on its first tick or
  overflow when it reports the ticks per measure, so the constructor asks for these.
- The program calls the library from plain Rust, so nothing checks that it meets the
  handler's preconditions. For each of them the handler offers a test (`tick_ok`,
  `mod_start_ok`, `mod_len_ok`) or a variant that checks as it goes and returns `None`
  where the plain operation could not be done (`push_onset_checked`, `finish_tick_checked`,
  `pass_net_checked` and the like); the program uses these and stops on a refusal.
