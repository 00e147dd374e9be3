# rsclipping

The decisions behind a screen clipper and rolling recorder, verified with Verus:
a window of short video segments is kept on disk and turned into clips and
recordings by copying, never by encoding again.

- `src/` is the library. Every function states what it returns and is proved to.
- `app/` is the program around it: processes, files, the display server, threads
  and the dashboard.
- `tests/` runs the library on concrete values.

| Module | What it decides |
| --- | --- |
| `segments` | the rolling window: which segments are known, finished, kept and trimmed |
| `encoder` | FFmpeg's arguments, the state of the encoding process, the copy |
| `daemon` | what an action does, which segments outputs still need, and the loop's clock |
| `storage`, `sizes` | names of outputs, retention, sizes as text |
| `capture` | monitors, and raw pixels to frames |
| `input`, `poller`, `overlay` | recorded input, its windows of time, the overlay |
| `hotkey`, `bindings` | hotkeys as text, on the keyboard, and their actions |
| `config`, `dashboard` | settings, command line, the settings being edited |
| `codec`, `utils`, `paths`, `text` | codecs, the search for FFmpeg, paths and text |

A segment's length is a floating-point number of seconds. The library takes it as
a number of frames, which the program works out.
