# Reparador de videos

Repairs videos, and rebuilds MP4 files whose index never made it to disk, such as
downloads that were cut off.

- `src/` is the library. It finds the frames in raw media data, derives what a
  decoder has to know from the options that x264 leaves in its first frame, writes
  parameter sets and index, decides what to try next, and tells what came of it. It
  does no input or output. Everything in it is verified with Verus but for one
  conversion of std, `String::from_utf8_lossy`, whose contract is trusted.
- `app/` is the desktop application around it: it reads and writes files, runs
  `ffmpeg` and `ffprobe`, watches a folder and shows a tray icon.
- `tests/` runs the library on concrete data.

The library handles x264 video (4:2:0, 8 or 10 bits, one slice per frame, closed
groups of pictures) with AAC-LC audio.

## Where to look

| module | what it holds |
| --- | --- |
| `bits`, `nal`, `bytes`, `text`, `sorting` | bit strings, emulation prevention, big-endian numbers, text, sorting |
| `options`, `x264` | x264's options and the stream parameters that follow from them |
| `sps`, `declared` | parameter sets, and what a decoder reads in them |
| `mdat`, `frames`, `rebuild` | media data, the encoder's signature, frames and gaps |
| `probe`, `geometry`, `pad` | guesses for a decoder to try, the search for depth and size, padding |
| `order`, `video`, `mp4`, `layout` | the order of showing, the index, and what a written file holds true |
| `audio`, `progress` | the audio between the frames, and ffmpeg's progress |
| `repair`, `report`, `fault` | names, failures, and what the user is told |
| `watch`, `folder`, `shell` | the watched folder, and what starting again and closing do |

Functions whose names start with `law_` state what holds of the library as a whole.
