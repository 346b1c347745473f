# Dive Data Overlay

Puts the data of a dive computer (dive time, depth, temperature, tank pressure,
heart rate) onto dive videos, as a burned-in info box with an optional depth profile
or as a subtitle track that can be switched off.

## Layout

- `src/` is the library. It reads dive logs, places clips on the dive, decides what
  each frame shows, builds and joins subtitle tracks, draws on pictures and planar
  frames, and plans every call of `ffmpeg` and `ffprobe`. All of it is verified with
  Verus.
- `app/` is the program around it: arguments and window, files, processes, text and
  slanted lines.
- `tests/` runs the library on concrete values.

## Reading the library

- `nearest`, `natural`, `binary64` and `number_text` give numbers with the arithmetic
  of IEEE 754 double precision, down to the bit, over integers. `Real` is such a
  number. `rounding` bounds how far its results are from the exact ones.
- `csv_data`, `dive_log`, `moment` and `lookup` turn a log into samples in order of
  time.
- `overlay_lines`, `overlay`, `depth_graph`, `picture`, `yuv` and `planar` turn samples
  into what a frame shows.
- `subtitle` builds, reads and joins tracks.
- `ffprobe`, `sync`, `pipeline`, `clip_run`, `merge` and `paths` run a job, the steps
  of which are state machines that `app/` drives.
- `session`, `preview`, `worker_run`, `run_report`, `command_line` and `update_check` are what a user
  sets up and sees.
- The modules that end in `_laws`, and the functions that start with `law_`, state what
  holds across functions.

Functions marked `external_body`, and `assume_specification` items, are believed and
not proved. They stand for `csv`, `chrono`, `imageproc` and parts of the standard
library, each with a comment that says what is claimed of it.
