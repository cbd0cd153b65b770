# soundcheck

A fast way to look at sound files: what is in them, what they say about
themselves, and what they are called. Metadata and marks of WAV files can be
edited, and files renamed many at a time.

`src/` is the library: everything the program decides, written in Verus with
its behaviour stated and proved. `app/` is the window around it: drawing, disk,
sound output, and the signal processing, which is floating point.

Press `m` to mark a place in the sound; its name can be typed at once. Press
`r` to reset the control that is picked, or `shift+r` to reset them all.

## Layout

Files and what they say:

- `bytes`, `text`, `path`, `order`: numbers in bytes, text, paths, sorting.
- `wav`: reading WAV, RF64 and BW64, and the chunk bodies that a save writes.
- `xml`, `meta`: the documents recorders write, and what the header shows.
- `edit`: what the Metadata and Markers views can change.
- `save`: saving into a file, and renaming it.
- `readback`, `document`, `roundtrip`: that what was saved reads as it was
  meant, and that everything else is as it was.

Names and folders:

- `explorer`: the folder tree.
- `rename`, `rename_ui`, `batch`: renaming by rules, all files or none.
- `pattern`: regular expressions and date formats, from `regex` and `chrono`.

Sound and the window:

- `audio`, `playback`, `levels`, `probe`, `spectrogram`: which frames are read,
  when, and where they go.
- `views`, `session`, `screen`: what is shown, what is open, what keys do.

What is taken on trust stands in `pattern` and `text`, each item with a note on
the outside function it speaks of. Everything else is proved.
