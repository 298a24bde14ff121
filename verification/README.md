# sort_visualizer

A graphical sorting algorithm visualizer for images: an image is split into a
grid of cells, the cells are shuffled, and a sorting algorithm (bubble,
insertion, selection, quick, heap or merge sort) is played back rearranging
them, by original index or by luminance.

The library in `src/` is written in Verus and verified:

- `sort`, `elementary`, `quick`, `heap`, `merge`: the six sorts, recording
  every comparison, swap and write as an `Event`. Each sort leaves the cells
  in key order, as a permutation of the input, and replaying its events over
  the input reproduces the sorted arrangement.
- `cache`, `bytes`, `text`: the binary cache format (encode / decode with the
  round-trip, header-mismatch and truncation laws), FNV-1a, cache file names.
- `animation`: frame-by-frame playback of the events.
- `grid`, `options`, `shuffle`, `sound`: the integer grid layout, option
  checks, seeded shuffles and the sound scheduling decisions.

`app/` is the program around it: command line, image loading, luminance,
rendering with macroquad, audio with rodio, file I/O for the cache.
