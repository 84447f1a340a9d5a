# milkdrop_pi

An audio visualizer for small screens: it captures what the machine plays,
analyses it, and cycles through several GPU visualizations (an equalizer, a
music-driven Game of Life, a polar scope and a ridge-line terrain), with a
cross-fade between them.

## Layout

- `src/` is the verified library. Each module states its behaviour in
  `requires`/`ensures` contracts that Verus proves:
  - `grid`: the toroidal Game of Life grid, seeding, neighbour counts and the
    partial, per-frequency-band step;
  - `components`: 8-connected labelling of live cells with per-group sums;
  - `bands`: which frequency band each cell or group listens to;
  - `cycle`: which visualization is shown and when the cross-fade runs;
  - `overlay`: the settings panel's key handling and its text layout;
  - `atlas`: packing rasterised glyphs into one texture;
  - `analysis`, `terrain`: FFT sizing, channel splitting, waveform resampling
    and the rolling histories;
  - `cli`, `visualizations`, `text`: argument parsing into names and their
    resolution against the registry;
  - `audio`, `render`: small decisions around the audio device and the
    presentation mode.
- `app/` is the program around it: window and event loop, audio capture,
  FFT and the other floating-point signal processing, and all GPU work.
- `tests/` exercises the library on concrete values.

## Assets

The program loads its WGSL shaders (`shaders/<name>.wgsl`), the overlay font
(`fonts/VT323-Regular.ttf`) and the window icon (`icon_rgba.bin`, 48x48 RGBA)
at start-up from the directory named by `MILKDROP_ASSETS`, or `./assets`.
