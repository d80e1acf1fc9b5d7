# watermark_remover

Removes a fixed, semi-transparent corner watermark from generated images by
reversing its alpha composite.

- `src/` is the library, written in Verus and proved:
  - `catalog`: the official output sizes and the ordered list of candidate
    watermark geometries for an image (`search_configs`), with the laws of that
    list (every candidate fits, none repeats, the tier default or the official
    entry comes first, a ≥1024px image that is not of an official size gets
    only tiles of at least 96px, the near-official ranking is a stable sort by
    score);
  - `controls`: manual corner placement, position nudges, colour entry, the
    stored calibration, output file naming;
  - `engine`: the integer side of blind learning (the stacked window and its
    corner placement, the default tile size);
  - `profile`: which tile size of a profile to use for an image, which to
    preview, and which entries of a profile file hold a map;
  - `raster`: the preview outline, the zoom view and its crop, and the
    nearest-neighbour downscale;
  - `ui`: the window as a state machine, from the settings and an event to
    the new settings and the work that follows.
- `app/` is the desktop program around it: the GUI (which performs the work
  that `ui::step` asks for), file dialogs, image decoding and encoding,
  persistence, and the floating-point pixel engine (detection by correlation,
  removal, calibration, reconstruction).
- `tests/` exercises the library.
