# cv_timeline

A desktop tool that draws a CV as a vertical timeline: blocks of time
(jobs, degrees, projects) hang off a year axis, alternating left and right,
and the picture can be previewed live or exported as a PNG.

- `src/` is the verified library (Verus):
  - `model` — years (held as the bit patterns of the `f32` values the user
    entered, with IEEE comparison and total order on them), colours, blocks
    and the timeline, with their defaults;
  - `placement` — the chronological order of blocks, their side of the axis
    and lane, how many lanes each side needs, and each block's predecessor
    in its lane; `placement_laws` proves that lane neighbours never overlap
    and that a block only goes further out when it overlaps a nearer lane;
  - `text` — shortening a label to the available width by binary search,
    driven step by step by the caller's measurements;
  - `layout` — how a block's label is laid out;
  - `raster` — pixel compositing and masked fills on `image` buffers;
  - `editor` — the editing state of a project;
  - `icon` — the application icon's pixel art and `.ico` container.
- `app/` is the `eframe` application: windowing, file dialogs, JSON project
  files, fonts, and all floating-point geometry of the drawing.
- `tests/` exercises the library on concrete values.
