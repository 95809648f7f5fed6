# obamify (verified core)

Turns one image into another by moving its pixels: every target slot takes
one source pixel, chosen by a cost that weighs color difference against
distance, and a particle simulation animates the pixels to their slots.

`src/` is the verified library (Verus):

- `cost` – the placement cost of a pixel on a slot.
- `drawing` – the drawing canvas: per-cell data, drawing pixels, the stroke reward.
- `search` – the swap search of the drawing canvas: starting pixels, one
  generation of random exchanges, the slot-to-cell assignments it reports.
- `progress` – progress reports, and what the search reports after a generation.
- `rgb` – 8-bit RGB images: construction, cropping, decoding and resizing
  (through the `image` crate), weight maps.
- `naming` – version numbering of copied settings names.
- `grid` – the grid bookkeeping of the particle simulation.
- `preset` – presets and the assignment algorithm choice.
- `rng` – the `frand` generator behind the search.

`app/` holds what the library does not take: the floating point particle
simulation and crop placement, the search loop that runs beside the UI, the
settings with their ids, and serialisable copies of the library's types.
