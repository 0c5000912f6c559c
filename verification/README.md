# grib2pmtiles

Converts gridded weather data in GRIB2 into PMTiles archives of vector or raster
tiles. What the conversion decides and computes is a library that Verus verifies;
files, floating point and the decoding of GRIB2 sections are a small program around
it.

## Layout

- `src/` is the library.
  - Reading: `reader` and `grib` turn the sections of messages into points on the
    base grid of a product; `bitmap`, `calendar` and `messages` serve them.
  - Choosing: `options`, `selection`, `quantization`, `paths` and `conversion` plan
    what is written where.
  - Preparing: `grouping`, `prepare` and `hilbert` put points into base tiles.
  - Vector tiles: `cells` groups cells by value, `rect_union` merges each group into
    polygons, and `mvt` encodes the layer. The union rests on `sweep` and
    `intervals`, which draw the boundary, on `contour`, `walk` and `turning`, which follow
    it into rings, on `polygons`, `nesting` and `assembly`, which make polygons of rings,
    and on `boundary`, `connection`, `pieces` and `area`, which say why they are the
    union and why each of them is one piece of it. `outline` says which rings outline
    a region, from the first corner on; `corners` and `drawing` prove that the union
    is made of them, and `canonical` that there are no others.
  - Raster tiles: `raster` encodes values, `lattice` lays points on a grid, `image`
    assembles pixels, `descriptor` and `range` say what a reader has to know.
  - Archives: `pyramid` walks the tiles, `metadata` and `json` describe the archive,
    `header` mends its header, and `reproducible` proves that the same cells, or the
    same samples, give the same tiles in the same order.
  - `double` and `geo` work on the bits of doubles; `text`, `sort`, `sums` and
    `geometry` are shared.
- `app/` is the program: arguments, files, projections and interpolation. The decoder
  of sections and the catalogue of products are linked in behind `app/toolkit.rs`.
- `tests/` runs the library.

Doubles cross into the library as their bits. It compares them and carries them on,
and never computes with them.
