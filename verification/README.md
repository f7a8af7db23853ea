# palettefit

Audit character art and brand assets for color drift: extract a reference
palette from a model sheet, then score other images against it with the
CIEDE2000 color-difference formula.

## Layout

- `src/` is the library, written in Verus and verified:
  - `quantize`: histogram and median-cut extraction, with its laws (at most
    `k` clusters, exactly `min(k, n)` for `n` distinct colors, counts adding
    up to the histogram and each positive, heaviest first, the same result
    for pixels or entries in any order, few colors coming back exactly);
  - `check`: matching reference colors to clusters, foreign paint, verdicts;
  - `palette`: the plain-text palette format, parsed and written, with the
    law that a written palette reads back as itself;
  - `input`: grid sampling of decoded RGBA pixels, corner background
    detection and background exclusion;
  - `diff`: matching the clusters of two images;
  - `json`, `report`: the JSON documents (quoted text reads back as itself)
    and terminal tables;
  - `color`, `order`, `sort`, `sums`, `text`: hex notation, order keys of
    doubles, a merge sort, sums over sequences, and text helpers.
- `app/` is the command-line program: image decoding, the floating-point
  colour maths (sRGB to CIELAB, CIEDE2000), formatting of numbers, files and
  the terminal.
- `tests/` exercises the library on concrete values.

Distances are doubles computed by the program; the library compares them by
order keys (`order`), integers that sort exactly as the doubles do.
