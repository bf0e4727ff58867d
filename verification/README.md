# vector_bench

Draws tens of thousands of moving glyphs on the GPU, straight from their
outlines, and reports how fast that is. There are two ways of drawing:

- with lines and circular arcs, in 32 horizontal bands per glyph (the default);
- with the quadratic curves themselves, in eight horizontal and eight vertical
  bands per glyph (`slug` as the first argument), for comparison.

`src/` is the verified library: outlines, pieces, bands, atlases, scenes, buffer
layout, frame timing and statistics, each with its contract and the laws that
hold of it. Floating-point values are held as bit patterns. Comparing, clamping
and truncating them is verified integer code; what a sum or a product rounds to
comes from the host, as a function that the library is handed. Rounding aside,
that function has to obey a few laws of arithmetic, from which statements about
two calculations (a line and its reverse, a curve and its two halves) are proved.

Fonts are read with `ttf_parser`, on machines whose `usize` has 64 bits. The table
directory tells beforehand which fonts that crate cannot be asked about.

`app/` is the program around it: the window, the GPU, the font files, the host's
arithmetic and the shaders.
