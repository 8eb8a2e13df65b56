# Stackaroni

Focus stacking for macro photography: a bracket of 16-bit TIFF frames, each sharp at a
different depth, becomes one picture that is sharp throughout.

- `src/` is the library, verified with Verus. Pixel arithmetic is generic over the
  `Sample` trait, so that the algorithms are proved apart from the number format; `Fixed`
  is an exact implementation of it.
- `app/` is the program around it: the command line, the window, files, threads, and
  single-precision samples.
- `tests/` runs the library on concrete stacks.

The pipeline registers the frames against the middle one, measures focus, refines the
measure into weights along image edges, and fuses the frames' pyramids. A second method
selects wavelet coefficients instead.
