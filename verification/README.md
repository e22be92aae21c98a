# image_ffi

RGBA image filters with machine-checked contracts, and the command-line
front end that loads them as plugins.

- `src/` is the verified library (Verus):
  - `layout` — where each channel of each pixel lies in an RGBA buffer;
  - `blur` — the box-blur passes and the iterated blur, with the laws that
    an image of one colour is left unchanged, that the horizontal pass
    commutes with a left-right mirror, that the vertical pass is the
    horizontal pass of the transposed image, and that `a` rounds followed by
    `b` rounds are `a + b` rounds;
  - `mirror` — left-to-right and top-to-bottom mirrors, with the laws that
    each undoes itself and that they commute;
  - `params` — the `key=value` / `key:value` parameter language;
  - `blur_plugin`, `mirror_plugin` — what each plugin does with a buffer and
    its parameter bytes, status codes included;
  - `processor` — the buffer-length check and the plugin library's file name
    and path (joined by Windows or Unix path rules);
  - `png` — which files are read as PNG (content first, extension second),
    and PNG decoding and encoding through the `image` crate.
- `app/` is the program: argument parsing, file reading and writing,
  loading the plugin library, and the C entry points of the plugins.
- `tests/` runs the library on concrete images and parameter texts.
