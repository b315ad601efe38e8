# paintress

Orchestrates a wall of Spectra 6 e-ink displays: discovers them over mDNS,
keeps `paintress.toml` (which display hangs where, and how it is mounted),
dithers an image to the six-colour palette, cuts it into one tile per display,
rotates and packs each tile to 4 bits per pixel, and uploads it.

Layout:

- `src/` — the verified library (Verus): palette and 4bpp packing (`palette`),
  rotation, cropping and previews of indexed images (`image`), grid and
  freeform layouts (`layout`), the configuration and its merging with
  discovered displays (`config`), discovery records and target resolution
  (`discovery`, `backend`), the texts sent and reported (`transport`, `ota`,
  `text`), and the glue the program uses (`fleet`).
- `app/` — the command-line program: argument parsing, mDNS and HTTP, files,
  image decoding and floating-point dithering, and the TOML form of the config.
- `tests/` — tests of the library.
