# openexr

OpenEXR reading and writing in verified Rust.

`src/` is the library. Every function in it carries a contract that Verus
proves. Samples are IEEE 754 bit patterns, so that the library computes with
integers alone; where a curve of real numbers is needed (the log table of B44,
the perceptual tables of DWA), the caller hands it in as a table.

- `types`, `header`, `header_laws`, `attrs`, `text`, `bytes`: the values of the
  format, its headers and their attributes.
- `flat*`, `grid`, `mipmap`: flat images, stored in lines or in tiles, with one
  part or several, at one resolution or many.
- `deep*`, `ragged`: deep images in the same arrangements.
- `layout`, `offset_tables`: where the chunks of a file stand.
- `pack`, `zip`, `rle`, `pxr24`, `b44`, `huf`, `code`, `tree*`, `bits`, `dwa*`:
  the compressions.
- `half`, `samples`: conversions between sample formats.
- `layers`, `luma_chroma`, `resample`: what the channels of an image mean.

A function whose name begins with `law_` states a property of the library as a
whole: that what is written reads back, that tiles cover an image, that layers
partition the channels, that no code is shorter than the one that is built.

zlib streams come from the `flate2` crate. What is taken on trust of it, and of
the UTF-8 functions of the standard library, stands in the contracts of
`inflate` and `deflate` in `pack`, and `utf8_text` and `utf8_lossy` in `text`.

`app/` holds what needs floating-point arithmetic: it makes the tables of the
curves, does the transforms of DWA and of luma and chroma, and writes flat
images from `f32` samples. Images that are read hold bit patterns; `samples_of`
turns them into `f32`. The library hands a PIZ chunk back to its caller; `app/`
refuses it, for nothing here unpacks one.
