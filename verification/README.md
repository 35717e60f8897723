# Tessera

Seam-free tiled upscaling for large images and scanned maps, proved in Verus.

Big scans cannot be pushed through a neural upscaler in one piece, so they are cut
into overlapping tiles, each is upscaled, and the results are cross-faded. This
library settles where the tiles lie, how they are blended, in which order rows
reach their destination, and when a run is refused. All of that is verified.

## Layout

| Module | Contents |
|---|---|
| `axis`, `tiling`, `seams` | tile placement, exact blend weights, and what they guarantee |
| `blend`, `pass`, `pipeline` | banded blending, one pass of a backend, chained passes |
| `reconstruct` | what tiling an image and blending it again keeps |
| `agree` | when a run can have only one result |
| `scale` | reaching any magnification with a fixed-factor model |
| `backend`, `resize` | the backend interface, and classical resampling |
| `onnx`, `planes` | fitting tiles to a model, and making images of what it returns |
| `raster`, `sink` | images in memory, and where finished rows go |
| `world`, `sidecar` | world files and their names |
| `models`, `preview`, `desktop` | what a graphical front end decides |
| `text` | small operations on characters |

Floating-point numbers do not occur in the library. Where they are needed, the
caller hands in plain functions: a `Blender` that sums weighted pixels, the
conversions between bytes and a model's numbers, the `Arithmetic` of map
coordinates. The contracts say exactly which values those functions are given and
where their results go.

`app/` holds the command-line program and the requests of the desktop window: file
access, ONNX Runtime, and the floating-point functions.

## Trusted code

The `image` crate resamples and encodes, `rayon` spreads tiles over threads,
`base64` writes data URLs, and `std` takes paths apart. Each is called in one small
function whose comment says what is claimed of it.
