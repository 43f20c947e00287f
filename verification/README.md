# Rocktier OCR

Makes scans and screenshots searchable, offline: PP-OCR models run through
ONNX Runtime, and the recognised words go back into the PDF as an invisible,
selectable text layer.

## Layout

- `src/` — the library, verified with Verus. Every public function carries a
  contract over a mathematical model, and the laws the library keeps are
  proof functions beside the code:
  - `grid`, `components` — 2x2 dilation of the detector's mask and its
    8-connected components (a partition of the foreground, flood order
    inside each component, raster order between them);
  - `hull` — the exact convex hull of a component's pixels (Andrew's
    monotone chain on `i64` points, no precondition);
  - `order`, `frame` — reading order of detected boxes, and the letterbox
    padding of very short or very wide frames;
  - `ctc`, `words` — the recogniser's alphabet, the CTC collapse of its best
    path, and the grouping of decoded characters into words;
  - `text`, `textlayer` — white space, decimal, hex and UTF-16 renderings;
    glyph widths, font codes, the ToUnicode CMap and the text operators of
    the invisible layer;
  - `forms` — which form XObjects a page reaches, each visited once;
  - `resources` — the steps that make the hidden-text font reachable from a
    page while keeping the resources it had, its own or inherited;
  - `job`, `export` — the bookkeeping of a conversion, its summary and the
    plain-text export.
- `tests/` — tests of the library on concrete values.
- `app/` — the command-line program around the library: ONNX Runtime,
  pdfium rendering, image preprocessing and the floating-point geometry of
  boxes and crops, and the lopdf editing of the output document.

```sh
rocktier-ocr <input.pdf|image> <out.pdf> [--dpi 200]
rocktier-ocr convert <input.pdf|image> <out.pdf> [--txt out.txt] [--dpi 200]
rocktier-ocr write-searchable --pdf <input.pdf> <pages.json> <out.pdf> <dpi> [replace]
```
