# snaprust

The logic of SnapRust, a Windows screenshot tool, as a library proved with
Verus, and the desktop program around it.

## Layout

- `src/` is the verified library. Every function states what it returns in
  its contract, and Verus proves it.
  - `raster.rs`: RGBA images as rows of pixels; cropping, quarter turns,
    stacking rows, flattening transparency, the edge colour, PNG encoding.
  - `capture.rs`: the capture session: mapping a desktop selection to
    pixels, cropping, rotating, the chosen frame and the stored
    annotations.
  - `scroll.rs`: long screenshots: comparing frames, finding how far the
    page scrolled, the seam between two frames, fixed bottom bars, and the
    stitching state machine that the program feeds with frames.
  - `annotation.rs`: annotation colours, limits and the mosaic filter.
  - `ocr.rs`: recognition results, language tags and the padded image size.
  - `translation.rs`: providers, settings, request checks, prompts and
    replies, and the requests in flight.
  - `history.rs`: history file names, tags, search, export layout,
    retention and the repair done when the history is opened.
  - `pin.rs`: pinned images by label and the placement of a pin window and
    its zoom display.
  - `clipboard.rs`, `text.rs`: pixel layout for the clipboard and string
    helpers.
- `tests/` runs the library on concrete values.
- `app/` is the Tauri program: windows, the Win32 and WinRT calls, files,
  SQLite, HTTP, and the floating-point drawing of annotations and frames.
  It calls the library for every decision.
