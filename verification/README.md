# CamBridge

A network camera for Windows: one PC captures a webcam or capture card and
streams it over UDP on the private LAN; another PC receives it, shows a
preview and offers it to other programs as a virtual camera.

## Layout

- `src/` is the library, written in Verus and proved:
  - `capability`: pixel formats, frame rates, capture modes (listed exactly
    as the driver advertises them), codecs, raw bandwidth.
  - `pipeline`, `sender`, `settings`: what a sender produces from its input
    and the dialog's choices, and what it does with each frame.
  - `protocol`, `transport`, `wire`: the frame header, the receiver hello,
    splitting frames into fragments of at most 1200 bytes and reading them.
  - `reassembly`, `receiver`: rebuilding frames from fragments in any order,
    keeping their headers, and deciding which frames are shown and decoded.
  - `net`: addresses as plain values; only loopback and private LAN peers.
  - `recovery`: reconnection back-off.
  - `runtime`, `mft`, `camera_pipe`, `windows_mf`: picture conversions
    (XRGB, NV12, JPEG and resizing through the `image` crate), the test
    pattern, the virtual camera's pipe frames, native capture types.
- `app/` is the program around it: the window, sockets, threads, and the
  Media Foundation capture, codecs and virtual camera (Windows only).
- `tests/` runs the library on concrete values.

Times in the library are nanoseconds on a monotonic clock, handed in by the
program.
