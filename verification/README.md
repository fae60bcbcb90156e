# quiklight

An ambilight driver for the Robobloq Quiklight USB LED strip on X11 desktops.

- `src/` is the verified library: the HID protocol (`RB` commands, `SC` colour
  frames, 65-byte reports), the sampling of the screen edges from a captured
  frame, monitor selection, the command-line value parsers, the
  capture-resolution presets, and the choice of the device's hidraw node.
- `app/` is the program around it: X11 capture through shared memory, the
  device and configuration files, the colour processing in floating point, and
  the command line.
- `tests/` exercises the library on concrete values.
