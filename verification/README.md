# Eyedropper

The verified core of an eyedropper applet for the COSMIC desktop, written in
[Verus](https://github.com/verus-lang/verus), and the applet around it.

- `src/` is the library. Every function states what it returns or changes, and
  Verus proves it.
  - `picker` — captured outputs, cropping the screenshot, hovering, clicking and
    the texts of a colour (hex, RGB, HSL).
  - `widget` — the magnifier lens: its zoom, its texture and its place.
  - `app` — the applet's state, how each message changes it, and what the windows
    show. Effects are returned as actions.
  - `float`, `rounding`, `order`, `near` — IEEE 754 numbers computed with
    integers, and what rounding keeps.
  - `cli`, `config`, `activation` — arguments, settings and D-Bus activation.
- `app/` is the applet: it talks to the compositor, the desktop portal and D-Bus,
  hands events to the library and performs the actions that come back.
- `tests/` runs the library.

The pixels themselves are held by the `image` crate. `src/picker/rgba.rs` says
what the library relies on there.
