# oxcb_media

A 3×3 USB macropad with a rotary encoder, a small screen and a ring of lights
doubles as a media controller. A daemon on the host streams the volume and an
audio spectrum to it over a serial link; the pad sends media keys and encoder
clicks back.

`src/` is the logic of both ends, verified with Verus:

- `wire`, `proto`: framing and messages. A stream of messages is received as it
  was sent, however it is cut into packets, and a delimiter ends any confusion.
- `state`, `input`: the live state, the menu, debouncing and the encoder.
- `led`, `display`: what the lights and the screen show.
- `storage`: the settings that survive a power cycle.
- `usb`, `link`: the two ends of the serial link.
- `volume`, `audio`: the host's sources.

The functions state exactly what they return; the `lemma_` functions at the end
of each module state what holds of several of them together. Byte stuffing and
variable-length integers come from `postcard` and `cobs`; the four items in
`wire` that reach them are the only ones taken on trust.

`app/` is ordinary Rust around the library: the device's tasks and the host's
programs. `tests/` runs the library on concrete values.
