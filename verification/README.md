# Loom

Loom streams a desktop to a headset: a host captures and encodes its displays, fragments the
frames into QUIC datagrams, and speaks a small CBOR control protocol with one client at a time.

The logic of the host is a verified library: every function in `src/` carries a contract that Verus
proves, but for the few items that speak for ciborium, hex, serde_json and std's debug formatting,
whose contracts it takes on trust.

* `src/`: the library. Wire formats (`cbor`, `control`, `datagram`), the session and connection
  state machines (`session`, `conn`), the client's receive model and clock filter (`reassembly`,
  `clocksync`), pixel conversion and the test pattern (`convert`, `nv12`, `frame`, `testpattern`),
  what the encoders and capture backends are told and what is made of their answers (`encode`,
  `annexb`, `constraints`, `capture`, `media`, `streams`), and the conformance cases (`cases`,
  `vectors`).
* `app/`: the daemon around it, which does the I/O: QUIC, TLS, threads, the desktop portal and
  PipeWire, ScreenCaptureKit, libx265, libavcodec and VideoToolbox.
* `extras/`: the C files through which the daemon reaches libx265 and libavcodec. They are compiled
  and linked with it.
* `tests/`: the library from outside.
