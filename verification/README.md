# Tōna Transfer

A verified library for sending files of up to 1.5 MiB as a series of QR codes,
from a screen to a camera. A sender cuts a file into packets; a receiver takes
the packets in, in whatever order the camera sees them, and hands the file back
once it can be put together and checked.

There are three transports:

- text: the compressed file as Base64, in lines that name the transfer and the
  part (`text`, `text_receiver`);
- binary, `TN2`: chunks of bytes, with one parity packet for each eight chunks if
  error correction is on (`binary`, `binary_receiver`);
- fountain, `TNF`: chunks of bytes and pseudo-random mixes of the chunks of a
  window, from which lost chunks are solved (`fountain`, `fountain_receiver`,
  `window`, `mask`).

The contracts are stated over views: a receiver is a value such as
`BinaryView`, and `processed` says what one packet makes of it. What holds of a
transport as a whole stands in `text_laws`, `binary_laws`, `fountain_laws`,
`solving` and `span`: that the file arrives whatever the order, the repetitions and the
losses that the transport can bear, that only the announced file is handed out,
and that it is handed out once.

Compression, Base64, SHA-256 and the reading of UTF-8 come from other crates and
the standard library; `codec` holds the calls and what is taken for granted of
them.

`app/` is the WebAssembly interface around the library, and `tests/` runs it.
