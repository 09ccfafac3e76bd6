# fomoxa_codec_bench

A benchmark of wire formats on the same game messages: Fomoxa, Protobuf
(`prost`) and Cap'n Proto (`capnp`, plain and canonical). It measures how many
bytes each format produces, how fast each one encodes and decodes, and what
that means over a plain TCP socket.

The codecs, the framing and the integer side of the measurements form a
library verified with Verus. The Fomoxa and plain Cap'n Proto encoders and
decoders are stated over byte-level specifications, and the round trips
between them are proved. The segment table of a Cap'n Proto message is
written and read by the `capnp` crate, and canonical Cap'n Proto bytes come
from it too; their round trip is proved from what that crate is trusted to
guarantee (its output is canonical and holds the same values).

## Layout

```
src/bytes.rs       little-endian integers as byte sequences
src/text.rs        byte-wise string comparison; UTF-8 validation through std
src/messages.rs    the benchmark messages (floats held as their bit patterns)
src/fomoxa.rs      the Fomoxa format: fixed-width fields, in order, no tags
src/capnproto.rs   the Cap'n Proto layout of each message, written in one
                   segment or two and read across segments and far pointers;
                   framing and canonicalization through the capnp crate
src/pair.rs        each message with its codecs, behind one trait
src/format.rs      formats and their names, the reusing Encoder, decode
src/samples.rs     the fixed-seed generator and the choice of messages by name
src/tcp.rs         length-prefixed frames and the TCP write modes
src/measure.rs     digit grouping, nearest-rank pick, CPU ticks from `stat`
app/               the `codec` and `tcp` programs: command line, clocks,
                   sockets and threads, Protobuf, floating-point sample data
tests/             tests of the library
```
