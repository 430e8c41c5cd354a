# sdr_pdu

Verified core of a set of software-defined-radio tools that move protocol
data units (PDUs) between KISS clients and a radio transmitter.

`src/` is the library, verified with Verus:

- `kiss`: KISS framing (FEND/FESC escaping), the stream decoder and the
  encoder over `bytes::BytesMut`, and the data-frame filter; `byte_buffer`
  holds the contracts of the `BytesMut` methods the codec calls.
- `hex`: parsing of the preamble byte and syncword given in hexadecimal.
- `hackrf::scrambler`: the G3RUH multiplicative scrambler.
- `hackrf::mode`: the HackRF device's modes (idle, transmitting, lost) and
  what each operation does in each.
- `hackrf::nco`, `pluto::nco`, `phase`: table-driven oscillators with 8-bit
  and 16-bit I/Q output.
- `hackrf::modulator`, `pluto::modulator`, `fsk`: continuous-phase 2-FSK
  modulation. The floating-point parts (the sine/cosine table and the
  samples-per-bit clock) are computed by the caller and passed in.
- `cat_text`, `cat`: the rigctld-style frequency control protocol.
- `engine`: the transmit sequence as a state machine (key, tune, push
  samples, unkey), with the proof that queued frames go out in order.
- `radio`: local-oscillator offset and I/Q channel split.

`app/` holds the programs (HackRF and PlutoSDR transmitters, KISS proxy):
sockets, hardware access, the tables and bit clock in floating point, and
the loops that drive the library.
