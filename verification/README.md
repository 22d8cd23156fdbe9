# popemodem

A modem that sends text over a loudspeaker and receives it through a
microphone, on one of three frequency bands (`band1`, `band2`, `band3`).

`src/` is the verified library (Verus):

- `bytes`, `ascii`: text as bit streams and fixed-width numbers as bit arrays;
- `hamming::Hamming`: the extended Hamming (8,4) code;
- `datalink`, `physical`, `modem::protocol`: frames, with CRC-32/MPEG-2 and
  CRC-16/IBM-SDLC check sequences computed by the `crc` crate and stated
  bit by bit as spec functions;
- `modem::reception`, `recorder`, `receiver`: the receivers' decisions, one
  demodulated bit at a time, as state machines;
- `transmitter`: the bit stream sent for a text;
- `args`, `config`: command line options and frequency bands.

Proved there, among others:

- a frame built by `Protocol::new` and fed bit by bit to a listening
  `FrameReceiver` (or `RecordingReceiver`) comes back as the same data link
  frame with a matching check sequence; any header and frame bits that
  announce and form a readable frame are read as that frame, with whether
  its check sequence matched;
- a protocol frame read back from the values after its delimiter is the
  frame sent;
- one changed value in a header's fields or in a frame's data fails the
  check;
- the Hamming code of any bits, with any one bit inverted, decodes back to
  those bits, and two inverted bits in one code word are reported;
- a text encoded by `transmitter::encode` and fed to a listening
  `SyncReceiver` comes back as the same text, and no earlier bit reports a
  text;
- with no options the modem runs at 44100 Hz and 100 baud, on a carrier of
  4800 Hz (deviation 300 Hz, threshold 150 Hz), one channel.

`app/` is the program around it: audio devices (`cpal`), filters and spectra
(`biquad`, `rustfft`), tone synthesis and detection (floating point), WAV
files (`hound`), the command line (`clap`) and threads.
