# raptorqr_host

Screen-capture receiver for RaptorQR: it reads the animated QR stream a
RaptorQR sender shows on screen, decodes the RaptorQR transport protocol and
the RaptorQ fountain code, and rebuilds the transferred file or text.

## Layout

- `src/` — the library, written and proved with Verus:
  - `protocol` — transport packet layout, CRC32C, parsing (and the
    parse/encode round trip);
  - `fec` — source-block geometry and the RaptorQ decode session (the
    decoder itself is the `raptorq` crate);
  - `transfer` — the transfer tracker: sessions, completion, and
    suppression of a sender's looping stream;
  - `naming` — where a received file is saved (same content kept,
    otherwise `name (1).ext`, `name (2).ext`, …);
  - `capture`, `qrscan` — pixel geometry, cropping, grey scale, and QR
    symbol extraction (through `rxing`);
  - `notify` — the completion notification text and its AppleScript quoting;
  - `receiver` — the receive loop's decisions as a step function (per-display
    decode throttle, save / notify / stop, status and preview timing);
  - `cli`, `console`, `worker` — command-line values, and the decisions and
    status text of the headless receiver and of the capture worker;
  - `text` — decimal digits, string appends, lossy UTF-8.
- `tests/` — tests of the library, including end-to-end transfers encoded
  with the `raptorq` encoder and QR codes rendered with `rxing`.
- `app/` — the headless receiver program: screen capture (`xcap`), file
  system, notifications, and the capture loop, calling the library for every
  decision.

## Flags

```text
raptorqr-host [--out DIR] [--display N] [--region x,y,w,h] [--once]
raptorqr-host --check [--display N] [--region x,y,w,h]
raptorqr-host --notify-test
```
