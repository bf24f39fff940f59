# loranav

Firmware of a LoRa/GNSS tracker node (ESP32-S3, SX1262 radio, SH1106 screen),
split into a Verus-verified library and the embedded application around it.

- `src/` — the verified library:
  - `crc`: CRC-16/XMODEM through a lookup table, proved equal to the bitwise
    definition; linear over exclusive or; appending the CRC high byte first
    leaves zero; any one-byte change and any error burst within 16 bits changes
    the checksum.
  - `packet`: the radio frame (magic, addresses, type, length, payload, CRC);
    `Packet::new`, `encode`, `decode`, and the round-trip and corruption laws.
  - `uart`: assembly of NMEA lines from the GNSS serial stream, and the bound
    that keeps it from overflowing on NMEA output.
  - `nmea`: the ASCII check of sentence bytes.
  - `display`: layout of the status screen, numbers as decimal text.
  - `radio`: LoRa channel settings, transceiver pins, the test-frame check.
- `app/` — tasks for the board: peripherals, radio driver, serial reads, NMEA
  parsing, drawing; they call the library for every decision it makes.
- `tests/` — tests of the library on concrete values.
