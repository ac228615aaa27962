# sensormon

A wideband receiver for 315/433/868/915 MHz ISM-band sensors (Fineoffset /
Ecowitt weather, soil, leak, lightning and air-quality sensors; Toyota TPMS).
SDRs or recorded IQ files go in; typed sensor events come out as JSON lines
over HTTP.

## Layout

- `src/` — the `sensormon_core` library, each function proved against its
  contract:
  - `bits`, `crc` — bit strings, sync search, differential Manchester coding,
    CRC-8 / sum / xor integrity checks;
  - `protocol` — frame decoders (WS90, WH51, WH55, WH57/WH31L, WH25/WH32,
    WH46, Toyota TPMS), decoder selection by band and symbol rate, and
    `decode_all` over both polarities;
  - `event`, `merge` — typed events and the cross-receiver merger;
  - `dsp` — cutting the stream into detector hops, the sample history a
    burst is cut out of, and the grouping of hot spectrum bins into regions;
  - `runtime`, `source`, `chirps` — the receiver threads' decisions as state
    machines: band pipelines with settle window and LRU eviction, dropped
    sample accounting, admission and retention of undecoded-burst examples,
    the stall watchdog and `/health`;
  - `totals` — the counters each receiver reports, with evicted band
    pipelines folded in so that they never go down;
  - `config`, `iqfile`, `sdr`, `units` — configuration rules and defaults,
    IQ file layout, Airspy gain plan, RTL-SDR hop schedule, stream indices.
- `app/` — the `sensormon` program around the library: command line, TOML
  parsing, the floating-point signal chain (burst detector, extraction, FSK
  demodulation), SDR drivers loaded at run time, threads, SQLite chirp
  store and the HTTP API.
- `tests/` — tests of the library.

Readings are exact integers in the sensor's own steps (`…_x10` is tenths,
`…_x4` quarters); the JSON of the HTTP API gives them in natural units.
