# VPS bandwidth observer

A passive VPS bandwidth observer. It reads cumulative Linux `/proc` counters,
turns interface byte deltas into RX/TX rates, keeps the best observation of a
time window with a three-slot windowed extremum, and fuses congestion-factor
reports with a scalar Kalman filter to select a QoS ceiling.

## Layout

- `src/` is the verified library (Verus):
  - `text.rs`: line splitting, whitespace tokenisation, trimming, splitting at
    a character and decimal counters, specified as the `str` methods behave;
  - `collector.rs`: `/proc/net/dev`, `/proc/net/snmp`, `/proc/net/netstat` and
    `/proc/net/sockstat` parsing, counter assembly and deltas, bounded histories
    and the bounded-history law;
  - `estimator.rs`: the constant-space windowed maximum/minimum over integer
    order keys, with the windowed-extremum law;
  - `factors.rs`: the counter factors and the window/baseline bookkeeping of
    the measurement factors;
  - `history.rs`: the bounded metrics history;
  - `config.rs`: the configuration comment default.
- `app/` is the program around it: file and process I/O, the JSON
  configuration and state files, the web dashboard, and the floating-point
  parts (rates, the Kalman filter, the ceiling policy, factor statistics, and
  the float front of the windowed extremum).
- `tests/` runs the library.
