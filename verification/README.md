# axum_proxy

A load-balancing HTTP reverse proxy. The library under `src/` holds the
proxy's logic, verified with Verus; `app/` is the server around it (Axum,
Tokio, reqwest), which performs the I/O and hands plain values to the
library.

## Library modules

- `config`: the settings, their defaults, and the choice of configuration
  source (`PROXY_CONFIG` file, `config.toml`, `proxy.toml`,
  `PROXY_CONFIG_JSON`, defaults).
- `error`: the error type, its HTTP status and message.
- `backend`: the table of backends (a `DashMap` keyed by name) and its
  counters; `backend::health` decides what a health probe does: a backend
  is marked down after `unhealthy_threshold` failed probes in a row and back
  up after `healthy_threshold` successful ones.
- `load_balancer`: round robin (the backend at the current position of the
  healthy list, the position then moving on by one), least connections and
  weighted random selection (shares proportional to weight).
- `middleware::rate_limiter`: per-client token buckets in exact integer
  arithmetic (one token is `window_secs * 10^9` units; each nanosecond adds
  `max_requests` units), refilled by the time since the last refill on a
  monotonic clock read in `app/`, and the client key.
- `middleware::health_check`: the stats report.
- `proxy`: routing decisions, the header plan of a forwarded request, and
  the accounting before and after forwarding; `proxy::forwarder` decides
  which headers pass and how upstream failures are reported.
- `text`: decimal rendering, trimming, and the HTTP header name and value
  rules.
- `external`: the declarations of the outside types and calls (`DashMap`,
  `fastrand`, `String::push`) whose contracts are trusted.

Clock readings (the health-check time stamp, the rate limiter's monotonic
nanoseconds) are taken in `app/` and passed to the library. Response times
are kept as a sum in microseconds; the mean and the success
rate, which are reported as floating-point numbers, are computed in `app/`.
