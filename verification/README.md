# frame_store

An encrypted object store and streamer. A file is cut into segments, a segment
into fixed-size frames, and every frame is encrypted on its own. Segments are
stored as attachments behind webhooks. A byte range is served by downloading the
frames that it touches, in order, within a memory budget.

`src/` is the library. Verus proves the contract of every function, but for
those that call outside crates and the standard library where Verus has no
specification of them: their contracts are believed without proof. These are the
items marked `external_body`, `external_type_specification` and
`assume_specification` in `buffer`, `crypto`, `hash`, `text`, `ratelimit`,
`discord`, `s3`, `measure` and `metadata`; a comment on each says what it claims.

| area | modules |
|---|---|
| bytes and frames | `buffer`, `crypto`, `frame`, `download`, `byte`, `join`, `hash` |
| uploads | `upload` |
| streaming | `request`, `stream`, `stream_laws`, `window`, `window_laws`, `fixed_stream`, `fixed_laws`, `budget`, `pacer`, `sizing`, `planning`, `sums` |
| quotas and rate limits | `quota`, `quota_handle`, `quota_laws`, `ratelimit` |
| webhook storage | `webhook`, `registry`, `discord` |
| file server | `catalog`, `file_laws`, `http`, `config` |
| S3 gateway | `s3`, `metadata` |
| command line | `cli`, `measure` |
| text | `text` |

Times are `u64` nanoseconds that the caller reads off its clock; wall-clock times
are seconds since 1970. Functions named `law_*` state what holds across
operations.

`app/` is the program around the library: sockets, databases, the HTTP servers,
argument parsing, and everything that computes with floating-point rates.

`tests/` runs the library with the real outside crates.
