# comline-simulator

The simulation engine behind the Comline playground and tutorial: protocol
instances wired together in memory, with fault injection, a steppable virtual
clock, forwarding gateways, and record & replay. It is written in Verus: every
function of `src/` states what it does, and is proved to do it, but for those
named under trust below.

## Layout

- `src/` is the library. It owns the wire, the behaviours, the clock and the
  session model. Its contracts speak of views: a `Session` is a `SessionView`, an
  `Engine` an `EngineView`, a JSON value a `Json`.
- `app/` stands around it: the `wasm-bindgen` surface, the JSON forms of the
  library's types, and the handshakes and datagrams of `comline-runtime`.
- `tests/` runs the library on concrete values.

## The host

The library makes and reads JSON-RPC frames itself. Datagram frames and
handshakes are the runtime's. Where the engine needs one made or read it says so:
`Engine::step` and `Engine::advance` return an `Ask`, the host does the work, and
hands the outcome to `request_decoded`, `response_decoded`, `request_framed` or
`reply_framed`. A scripted behaviour goes the same way: the host runs the script,
and `script_ran` takes what it came to. The pump and a replay do likewise.

Instants, delays, latencies, timeouts and probabilities cross as doubles by their
bits (`double::Double`); sums and parts of them are rounded as the machine rounds
them (`arith.rs`). The clock keeps whole microseconds, so that events due at one
instant stay in the order in which they were scheduled.

A caller can bring a behaviour of its own: anything that implements
`behavior::Behavior` goes into `Handler::Custom`. It has to answer by the calls that
it was asked and nothing else, as a run could not be made again otherwise.

## What holds of the whole

Beside the contracts stand laws, as public proof functions. Among them: a call over
a clean wire comes back with what the server answers, whatever the framing, the codec
and the timeout, and so does one that is forwarded (`trips.rs`); every call under a
timeout is settled by the end of its window, whatever the wires do (`waits.rs`); a
result, once there, stays through whatever is done later (`runs.rs`); two windows of time
come to the same as one (`runs.rs`); every session is in order, however it was
built (`topology.rs`); a replay ends where its recording says, and two of them
agree (`record.rs`); a frame is read back as it was written (`framing.rs`).

## What is taken on trust

- `serde_json` and `rmp-serde` encode and decode bodies and texts (`json.rs`), and
  `serde_json` splits a JSON-RPC frame into its members (`framing.rs`).
- `base64` turns a link into bytes and back (`session_codec.rs`).
- A few functions of `std` on text (`text.rs`).

Each stands behind one small function whose contract says what is claimed of it.
