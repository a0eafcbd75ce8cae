# Ratatoskr

**Carries media streams to a renderer, and owns none of them.**

Ratatoskr subscribes to a media stream, hands whole frames to a renderer, and
reports back what actually arrived. It implements no transport: what looks like
a sequence number, an acknowledgement or a retransmit timer belongs upstream.

`src/` is the library, every item of it verified with Verus. It reads no clock,
no socket and no file.

| module | what it holds |
| --- | --- |
| `video` | chunks and parity in, whole access units out |
| `frame`, `erasure`, `reassembly` | what that means: a waiting frame, the XOR stripe code, the state of reassembly |
| `laws` | what reassembly promises of any step and any run |
| `feedback` | what the receiver says back, and how often |
| `receiver` | what the transport reported becomes media events and feedback |
| `catalog` | what advertises becomes a picker; a pick becomes a request |
| `ffi` | what the C interface returns, writes and leaves as its last error |
| `records`, `keys`, `clock`, `text` | the records, names, times and text the rest speaks of |

How a record is spelled on the wire, which records are well-formed and how a
feedback record is built are the media contract's. Where that decides, a
function takes the contract's answer, or a closure that asks for it, and its
contract says what follows from each answer.

`app/` is the shell around the library: the socket and the transport, the mesh,
the clock, the C ABI and three field probes.

## What is decided here

- An incomplete frame is given up on after 250 ms on the receiver's clock, or
  sooner if 64 newer frames wait. The bound evicts; it never errors.
- A frame that ended stays ended: late records for it are discarded and counted,
  as long as it is among the 256 that ended last.
- After any loss nothing reaches the renderer until the next keyframe.
- A frame still waiting is asked for by chunk after 64 ms, then every 32 ms,
  three times. That never asks for a keyframe.
- A frame given up on is reported late, and a keyframe is asked for at most once
  per 500 ms.
- A payload that does not decode is surfaced and counted, never dropped.
