# svc

Helpers for calls with scalable video, verified with [Verus](https://github.com/verus-lang/verus).

- `allocator` splits a bandwidth budget over the senders of a call. Base layers are granted in the
  order of the senders; then all senders go up together, tier by tier, for as long as the whole
  tier fits the budget. `throttled_allocator` lets that happen at certain intervals only, and
  `allocation_strategy` decides how much of the bandwidth is handed out.
- `frame_tracker` tracks which video frames have arrived in full, whatever the order in which
  their packets arrive.

## Layout

| Modules | What they hold |
| --- | --- |
| `units`, `time`, `media` | rates, instants and durations, what a sender offers |
| `allocation_model`, `frame_model`, `tracker_model` | the mathematical models that the contracts speak of |
| `allocator`, `throttled_allocator`, `allocation_strategy` | the allocators |
| `frame_tracker`, `frame_info`, `frames_in_flight` | the frame tracker |
| `selected_targets` | the outcome of an allocation |
| `allocation_laws`, `frame_laws`, `tracker_laws` | what holds of the library as a whole |

Short collections are kept in `SmallVec`s. Each of them is wrapped in a type whose methods state
what the `SmallVec` method they call does; these statements are not proved.

The library reads no clock and holds no floating-point number. `app/` does: it makes instants from
the monotonic clock, turns the ratio of an allocation strategy into a rate, logs what an allocator
refuses, and has errors that can be displayed.
