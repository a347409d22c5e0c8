# Router sandbox

Routing strategies for Dynamo whose decisions are verified with Verus.

`src/` is the library `router_sandbox`: executable Rust with contracts, proved. It holds no
floating-point arithmetic, clocks, locks or I/O. A host hands in plain values (token counts, bit
patterns of numbers it has computed, nanoseconds on a monotonic clock) and takes plain values back.
`app/` is such a host for Dynamo's router plugins. `tests/` runs the library.

## Modules

- `ieee`, `choice`, `ranking`, `names`, `table`, `text`, `worker`: comparing numbers by their bits,
  picking the best candidate, ordering names, and the tables that the policies share.
- `selection`: costed candidates and the errors of worker selection.
- `session_affinity`: a session stays on its worker while that worker is within a slack of the
  least loaded one. Remembered sessions live in an `lru::LruCache`.
- `sticky_until_saturated`: a warm worker is kept until a cold one is less loaded by a margin.
- `sglang_cache_aware`, `sgl_router_cache_aware`: cached prefixes decide in a balanced pool, load
  in an unbalanced one.
- `thunderagent`: program-aware flow control. `model` says what each step makes of the state,
  `scheduler` and `classifier` execute the steps, `soundness`, `retention`, `waking` and `turns`
  prove what always holds, and `accounting`, `deadline`, `headroom` and `laws` what the
  steps promise together.
- `policy_queue`: the same idea on a policy queue that keeps programs in their order of arrival, in
  `indexmap` collections, with its own `model`, `soundness` and `laws`.

## What is trusted

The wrappers around `lru` stand in `session_affinity/recency.rs`, those around `indexmap` in
`policy_queue/indexed.rs`. Each names the function it calls and states what is believed of it.
Everything else is proved.
