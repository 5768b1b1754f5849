# async_rt

The verified core of a single-threaded runtime for futures.

The library in `src/` decides and the host does: `Rt::run` takes an `Event` (what became of the
last poll) and gives the next `Action` (poll this future, wake this waker, wait, return). So the
library holds no thread, no clock and no future of its own, and each of its functions has a
contract that fixes the result (that of `is_sorted` only where the comparisons of the elements make
a total order).

- `rt`: `Rt`, `Spawner`, `SendSpawner`, `IdWaker` and `Join`
- `sync`: `AsyncMutex`
- `io`: `Alarm`
- `task`, `slots`, `channel`: what the runtime is made of
- `model`: the state of the runtime as the contracts speak of it, and its invariant
- `laws`: series of uses of the runtime, and what holds of every one: the invariant, the order of
  messages, what a step leaves alone
- `turn_laws`: which task is polled, how often, and what holds when the runtime returns
- `join_laws`: what a `Join` gives
- `test_utils`: `is_sorted`

`app/` is a host: it runs the futures of std on the library, with threads, a clock and wakers that
may be woken from any thread. `tests/` holds a second host, with a clock that jumps from alarm to
alarm.
