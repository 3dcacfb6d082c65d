# kqloop

A low-level event loop for Unix systems with kqueue (macOS and the BSDs):
read/write callbacks on file descriptors, single-shot and interval timers,
poll timeouts that follow the nearest timer deadline, panic-isolated
dispatch, per-fd error handlers, metrics and graceful shutdown.

The loop's decisions are verified with Verus:

- `src/sys/` — the interest mask `Filter`, readiness `Event`s, the kevent
  change lists for (de)registration and the decoding of reported kevents.
- `src/eventloop/eventloop.rs` — the loop state: fd handlers, timers,
  pending events, metrics and the reports for the owner. Every operation
  that needs the kernel is split in two: the loop says what to ask
  (`registration_request`, `poll_timeout`, ...) and takes in the kernel's
  answer (`register_read`, `complete_poll`, ...).
- `src/eventloop/callback.rs` — the callback traits. Each callback keeps a
  spec-level `history` of its calls; dispatching and timer processing are
  proved to call exactly the callbacks an event or a due timer is for, with
  the fd and event, and to account for what each call came to. A read or
  write callback that panicked (caught in `app/`) is handed to the fd's
  error handler, attached with `set_error_handler`, and the loop goes on; a
  panicking timer callback is counted and reported like a failing one.
- `src/eventloop/model.rs` — the mathematical model each operation is
  proved against; `src/eventloop/laws.rs` — properties across operations.
- `app/` — the kqueue system calls, `catch_unwind` around user closures,
  `Duration` conversions, printing of reports, and the `run` loop.
