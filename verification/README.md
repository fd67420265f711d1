# concurrency

Verified cores of a few concurrency primitives and of a line-echo server.

- `src/bakery.rs`: a lock in the style of the bakery algorithm over atomic
  flags and tickets. Drawing a ticket and each look at another thread's flag
  or ticket are verified steps; the caller spins on `enter_critical_section`
  until it reports `Entered`. The drawn ticket is not stored among the shared
  tickets, so the lock only makes a thread wait while another one is drawing
  a ticket; it does not exclude.
- `src/semaphore.rs`: a counting semaphore; `wait` either takes a permit or
  tells the caller to block and retry.
- `src/channel.rs`: a bounded FIFO channel built on the semaphore.
- `src/echo.rs`: per-connection buffering of the echo server and the
  decisions taken on readable and writable events. Each read that brings
  bytes moves the first complete line of the input to the output; what is
  written back is always a prefix of what was received.

Each module states its laws as proof functions next to the code.

`app/` holds what cannot be verified: threads, mutexes and condition
variables that block on the primitives' decisions, the mio sockets and poll
loop of the echo server, and the command line. The command line offers the
mio echo server and the semaphore run; there is no subcommand for a
future-based or a tokio-based echo server, since no such server is part of
this project.
