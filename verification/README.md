# utp

A verified implementation of µTP, the Micro Transport Protocol: a reliable,
ordered, stream-oriented transport that runs over UDP and uses the LEDBAT
delay-based congestion controller, so that bulk transfers back off in the
presence of competing interactive traffic instead of saturating the link.

- `src/` is the library. Everything in it is verified with Verus: the wire
  format, the LEDBAT controller and slow start (with its floating point
  arithmetic, done in integers), delay histories with clock-drift
  compensation, selective acks, fast resend and fast timeout, RTO backoff, MTU
  search, keepalives, RST handling, window decay and zero-window probing, and
  the answers that a blocking call is given.
- `tests/` run it, over a network that is a list of datagrams.
- `app/` is ordinary Rust around the library: sockets, threads, condition
  variables and deadlines.

## How it is put together

Every step of the engine is a function on the state of a socket and of what
the sockets share (`engine::model::St`); the executable code of the step is
proved to compute that function. The steps come together in
`engine::context::Context`, which holds all connections of a UDP port, and in
`endpoint::Endpoint`, which decides what to do with what arrives and what the
users of the connections are told. Neither of them sends or waits: datagrams to
be sent are collected and handed out, and a call that would have to wait is told
so.

A call goes by one reading of the clock. Functions whose names end in `_at` take
that reading as an argument.

## What holds across calls

- `engine::link`: two sockets and a network that loses, repeats and reorders.
  What a user reads is a beginning of what the user at the other end has
  written, and a user who reads to the end of the stream has read all of it.
- `engine::arrivals`: data packets in any order, with repeats, give their
  payloads in the order of their numbers, each once.
- `engine::retained`: a packet stays in the send queue until the peer acks it.
- `engine::acking`: a socket acks nothing that it has not received.
- `engine::reliable`: so nothing is lost. At all times every packet waits at the
  sender or has come to the receiver; once the sender's queue is empty, all that
  was written is there to be read.
- `engine::window`: a delay at the target or beyond never lets the window grow.
- `engine::laws`: acks read back as what was received; at most one RST per
  stream; blocked requests get no reply; dialling gives up; the end of the
  stream stays the end; connections that are held are not forgotten.
