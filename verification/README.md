# load_balancer

A TCP load balancer whose decisions are verified with Verus.

- `src/` is the verified library: the selection strategies (round robin,
  sticky round robin, weighted round robin, least connections, least
  response time), the subscription protocol (`subscribe <address> <weight>`),
  the bookkeeping of open connections and response times, and the step
  function that drives one client request (`session`). `src/laws.rs` and
  `src/session.rs` hold the proved properties that span several requests.
- `app/` is the network side (tokio): `app load_balancer <strategy>`,
  `app server <address> [weight]` and `app client`.
- `tests/` exercise the library on concrete values.
