# coord_consensus

The deciding half of a replicated coordination service: a leader-based
consensus protocol with a fast path over dependency evidence, and the frontend
that submits requests to every voter, collects what they answer and releases a
result once the evidence allows it.

Everything under `src/` is Verus: each public function carries a contract over
mathematical views, and the properties that span functions stand as public
proof functions. The code does no I/O. A machine takes an event and returns
effects; the frontend takes a message and returns actions.

| Directory | Contents |
| --- | --- |
| `src/` | the verified library |
| `tests/` | scenarios on concrete values, against the compiled library |
| `app/` | the runtime glue: outbox, transport, watch hub, serialized trace |

Two things come from outside. Byte layouts rest on the variable-length integers
of `postcard`, through two trusted functions in `src/codec.rs`. The digest,
the command identity and the seal of a result are functions that the caller
hands in; contracts ask of them only that equal arguments give equal results.
