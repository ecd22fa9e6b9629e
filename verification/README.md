# jjs-commons

Building blocks shared by several services:

- `api_util`: errors that are shown to the users of an HTTP API;
- `async_mpmc`: multi-producer multi-consumer channels;
- `buildinfo`: facts about how a program was built;
- `cancel`: cancellation tokens;
- `multiwake`: a primitive that wakes all waiting tasks at once;
- `puller`: pulling of container images;
- `rpc`: remote procedure calls over HTTP and JSON.

`src/` is the library, verified with Verus. It performs no I/O and blocks no
task: operations on shared state return the wakers that are due, and protocols
are state machines that say what to do next and are told what came of it.
Values of other crates that the library computes with are obtained through
small functions marked `external_body`, each of which documents what it relies on.

`app/` holds the asynchronous interfaces that put the library to work with
`tokio`, `hyper`, `reqwest`, `warp` and `dkregistry`. `tests/` holds the tests of
the library.
