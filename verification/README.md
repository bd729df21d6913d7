# realtime_state

Keypath-addressed realtime state: clients subscribe to keypaths such as
`games.123.players`, writes to a keypath are published through Redis, and
every client subscribed at or above a written keypath receives the update over
a websocket.

The library under `src/` is written in Verus and verified:

- `keypath` — splitting keypaths into segments, building absolute keypaths and
  the update packets sent to clients, sorting and deduplicating texts.
- `subscription` — the subscription tree (an arena of nodes, each holding its
  clients and its children by segment), with walking and creation of keypaths,
  removal of clients, and the collection of observers, descendants and broker
  patterns; the laws of the tree stand beside the operations.
- `tracker` — the per-client subscription tracker: which keypaths a client
  holds, which clients a keypath reaches, and which broker patterns change
  when subscriptions change.
- `gateway` — the websocket protocol decisions: what a client message asks
  for, and which packets a published write becomes for each client.
- `rest` — the REST front end's decisions: keypaths from request paths,
  overwrite checks, claims, CORS headers and the responses.
- `json` — a plain JSON value the decisions above read.
- `dash` — the concurrent sets and maps of `dashmap` that the tree uses, with
  the contracts stated for the calls made on them.

`app/` holds the servers: warp and Redis for the gateway, Rocket and
jsonwebtoken for the REST service, and the conversions between `serde_json`
values and the library's `JsonValue`.

`tests/` exercises the library on concrete values.
