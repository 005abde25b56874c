# selector4nix

Two parts of a proxy for Nix binary caches, written in Verus and proved.

- `stream`: a file that is fetched in chunks over several connections at once and handed out in
  order. Chunks that fail are retried from where they stopped, with a growing wait in between.
  The number of connections is bounded by a window and by permits of a throttler.
- `nar_info`: the listing of the directory of a store path, put together from the answers of
  several substituters.
- `fault`: a plan of failures, to try out how a stream copes with them.

The library neither polls connections nor waits for responses. It says what is to be done next and
is told what came of it. `app/` does these things with futures, tokio and reqwest.

## Layout of `src/stream`

- `interface`: what a stream needs from its surroundings, and what it tells them
- `chunked`: the stream itself
- `chunk`, `piece`, `range`, `retry`: a chunk, the data it holds, which bytes it covers, and how long
  to wait before it is retried
- `model`: the state of a stream and how each operation changes it
- `preserve`: every operation leaves a stream well-formed
- `order`, `run`: the file is handed out in order, whole, and nothing else is
- `items`: the pieces handed out are those that arrived
- `launching`, `coverage`: every chunk is asked for once, in order, before the stream ends
- `driving`: a poll asks every connection before it is over
- `budget`: a stream fails when, and only when, a chunk has failed more often than it may be retried
- `ending`: a stream that has ended has ended for good
- `laws`: what holds of every stream at every moment
- `window`, `sum`: totals over the chunks of a window

## Layout of `src/nar_info`

- `directory`: what those who ask for a listing see
- `listing`: which answer becomes the listing
- `conversation`: what holds of a listing from the first response to its result
- `completion`: what a listing comes to, once it is known what came of the requests
- `request`: which requests are made
- `header`: the text of HTTP header values
