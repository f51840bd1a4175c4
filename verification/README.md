# Super Antenna

Super Antenna scans a stream of posts and imports those that match one of the global
antennas of a Sharkey instance.

- It fetches the antennas of the instance every minute.
- It reads the stream as server-sent events and looks at each new post.
- A post matches an antenna if it holds all keywords of one of the antenna's groups, as
  whole words.
- A post is imported through `ap/show` if a match is within the antenna's limit of
  matches per minute.

## Layout

- `src/` is the library: every decision of the service, with contracts that Verus proves.
- `app/` is the program around it: the environment, HTTP, JSON, the clock's pauses, logging
  and the Prometheus registry.
- `tests/` runs the library on concrete values.

The library rests on a few facts about the standard library that are stated and not
proved: what `String::from_utf8` decodes and where it stops, that `String::push` appends,
that `char::is_alphanumeric` and `str::to_lowercase` depend on their argument alone, that
the clock can be read, and that `Instant::duration_since` depends on the two readings alone
and gives no more than the longest `Duration`.

## Settings

| Variable | Description |
|----------|-------------|
| BASE_URL | The base URL of the instance |
| STREAMING_URL | The full URL of the streaming API |
| API_TOKEN | The API token, with the scopes read:account and read:admin:antennas |
| STREAMING_TOKEN | The token for the streaming API, if it needs one |
| METRICS_PORT | The port for `/metrics` and `/health`, 9091 if not set |
| MAX_MATCHES_PER_MINUTE | The limit of each antenna, 15 if not set |
