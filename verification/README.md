# jjinx

A small HTTP server and reverse proxy configured in an nginx-like language,
with its logic verified by Verus.

```bash
jjinx --config your-config.conf
```

## Layout

- `src/` — the verified library.
  - `text.rs`, `strmap.rs`: characters, integer literals, decimal text, and
    insertion-ordered maps keyed by strings.
  - `config/`: the configuration tokenizer and reader (`server`, `route`,
    `upstream` blocks, `set` variables), and grouping servers by address.
  - `vars.rs`: `$name` variables, from configuration scopes and from requests.
  - `uri.rs`: reading URIs (percent-decoding, `.` and `..` segments) and
    replacing a path prefix.
  - `route_matching.rs`: which route of a server answers a path.
  - `http/`: reading requests and responses from the bytes received so far
    (reporting when more are needed), and writing them as bytes.
  - `parse.rs`, `respond.rs`: a simpler request reader and response writer.
  - `proxy.rs`: upstream groups (round robin, least connected, IP hash, with
    failing servers kept aside) and where a passed-on request goes.
  - `tls.rs`: which server's certificate answers a TLS client.
  - `process.rs`: how a connection is answered: the server, the route, the
    plan (a response, files to read, a place to pass the request to), error
    pages and statuses.
- `app/` — the program: sockets, TLS, files, clocks and the environment,
  following the library's decisions.
- `tests/` — tests of the library.
