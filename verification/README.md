# routefilterd

A daemon that combines IRR data sources (RPSL dumps and NRTM feeds) into an
in-memory store and answers filter queries over HTTP: the members of an
AS-set, the AS numbers it resolves to, and the route prefixes of those AS
numbers.

Layout:

- `src/` is the library, verified with Verus:
  - `text.rs`: characters, trimming, splitting, string order, decimal text.
  - `names.rs`: the shapes of AS numbers and AS-set names; AS numbers in
    public use.
  - `prefix.rs`: IPv4 and IPv6 prefixes: reading, canonical text, and the
    blocks not routed on the Internet.
  - `rpsl.rs`: parsed RPSL objects and the splitting of a dump into objects.
  - `store.rs`: data sources, AS-sets and routes; imports and queries,
    recursive AS-set resolution, and the laws that relate them.
  - `nrtm.rs`: the NRTM request and what each stream event does to the store.
  - `api.rs`: the answers of the HTTP API.
  - `loader.rs`: choosing how a URL is fetched and how a file is decompressed;
    serial files.
  - `config.rs`: configuration values and the logger's decisions.
- `app/` is the program around it: configuration file, logging, downloads,
  the NRTM connection loop and the HTTP server.
- `tests/` exercises the library on concrete values.
