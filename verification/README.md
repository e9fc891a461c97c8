# kipa

A distributed key to IP address look-up network. Each node's public key is
mapped to a location in an n-dimensional key space; nodes keep the nodes
closest to them as neighbours, and look-ups are greedy best-first searches
through the neighbour graph, by distance in key space.

## Layout

- `src/` — the library, verified with Verus:
  - `api.rs`: addresses, keys, nodes, locations in key space, requests and
    responses, and the scope in which each kind of request is answered;
  - `key_space.rs`: locations of keys, distances, orderings by distance and
    removal of repeated locations;
  - `neighbours.rs`: the neighbours store and the choice of neighbours;
  - `search.rs`: the decisions of a search through the network;
  - `graph.rs`: how a searching daemon answers requests;
  - `gc.rs`: removal of neighbours that stop answering;
  - `message.rs`: answering request bodies and accepting response bodies;
  - `local_address.rs`: choosing the local address among network interfaces;
  - `cert.rs`: keys made from OpenPGP certificates (`sequoia-openpgp`);
  - `codec.rs`: big-endian integers (`byteorder`), frames and decimals;
  - `error.rs`: public and private errors.
- `app/` — the program around the library: arguments, sockets, threads,
  network interfaces, encodings of messages, and the floating-point scoring
  of neighbours.
- `tests/` — tests of the library.

## Limits

Messages between daemons, and between a daemon and its client, are encoded
as JSON and sent neither signed nor encrypted: the request and response
types have room for a body signature and an encrypted body, but this project
does not sign, check, encrypt or decrypt them. OpenPGP certificates are used
only to make keys (identifier and public data). Such daemons therefore trust
what other nodes answer, and do not interoperate with daemons that sign and
encrypt their messages.
