# lloth

Building blocks to add networking capabilities to game engines: a client-server model with an
authoritative server.

The server's state is replicated to its clients with delta compression, and the commands of players
are replicated from clients to the server. The library makes no assumption of the components used in
a game: a descriptor on the server and a descriptor on the client say how a component is replicated.

## Layout

* `src/` is the library, written in Verus. Every function's contract is proved by Verus, but for those
  of the small functions marked `external_body`, which call outside crates.
  * `server`, `client`: descriptors, the replicated entities, players, builders and systems.
  * `client_server`, `lloth_core`: sessions, as state machines that are fed what channels receive.
  * `nid`: ids that stand for entities, and their mapping.
  * `schema`, `wire`, `codec`, `mask`: how messages, updates and integers are laid out in bytes.
  * `channel`: packets in a stream of bytes.
  * `world`: what the library asks of a `hecs` world.
  * `replication`, `convergence`: what holds between a server and its clients.
  * `server::steps`: what holds from one step of a server to the next.
  * `types`: telling types apart.
* `tests/` runs the library.
* `app/` is the code around it: TCP, serializable components, and the loops of servers and clients.

## What is proved

* What a server writes is what a client reads, at every layer: integers, masks, updates, messages and
  packets.
* A client that sees the state it acknowledged sees the server's current state after it applied the
  update that the server made for it. It needs no more than the changes since then. This is proved
  of the players and of every row of descriptors that keep to their own components: what a
  descriptor sees of an entity, and what it changes, lies within the components of that entity that
  the library does not use itself. It fails only where the client's world has no room for the
  entities that are new, or a handle that has to go is of the last generation.
* After a run of the server its components, its ids and its histories agree.
* Ids are never used twice, a removed id is told once, old inputs are dropped, and nothing is taken
  of a client before it was connected.

What the outside crates `hecs`, `bincode` and `bitsetium` do, and `String::from_utf8` and `TypeId` of
the standard library, is taken from their documentation and source, and believed without proof. It is
stated in the contracts of the functions marked `external_body`.
