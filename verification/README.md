# pnet

The logic of a peer-to-peer messaging node, written and proved in Verus.

A user owns several devices. Servers (SG) hold the user's state and forward
packets, clients (DG) connect to them. The servers of a user elect one writer,
ship changes as numbered log entries, and merge their logs again after a
partition. Users exchange contacts by invitation codes, and applications on a
device send messages to applications on the devices of a contact.

## Layout

- `src/` is the library. Handlers take the state of a node and the bytes that
  arrived, change the state, and return the effects to carry out: datagrams to
  send, bodies to seal, files to write. Nothing in it reads a clock, a socket or
  a file. Every function has a contract over the mathematical views of the types,
  and the `law_` proofs state what the functions promise together.
- `tests/` run the library on concrete values. `journeys.rs` plays whole
  exchanges between two or three nodes.
- `app/` is ordinary Rust around it: sockets, threads, files, encryption behind a
  trait, and the loop that carries the effects out.

## What is trusted

The functions marked `external_body` stand for base64, HMAC-SHA1, the random
source and a few functions of std. Each says in its doc comment what is taken
for granted.
