# temporary_store

What a transaction reads and writes while it is executed, on top of a store of objects: a library
verified with Verus.

A `TemporaryStore` starts with the inputs of a transaction. Execution writes, deletes and reads
objects through it. Then gas is charged for, the result is checked, and the store is committed: the
written objects get their versions, and the effects of the transaction are listed.

## Layout

- `src/temporary_store/`: the store.
  - `model.rs`: what a store is, as a mathematical value, and what the basic operations do to it.
  - `mod.rs`: the store itself, reading and writing.
  - `smash.rs`: merging the coins that pay for gas.
  - `charge.rs`, `settle.rs`: charging for storage and computation, and the payment.
  - `conserve.rs`: the check that no SUI is created or destroyed.
  - `ownership.rs`: the check that only objects were used that the sender has a right to.
  - `commit.rs`: versions, references and effects.
  - `resolve.rs`: the lookups of packages, modules, children and resources.
  - `laws.rs`, `conservation.rs`: what holds of the operations together.
- `src/`: the types that the store works on, and `inner.rs` and `module_resolver.rs`, which look
  into what a finished transaction wrote.
- `src/codec.rs`: the only trusted code, two calls into `bcs`.
- `app/`: the serialized form of a finished transaction, the texts of errors, and a test case of the
  cluster.
- `tests/`: tests of the compiled library.

## Digests, layouts and binaries

The library does not hash, lay out Move values or parse modules. Functions that need one of these
take it as a function: the digest of an object, the SUI in a Move object that is no coin, the module
that a string of bytes is.
