# garbling

A verified library for garbled AND gates. An AND gate on wires with two labels
each is garbled to a table of four rows; each row masks an output label with the
BLAKE3 compression of the labels of its inputs. The same table can be committed
to a constraint system over 32-bit binary field elements, together with the
constraints which say that it computes AND.

- `src/` is the library. Its contracts are stated and proved in Verus; the laws
  in `src/laws.rs` say that a garbled table computes AND, that the constraints
  hold just of such tables, and that a circuit garbled gate by gate has a witness
  which satisfies every constraint.
- `tests/` runs the library on concrete values.
- `app/` garbles the AND gates of a circuit file in Bristol fashion and checks the
  resulting system against its witness.

Randomness comes from the `rand` crate. The library claims nothing of the words
that it yields; it records which words were drawn, and every contract speaks of
that record.
