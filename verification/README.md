# kzg-prover

Prover service for a whitelist committed as a multilinear polynomial over the
boolean hypercube `{0,1}^20`, opened with multilinear KZG on BLS12-381.

- `src/` is the verified library:
  - `kzg/field.rs`: scalar field elements with modular add, sub and mul;
  - `kzg/encoding.rs`: address to hypercube vertex (hex decoding, Keccak-256,
    bit extraction) and the indicator table of a whitelist;
  - `kzg/opening.rs`: table folding, evaluation at a vertex, the quotient
    tables of an opening, and the ABI encoding of the hook data;
  - `kzg/srs.rs`: the powers of the development trapdoor;
  - `kzg/commit.rs`: the terms (position, coefficient) of a commitment;
  - `chain.rs`, `listener.rs`, `server.rs`: event records and the decisions of
    the listener loop and the proof endpoint (address normalisation).
- `app/` is the executable: G1/G2 arithmetic through blst's C interface, the
  SQLite store, the JSON-RPC calls, the polling loop and the HTTP server.
- `tests/` exercises the library on concrete values.
