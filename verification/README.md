# manta_circuits

Circuits for the Manta network, written over arkworks.

- `src/bowe_hopwood.rs`: the window parameters of the Bowe-Hopwood hash circuit and the
  allocation of the hash input, one byte witness per input byte.
- `src/poseidon.rs`: the Poseidon two-to-one hash circuit's inputs: the order in which the
  circuit hands its values to a PLONK composer, and the layout of the variables it gets back.
- `app/main.rs`: the Bowe-Hopwood circuit's constraint-system calls and its Groth16 run.
- `app/poseidon_hash.rs`: the Poseidon circuit's composer calls; it needs `ark-plonk` and
  `arkworks-plonk-circuits`, which the registry does not offer, so `main.rs` does not
  include it.
