# risc0_zkp

The prover of a STARK proof system, and the word-oriented serialization used to
pass data in and out of a virtual machine, written and proved in Verus.

## The prover

`prover::Prover` commits to the execution trace of a circuit group by group,
and turns the commitments into a proof (the seal):

1. `new` starts an empty transcript, `set_po2` fixes the length of the trace.
2. `commit_group` interpolates the columns of a group, moves the polynomials
   off the trace domain, and commits to their values on the evaluation domain.
3. `finalize` evaluates the check polynomial of the circuit, opens everything
   at a random point, combines and divides the openings, and proves the degree
   of what is left. `try_finalize` does the same and returns `None` where a
   division would leave a remainder.

The contract of each function gives the exact transcript. What an accelerator
computes (`hal::Hal`) and what a circuit checks (`hal::EvalCheck`) are traits
with exact contracts; `cpu::CpuHal` implements the former on the host for the
Baby Bear field, and `circuit::CombiningCircuit` is a small instance of the
latter.

| module | content |
| --- | --- |
| `field`, `baby_bear`, `baby_bear_field` | ring and field traits with their laws; the Baby Bear field and its extension, and why they are fields |
| `poly`, `transform`, `roots` | polynomials, layouts, transforms on roots of unity |
| `hal`, `cpu`, `circuit` | accelerators and circuits |
| `sha`, `sha256`, `iop`, `merkle` | hashing, the transcript, commitments |
| `poly_group`, `taps`, `deep`, `fri` | groups of polynomials, openings, proximity proofs |
| `prover`, `exactness`, `laws` | the prover, and what holds of it as a whole |

## Serialization

`serde::to_vec` turns a value into 32-bit words and `serde::from_slice` turns
words into a value. `serde::law_round_trip` proves that what is written is read
back. `entry_map::EntryMap` is a map that is serialized as its entries.

## What is taken on trust

`serde::string_from_utf8` states what `String::from_utf8` does. Everything else
is proved.
