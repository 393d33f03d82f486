# hiroz_protocol

QoS profiles of ROS 2 entities and their text form in liveliness tokens,
`[reliability]:[durability]:[history_kind],[depth]:[deadline]:[lifespan]:[liveliness]`,
with every component equal to the default profile left empty.

- `src/text.rs`: splitting on a separator, decimal rendering and decimal
  parsing of `usize`, each with its specification and proofs.
- `src/qos.rs`: the profile types, `encode` and `decode` with exact contracts
  over `encoding` and `decoding`, and the proved laws (decoding inverts
  encoding; decoding ignores components after the third).
- `app/lib.rs`: `Display` and `std::error::Error` for a copy of the decode error.
- `tests/`: scenarios run against the compiled library.
