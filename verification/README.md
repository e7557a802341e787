# wildforge

Verified game logic for Wildforge, a voxel survival game on a cube-sphere
planet with finite geology and a physical magic system.

- `src/` is the library, written in Verus: the finite-material ledger and its
  journal (`materials`, `reservation`, `reclaim`, `authored`, `modres`,
  `survey`, `ledger_checks`, `audit_text`), material vectors (`vector`),
  inventories, implements and their census, machine definitions, host-side
  session rules, the encoded-chunk cache, mod qualification with the survival
  content graph and content checks (`content_graph`, `content_checks`,
  `mod_lint`), chunk-meshing halos and light keys.
  Every function carries a contract that Verus proves.
- `app/` is plain Rust around it: postcard persistence of the ledger and the
  implements sidecar, the crash-safe delta journal on disk, and machine
  declaration files.
- `tests/` exercises the library on concrete values.
