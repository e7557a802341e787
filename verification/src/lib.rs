//! Wildforge game logic: finite-material accounting, physical magical
//! implements, inventories, machine handlers and host-side session rules.

pub mod arith;
pub mod text;
pub mod machines;
pub mod vector;
pub mod registry;
pub mod inventory;
pub mod implements;
pub mod planet;
pub mod host;
pub mod materials;
pub mod reservation;
pub mod lights;
pub mod mobs;
pub mod mod_lint;
pub mod magic_qualification;
pub mod reclaim;
pub mod authored;
pub mod modres;
pub mod mesher;
pub mod survey;
pub mod listing;
pub mod audit_text;
pub mod ledger_checks;
pub mod census;
pub mod chunk_cache;
pub mod content_graph;
pub mod content_checks;
