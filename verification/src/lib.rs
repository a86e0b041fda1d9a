//! Deterministic state layer of a program-executing ledger: canonical bit
//! encoding of structured program values, a typed register file for
//! finalize-phase working state, and a multi-index transaction store with
//! cross-index referential integrity.

pub mod errors;
pub mod plaintext;
pub mod codec;
pub mod registers;
pub mod ledger;
pub mod account;
