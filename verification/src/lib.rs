//! Connection-management core for externally configured tool servers, plus the
//! pure logic of the append-only message-history log that lives beside it.
//!
//! The library contains the decision and aggregation logic only: name
//! validation, the fully-qualified tool-name codec, partitioning of per-server
//! startup outcomes, tool-catalog aggregation with collision detection, and
//! the history-line format. Process spawning, the wire transport and file I/O
//! are driven by an unverified shell that calls into these functions.

pub mod history;
pub mod jsonl;
pub mod names;
pub mod manager;
pub mod qualified;
