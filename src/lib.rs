// Server-side core of an obfuscated session transport: replay screening,
// session routing and the reliable-delivery engine, with their contracts.
pub mod estimators;
pub mod deadlines;
pub mod inflight;
pub mod replay;
pub mod shards;
pub mod assoc;
pub mod table;
pub mod listener;
pub mod keys;
