//! Remote run receipts: what another machine recorded about a run.

pub mod manifest;
