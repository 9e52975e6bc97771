//! Graphshell's host-side admission, navigation and parsing rules.

pub mod text;
pub mod sorted;
pub mod endpoint_catalog;
pub mod app_admission;
pub mod app_broker;
pub mod app_client;
pub mod personal_sync;
pub mod json;
pub mod hexcode;
pub mod practice_workspace;
pub mod practice_disclosure;
pub mod receipts;
pub mod product;
pub mod projection_editor;
pub mod session_item;
pub mod identity_ui;
pub mod browser_host;
pub mod profile;
pub mod availability;
pub mod personal_sync_host;
pub mod graph_keys;
pub mod preferences;
pub mod local_session;
pub mod carriage_host;
pub mod projection_compile;
pub mod conflicts;
