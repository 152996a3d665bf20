//! Verified core of the Codex desktop manager's Windows Chinese patch, its
//! download-mirror fallback and its bundled offline resources.
//!
//! The patch rewrites the application's `app.asar` archive: it injects a
//! menu translator into the main-process bundle, adds strings to the
//! bundled zh-CN native locale, switches the renderer's interface-language
//! gate on, and plans the rewritten archive so that every file keeps a
//! valid offset. File-system work is left to the caller.
use vstd::prelude::*;

pub mod error;
pub mod text;
pub mod bytes;
pub mod paths;
pub mod digest;
pub mod json;
pub mod matchers;
pub mod asar;
pub mod header;
pub mod order;
pub mod rewrite;
pub mod layout;
pub mod readback;
pub mod menu_patch;
pub mod locale_patch;
pub mod i18n_patch;
pub mod analysis;
pub mod exe_integrity;
pub mod install;
pub mod mirror_fallback;
pub mod offline_bundle;
