use vstd::prelude::*;

pub mod ast;
pub mod bundle;
pub mod cache;
pub mod cli;
pub mod cliargs;
pub mod codegen;
pub mod complete;
pub mod deploy;
pub mod disk;
pub mod dynindex;
pub mod hashing;
pub mod i18n;
pub mod icu_utils;
pub mod init;
pub mod install;
pub mod locale;
pub mod logger;
pub mod merge;
pub mod order;
pub mod paths;
pub mod results;
pub mod scan;
pub mod seqs;
pub mod shell;
pub mod text;
pub mod ui;
pub mod upgrade;
pub mod version;

verus! {

pub const ICON_SUCCESS: &'static str = "✅";
pub const ICON_ERROR: &'static str = "❌";
pub const ICON_WARN: &'static str = "❗";
pub const ICON_INFO: &'static str = "💡";
pub const ICON_LOG: &'static str = "📝";
pub const ICON_BUILD: &'static str = "🔧";
pub const ICON_PACKAGE: &'static str = "📦";
pub const ICON_SCAN: &'static str = "🔍";
pub const ICON_DOWNLOAD: &'static str = "📥";
pub const ICON_UPGRADE: &'static str = "🔼";
pub const ICON_SYNC: &'static str = "🔄";
pub const ICON_STAR: &'static str = "⭐";
pub const ICON_ROCKET: &'static str = "🚀";
pub const ICON_TAG: &'static str = "🔖";
pub const ICON_PARTY: &'static str = "🎉";
pub const ICON_SPARKLES: &'static str = "✨";
pub const ICON_POINTER: &'static str = "👉";

} // verus!
