//! Verified core of a process-memory scanner and editor: value encodings,
//! scan and rescan rules, region and chunk planning, the value freezer's
//! bookkeeping, address tables and the session state behind the commands.

pub mod encoding;
pub mod text;
pub mod types;
pub mod numeric;
pub mod scanner;
pub mod regions;
pub mod freezer;
pub mod table;
pub mod process;
pub mod format;
pub mod writer;
pub mod session;
