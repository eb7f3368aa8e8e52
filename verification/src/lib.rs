//! Word-memorisation store: words with meanings, progress counters and a
//! learned list, together with the import formats that feed it.

pub mod text;
pub mod word;
pub mod arrange;
pub mod clock;
pub mod import;
pub mod store;
pub mod settings;
pub mod laws;
