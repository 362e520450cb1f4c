//! Steam's binary KeyValue ("VDF") format: a byte reader and writer, a decoder for
//! `appinfo.vdf` in its inline-key and string-table versions, and a decoder and encoder
//! for `shortcuts.vdf`.
//!
//! Strings are stored as UTF-8 and decoded as UTF-8, so that every tree whose strings
//! hold no NUL character and whose keys are unique within each map reads back as it was
//! written.

pub mod appinfo;
pub mod bytes;
pub mod error;
pub mod format;
pub mod grid_names;
pub mod keyvalue;
pub mod kv_reader;
pub mod reader;
pub mod shortcuts;
pub mod text;
pub mod types;
pub mod writer;

pub use appinfo::{read_appinfo, AppInfoChunk};
pub use error::VdfError;
pub use grid_names::{get_id_from_grid_name, get_info_from_gridname};
pub use keyvalue::KeyValue;
pub use reader::{Reader, SeekMode};
pub use shortcuts::{read_shortcuts, write_shortcuts};
pub use types::{GameStruct, GridInfo};
pub use writer::Writer;
