//! LaTeX sources: reading commands, editing the preamble, cutting the body.

pub mod bibliography;
pub mod bibliography_laws;
pub mod chunk_laws;
pub mod chunks;
pub mod cjk;
pub mod cjk_laws;
pub mod course;
pub mod cut_laws;
pub mod document;
pub mod document_laws;
pub mod edits;
pub mod file_laws;
pub mod files;
pub mod preamble_laws;
pub mod prebuilt_laws;
pub mod progress;
pub mod scan;
pub mod scan_laws;
pub mod support_laws;

pub use bibliography::inline_missing_bibliography;
pub use chunks::split_into_chunks;
pub use cjk::add_cjk_support;
pub use document::translate_tex_file;
pub use files::{find_main_tex, find_tex_files};
