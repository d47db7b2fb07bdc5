//! Front end of a static linker for ELF64 little-endian relocatable objects:
//! archive and object decoding, symbol interning and resolution, live-object
//! marking and reclamation, and deduplication of mergeable sections.

pub mod archive_parser;
pub mod argument_parser;
pub mod context;
pub mod e_header;
pub mod error;
pub mod linker;
pub mod output_section;
pub mod passes;
pub mod section;
pub mod section_header;
pub mod symbol;
pub mod utils;
