pub mod fragments;
pub mod ingest;
pub mod input_elf;
pub mod input_file;
pub mod read_struct;
pub mod str_table;
pub mod text;
