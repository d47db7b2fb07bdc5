pub mod s_type;
