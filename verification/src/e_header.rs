pub mod e_type;
pub mod ident;
pub mod isa;
