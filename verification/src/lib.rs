pub mod noun;
pub mod tree;
pub mod interp;
pub mod reduction;
pub mod codec;
pub mod text;
