pub mod integer;
pub mod scalar;
pub mod matrix;
