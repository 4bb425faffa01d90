pub mod mps;
pub mod mps_lines;
