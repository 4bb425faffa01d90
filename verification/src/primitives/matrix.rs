pub mod csc_structure;
