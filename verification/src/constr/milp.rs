pub mod milp_model;

pub use milp_model::MILPConstrSense;
pub use milp_model::MILPStdformMappings;
