pub mod input;
pub mod lp;
pub mod milp;
