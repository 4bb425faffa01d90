pub mod lp_result;

pub use lp_result::LPStdformResultInfeasible;
