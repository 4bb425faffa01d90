pub mod constr;
pub mod primitives;
pub mod util;
