use vstd::prelude::*;

verus! {

/// The sense of a MILP constraint: `==`, `<=` or `>=` its right-hand side.
#[derive(Clone, Copy)]
pub enum MILPConstrSense {
    Equal,
    Less,
    Greater,
}

/// What relates the variables of a MILP's standard form to the MILP.
pub struct MILPStdformMappings {
    stdform_var_is_int: Vec<bool>,
}

impl MILPStdformMappings {
    /// For each variable of the standard form, whether it is integer.
    pub closed spec fn var_is_int(&self) -> Seq<bool> {
        self.stdform_var_is_int@
    }

    /// Mappings for a standard form whose variables are integer as `stdform_var_is_int` says.
    pub fn new(stdform_var_is_int: Vec<bool>) -> (mappings: Self)
        ensures
            mappings.var_is_int() == stdform_var_is_int@,
    {
        Self { stdform_var_is_int }
    }

    /// For each variable of the standard form, whether it is integer.
    pub fn stdform_var_is_int(&self) -> (v: &Vec<bool>)
        ensures
            v@ == self.var_is_int(),
    {
        &self.stdform_var_is_int
    }
}

} // verus!
