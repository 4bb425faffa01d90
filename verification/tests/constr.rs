use lehopt::constr::input::mps::{MPSDataBoundType, MPSDataRowType};
use lehopt::constr::lp::LPStdformResultInfeasible;
use lehopt::constr::milp::{MILPConstrSense, MILPStdformMappings};

#[test]
fn test_stdform_mappings() {
    let m = MILPStdformMappings::new(vec![true, false, true]);
    assert_eq!(m.stdform_var_is_int(), &vec![true, false, true]);
}

#[test]
fn test_constr_sense_and_infeasible() {
    let s = MILPConstrSense::Less;
    let t = s;
    assert!(matches!(t, MILPConstrSense::Less));
    assert!(matches!(MILPConstrSense::Equal, MILPConstrSense::Equal));
    let _r = LPStdformResultInfeasible {};
}

#[test]
fn test_mps_bound_type_codes() {
    for (code, t) in [
        ("FX", MPSDataBoundType::FX),
        ("UP", MPSDataBoundType::UP),
        ("LO", MPSDataBoundType::LO),
        ("PL", MPSDataBoundType::PL),
        ("MI", MPSDataBoundType::MI),
        ("FR", MPSDataBoundType::FR),
        ("BV", MPSDataBoundType::BV),
        ("LI", MPSDataBoundType::LI),
        ("UI", MPSDataBoundType::UI),
    ] {
        assert!(MPSDataBoundType::is_code(code));
        assert!(MPSDataBoundType::from_str(code) == t);
    }
    assert!(!MPSDataBoundType::is_code("XX"));
    assert!(!MPSDataBoundType::is_code("F"));
    assert!(!MPSDataBoundType::is_code("FXX"));
    assert!(!MPSDataBoundType::is_code("fx"));
}

#[test]
fn test_mps_row_type_codes() {
    for (code, t) in [
        ("N", MPSDataRowType::N),
        ("E", MPSDataRowType::E),
        ("G", MPSDataRowType::G),
        ("L", MPSDataRowType::L),
    ] {
        assert!(MPSDataRowType::is_code(code));
        assert!(MPSDataRowType::from_str(code) == t);
    }
    assert!(!MPSDataRowType::is_code("X"));
    assert!(!MPSDataRowType::is_code(""));
    assert!(!MPSDataRowType::is_code("NE"));
}
