use lehopt::constr::input::mps::{MPSDataBoundType, MPSDataRowType};
use lehopt::constr::input::mps_lines::{
    MpsError, MpsLineState, MpsRecord, MpsSection, read_mps_line, split_fields, trim_chars,
};

fn chars(s: &str) -> Vec<char> {
    s.chars().collect()
}

fn text(c: &[char]) -> String {
    c.iter().collect()
}

fn read(st: &mut MpsLineState, line: &str) -> Result<Vec<MpsRecord>, MpsError> {
    read_mps_line(st, &chars(line))
}

fn err_of(r: Result<Vec<MpsRecord>, MpsError>) -> MpsError {
    match r {
        Ok(_) => panic!("expected an error"),
        Err(e) => e,
    }
}

fn state_in(section: MpsSection, is_int: bool) -> MpsLineState {
    MpsLineState { section, is_int, endata: false }
}

#[test]
fn test_trim_and_fields() {
    assert_eq!(text(&trim_chars(&chars(" \t a b \r\n"))), "a b");
    assert_eq!(text(&trim_chars(&chars("   "))), "");
    let f = split_fields(&chars("  X1   COST  1.5 "));
    let f: Vec<String> = f.iter().map(|w| text(w)).collect();
    assert_eq!(f, vec!["X1", "COST", "1.5"]);
    assert!(split_fields(&chars("    ")).is_empty());
    // tabs are no separators
    let g: Vec<String> = split_fields(&chars("a\tb c")).iter().map(|w| text(w)).collect();
    assert_eq!(g, vec!["a\tb", "c"]);
}

#[test]
fn test_read_mps_lines_small_model() {
    let mut st = MpsLineState::new();
    assert!(read(&mut st, "* a comment").unwrap().is_empty());
    assert!(read(&mut st, "   ").unwrap().is_empty());

    let r = read(&mut st, "NAME          TESTLP").unwrap();
    assert_eq!(r.len(), 1);
    match &r[0] {
        MpsRecord::Name(n) => assert_eq!(text(n), "TESTLP"),
        _ => panic!("expected a name"),
    }

    assert!(read(&mut st, "ROWS").unwrap().is_empty());
    assert!(st.section == MpsSection::Rows);
    let r = read(&mut st, " N  COST").unwrap();
    match &r[0] {
        MpsRecord::Row(t, n) => {
            assert!(*t == MPSDataRowType::N);
            assert_eq!(text(n), "COST");
        },
        _ => panic!("expected a row"),
    }
    let r = read(&mut st, " G  LIM1").unwrap();
    match &r[0] {
        MpsRecord::Row(t, _) => assert!(*t == MPSDataRowType::G),
        _ => panic!("expected a row"),
    }

    assert!(read(&mut st, "COLUMNS").unwrap().is_empty());
    assert!(read(&mut st, "    MARKER                 'MARKER'                 'INTORG'").unwrap().is_empty());
    assert!(st.is_int);
    let r = read(&mut st, "    X1  COST  1.0  LIM1  -2.5").unwrap();
    assert_eq!(r.len(), 2);
    match (&r[0], &r[1]) {
        (MpsRecord::Coef(v1, r1, x1, i1), MpsRecord::Coef(v2, r2, x2, i2)) => {
            assert_eq!((text(v1), text(r1), text(x1), *i1), ("X1".to_string(), "COST".to_string(), "1.0".to_string(), true));
            assert_eq!((text(v2), text(r2), text(x2), *i2), ("X1".to_string(), "LIM1".to_string(), "-2.5".to_string(), true));
        },
        _ => panic!("expected two coefficients"),
    }
    assert!(read(&mut st, "    MARKER                 'MARKER'                 'INTEND'").unwrap().is_empty());
    assert!(!st.is_int);
    let r = read(&mut st, "    X2  COST  3").unwrap();
    match &r[0] {
        MpsRecord::Coef(_, _, _, i) => assert!(!*i),
        _ => panic!("expected a coefficient"),
    }

    assert!(read(&mut st, "RHS").unwrap().is_empty());
    let r = read(&mut st, "    RHS  LIM1  4.0  COST  1").unwrap();
    assert_eq!(r.len(), 2);
    match &r[1] {
        MpsRecord::Rhs(row, x) => assert_eq!((text(row), text(x)), ("COST".to_string(), "1".to_string())),
        _ => panic!("expected a right-hand side"),
    }

    assert!(read(&mut st, "RANGES").unwrap().is_empty());
    let r = read(&mut st, "    RNG  LIM1  2.5").unwrap();
    match &r[0] {
        MpsRecord::Range(row, x) => assert_eq!((text(row), text(x)), ("LIM1".to_string(), "2.5".to_string())),
        _ => panic!("expected a range"),
    }

    assert!(read(&mut st, "BOUNDS").unwrap().is_empty());
    let r = read(&mut st, " UP BND X1 4.0").unwrap();
    match &r[0] {
        MpsRecord::Bound(t, v, x) => {
            assert!(*t == MPSDataBoundType::UP);
            assert_eq!(text(v), "X1");
            assert_eq!(x.as_ref().map(|x| text(x)), Some("4.0".to_string()));
        },
        _ => panic!("expected a bound"),
    }
    let r = read(&mut st, " FR BND X2").unwrap();
    match &r[0] {
        MpsRecord::Bound(t, _, x) => {
            assert!(*t == MPSDataBoundType::FR);
            assert!(x.is_none());
        },
        _ => panic!("expected a bound"),
    }

    assert!(!st.endata);
    assert!(read(&mut st, "ENDATA").unwrap().is_empty());
    assert!(st.endata);
}

#[test]
fn test_read_mps_line_errors() {
    let mut st = MpsLineState::new();
    assert!(err_of(read(&mut st, " N COST")) == MpsError::NoSection);
    assert!(err_of(read(&mut st, "OBJSENSE")) == MpsError::UnrecognizedHeader);
    assert!(err_of(read(&mut st, "NAME A B")) == MpsError::NameFields);
    assert!(read(&mut st, "NAME").unwrap().is_empty());

    let mut st = state_in(MpsSection::Rows, false);
    assert!(err_of(read(&mut st, " N")) == MpsError::RowsFields);
    assert!(err_of(read(&mut st, " X COST")) == MpsError::RowType);

    let mut st = state_in(MpsSection::Columns, false);
    assert!(err_of(read(&mut st, " X1 COST")) == MpsError::ColumnsFields);
    assert!(err_of(read(&mut st, " M 'MARKER' 'INTEND'")) == MpsError::MarkerIntendAlone);
    assert!(err_of(read(&mut st, " M 'MARKER' 'OTHER'")) == MpsError::MarkerType);
    let mut st = state_in(MpsSection::Columns, true);
    assert!(err_of(read(&mut st, " M 'MARKER' 'INTORG'")) == MpsError::MarkerIntorgTwice);
    // a refused line leaves the state as it was
    assert!(st == state_in(MpsSection::Columns, true));

    let mut st = state_in(MpsSection::Rhs, false);
    assert!(err_of(read(&mut st, " RHS LIM1")) == MpsError::RhsFields);
    let mut st = state_in(MpsSection::Ranges, false);
    assert!(err_of(read(&mut st, " RNG LIM1 1 LIM2")) == MpsError::RangesFields);
    let mut st = state_in(MpsSection::Bounds, false);
    assert!(err_of(read(&mut st, " UP BND")) == MpsError::BoundsFields);
    assert!(err_of(read(&mut st, " XX BND X1 1")) == MpsError::BoundType);
}
