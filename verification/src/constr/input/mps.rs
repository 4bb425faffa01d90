use vstd::prelude::*;

verus! {

/// The kinds of record of the BOUNDS section of an MPS file.
#[derive(Clone, Copy, PartialEq, Eq, Structural)]
pub enum MPSDataBoundType {
    FX,  // fixed value
    UP,  // upper bound
    LO,  // lower bound
    PL,  // "plus" (upper bound of +inf)
    MI,  // "minus" (lower bound of -inf)
    FR,  // "free" (-inf to +inf)
    BV,  // binary variable
    LI,  // lower bound for int variable (an extension of the classic format)
    UI,  // upper bound for int variable (an extension of the classic format)
}

/// The code that an MPS file writes for a bound type.
pub open spec fn bound_type_code(t: MPSDataBoundType) -> Seq<char> {
    match t {
        MPSDataBoundType::FX => seq!['F', 'X'],
        MPSDataBoundType::UP => seq!['U', 'P'],
        MPSDataBoundType::LO => seq!['L', 'O'],
        MPSDataBoundType::PL => seq!['P', 'L'],
        MPSDataBoundType::MI => seq!['M', 'I'],
        MPSDataBoundType::FR => seq!['F', 'R'],
        MPSDataBoundType::BV => seq!['B', 'V'],
        MPSDataBoundType::LI => seq!['L', 'I'],
        MPSDataBoundType::UI => seq!['U', 'I'],
    }
}

/// `s` is the code of some bound type.
pub open spec fn is_bound_type_code(s: Seq<char>) -> bool {
    exists|t: MPSDataBoundType| bound_type_code(t) == s
}

/// The kinds of row of the ROWS section of an MPS file.
#[derive(Clone, Copy, PartialEq, Eq, Structural)]
pub enum MPSDataRowType {
    N,  // non-constraint row (first one is objective)
    E,  // equal to right-hand side
    G,  // greater than or equal to right-hand side
    L,  // less than or equal to right-hand side
}

/// The code that an MPS file writes for a row type.
pub open spec fn row_type_code(t: MPSDataRowType) -> Seq<char> {
    match t {
        MPSDataRowType::N => seq!['N'],
        MPSDataRowType::E => seq!['E'],
        MPSDataRowType::G => seq!['G'],
        MPSDataRowType::L => seq!['L'],
    }
}

/// `s` is the code of some row type.
pub open spec fn is_row_type_code(s: Seq<char>) -> bool {
    exists|t: MPSDataRowType| row_type_code(t) == s
}

/// `s` is the two characters `a` and `b`.
fn is_pair(s: &str, a: char, b: char) -> (r: bool)
    ensures
        r == (s@ == seq![a, b]),
{
    if s.unicode_len() != 2 {
        proof {
            if s@ == seq![a, b] {
                assert(s@.len() == 2);
            }
        }
        false
    } else {
        let r = s.get_char(0) == a && s.get_char(1) == b;
        proof {
            if r {
                assert(s@ =~= seq![a, b]);
            }
        }
        r
    }
}

/// `s` is the single character `a`.
fn is_single(s: &str, a: char) -> (r: bool)
    ensures
        r == (s@ == seq![a]),
{
    if s.unicode_len() != 1 {
        proof {
            if s@ == seq![a] {
                assert(s@.len() == 1);
            }
        }
        false
    } else {
        let r = s.get_char(0) == a;
        proof {
            if r {
                assert(s@ =~= seq![a]);
            }
        }
        r
    }
}

impl MPSDataBoundType {
    /// Whether `string` is the code of a bound type.
    pub fn is_code(string: &str) -> (r: bool)
        ensures
            r == is_bound_type_code(string@),
    {
        let r = is_pair(string, 'F', 'X') || is_pair(string, 'U', 'P') || is_pair(string, 'L', 'O')
            || is_pair(string, 'P', 'L') || is_pair(string, 'M', 'I') || is_pair(string, 'F', 'R')
            || is_pair(string, 'B', 'V') || is_pair(string, 'L', 'I') || is_pair(string, 'U', 'I');
        proof {
            if r {
                if string@ == seq!['F', 'X'] {
                    assert(bound_type_code(MPSDataBoundType::FX) == string@);
                } else if string@ == seq!['U', 'P'] {
                    assert(bound_type_code(MPSDataBoundType::UP) == string@);
                } else if string@ == seq!['L', 'O'] {
                    assert(bound_type_code(MPSDataBoundType::LO) == string@);
                } else if string@ == seq!['P', 'L'] {
                    assert(bound_type_code(MPSDataBoundType::PL) == string@);
                } else if string@ == seq!['M', 'I'] {
                    assert(bound_type_code(MPSDataBoundType::MI) == string@);
                } else if string@ == seq!['F', 'R'] {
                    assert(bound_type_code(MPSDataBoundType::FR) == string@);
                } else if string@ == seq!['B', 'V'] {
                    assert(bound_type_code(MPSDataBoundType::BV) == string@);
                } else if string@ == seq!['L', 'I'] {
                    assert(bound_type_code(MPSDataBoundType::LI) == string@);
                } else {
                    assert(bound_type_code(MPSDataBoundType::UI) == string@);
                }
            }
        }
        r
    }

    /// The bound type whose code is `string`.
    pub fn from_str(string: &str) -> (t: MPSDataBoundType)
        requires
            is_bound_type_code(string@),
        ensures
            bound_type_code(t) == string@,
    {
        if is_pair(string, 'F', 'X') {
            MPSDataBoundType::FX
        } else if is_pair(string, 'U', 'P') {
            MPSDataBoundType::UP
        } else if is_pair(string, 'L', 'O') {
            MPSDataBoundType::LO
        } else if is_pair(string, 'P', 'L') {
            MPSDataBoundType::PL
        } else if is_pair(string, 'M', 'I') {
            MPSDataBoundType::MI
        } else if is_pair(string, 'F', 'R') {
            MPSDataBoundType::FR
        } else if is_pair(string, 'B', 'V') {
            MPSDataBoundType::BV
        } else if is_pair(string, 'L', 'I') {
            MPSDataBoundType::LI
        } else {
            proof {
                let t = choose|t: MPSDataBoundType| bound_type_code(t) == string@;
                assert(bound_type_code(t) == string@);
            }
            MPSDataBoundType::UI
        }
    }
}

impl MPSDataRowType {
    /// Whether `string` is the code of a row type.
    pub fn is_code(string: &str) -> (r: bool)
        ensures
            r == is_row_type_code(string@),
    {
        let r = is_single(string, 'N') || is_single(string, 'E') || is_single(string, 'G') || is_single(string, 'L');
        proof {
            if r {
                if string@ == seq!['N'] {
                    assert(row_type_code(MPSDataRowType::N) == string@);
                } else if string@ == seq!['E'] {
                    assert(row_type_code(MPSDataRowType::E) == string@);
                } else if string@ == seq!['G'] {
                    assert(row_type_code(MPSDataRowType::G) == string@);
                } else {
                    assert(row_type_code(MPSDataRowType::L) == string@);
                }
            }
        }
        r
    }

    /// The row type whose code is `string`.
    pub fn from_str(string: &str) -> (t: MPSDataRowType)
        requires
            is_row_type_code(string@),
        ensures
            row_type_code(t) == string@,
    {
        if is_single(string, 'N') {
            MPSDataRowType::N
        } else if is_single(string, 'E') {
            MPSDataRowType::E
        } else if is_single(string, 'G') {
            MPSDataRowType::G
        } else {
            proof {
                let t = choose|t: MPSDataRowType| row_type_code(t) == string@;
                assert(row_type_code(t) == string@);
            }
            MPSDataRowType::L
        }
    }
}

} // verus!
