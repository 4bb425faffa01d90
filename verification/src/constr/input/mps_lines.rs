use vstd::prelude::*;
use crate::constr::input::mps::{
    MPSDataBoundType,
    MPSDataRowType,
    bound_type_code,
    is_bound_type_code,
    row_type_code,
    is_row_type_code,
};

verus! {

// ---------------------------------------------------------------------------
// Characters, trimming and fields

/// Unicode white space, as `char::is_whitespace` and `str::trim` take it.
pub open spec fn spec_is_ws(c: char) -> bool {
    ('\u{9}' <= c && c <= '\u{d}') || c == ' ' || c == '\u{85}' || c == '\u{a0}' || c == '\u{1680}'
        || ('\u{2000}' <= c && c <= '\u{200a}') || c == '\u{2028}' || c == '\u{2029}' || c == '\u{202f}'
        || c == '\u{205f}' || c == '\u{3000}'
}

fn is_ws(c: char) -> (r: bool)
    ensures
        r == spec_is_ws(c),
{
    ('\u{9}' <= c && c <= '\u{d}') || c == ' ' || c == '\u{85}' || c == '\u{a0}' || c == '\u{1680}'
        || ('\u{2000}' <= c && c <= '\u{200a}') || c == '\u{2028}' || c == '\u{2029}' || c == '\u{202f}'
        || c == '\u{205f}' || c == '\u{3000}'
}

/// `s` without its leading white space.
pub open spec fn ltrim(s: Seq<char>) -> Seq<char>
    decreases s.len(),
{
    if s.len() > 0 && spec_is_ws(s[0]) {
        ltrim(s.drop_first())
    } else {
        s
    }
}

/// `s` without its trailing white space.
pub open spec fn rtrim(s: Seq<char>) -> Seq<char>
    decreases s.len(),
{
    if s.len() > 0 && spec_is_ws(s.last()) {
        rtrim(s.drop_last())
    } else {
        s
    }
}

/// `s` without leading and trailing white space.
pub open spec fn trim(s: Seq<char>) -> Seq<char> {
    rtrim(ltrim(s))
}

/// `s` without leading and trailing white space.
pub fn trim_chars(s: &[char]) -> (r: Vec<char>)
    ensures
        r@ == trim(s@),
{
    let n = s.len();
    let mut i: usize = 0;
    assert(s@.skip(0) =~= s@);
    while i < n && is_ws(s[i])
        invariant
            n == s@.len(),
            0 <= i <= n,
            ltrim(s@) == ltrim(s@.skip(i as int)),
        decreases n - i,
    {
        assert(s@.skip(i as int).drop_first() =~= s@.skip(i + 1));
        i = i + 1;
    }
    let ghost l = s@.skip(i as int);
    assert(ltrim(l) == l);
    let mut j: usize = n;
    while j > i && is_ws(s[j - 1])
        invariant
            n == s@.len(),
            0 <= i <= j <= n,
            l == s@.skip(i as int),
            rtrim(l) == rtrim(s@.subrange(i as int, j as int)),
        decreases j,
    {
        assert(s@.subrange(i as int, j as int).drop_last() =~= s@.subrange(i as int, j - 1));
        j = j - 1;
    }
    let mut r: Vec<char> = Vec::new();
    let mut k: usize = i;
    while k < j
        invariant
            0 <= i <= k <= j <= n,
            n == s@.len(),
            r@ == s@.subrange(i as int, k as int),
        decreases j - k,
    {
        r.push(s[k]);
        k = k + 1;
        assert(r@ =~= s@.subrange(i as int, k as int));
    }
    r
}

/// The word that `s` ends in: its characters after the last space.
pub open spec fn last_word(s: Seq<char>) -> Seq<char>
    decreases s.len(),
{
    if s.len() == 0 {
        Seq::empty()
    } else if s.last() == ' ' {
        Seq::empty()
    } else {
        last_word(s.drop_last()).push(s.last())
    }
}

/// The nonempty words of `s` that a later space has closed.
pub open spec fn closed_words(s: Seq<char>) -> Seq<Seq<char>>
    decreases s.len(),
{
    if s.len() == 0 {
        Seq::empty()
    } else if s.last() == ' ' && last_word(s.drop_last()).len() > 0 {
        closed_words(s.drop_last()).push(last_word(s.drop_last()))
    } else {
        closed_words(s.drop_last())
    }
}

/// The fields of `s`: its pieces between spaces, the empty ones left out.
pub open spec fn fields(s: Seq<char>) -> Seq<Seq<char>> {
    if last_word(s).len() > 0 {
        closed_words(s).push(last_word(s))
    } else {
        closed_words(s)
    }
}

/// The fields of `s`: its pieces between spaces, the empty ones left out.
pub fn split_fields(s: &[char]) -> (r: Vec<Vec<char>>)
    ensures
        r@.len() == fields(s@).len(),
        forall|k: int| 0 <= k < r@.len() ==> #[trigger] r@[k]@ == fields(s@)[k],
{
    let n = s.len();
    let mut out: Vec<Vec<char>> = Vec::new();
    let mut cur: Vec<char> = Vec::new();
    let mut i: usize = 0;
    while i < n
        invariant
            n == s@.len(),
            0 <= i <= n,
            cur@ == last_word(s@.take(i as int)),
            out@.len() == closed_words(s@.take(i as int)).len(),
            forall|k: int| 0 <= k < out@.len() ==> #[trigger] out@[k]@ == closed_words(s@.take(i as int))[k],
        decreases n - i,
    {
        let c = s[i];
        assert(s@.take(i + 1).drop_last() =~= s@.take(i as int));
        assert(s@.take(i + 1).last() == c);
        if c == ' ' {
            if cur.len() > 0 {
                let w = cur;
                out.push(w);
                cur = Vec::new();
            }
        } else {
            cur.push(c);
        }
        i = i + 1;
    }
    assert(s@.take(n as int) =~= s@);
    if cur.len() > 0 {
        out.push(cur);
    }
    out
}

/// `a` and `b` hold the same characters.
fn chars_eq(a: &[char], b: &[char]) -> (r: bool)
    ensures
        r == (a@ == b@),
{
    if a.len() != b.len() {
        return false;
    }
    let mut i: usize = 0;
    while i < a.len()
        invariant
            a@.len() == b@.len(),
            0 <= i <= a@.len(),
            forall|k: int| 0 <= k < i ==> a@[k] == b@[k],
        decreases a@.len() - i,
    {
        if a[i] != b[i] {
            return false;
        }
        i = i + 1;
    }
    assert(a@ =~= b@);
    true
}

/// `s` is the single character `c`.
fn is_char(s: &[char], c: char) -> (r: bool)
    ensures
        r == (s@ == seq![c]),
{
    if s.len() == 1 && s[0] == c {
        assert(s@ =~= seq![c]);
        true
    } else {
        proof {
            if s@ == seq![c] {
                assert(s@.len() == 1 && s@[0] == c);
            }
        }
        false
    }
}

/// The bound type whose code is `s`, if any.
pub fn bound_type_of(s: &[char]) -> (r: Option<MPSDataBoundType>)
    ensures
        r matches Some(t) ==> bound_type_code(t) == s@,
        r is None <==> !is_bound_type_code(s@),
{
    let r = if chars_eq(s, &['F', 'X']) {
        Some(MPSDataBoundType::FX)
    } else if chars_eq(s, &['U', 'P']) {
        Some(MPSDataBoundType::UP)
    } else if chars_eq(s, &['L', 'O']) {
        Some(MPSDataBoundType::LO)
    } else if chars_eq(s, &['P', 'L']) {
        Some(MPSDataBoundType::PL)
    } else if chars_eq(s, &['M', 'I']) {
        Some(MPSDataBoundType::MI)
    } else if chars_eq(s, &['F', 'R']) {
        Some(MPSDataBoundType::FR)
    } else if chars_eq(s, &['B', 'V']) {
        Some(MPSDataBoundType::BV)
    } else if chars_eq(s, &['L', 'I']) {
        Some(MPSDataBoundType::LI)
    } else if chars_eq(s, &['U', 'I']) {
        Some(MPSDataBoundType::UI)
    } else {
        None
    };
    proof {
        if let Some(t) = r {
            assert(bound_type_code(t) == s@);
        }
        if r is None && is_bound_type_code(s@) {
            let t = choose|t: MPSDataBoundType| bound_type_code(t) == s@;
            match t {
                MPSDataBoundType::FX => assert(s@ =~= seq!['F', 'X']),
                MPSDataBoundType::UP => assert(s@ =~= seq!['U', 'P']),
                MPSDataBoundType::LO => assert(s@ =~= seq!['L', 'O']),
                MPSDataBoundType::PL => assert(s@ =~= seq!['P', 'L']),
                MPSDataBoundType::MI => assert(s@ =~= seq!['M', 'I']),
                MPSDataBoundType::FR => assert(s@ =~= seq!['F', 'R']),
                MPSDataBoundType::BV => assert(s@ =~= seq!['B', 'V']),
                MPSDataBoundType::LI => assert(s@ =~= seq!['L', 'I']),
                MPSDataBoundType::UI => assert(s@ =~= seq!['U', 'I']),
            }
        }
    }
    r
}

/// The row type whose code is `s`, if any.
pub fn row_type_of(s: &[char]) -> (r: Option<MPSDataRowType>)
    ensures
        r matches Some(t) ==> row_type_code(t) == s@,
        r is None <==> !is_row_type_code(s@),
{
    let r = if is_char(s, 'N') {
        Some(MPSDataRowType::N)
    } else if is_char(s, 'E') {
        Some(MPSDataRowType::E)
    } else if is_char(s, 'G') {
        Some(MPSDataRowType::G)
    } else if is_char(s, 'L') {
        Some(MPSDataRowType::L)
    } else {
        None
    };
    proof {
        if let Some(t) = r {
            assert(row_type_code(t) == s@);
            assert(is_row_type_code(s@));
        }
        if r is None && is_row_type_code(s@) {
            let t = choose|t: MPSDataRowType| row_type_code(t) == s@;
            match t {
                MPSDataRowType::N => assert(s@ =~= seq!['N']),
                MPSDataRowType::E => assert(s@ =~= seq!['E']),
                MPSDataRowType::G => assert(s@ =~= seq!['G']),
                MPSDataRowType::L => assert(s@ =~= seq!['L']),
            }
        }
    }
    r
}

/// A copy of `s`.
fn copy_chars(s: &[char]) -> (r: Vec<char>)
    ensures
        r@ == s@,
{
    let mut r: Vec<char> = Vec::new();
    let mut i: usize = 0;
    while i < s.len()
        invariant
            0 <= i <= s@.len(),
            r@ == s@.take(i as int),
        decreases s@.len() - i,
    {
        r.push(s[i]);
        i = i + 1;
        assert(r@ =~= s@.take(i as int));
    }
    assert(s@.take(s@.len() as int) =~= s@);
    r
}

// ---------------------------------------------------------------------------
// Lines of an MPS file

/// The section of an MPS file that data lines belong to.
#[derive(Clone, Copy, PartialEq, Eq, Structural)]
pub enum MpsSection {
    /// Before the first section header.
    Start,
    Rows,
    Columns,
    Rhs,
    Ranges,
    Bounds,
}

/// What the reader carries from one line to the next.
#[derive(Clone, Copy, PartialEq, Eq, Structural)]
pub struct MpsLineState {
    /// The section of the last section header.
    pub section: MpsSection,
    /// Between an `'INTORG'` and an `'INTEND'` marker of the COLUMNS section.
    pub is_int: bool,
    /// The ENDATA line has been read.
    pub endata: bool,
}

/// A record of an MPS file, with its numbers kept as text.
pub enum MpsRecord {
    /// The model's name, from the NAME line.
    Name(Vec<char>),
    /// A row of the ROWS section: its type and name.
    Row(MPSDataRowType, Vec<char>),
    /// A coefficient of the COLUMNS section: variable, row, value, and
    /// whether it stands between integer markers.
    Coef(Vec<char>, Vec<char>, Vec<char>, bool),
    /// A right-hand side: row and value.
    Rhs(Vec<char>, Vec<char>),
    /// A range: row and value.
    Range(Vec<char>, Vec<char>),
    /// A bound: its type, the variable, and the value where one is given.
    Bound(MPSDataBoundType, Vec<char>, Option<Vec<char>>),
}

/// A record of an MPS file, as sequences of characters.
pub enum MpsRecordV {
    Name(Seq<char>),
    Row(MPSDataRowType, Seq<char>),
    Coef(Seq<char>, Seq<char>, Seq<char>, bool),
    Rhs(Seq<char>, Seq<char>),
    Range(Seq<char>, Seq<char>),
    Bound(MPSDataBoundType, Seq<char>, Option<Seq<char>>),
}

impl View for MpsRecord {
    type V = MpsRecordV;

    open spec fn view(&self) -> MpsRecordV {
        match self {
            MpsRecord::Name(n) => MpsRecordV::Name(n@),
            MpsRecord::Row(t, n) => MpsRecordV::Row(*t, n@),
            MpsRecord::Coef(v, r, x, i) => MpsRecordV::Coef(v@, r@, x@, *i),
            MpsRecord::Rhs(r, x) => MpsRecordV::Rhs(r@, x@),
            MpsRecord::Range(r, x) => MpsRecordV::Range(r@, x@),
            MpsRecord::Bound(t, v, x) => MpsRecordV::Bound(
                *t,
                v@,
                match x {
                    Some(x) => Some(x@),
                    None => None,
                },
            ),
        }
    }
}

/// Why a line of an MPS file was refused.
#[derive(Clone, Copy, Debug, PartialEq, Eq, Structural)]
pub enum MpsError {
    /// A header line that is no known header.
    UnrecognizedHeader,
    /// A NAME line with other than one name.
    NameFields,
    /// A data line before the first section header.
    NoSection,
    /// A line of the ROWS section with other than 2 fields.
    RowsFields,
    /// An unknown row type.
    RowType,
    /// A line of the COLUMNS section with other than 3 or 5 fields.
    ColumnsFields,
    /// A second `'INTORG'` marker before an `'INTEND'`.
    MarkerIntorgTwice,
    /// An `'INTEND'` marker without an `'INTORG'` before it.
    MarkerIntendAlone,
    /// A marker of an unknown kind.
    MarkerType,
    /// A line of the RHS section with other than 3 or 5 fields.
    RhsFields,
    /// A line of the RANGES section with other than 3 or 5 fields.
    RangesFields,
    /// A line of the BOUNDS section with other than 3 or 4 fields.
    BoundsFields,
    /// An unknown bound type.
    BoundType,
}

/// The row type whose code is `s`.
pub open spec fn row_type_from(s: Seq<char>) -> MPSDataRowType {
    choose|t: MPSDataRowType| row_type_code(t) == s
}

/// The bound type whose code is `s`.
pub open spec fn bound_type_from(s: Seq<char>) -> MPSDataBoundType {
    choose|t: MPSDataBoundType| bound_type_code(t) == s
}

/// `st` in section `sec`.
pub open spec fn in_section(st: MpsLineState, sec: MpsSection) -> MpsLineState {
    MpsLineState { section: sec, is_int: st.is_int, endata: st.endata }
}

/// What a header line `h` (trimmed) does.
pub open spec fn header_effect(st: MpsLineState, h: Seq<char>) -> Result<(MpsLineState, Seq<MpsRecordV>), MpsError> {
    if h.len() >= 5 && h.take(5) == seq!['N', 'A', 'M', 'E', ' '] {
        if fields(h).len() == 2 {
            Ok((st, seq![MpsRecordV::Name(fields(h)[1])]))
        } else {
            Err(MpsError::NameFields)
        }
    } else if h == seq!['N', 'A', 'M', 'E'] {
        Ok((st, Seq::empty()))
    } else if h == seq!['E', 'N', 'D', 'A', 'T', 'A'] {
        Ok((MpsLineState { section: st.section, is_int: st.is_int, endata: true }, Seq::empty()))
    } else if h == seq!['R', 'O', 'W', 'S'] {
        Ok((in_section(st, MpsSection::Rows), Seq::empty()))
    } else if h == seq!['C', 'O', 'L', 'U', 'M', 'N', 'S'] {
        Ok((in_section(st, MpsSection::Columns), Seq::empty()))
    } else if h == seq!['R', 'H', 'S'] {
        Ok((in_section(st, MpsSection::Rhs), Seq::empty()))
    } else if h == seq!['R', 'A', 'N', 'G', 'E', 'S'] {
        Ok((in_section(st, MpsSection::Ranges), Seq::empty()))
    } else if h == seq!['B', 'O', 'U', 'N', 'D', 'S'] {
        Ok((in_section(st, MpsSection::Bounds), Seq::empty()))
    } else {
        Err(MpsError::UnrecognizedHeader)
    }
}

/// The quoted word `'MARKER'`.
pub open spec fn marker_word() -> Seq<char> {
    seq!['\'', 'M', 'A', 'R', 'K', 'E', 'R', '\'']
}

/// The quoted word `'INTORG'`.
pub open spec fn intorg_word() -> Seq<char> {
    seq!['\'', 'I', 'N', 'T', 'O', 'R', 'G', '\'']
}

/// The quoted word `'INTEND'`.
pub open spec fn intend_word() -> Seq<char> {
    seq!['\'', 'I', 'N', 'T', 'E', 'N', 'D', '\'']
}

/// What a data line with fields `f` does.
pub open spec fn data_effect(st: MpsLineState, f: Seq<Seq<char>>) -> Result<(MpsLineState, Seq<MpsRecordV>), MpsError> {
    match st.section {
        MpsSection::Start => Err(MpsError::NoSection),
        MpsSection::Rows => if f.len() != 2 {
            Err(MpsError::RowsFields)
        } else if !is_row_type_code(f[0]) {
            Err(MpsError::RowType)
        } else {
            Ok((st, seq![MpsRecordV::Row(row_type_from(f[0]), f[1])]))
        },
        MpsSection::Columns => if f.len() == 3 && f[1] == marker_word() {
            if f[2] == intorg_word() {
                if st.is_int {
                    Err(MpsError::MarkerIntorgTwice)
                } else {
                    Ok((MpsLineState { section: st.section, is_int: true, endata: st.endata }, Seq::empty()))
                }
            } else if f[2] == intend_word() {
                if !st.is_int {
                    Err(MpsError::MarkerIntendAlone)
                } else {
                    Ok((MpsLineState { section: st.section, is_int: false, endata: st.endata }, Seq::empty()))
                }
            } else {
                Err(MpsError::MarkerType)
            }
        } else if f.len() == 3 {
            Ok((st, seq![MpsRecordV::Coef(f[0], f[1], f[2], st.is_int)]))
        } else if f.len() == 5 {
            Ok((st, seq![MpsRecordV::Coef(f[0], f[1], f[2], st.is_int), MpsRecordV::Coef(f[0], f[3], f[4], st.is_int)]))
        } else {
            Err(MpsError::ColumnsFields)
        },
        MpsSection::Rhs => if f.len() == 3 {
            Ok((st, seq![MpsRecordV::Rhs(f[1], f[2])]))
        } else if f.len() == 5 {
            Ok((st, seq![MpsRecordV::Rhs(f[1], f[2]), MpsRecordV::Rhs(f[3], f[4])]))
        } else {
            Err(MpsError::RhsFields)
        },
        MpsSection::Ranges => if f.len() == 3 {
            Ok((st, seq![MpsRecordV::Range(f[1], f[2])]))
        } else if f.len() == 5 {
            Ok((st, seq![MpsRecordV::Range(f[1], f[2]), MpsRecordV::Range(f[3], f[4])]))
        } else {
            Err(MpsError::RangesFields)
        },
        MpsSection::Bounds => if f.len() != 3 && f.len() != 4 {
            Err(MpsError::BoundsFields)
        } else if !is_bound_type_code(f[0]) {
            Err(MpsError::BoundType)
        } else {
            Ok((st, seq![MpsRecordV::Bound(
                bound_type_from(f[0]),
                f[2],
                if f.len() == 4 { Some(f[3]) } else { None },
            )]))
        },
    }
}

// ---------------------------------------------------------------------------
// What a data line gives, section by section

/// A data line of the ROWS section is taken exactly when it has two fields and
/// the first is the code of a row type. It then gives one row record, whose
/// type is the one with that code and whose name is the second field, and the
/// state stays as it was.
pub proof fn lemma_rows_line(st: MpsLineState, f: Seq<Seq<char>>)
    requires
        st.section == MpsSection::Rows,
    ensures
        data_effect(st, f) is Ok <==> (f.len() == 2 && is_row_type_code(f[0])),
        data_effect(st, f) matches Ok((st2, recs)) ==> {
            &&& st2 == st
            &&& recs.len() == 1
            &&& recs[0] matches MpsRecordV::Row(t, name) && row_type_code(t) == f[0] && name == f[1]
        },
{
}

/// A data line of the COLUMNS section that is not a marker is taken exactly
/// when it has 3 or 5 fields. It gives one coefficient record for each (row,
/// value) pair after the variable's name, in order, each for that variable
/// and each marked integer exactly when the line stands between integer
/// markers; the state stays as it was.
pub proof fn lemma_columns_coef_line(st: MpsLineState, f: Seq<Seq<char>>)
    requires
        st.section == MpsSection::Columns,
        !(f.len() == 3 && f[1] == marker_word()),
    ensures
        data_effect(st, f) is Ok <==> (f.len() == 3 || f.len() == 5),
        data_effect(st, f) matches Ok((st2, recs)) ==> {
            &&& st2 == st
            &&& recs.len() == (f.len() - 1) / 2
            &&& forall|j: int| 0 <= j < recs.len() ==> #[trigger] recs[j] == MpsRecordV::Coef(
                f[0],
                f[2 * j + 1],
                f[2 * j + 2],
                st.is_int,
            )
        },
{
}

/// A marker line of the COLUMNS section: `'INTORG'` opens an integer block
/// and is refused inside one, `'INTEND'` closes one and is refused outside
/// one, any other marker is refused. A marker gives no record and changes
/// nothing but the integer flag.
pub proof fn lemma_columns_marker_line(st: MpsLineState, f: Seq<Seq<char>>)
    requires
        st.section == MpsSection::Columns,
        f.len() == 3,
        f[1] == marker_word(),
    ensures
        data_effect(st, f) is Ok <==> ((f[2] == intorg_word() && !st.is_int) || (f[2] == intend_word() && st.is_int)),
        data_effect(st, f) matches Ok((st2, recs)) ==> {
            &&& recs.len() == 0
            &&& st2.section == st.section
            &&& st2.endata == st.endata
            &&& st2.is_int == !st.is_int
        },
{
    assert(intorg_word()[4] != intend_word()[4]);
}

/// A data line of the RHS section is taken exactly when it has 3 or 5 fields.
/// It gives one right-hand side record for each (row, value) pair after the
/// first field, in order; the state stays as it was.
pub proof fn lemma_rhs_line(st: MpsLineState, f: Seq<Seq<char>>)
    requires
        st.section == MpsSection::Rhs,
    ensures
        data_effect(st, f) is Ok <==> (f.len() == 3 || f.len() == 5),
        data_effect(st, f) matches Ok((st2, recs)) ==> {
            &&& st2 == st
            &&& recs.len() == (f.len() - 1) / 2
            &&& forall|j: int| 0 <= j < recs.len() ==> #[trigger] recs[j] == MpsRecordV::Rhs(f[2 * j + 1], f[2 * j + 2])
        },
{
}

/// A data line of the RANGES section is taken exactly when it has 3 or 5
/// fields. It gives one range record for each (row, value) pair after the
/// first field, in order; the state stays as it was.
pub proof fn lemma_ranges_line(st: MpsLineState, f: Seq<Seq<char>>)
    requires
        st.section == MpsSection::Ranges,
    ensures
        data_effect(st, f) is Ok <==> (f.len() == 3 || f.len() == 5),
        data_effect(st, f) matches Ok((st2, recs)) ==> {
            &&& st2 == st
            &&& recs.len() == (f.len() - 1) / 2
            &&& forall|j: int| 0 <= j < recs.len() ==> #[trigger] recs[j] == MpsRecordV::Range(f[2 * j + 1], f[2 * j + 2])
        },
{
}

/// A data line of the BOUNDS section is taken exactly when it has 3 or 4
/// fields and the first is the code of a bound type. It gives one bound
/// record: of the type with that code, for the variable in the third field,
/// with the fourth field as its value where there is one; the state stays as
/// it was.
pub proof fn lemma_bounds_line(st: MpsLineState, f: Seq<Seq<char>>)
    requires
        st.section == MpsSection::Bounds,
    ensures
        data_effect(st, f) is Ok <==> ((f.len() == 3 || f.len() == 4) && is_bound_type_code(f[0])),
        data_effect(st, f) matches Ok((st2, recs)) ==> {
            &&& st2 == st
            &&& recs.len() == 1
            &&& recs[0] matches MpsRecordV::Bound(t, var, value)
                && bound_type_code(t) == f[0]
                && var == f[2]
                && value == if f.len() == 4 { Some(f[3]) } else { None::<Seq<char>> }
        },
{
}

/// A data line before any section header is refused.
pub proof fn lemma_no_section_line(st: MpsLineState, f: Seq<Seq<char>>)
    requires
        st.section == MpsSection::Start,
    ensures
        data_effect(st, f) is Err,
{
}

/// A header line, trimmed to `h`: each section header switches to its
/// section and keeps the integer flag and the end flag; ENDATA sets the end
/// flag and keeps the rest; a bare NAME changes nothing; NAME with one name
/// gives that name; NAME with more or fewer is refused, and so is any other
/// header. No header but NAME gives a record.
pub proof fn lemma_header_line(st: MpsLineState, h: Seq<char>)
    ensures
        h == seq!['R', 'O', 'W', 'S'] ==> header_effect(st, h) == Ok::<(MpsLineState, Seq<MpsRecordV>), MpsError>(
            (MpsLineState { section: MpsSection::Rows, is_int: st.is_int, endata: st.endata }, Seq::empty()),
        ),
        h == seq!['C', 'O', 'L', 'U', 'M', 'N', 'S'] ==> header_effect(st, h) == Ok::<(MpsLineState, Seq<MpsRecordV>), MpsError>(
            (MpsLineState { section: MpsSection::Columns, is_int: st.is_int, endata: st.endata }, Seq::empty()),
        ),
        h == seq!['R', 'H', 'S'] ==> header_effect(st, h) == Ok::<(MpsLineState, Seq<MpsRecordV>), MpsError>(
            (MpsLineState { section: MpsSection::Rhs, is_int: st.is_int, endata: st.endata }, Seq::empty()),
        ),
        h == seq!['R', 'A', 'N', 'G', 'E', 'S'] ==> header_effect(st, h) == Ok::<(MpsLineState, Seq<MpsRecordV>), MpsError>(
            (MpsLineState { section: MpsSection::Ranges, is_int: st.is_int, endata: st.endata }, Seq::empty()),
        ),
        h == seq!['B', 'O', 'U', 'N', 'D', 'S'] ==> header_effect(st, h) == Ok::<(MpsLineState, Seq<MpsRecordV>), MpsError>(
            (MpsLineState { section: MpsSection::Bounds, is_int: st.is_int, endata: st.endata }, Seq::empty()),
        ),
        h == seq!['E', 'N', 'D', 'A', 'T', 'A'] ==> header_effect(st, h) == Ok::<(MpsLineState, Seq<MpsRecordV>), MpsError>(
            (MpsLineState { section: st.section, is_int: st.is_int, endata: true }, Seq::empty()),
        ),
        h == seq!['N', 'A', 'M', 'E'] ==> header_effect(st, h) == Ok::<(MpsLineState, Seq<MpsRecordV>), MpsError>((st, Seq::empty())),
        h.len() >= 5 && h.take(5) == seq!['N', 'A', 'M', 'E', ' '] ==> {
            &&& header_effect(st, h) is Ok <==> fields(h).len() == 2
            &&& header_effect(st, h) matches Ok((st2, recs)) ==> {
                &&& st2 == st
                &&& recs.len() == 1
                &&& recs[0] == MpsRecordV::Name(fields(h)[1])
            }
        },
        !(h.len() >= 5 && h.take(5) == seq!['N', 'A', 'M', 'E', ' ']) && h != seq!['N', 'A', 'M', 'E']
            && h != seq!['E', 'N', 'D', 'A', 'T', 'A'] && h != seq!['R', 'O', 'W', 'S']
            && h != seq!['C', 'O', 'L', 'U', 'M', 'N', 'S'] && h != seq!['R', 'H', 'S']
            && h != seq!['R', 'A', 'N', 'G', 'E', 'S'] && h != seq!['B', 'O', 'U', 'N', 'D', 'S']
            ==> header_effect(st, h) is Err,
{
    if h.len() >= 5 && h.take(5) == seq!['N', 'A', 'M', 'E', ' '] {
        assert(h.take(5)[4] == ' ');
        assert(h != seq!['N', 'A', 'M', 'E']);
        assert(h[0] == 'N');
    }
}

/// No data line changes the section or the end flag.
pub proof fn lemma_data_keeps_section(st: MpsLineState, f: Seq<Seq<char>>)
    ensures
        data_effect(st, f) matches Ok((st2, recs)) ==> st2.section == st.section && st2.endata == st.endata,
{
}

/// Comment lines (a `*` first) and blank lines change nothing and give no
/// record; other lines that start with a space are data lines, read by their
/// fields; the rest are headers, read trimmed. A refused line is refused
/// whatever state it meets but for the data that it holds.
pub proof fn lemma_line_kinds(st: MpsLineState, line: Seq<char>)
    ensures
        (line.len() > 0 && line[0] == '*') || trim(line).len() == 0
            ==> line_effect(st, line) == Ok::<(MpsLineState, Seq<MpsRecordV>), MpsError>((st, Seq::empty())),
        line.len() > 0 && line[0] == ' ' && trim(line).len() > 0
            ==> line_effect(st, line) == data_effect(st, fields(trim(line))),
        line.len() > 0 && line[0] != ' ' && line[0] != '*' && trim(line).len() > 0
            ==> line_effect(st, line) == header_effect(st, trim(line)),
{
}

// ---------------------------------------------------------------------------
// What trimming and splitting keep

proof fn lemma_ltrim(s: Seq<char>) -> (a: int)
    ensures
        0 <= a <= s.len(),
        ltrim(s) == s.skip(a),
        forall|i: int| 0 <= i < a ==> spec_is_ws(#[trigger] s[i]),
        a < s.len() ==> !spec_is_ws(s[a]),
    decreases s.len(),
{
    if s.len() > 0 && spec_is_ws(s[0]) {
        let a1 = lemma_ltrim(s.drop_first());
        assert(s.drop_first().skip(a1) =~= s.skip(a1 + 1));
        assert forall|i: int| 0 <= i < a1 + 1 implies spec_is_ws(#[trigger] s[i]) by {
            if i > 0 {
                assert(s[i] == s.drop_first()[i - 1]);
            }
        }
        a1 + 1
    } else {
        assert(s.skip(0) =~= s);
        0
    }
}

proof fn lemma_rtrim(s: Seq<char>) -> (b: int)
    ensures
        0 <= b <= s.len(),
        rtrim(s) == s.take(b),
        forall|i: int| b <= i < s.len() ==> spec_is_ws(#[trigger] s[i]),
        b > 0 ==> !spec_is_ws(s[b - 1]),
    decreases s.len(),
{
    if s.len() > 0 && spec_is_ws(s.last()) {
        let b1 = lemma_rtrim(s.drop_last());
        assert(s.drop_last().take(b1) =~= s.take(b1));
        assert forall|i: int| b1 <= i < s.len() implies spec_is_ws(#[trigger] s[i]) by {
            if i < s.len() - 1 {
                assert(s[i] == s.drop_last()[i]);
            }
        }
        b1
    } else {
        assert(s.take(s.len() as int) =~= s);
        s.len() as int
    }
}

/// Trimming keeps a stretch of `s` and drops only white space around it; what
/// it keeps neither starts nor ends with white space.
pub proof fn lemma_trim(s: Seq<char>)
    ensures
        exists|a: int, b: int| {
            &&& 0 <= a <= b <= s.len()
            &&& trim(s) == s.subrange(a, b)
            &&& forall|i: int| 0 <= i < a ==> spec_is_ws(#[trigger] s[i])
            &&& forall|i: int| b <= i < s.len() ==> spec_is_ws(#[trigger] s[i])
        },
        trim(s).len() > 0 ==> !spec_is_ws(trim(s)[0]) && !spec_is_ws(trim(s).last()),
{
    let a = lemma_ltrim(s);
    let t = s.skip(a);
    let b = lemma_rtrim(t);
    assert(trim(s) == t.take(b));
    assert(t.take(b) =~= s.subrange(a, a + b));
    assert forall|i: int| a + b <= i < s.len() implies spec_is_ws(#[trigger] s[i]) by {
        assert(s[i] == t[i - a]);
    }
    if trim(s).len() > 0 {
        assert(trim(s)[0] == s[a]);
        assert(trim(s).last() == t[b - 1]);
    }
}

/// The characters of `s` but its spaces, in order.
pub open spec fn drop_spaces(s: Seq<char>) -> Seq<char>
    decreases s.len(),
{
    if s.len() == 0 {
        Seq::empty()
    } else if s.last() == ' ' {
        drop_spaces(s.drop_last())
    } else {
        drop_spaces(s.drop_last()).push(s.last())
    }
}

/// The words of `ws` written one after another.
pub open spec fn joined(ws: Seq<Seq<char>>) -> Seq<char>
    decreases ws.len(),
{
    if ws.len() == 0 {
        Seq::empty()
    } else {
        joined(ws.drop_last()) + ws.last()
    }
}

/// The number of positions of `s` where a word starts: a character other
/// than a space, first in `s` or after a space.
pub open spec fn word_starts(s: Seq<char>) -> int
    decreases s.len(),
{
    if s.len() == 0 {
        0
    } else {
        word_starts(s.drop_last()) + if s.last() != ' ' && (s.len() == 1 || s[s.len() - 2] == ' ') { 1int } else { 0int }
    }
}

/// `w` stands in `s` from position `a` on, with a space or the start of `s`
/// before it and a space or the end of `s` after it.
pub open spec fn word_at(s: Seq<char>, w: Seq<char>, a: int) -> bool {
    &&& 0 <= a
    &&& a + w.len() <= s.len()
    &&& s.subrange(a, a + w.len()) == w
    &&& (a == 0 || s[a - 1] == ' ')
    &&& (a + w.len() == s.len() || s[a + w.len()] == ' ')
}

proof fn lemma_words_step(s: Seq<char>) -> (starts: Seq<int>)
    ensures
        joined(closed_words(s)) + last_word(s) == drop_spaces(s),
        closed_words(s).len() + (if last_word(s).len() > 0 { 1int } else { 0int }) == word_starts(s),
        (last_word(s).len() > 0) == (s.len() > 0 && s.last() != ' '),
        !last_word(s).contains(' '),
        forall|j: int| 0 <= j < closed_words(s).len() ==> (#[trigger] closed_words(s)[j]).len() > 0 && !closed_words(s)[j].contains(' '),
        last_word(s).len() <= s.len(),
        last_word(s) == s.subrange(s.len() - last_word(s).len(), s.len() as int),
        last_word(s).len() < s.len() ==> s[s.len() - last_word(s).len() - 1] == ' ',
        starts.len() == closed_words(s).len(),
        forall|j: int| 0 <= j < starts.len() ==> word_at(s, closed_words(s)[j], #[trigger] starts[j])
            && starts[j] + closed_words(s)[j].len() < s.len(),
    decreases s.len(),
{
    if s.len() == 0 {
        assert(s.subrange(0, 0) =~= Seq::<char>::empty());
        return Seq::empty();
    }
    let p = s.drop_last();
    let sp = lemma_words_step(p);
    assert forall|w: Seq<char>, a: int| word_at(p, w, a) && a + w.len() < p.len() implies word_at(s, w, a) by {
        assert(s.subrange(a, a + w.len()) =~= p.subrange(a, a + w.len()));
        if a > 0 {
            assert(s[a - 1] == p[a - 1]);
        }
        assert(s[a + w.len()] == p[a + w.len()]);
    }
    if p.len() > 0 {
        assert(p.last() == s[s.len() - 2]);
    }
    if s.last() == ' ' {
        assert(last_word(s) =~= Seq::<char>::empty());
        assert(s.subrange(s.len() as int, s.len() as int) =~= Seq::<char>::empty());
        if last_word(p).len() > 0 {
            assert(closed_words(s) == closed_words(p).push(last_word(p)));
            assert(joined(closed_words(s)) == joined(closed_words(p)) + last_word(p)) by {
                assert(closed_words(s).drop_last() == closed_words(p));
            }
            assert(joined(closed_words(s)) + last_word(s) =~= joined(closed_words(p)) + last_word(p));
            assert forall|j: int| 0 <= j < closed_words(s).len() implies (#[trigger] closed_words(s)[j]).len() > 0 && !closed_words(s)[j].contains(' ') by {
                if j < closed_words(p).len() {
                    assert(closed_words(s)[j] == closed_words(p)[j]);
                }
            }
            let a = p.len() - last_word(p).len();
            assert(s.subrange(a, a + last_word(p).len()) =~= p.subrange(a, p.len() as int));
            assert(word_at(s, last_word(p), a));
            let starts = sp.push(a);
            assert forall|j: int| 0 <= j < starts.len() implies word_at(s, closed_words(s)[j], #[trigger] starts[j])
                && starts[j] + closed_words(s)[j].len() < s.len() by {
                if j < sp.len() {
                    assert(closed_words(s)[j] == closed_words(p)[j]);
                    assert(starts[j] == sp[j]);
                    assert(word_at(p, closed_words(p)[j], sp[j]));
                } else {
                    assert(closed_words(s)[j] == last_word(p));
                }
            }
            starts
        } else {
            assert(last_word(p) =~= Seq::<char>::empty());
            assert(closed_words(s) == closed_words(p));
            assert(joined(closed_words(s)) + last_word(s) =~= joined(closed_words(p)) + last_word(p));
            assert forall|j: int| 0 <= j < sp.len() implies word_at(s, closed_words(s)[j], #[trigger] sp[j])
                && sp[j] + closed_words(s)[j].len() < s.len() by {
                assert(word_at(p, closed_words(p)[j], sp[j]));
            }
            sp
        }
    } else {
        assert(closed_words(s) == closed_words(p));
        assert(joined(closed_words(s)) + last_word(s) =~= (joined(closed_words(p)) + last_word(p)).push(s.last()));
        assert(last_word(s) =~= s.subrange(s.len() - last_word(s).len(), s.len() as int));
        if last_word(s).len() < s.len() {
            assert(s[s.len() - last_word(s).len() - 1] == p[p.len() - last_word(p).len() - 1]);
        }
        assert forall|i: int| 0 <= i < last_word(s).len() implies last_word(s)[i] != ' ' by {
            if i < last_word(p).len() {
                assert(last_word(s)[i] == last_word(p)[i]);
                assert(last_word(p).contains(last_word(p)[i]));
            }
        }
        assert forall|j: int| 0 <= j < sp.len() implies word_at(s, closed_words(s)[j], #[trigger] sp[j])
            && sp[j] + closed_words(s)[j].len() < s.len() by {
            assert(word_at(p, closed_words(p)[j], sp[j]));
        }
        sp
    }
}

/// The fields of `s` are nonempty and hold no space, and each stands in `s`
/// between spaces (or the ends of `s`), from the position that `starts` gives
/// on; written one after another they give the characters of `s` but its
/// spaces, in order; and there is one for each place where a word starts in
/// `s`.
pub proof fn lemma_fields(s: Seq<char>) -> (starts: Seq<int>)
    ensures
        forall|j: int| 0 <= j < fields(s).len() ==> (#[trigger] fields(s)[j]).len() > 0 && !fields(s)[j].contains(' '),
        starts.len() == fields(s).len(),
        forall|j: int| 0 <= j < starts.len() ==> word_at(s, fields(s)[j], #[trigger] starts[j]),
        joined(fields(s)) == drop_spaces(s),
        fields(s).len() == word_starts(s),
{
    let sc = lemma_words_step(s);
    if last_word(s).len() > 0 {
        assert(fields(s).drop_last() == closed_words(s));
        assert forall|j: int| 0 <= j < fields(s).len() implies (#[trigger] fields(s)[j]).len() > 0 && !fields(s)[j].contains(' ') by {
            if j < closed_words(s).len() {
                assert(fields(s)[j] == closed_words(s)[j]);
            }
        }
        let a = s.len() - last_word(s).len();
        let starts = sc.push(a);
        assert forall|j: int| 0 <= j < starts.len() implies word_at(s, fields(s)[j], #[trigger] starts[j]) by {
            if j < sc.len() {
                assert(fields(s)[j] == closed_words(s)[j]);
                assert(starts[j] == sc[j]);
                assert(word_at(s, closed_words(s)[j], sc[j]));
            } else {
                assert(fields(s)[j] == last_word(s));
            }
        }
        starts
    } else {
        assert(last_word(s) =~= Seq::<char>::empty());
        assert(joined(closed_words(s)) + last_word(s) =~= joined(closed_words(s)));
        assert forall|j: int| 0 <= j < sc.len() implies word_at(s, fields(s)[j], #[trigger] sc[j]) by {
            assert(word_at(s, closed_words(s)[j], sc[j]));
        }
        sc
    }
}

/// What a line of an MPS file does: comment and blank lines nothing, lines
/// that start with a space are data of the current section, and the others
/// are headers.
pub open spec fn line_effect(st: MpsLineState, line: Seq<char>) -> Result<(MpsLineState, Seq<MpsRecordV>), MpsError> {
    if (line.len() > 0 && line[0] == '*') || trim(line).len() == 0 {
        Ok((st, Seq::empty()))
    } else if line[0] != ' ' {
        header_effect(st, trim(line))
    } else {
        data_effect(st, fields(trim(line)))
    }
}

/// The records `v` read as `r`.
pub open spec fn records_are(v: Seq<MpsRecord>, r: Seq<MpsRecordV>) -> bool {
    &&& v.len() == r.len()
    &&& forall|k: int| 0 <= k < v.len() ==> #[trigger] v[k]@ == r[k]
}

impl MpsLineState {
    /// The state before the first line.
    pub fn new() -> (st: Self)
        ensures
            st == (MpsLineState { section: MpsSection::Start, is_int: false, endata: false }),
    {
        MpsLineState { section: MpsSection::Start, is_int: false, endata: false }
    }
}

/// Reads one line of an MPS file: updates `state` and returns the records
/// that the line holds; on an error `state` stays as it was.
pub fn read_mps_line(state: &mut MpsLineState, line: &[char]) -> (res: Result<Vec<MpsRecord>, MpsError>)
    ensures
        match line_effect(*old(state), line@) {
            Ok((st, recs)) => {
                &&& res is Ok
                &&& *final(state) == st
                &&& records_are(res->Ok_0@, recs)
            },
            Err(e) => {
                &&& res == Err::<Vec<MpsRecord>, MpsError>(e)
                &&& *final(state) == *old(state)
            },
        },
{
    let t = trim_chars(line);
    if (line.len() > 0 && line[0] == '*') || t.len() == 0 {
        let r: Vec<MpsRecord> = Vec::new();
        assert(records_are(r@, Seq::empty()));
        return Ok(r);
    }
    if line[0] != ' ' {
        read_header(state, &t)
    } else {
        let f = split_fields(&t);
        assert(views(f@) =~= fields(t@));
        read_data(state, &f)
    }
}

fn read_header(state: &mut MpsLineState, h: &Vec<char>) -> (res: Result<Vec<MpsRecord>, MpsError>)
    ensures
        match header_effect(*old(state), h@) {
            Ok((st, recs)) => {
                &&& res is Ok
                &&& *final(state) == st
                &&& records_are(res->Ok_0@, recs)
            },
            Err(e) => {
                &&& res == Err::<Vec<MpsRecord>, MpsError>(e)
                &&& *final(state) == *old(state)
            },
        },
{
    let mut r: Vec<MpsRecord> = Vec::new();
    if h.len() >= 5 && chars_eq(&h.as_slice()[0..5], &['N', 'A', 'M', 'E', ' ']) {
        let f = split_fields(h.as_slice());
        if f.len() != 2 {
            return Err(MpsError::NameFields);
        }
        r.push(MpsRecord::Name(copy_chars(&f[1])));
        return Ok(r);
    }
    if chars_eq(h.as_slice(), &['N', 'A', 'M', 'E']) {
    } else if chars_eq(h.as_slice(), &['E', 'N', 'D', 'A', 'T', 'A']) {
        state.endata = true;
    } else if chars_eq(h.as_slice(), &['R', 'O', 'W', 'S']) {
        state.section = MpsSection::Rows;
    } else if chars_eq(h.as_slice(), &['C', 'O', 'L', 'U', 'M', 'N', 'S']) {
        state.section = MpsSection::Columns;
    } else if chars_eq(h.as_slice(), &['R', 'H', 'S']) {
        state.section = MpsSection::Rhs;
    } else if chars_eq(h.as_slice(), &['R', 'A', 'N', 'G', 'E', 'S']) {
        state.section = MpsSection::Ranges;
    } else if chars_eq(h.as_slice(), &['B', 'O', 'U', 'N', 'D', 'S']) {
        state.section = MpsSection::Bounds;
    } else {
        return Err(MpsError::UnrecognizedHeader);
    }
    Ok(r)
}

proof fn lemma_row_code_unique(a: MPSDataRowType, b: MPSDataRowType)
    requires
        row_type_code(a) == row_type_code(b),
    ensures
        a == b,
{
    assert(row_type_code(a)[0] == row_type_code(b)[0]);
    match a {
        MPSDataRowType::N => assert(row_type_code(a)[0] == 'N'),
        MPSDataRowType::E => assert(row_type_code(a)[0] == 'E'),
        MPSDataRowType::G => assert(row_type_code(a)[0] == 'G'),
        MPSDataRowType::L => assert(row_type_code(a)[0] == 'L'),
    }
    match b {
        MPSDataRowType::N => assert(row_type_code(b)[0] == 'N'),
        MPSDataRowType::E => assert(row_type_code(b)[0] == 'E'),
        MPSDataRowType::G => assert(row_type_code(b)[0] == 'G'),
        MPSDataRowType::L => assert(row_type_code(b)[0] == 'L'),
    }
}

proof fn lemma_bound_code_unique(a: MPSDataBoundType, b: MPSDataBoundType)
    requires
        bound_type_code(a) == bound_type_code(b),
    ensures
        a == b,
{
    assert(bound_type_code(a)[0] == bound_type_code(b)[0]);
    assert(bound_type_code(a)[1] == bound_type_code(b)[1]);
}

/// The character sequences of `f`.
pub open spec fn views(f: Seq<Vec<char>>) -> Seq<Seq<char>> {
    f.map_values(|v: Vec<char>| v@)
}

fn read_data(state: &mut MpsLineState, f: &Vec<Vec<char>>) -> (res: Result<Vec<MpsRecord>, MpsError>)
    ensures
        match data_effect(*old(state), views(f@)) {
            Ok((st, recs)) => {
                &&& res is Ok
                &&& *final(state) == st
                &&& records_are(res->Ok_0@, recs)
            },
            Err(e) => {
                &&& res == Err::<Vec<MpsRecord>, MpsError>(e)
                &&& *final(state) == *old(state)
            },
        },
{
    let ghost fv = views(f@);
    let n = f.len();
    let mut r: Vec<MpsRecord> = Vec::new();
    match state.section {
        MpsSection::Start => {
            return Err(MpsError::NoSection);
        },
        MpsSection::Rows => {
            if n != 2 {
                return Err(MpsError::RowsFields);
            }
            match row_type_of(f[0].as_slice()) {
                None => {
                    return Err(MpsError::RowType);
                },
                Some(t) => {
                    r.push(MpsRecord::Row(t, copy_chars(f[1].as_slice())));
                    proof {
                        lemma_row_code_unique(t, row_type_from(fv[0]));
                        assert(records_are(r@, seq![MpsRecordV::Row(row_type_from(fv[0]), fv[1])]));
                    }
                },
            }
        },
        MpsSection::Columns => {
            if n == 3 && chars_eq(f[1].as_slice(), &['\'', 'M', 'A', 'R', 'K', 'E', 'R', '\'']) {
                assert(fv[1] == f@[1]@);
                assert(fv[2] == f@[2]@);
                if chars_eq(f[2].as_slice(), &['\'', 'I', 'N', 'T', 'O', 'R', 'G', '\'']) {
                    if state.is_int {
                        return Err(MpsError::MarkerIntorgTwice);
                    }
                    state.is_int = true;
                } else if chars_eq(f[2].as_slice(), &['\'', 'I', 'N', 'T', 'E', 'N', 'D', '\'']) {
                    if !state.is_int {
                        return Err(MpsError::MarkerIntendAlone);
                    }
                    state.is_int = false;
                } else {
                    return Err(MpsError::MarkerType);
                }
            } else if n == 3 {
                r.push(MpsRecord::Coef(copy_chars(f[0].as_slice()), copy_chars(f[1].as_slice()), copy_chars(f[2].as_slice()), state.is_int));
                assert(records_are(r@, seq![MpsRecordV::Coef(fv[0], fv[1], fv[2], state.is_int)]));
            } else if n == 5 {
                r.push(MpsRecord::Coef(copy_chars(f[0].as_slice()), copy_chars(f[1].as_slice()), copy_chars(f[2].as_slice()), state.is_int));
                r.push(MpsRecord::Coef(copy_chars(f[0].as_slice()), copy_chars(f[3].as_slice()), copy_chars(f[4].as_slice()), state.is_int));
                assert(records_are(r@, seq![MpsRecordV::Coef(fv[0], fv[1], fv[2], state.is_int), MpsRecordV::Coef(fv[0], fv[3], fv[4], state.is_int)]));
            } else {
                return Err(MpsError::ColumnsFields);
            }
        },
        MpsSection::Rhs => {
            if n == 3 {
                r.push(MpsRecord::Rhs(copy_chars(f[1].as_slice()), copy_chars(f[2].as_slice())));
                assert(records_are(r@, seq![MpsRecordV::Rhs(fv[1], fv[2])]));
            } else if n == 5 {
                r.push(MpsRecord::Rhs(copy_chars(f[1].as_slice()), copy_chars(f[2].as_slice())));
                r.push(MpsRecord::Rhs(copy_chars(f[3].as_slice()), copy_chars(f[4].as_slice())));
                assert(records_are(r@, seq![MpsRecordV::Rhs(fv[1], fv[2]), MpsRecordV::Rhs(fv[3], fv[4])]));
            } else {
                return Err(MpsError::RhsFields);
            }
        },
        MpsSection::Ranges => {
            if n == 3 {
                r.push(MpsRecord::Range(copy_chars(f[1].as_slice()), copy_chars(f[2].as_slice())));
                assert(records_are(r@, seq![MpsRecordV::Range(fv[1], fv[2])]));
            } else if n == 5 {
                r.push(MpsRecord::Range(copy_chars(f[1].as_slice()), copy_chars(f[2].as_slice())));
                r.push(MpsRecord::Range(copy_chars(f[3].as_slice()), copy_chars(f[4].as_slice())));
                assert(records_are(r@, seq![MpsRecordV::Range(fv[1], fv[2]), MpsRecordV::Range(fv[3], fv[4])]));
            } else {
                return Err(MpsError::RangesFields);
            }
        },
        MpsSection::Bounds => {
            if n != 3 && n != 4 {
                return Err(MpsError::BoundsFields);
            }
            match bound_type_of(f[0].as_slice()) {
                None => {
                    return Err(MpsError::BoundType);
                },
                Some(t) => {
                    let value = if n == 4 {
                        Some(copy_chars(f[3].as_slice()))
                    } else {
                        None
                    };
                    r.push(MpsRecord::Bound(t, copy_chars(f[2].as_slice()), value));
                    proof {
                        lemma_bound_code_unique(t, bound_type_from(fv[0]));
                        assert(records_are(r@, seq![MpsRecordV::Bound(
                            bound_type_from(fv[0]),
                            fv[2],
                            if n == 4 { Some(fv[3]) } else { None },
                        )]));
                    }
                },
            }
        },
    }
    Ok(r)
}

/// A record read as a sequence of characters keeps its kind, its types and
/// its flag, and each of its texts character for character.
pub proof fn lemma_record_view(r: MpsRecord)
    ensures
        r matches MpsRecord::Name(n) ==> r@ == MpsRecordV::Name(n@),
        r matches MpsRecord::Row(t, n) ==> r@ == MpsRecordV::Row(t, n@),
        r matches MpsRecord::Coef(v, row, x, i) ==> r@ == MpsRecordV::Coef(v@, row@, x@, i),
        r matches MpsRecord::Rhs(row, x) ==> r@ == MpsRecordV::Rhs(row@, x@),
        r matches MpsRecord::Range(row, x) ==> r@ == MpsRecordV::Range(row@, x@),
        r matches MpsRecord::Bound(t, v, x) ==> r@ == MpsRecordV::Bound(
            t,
            v@,
            match x {
                Some(x) => Some(x@),
                None => None,
            },
        ),
{
}

/// Records read as the sequences `r` are as many as `r`, each reading as the
/// one of `r` at its place.
pub proof fn lemma_records_are(v: Seq<MpsRecord>, r: Seq<MpsRecordV>)
    requires
        records_are(v, r),
    ensures
        v.len() == r.len(),
        forall|k: int| 0 <= k < v.len() ==> #[trigger] v[k]@ == r[k],
{
}

/// The character sequences of `f` are as many as `f`, each that of the
/// vector at its place.
pub proof fn lemma_views(f: Seq<Vec<char>>)
    ensures
        views(f).len() == f.len(),
        forall|k: int| 0 <= k < f.len() ==> #[trigger] views(f)[k] == f[k]@,
{
}

} // verus!
