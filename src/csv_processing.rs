//! The manifest analysis: a header naming every declared column, then data
//! rows that must each read as the schema says, tallied in one pass.

use vstd::prelude::*;

use crate::fields::{chars_of, float_text, parse_unsigned, same_text, unsigned_of};
use crate::schema::{columns, field_fits, field_reads_as, lemma_schema_covers, schema, Column};
use crate::source::{csv_records_of, read_records};

verus! {

/// The tallies of one complete pass over a manifest.
#[derive(Clone, Copy, Debug, PartialEq, Eq, Structural)]
pub struct Statistics {
    pub total_passengers: usize,
    pub survived_passengers: usize,
    pub male_passengers: usize,
    pub female_passengers: usize,
}

/// Why an analysis failed; every failure aborts the whole pass.
#[derive(Clone, Copy, Debug, PartialEq, Eq, Structural)]
pub enum AnalyzeError {
    /// The source could not be opened or read.
    SourceUnavailable,
    /// The header is absent or unreadable, or lacks a declared column.
    SchemaError,
    /// The data row at this position (counted from 1 after the header) does not
    /// read as the schema says.
    RowParseError { row: usize },
}

/// `i` is the first position of `name` in the header.
pub open spec fn first_position(header: Seq<Seq<char>>, name: Seq<char>, i: int) -> bool {
    &&& 0 <= i < header.len()
    &&& header[i] == name
    &&& forall|j: int| 0 <= j < i ==> header[j] != name
}

/// Where the header names a column: its first position.
pub open spec fn column_index(header: Seq<Seq<char>>, name: Seq<char>) -> int {
    choose|i: int| first_position(header, name, i)
}

/// The header names every declared column.
pub open spec fn header_ok(header: Seq<Seq<char>>) -> bool {
    forall|c: Column| #[trigger] header.contains(c.spec_name())
}

/// The field of a row that stands under a column of the header.
pub open spec fn field_of(header: Seq<Seq<char>>, row: Seq<Seq<char>>, c: Column) -> Seq<char> {
    row[column_index(header, c.spec_name())]
}

/// A data row has one field per header column, and each declared column's
/// field reads as that column's type.
pub open spec fn row_ok(header: Seq<Seq<char>>, row: Seq<Seq<char>>) -> bool {
    &&& row.len() == header.len()
    &&& forall|c: Column| #[trigger] field_reads_as(c, field_of(header, row, c))
}

pub open spec fn survived_row(header: Seq<Seq<char>>, row: Seq<Seq<char>>) -> bool {
    unsigned_of(field_of(header, row, Column::Survived)) == Some(1u32)
}

pub open spec fn male_row(header: Seq<Seq<char>>, row: Seq<Seq<char>>) -> bool {
    field_of(header, row, Column::Sex) == "male"@
}

pub open spec fn female_row(header: Seq<Seq<char>>, row: Seq<Seq<char>>) -> bool {
    field_of(header, row, Column::Sex) == "female"@
}

/// How many rows satisfy `p`.
pub open spec fn count_rows(rows: Seq<Seq<Seq<char>>>, p: spec_fn(Seq<Seq<char>>) -> bool) -> nat
    decreases rows.len(),
{
    if rows.len() == 0 {
        0
    } else {
        count_rows(rows.drop_last(), p) + if p(rows.last()) {
            1nat
        } else {
            0nat
        }
    }
}

/// Record `i` is the first data row that does not read as the schema says.
pub open spec fn first_bad_row(records: Seq<Seq<Seq<char>>>, i: int) -> bool {
    &&& 1 <= i < records.len()
    &&& !row_ok(records[0], records[i])
    &&& forall|j: int| 1 <= j < i ==> row_ok(records[0], #[trigger] records[j])
}

/// The outcome of analysing the records of a source, the first one being the
/// header; `complete` tells whether the source was read to its end.
pub open spec fn analysis_of(records: Seq<Seq<Seq<char>>>, complete: bool) -> Result<
    Statistics,
    AnalyzeError,
> {
    if records.len() == 0 || !header_ok(records[0]) {
        Err(AnalyzeError::SchemaError)
    } else if exists|i: int| first_bad_row(records, i) {
        Err(AnalyzeError::RowParseError { row: (choose|i: int| first_bad_row(records, i)) as usize })
    } else if !complete {
        Err(AnalyzeError::RowParseError { row: records.len() as usize })
    } else {
        let h = records[0];
        let rows = records.skip(1);
        Ok(
            Statistics {
                total_passengers: rows.len() as usize,
                survived_passengers: count_rows(rows, |r: Seq<Seq<char>>| survived_row(h, r)) as usize,
                male_passengers: count_rows(rows, |r: Seq<Seq<char>>| male_row(h, r)) as usize,
                female_passengers: count_rows(rows, |r: Seq<Seq<char>>| female_row(h, r)) as usize,
            },
        )
    }
}

proof fn lemma_first_position_unique(header: Seq<Seq<char>>, name: Seq<char>, i: int, j: int)
    requires
        first_position(header, name, i),
        first_position(header, name, j),
    ensures
        i == j,
{
}

proof fn lemma_count_at_most(rows: Seq<Seq<Seq<char>>>, p: spec_fn(Seq<Seq<char>>) -> bool)
    ensures
        count_rows(rows, p) <= rows.len(),
    decreases rows.len(),
{
    if rows.len() > 0 {
        lemma_count_at_most(rows.drop_last(), p);
    }
}

/// The first position at which the header names `name`.
fn find_column(header: &Vec<String>, name: &str) -> (r: Option<usize>)
    ensures
        match r {
            Some(i) => first_position(header.deep_view(), name@, i as int),
            None => !header.deep_view().contains(name@),
        },
{
    let ghost h = header.deep_view();
    let mut i: usize = 0;
    while i < header.len()
        invariant
            h == header.deep_view(),
            i <= header.len(),
            forall|j: int| 0 <= j < i ==> h[j] != name@,
        decreases header.len() - i,
    {
        assert(h[i as int] == header[i as int]@);
        if same_text(header[i].as_str(), name) {
            return Some(i);
        }
        i = i + 1;
    }
    None
}

/// The positions under which the header names the declared columns, in the
/// order of the schema.
pub open spec fn positions_of(header: Seq<Seq<char>>, positions: Seq<usize>) -> bool {
    &&& positions.len() == schema().len()
    &&& forall|k: int|
        0 <= k < schema().len() ==> first_position(
            header,
            schema()[k].spec_name(),
            #[trigger] positions[k] as int,
        )
}

proof fn lemma_position_is_index(header: Seq<Seq<char>>, positions: Seq<usize>, k: int)
    requires
        positions_of(header, positions),
        0 <= k < schema().len(),
    ensures
        column_index(header, schema()[k].spec_name()) == positions[k] as int,
{
    let name = schema()[k].spec_name();
    assert(first_position(header, name, positions[k] as int));
    let i = column_index(header, name);
    lemma_first_position_unique(header, name, i, positions[k] as int);
}

fn row_fits(header: &Vec<String>, positions: &Vec<usize>, cols: &Vec<Column>, row: &Vec<String>) -> (r:
    bool)
    requires
        cols@ == schema(),
        positions_of(header.deep_view(), positions@),
    ensures
        r == row_ok(header.deep_view(), row.deep_view()),
{
    let ghost h = header.deep_view();
    let ghost rv = row.deep_view();
    if row.len() != header.len() {
        return false;
    }
    let mut k: usize = 0;
    while k < cols.len()
        invariant
            cols@ == schema(),
            positions_of(h, positions@),
            h == header.deep_view(),
            rv == row.deep_view(),
            row.len() == header.len(),
            k <= cols.len(),
            forall|j: int|
                0 <= j < k ==> field_reads_as(
                    schema()[j],
                    #[trigger] field_of(h, rv, schema()[j]),
                ),
        decreases cols.len() - k,
    {
        let p = positions[k];
        proof {
            lemma_position_is_index(h, positions@, k as int);
            assert(first_position(h, schema()[k as int].spec_name(), positions@[k as int] as int));
        }
        assert(rv[p as int] == row[p as int]@);
        if !field_fits(cols[k], row[p].as_str()) {
            assert(!field_reads_as(cols@[k as int], field_of(h, rv, cols@[k as int])));
            return false;
        }
        k = k + 1;
    }
    assert forall|c: Column| #[trigger] field_reads_as(c, field_of(h, rv, c)) by {
        lemma_schema_covers(c);
        let j = choose|j: int| 0 <= j < schema().len() && schema()[j] == c;
        assert(field_reads_as(schema()[j], field_of(h, rv, schema()[j])));
    }
    true
}

/// Analyses the records of a source, the first one being the header;
/// `complete` tells whether the source was read to its end.
pub fn analyze_records(records: &Vec<Vec<String>>, complete: bool) -> (r: Result<
    Statistics,
    AnalyzeError,
>)
    ensures
        r == analysis_of(records.deep_view(), complete),
{
    let ghost rs = records.deep_view();
    if records.len() == 0 {
        return Err(AnalyzeError::SchemaError);
    }
    let header = &records[0];
    let ghost h = header.deep_view();
    assert(rs[0] == h);
    let cols = columns();
    let mut positions: Vec<usize> = Vec::new();
    let mut k: usize = 0;
    while k < cols.len()
        invariant
            cols@ == schema(),
            h == header.deep_view(),
            rs == records.deep_view(),
            rs[0] == h,
            k <= cols.len(),
            positions.len() == k,
            forall|j: int|
                0 <= j < k ==> first_position(
                    h,
                    schema()[j].spec_name(),
                    #[trigger] positions@[j] as int,
                ),
        decreases cols.len() - k,
    {
        match find_column(header, cols[k].name()) {
            None => {
                assert(!header_ok(h)) by {
                    assert(!h.contains(cols@[k as int].spec_name()));
                }
                return Err(AnalyzeError::SchemaError);
            },
            Some(p) => {
                positions.push(p);
            },
        }
        k = k + 1;
    }
    assert(header_ok(h)) by {
        assert forall|c: Column| #[trigger] h.contains(c.spec_name()) by {
            lemma_schema_covers(c);
            let j = choose|j: int| 0 <= j < schema().len() && schema()[j] == c;
            assert(first_position(h, schema()[j].spec_name(), positions@[j] as int));
        }
    }
    let ghost pred_survived = |r: Seq<Seq<char>>| survived_row(h, r);
    let ghost pred_male = |r: Seq<Seq<char>>| male_row(h, r);
    let ghost pred_female = |r: Seq<Seq<char>>| female_row(h, r);
    let mut survived: usize = 0;
    let mut male: usize = 0;
    let mut female: usize = 0;
    let mut i: usize = 1;
    while i < records.len()
        invariant
            rs == records.deep_view(),
            rs[0] == h,
            header_ok(h),
            h == header.deep_view(),
            header == &records[0],
            cols@ == schema(),
            positions_of(h, positions@),
            1 <= i <= records.len(),
            forall|j: int| 1 <= j < i ==> row_ok(h, #[trigger] rs[j]),
            survived as nat == count_rows(rs.subrange(1, i as int), pred_survived),
            male as nat == count_rows(rs.subrange(1, i as int), pred_male),
            female as nat == count_rows(rs.subrange(1, i as int), pred_female),
            survived < i,
            male < i,
            female < i,
            pred_survived == (|r: Seq<Seq<char>>| survived_row(h, r)),
            pred_male == (|r: Seq<Seq<char>>| male_row(h, r)),
            pred_female == (|r: Seq<Seq<char>>| female_row(h, r)),
        decreases records.len() - i,
    {
        let row = &records[i];
        let ghost rv = row.deep_view();
        assert(rs[i as int] == rv);
        if !row_fits(header, &positions, &cols, row) {
            assert(first_bad_row(rs, i as int));
            proof {
                let c = choose|c: int| first_bad_row(rs, c);
                if c < i {
                    assert(row_ok(h, rs[c]));
                } else if c > i {
                    assert(row_ok(h, rs[i as int]));
                }
                assert(c == i);
            }
            return Err(AnalyzeError::RowParseError { row: i });
        }
        proof {
            lemma_position_is_index(h, positions@, 1);
            lemma_position_is_index(h, positions@, 4);
            assert(schema()[1] == Column::Survived);
            assert(schema()[4] == Column::Sex);
            reveal_strlit("male");
            reveal_strlit("female");
            assert("male"@.len() == 4);
            assert("female"@.len() == 6);
        }
        let ps = positions[1];
        let px = positions[4];
        assert(rv[ps as int] == row[ps as int]@);
        assert(rv[px as int] == row[px as int]@);
        let ghost next = rs.subrange(1, i as int + 1);
        assert(next.drop_last() =~= rs.subrange(1, i as int));
        assert(next.last() == rv);
        if parse_unsigned(&chars_of(row[ps].as_str())) == Some(1u32) {
            survived = survived + 1;
        }
        let sex = row[px].as_str();
        if same_text(sex, "male") {
            male = male + 1;
        } else if same_text(sex, "female") {
            female = female + 1;
        }
        i = i + 1;
    }
    assert(!exists|c: int| first_bad_row(rs, c));
    if !complete {
        return Err(AnalyzeError::RowParseError { row: records.len() });
    }
    assert(rs.subrange(1, rs.len() as int) =~= rs.skip(1));
    Ok(
        Statistics {
            total_passengers: records.len() - 1,
            survived_passengers: survived,
            male_passengers: male,
            female_passengers: female,
        },
    )
}

/// Analyses a comma-separated manifest: its first record is the header, every
/// other one a passenger.
pub fn analyze(src: &[u8]) -> (r: Result<Statistics, AnalyzeError>)
    ensures
        r == analysis_of(csv_records_of(src@).0, csv_records_of(src@).1),
{
    let (records, complete) = read_records(src);
    analyze_records(&records, complete)
}

proof fn lemma_count_split(rows: Seq<Seq<Seq<char>>>, p: spec_fn(Seq<Seq<char>>) -> bool)
    ensures
        count_rows(rows, p) + count_rows(rows, |r: Seq<Seq<char>>| !p(r)) == rows.len(),
    decreases rows.len(),
{
    if rows.len() > 0 {
        lemma_count_split(rows.drop_last(), p);
    }
}

proof fn lemma_count_disjoint(
    rows: Seq<Seq<Seq<char>>>,
    p: spec_fn(Seq<Seq<char>>) -> bool,
    q: spec_fn(Seq<Seq<char>>) -> bool,
)
    requires
        forall|r: Seq<Seq<char>>| !(#[trigger] p(r) && q(r)),
    ensures
        count_rows(rows, p) + count_rows(rows, q) <= rows.len(),
    decreases rows.len(),
{
    if rows.len() > 0 {
        lemma_count_disjoint(rows.drop_last(), p, q);
    }
}

/// A successful analysis counts every data row once: the total is the number
/// of data rows, the survivors and the rows whose `Survived` is not 1 make up
/// that number, and the male and female tallies together do not exceed it.
pub proof fn lemma_tallies_cover_rows(records: Seq<Seq<Seq<char>>>, complete: bool)
    requires
        records.len() <= usize::MAX,
        analysis_of(records, complete) is Ok,
    ensures
        ({
            let s = analysis_of(records, complete)->Ok_0;
            let h = records[0];
            let rows = records.skip(1);
            &&& s.total_passengers == rows.len()
            &&& s.survived_passengers + count_rows(rows, |r: Seq<Seq<char>>| !survived_row(h, r))
                == rows.len()
            &&& s.male_passengers + s.female_passengers <= rows.len()
        }),
{
    let h = records[0];
    let rows = records.skip(1);
    let ps = |r: Seq<Seq<char>>| survived_row(h, r);
    let pm = |r: Seq<Seq<char>>| male_row(h, r);
    let pf = |r: Seq<Seq<char>>| female_row(h, r);
    lemma_count_at_most(rows, ps);
    lemma_count_at_most(rows, pm);
    lemma_count_at_most(rows, pf);
    lemma_count_split(rows, ps);
    assert((|r: Seq<Seq<char>>| !ps(r)) =~= (|r: Seq<Seq<char>>| !survived_row(h, r)));
    reveal_strlit("male");
    reveal_strlit("female");
    assert("male"@.len() == 4);
    assert("female"@.len() == 6);
    lemma_count_disjoint(rows, pm, pf);
}

/// A successful analysis never counts more survivors than passengers, so the
/// survival rate lies between 0 and 100 percent; with no data rows every
/// tally is zero and the rate is 0.
pub proof fn lemma_survival_rate_bounds(records: Seq<Seq<Seq<char>>>, complete: bool)
    requires
        records.len() <= usize::MAX,
        analysis_of(records, complete) is Ok,
    ensures
        ({
            let s = analysis_of(records, complete)->Ok_0;
            &&& s.survived_passengers <= s.total_passengers
            &&& s.total_passengers == 0 ==> s.survived_passengers == 0 && s.male_passengers == 0
                && s.female_passengers == 0
        }),
{
    lemma_tallies_cover_rows(records, complete);
}

/// A header that lacks a declared column fails the analysis with a schema
/// error, whatever rows follow it.
pub proof fn lemma_missing_column_fails(records: Seq<Seq<Seq<char>>>, complete: bool, c: Column)
    requires
        records.len() > 0,
        !records[0].contains(c.spec_name()),
    ensures
        analysis_of(records, complete) == Err::<Statistics, AnalyzeError>(AnalyzeError::SchemaError),
{
}

/// Under a full header, when data row `k` is the first whose `Fare` does not
/// read as a number, the analysis fails at row `k` and gives no tallies.
pub proof fn lemma_bad_fare_fails(records: Seq<Seq<Seq<char>>>, complete: bool, k: int)
    requires
        records.len() <= usize::MAX,
        header_ok(records[0]),
        1 <= k < records.len(),
        forall|j: int| 1 <= j < k ==> row_ok(records[0], #[trigger] records[j]),
        !float_text(field_of(records[0], records[k], Column::Fare)),
    ensures
        analysis_of(records, complete) == Err::<Statistics, AnalyzeError>(
            AnalyzeError::RowParseError { row: k as usize },
        ),
{
    let h = records[0];
    assert(!field_reads_as(Column::Fare, field_of(h, records[k], Column::Fare)));
    assert(first_bad_row(records, k));
    let c = choose|c: int| first_bad_row(records, c);
    if c < k {
        assert(row_ok(h, records[c]));
    } else if c > k {
        assert(row_ok(h, records[k]));
    }
}

} // verus!
