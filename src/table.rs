use vstd::prelude::*;

verus! {

/// The error that the CSV reader reports for malformed input.
#[verifier::external_type_specification]
#[verifier::external_body]
pub struct ExCsvError(csv::Error);

/// The rows of fields that the CSV reader finds in `text`, header row
/// included, or `None` when it rejects the text.
pub uninterp spec fn csv_rows(text: Seq<char>) -> Option<Seq<Seq<Seq<char>>>>;

/// The text of each field of a row.
pub open spec fn fields_view(row: Vec<String>) -> Seq<Seq<char>> {
    row@.map_values(|f: String| f@)
}

/// The text of each field of each row.
pub open spec fn rows_view(rows: Seq<Vec<String>>) -> Seq<Seq<Seq<char>>> {
    rows.map_values(|row: Vec<String>| fields_view(row))
}

/// Relies on csv's `Reader` (from `ReaderBuilder` with the header row read
/// as an ordinary record) and its `records` iterator: the rows it yields are
/// determined by the text alone, and an error on any row rejects the text.
#[verifier::external_body]
fn read_rows(text: &str) -> (r: Result<Vec<Vec<String>>, csv::Error>)
    ensures
        match r {
            Ok(rows) => csv_rows(text@) == Some(rows_view(rows@)),
            Err(_) => csv_rows(text@) is None,
        },
{
    let mut reader = csv::ReaderBuilder::new().has_headers(false).from_reader(text.as_bytes());
    let mut rows = Vec::new();
    for record in reader.records() {
        rows.push(record?.iter().map(String::from).collect());
    }
    Ok(rows)
}

/// Why a table could not be read.
#[derive(Debug)]
pub enum TableError {
    /// The CSV reader rejected the text.
    Csv(csv::Error),
    /// The header row has no column of this name.
    MissingColumn(String),
    /// The record at this position (0 for the first after the header) has
    /// fewer fields than the header names.
    ShortRecord(usize),
}

/// `i` is the position of the first column called `name` in `header`.
pub open spec fn is_first_column(header: Seq<Seq<char>>, name: Seq<char>, i: int) -> bool {
    &&& 0 <= i < header.len()
    &&& header[i] == name
    &&& forall|j: int| 0 <= j < i ==> header[j] != name
}

/// The position of the first column called `name` in `header`.
pub open spec fn column_of(header: Seq<Seq<char>>, name: Seq<char>) -> Option<int> {
    if exists|i: int| is_first_column(header, name, i) {
        Some(choose|i: int| is_first_column(header, name, i))
    } else {
        None
    }
}

/// The first column called `name` is the one `column_of` finds.
pub proof fn lemma_column_of_found(header: Seq<Seq<char>>, name: Seq<char>, i: int)
    requires
        is_first_column(header, name, i),
    ensures
        column_of(header, name) == Some(i),
{
    let k = choose|k: int| is_first_column(header, name, k);
    assert(is_first_column(header, name, k));
    if k < i {
        assert(header[k] != name);
    } else if k > i {
        assert(header[i] != name);
    }
}

/// A header without `name` has no such column.
pub proof fn lemma_column_of_absent(header: Seq<Seq<char>>, name: Seq<char>)
    requires
        forall|j: int| 0 <= j < header.len() ==> header[j] != name,
    ensures
        column_of(header, name) is None,
{
    if exists|i: int| is_first_column(header, name, i) {
        let k = choose|k: int| is_first_column(header, name, k);
        assert(header[k] == name);
    }
}

/// The outcome of reading, from `rows` (a header row, then records), the
/// field under column `first` and the field under column `second` of every
/// record. An empty table has no records.
pub enum PairsOutcome {
    Pairs(Seq<(Seq<char>, Seq<char>)>),
    MissingColumn(Seq<char>),
    ShortRecord(int),
}

/// Record `i` lacks column `a` or column `b`.
pub open spec fn is_short(records: Seq<Seq<Seq<char>>>, a: int, b: int, i: int) -> bool {
    !(a < records[i].len() && b < records[i].len())
}

/// `i` is the first record of `records` that lacks column `a` or column `b`.
pub open spec fn is_first_short(records: Seq<Seq<Seq<char>>>, a: int, b: int, i: int) -> bool {
    &&& 0 <= i < records.len()
    &&& is_short(records, a, b, i)
    &&& forall|j: int| 0 <= j < i ==> !is_short(records, a, b, j)
}

/// The first record of `records` that lacks column `a` or column `b`.
pub open spec fn first_short(records: Seq<Seq<Seq<char>>>, a: int, b: int) -> Option<int> {
    if exists|i: int| is_first_short(records, a, b, i) {
        Some(choose|i: int| is_first_short(records, a, b, i))
    } else {
        None
    }
}

/// The first short record is the one `first_short` finds.
pub proof fn lemma_first_short_found(records: Seq<Seq<Seq<char>>>, a: int, b: int, i: int)
    requires
        is_first_short(records, a, b, i),
    ensures
        first_short(records, a, b) == Some(i),
{
    let k = choose|k: int| is_first_short(records, a, b, k);
    assert(is_first_short(records, a, b, k));
    if k < i {
        assert(!is_short(records, a, b, k));
    } else if k > i {
        assert(!is_short(records, a, b, i));
    }
}

/// Records that all hold both columns have no short one.
pub proof fn lemma_first_short_absent(records: Seq<Seq<Seq<char>>>, a: int, b: int)
    requires
        forall|j: int| 0 <= j < records.len() ==> !is_short(records, a, b, j),
    ensures
        first_short(records, a, b) is None,
{
    if exists|i: int| is_first_short(records, a, b, i) {
        let k = choose|k: int| is_first_short(records, a, b, k);
        assert(is_short(records, a, b, k));
    }
}

/// What reading columns `first` and `second` from `rows` gives.
pub open spec fn column_pairs(
    rows: Seq<Seq<Seq<char>>>,
    first: Seq<char>,
    second: Seq<char>,
) -> PairsOutcome {
    if rows.len() == 0 {
        PairsOutcome::Pairs(Seq::empty())
    } else if column_of(rows[0], first) is None {
        PairsOutcome::MissingColumn(first)
    } else if column_of(rows[0], second) is None {
        PairsOutcome::MissingColumn(second)
    } else {
        let a = column_of(rows[0], first)->0;
        let b = column_of(rows[0], second)->0;
        let records = rows.drop_first();
        match first_short(records, a, b) {
            Some(i) => PairsOutcome::ShortRecord(i),
            None => PairsOutcome::Pairs(records.map_values(|row: Seq<Seq<char>>| (row[a], row[b]))),
        }
    }
}

/// The text of each pair.
pub open spec fn pairs_view(pairs: Seq<(String, String)>) -> Seq<(Seq<char>, Seq<char>)> {
    pairs.map_values(|x: (String, String)| (x.0@, x.1@))
}

/// `r` is what `column_pairs` describes.
pub open spec fn pairs_match(
    r: Result<Vec<(String, String)>, TableError>,
    expected: PairsOutcome,
) -> bool {
    match expected {
        PairsOutcome::Pairs(p) => r matches Ok(v) && pairs_view(v@) == p,
        PairsOutcome::MissingColumn(name) => r matches Err(TableError::MissingColumn(n)) && n@
            == name,
        PairsOutcome::ShortRecord(i) => r matches Err(TableError::ShortRecord(k)) && k == i,
    }
}

/// The position of the first column called `name` in `header`.
pub fn column_index(header: &Vec<String>, name: &str) -> (r: Option<usize>)
    ensures
        match column_of(fields_view(*header), name@) {
            Some(i) => r == Some(i as usize),
            None => r is None,
        },
        r matches Some(i) ==> is_first_column(fields_view(*header), name@, i as int),
{
    let ghost h = fields_view(*header);
    let probe = name.to_owned();
    let mut i: usize = 0;
    while i < header.len()
        invariant
            0 <= i <= header@.len(),
            h == fields_view(*header),
            probe@ == name@,
            forall|j: int| 0 <= j < i ==> h[j] != name@,
        decreases header@.len() - i,
    {
        if header[i] == probe {
            proof {
                lemma_column_of_found(h, name@, i as int);
            }
            return Some(i);
        }
        i = i + 1;
    }
    proof {
        lemma_column_of_absent(h, name@);
    }
    None
}

/// The field under column `first` and the field under column `second` of
/// every record of `rows`, whose first row is the header.
pub fn extract_pairs(rows: &Vec<Vec<String>>, first: &str, second: &str) -> (r: Result<
    Vec<(String, String)>,
    TableError,
>)
    ensures
        pairs_match(r, column_pairs(rows_view(rows@), first@, second@)),
{
    let ghost v = rows_view(rows@);
    if rows.len() == 0 {
        let empty: Vec<(String, String)> = Vec::new();
        assert(pairs_view(empty@) =~= Seq::empty());
        return Ok(empty);
    }
    assert(v[0] == fields_view(rows@[0]));
    let a = match column_index(&rows[0], first) {
        Some(a) => a,
        None => {
            return Err(TableError::MissingColumn(first.to_owned()));
        },
    };
    let b = match column_index(&rows[0], second) {
        Some(b) => b,
        None => {
            return Err(TableError::MissingColumn(second.to_owned()));
        },
    };
    let ghost records = v.drop_first();
    let mut out: Vec<(String, String)> = Vec::new();
    let mut i: usize = 1;
    while i < rows.len()
        invariant
            1 <= i <= rows@.len(),
            v == rows_view(rows@),
            records == v.drop_first(),
            out@.len() == i - 1,
            is_first_column(v[0], first@, a as int),
            is_first_column(v[0], second@, b as int),
            forall|j: int| 0 <= j < i - 1 ==> !is_short(records, a as int, b as int, j),
            forall|j: int|
                0 <= j < i - 1 ==> (#[trigger] out@[j]).0@ == records[j][a as int] && out@[j].1@
                    == records[j][b as int],
        decreases rows@.len() - i,
    {
        let row = &rows[i];
        assert(records[i - 1] == fields_view(*row));
        if a >= row.len() || b >= row.len() {
            proof {
                lemma_first_short_found(records, a as int, b as int, i - 1);
            }
            return Err(TableError::ShortRecord(i - 1));
        }
        let ghost before = out@;
        out.push((row[a].clone(), row[b].clone()));
        proof {
            assert forall|j: int| 0 <= j < i implies (#[trigger] out@[j]).0@ == records[j][a as int]
                && out@[j].1@ == records[j][b as int] by {
                if j < i - 1 {
                    assert(out@[j] == before[j]);
                }
            }
        }
        i = i + 1;
    }
    proof {
        lemma_first_short_absent(records, a as int, b as int);
        assert(pairs_view(out@) =~= records.map_values(
            |row: Seq<Seq<char>>| (row[a as int], row[b as int]),
        ));
    }
    Ok(out)
}

/// Reads `text` as CSV and takes `first` and `second` of every record.
fn read_pairs(text: &str, first: &str, second: &str) -> (r: Result<
    Vec<(String, String)>,
    TableError,
>)
    ensures
        match csv_rows(text@) {
            None => r matches Err(TableError::Csv(_)),
            Some(rows) => pairs_match(r, column_pairs(rows, first@, second@)),
        },
{
    match read_rows(text) {
        Ok(rows) => extract_pairs(&rows, first, second),
        Err(e) => Err(TableError::Csv(e)),
    }
}

/// The (IATA code, name) of every airport record of the CSV `text`, in
/// record order.
pub fn parse_airports(text: &str) -> (r: Result<Vec<(String, String)>, TableError>)
    ensures
        match csv_rows(text@) {
            None => r matches Err(TableError::Csv(_)),
            Some(rows) => pairs_match(r, column_pairs(rows, "IATA"@, "Name"@)),
        },
{
    read_pairs(text, "IATA", "Name")
}

/// The (source, destination) airport codes of every route record of the CSV
/// `text`, in record order.
pub fn parse_routes(text: &str) -> (r: Result<Vec<(String, String)>, TableError>)
    ensures
        match csv_rows(text@) {
            None => r matches Err(TableError::Csv(_)),
            Some(rows) => pairs_match(
                r,
                column_pairs(rows, "Source airport"@, "Destination airport"@),
            ),
        },
{
    read_pairs(text, "Source airport", "Destination airport")
}

} // verus!
