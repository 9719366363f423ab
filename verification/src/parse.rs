//! Reading of one region's listing: a tab-separated table with a header row
//! that names at least the columns `name` and `date`.

use vstd::prelude::*;
use vstd::string::*;
use crate::date::Date;
use crate::feiertag::Feiertag;

verus! {

/// Why a date field could not be read.
#[derive(Clone, Copy, Debug, PartialEq, Eq, Structural, Hash)]
pub enum DateError {
    /// The field is shorter than the weekday lead-in.
    TooShort,
    /// What follows the lead-in is no date of the form `day.month.year`.
    Unreadable,
}

/// Why a listing could not be read.
#[derive(Clone, Copy, Debug, PartialEq, Eq, Structural, Hash)]
pub enum ParseError {
    /// The text is no well-formed table.
    Table,
    /// The header lacks the column `name` or the column `date`.
    MissingColumn,
    /// The row at this index has no field in one of the two columns.
    ShortRow(usize),
    /// The date field of the row at this index could not be read.
    Date(usize, DateError),
}

/// The number of characters before the date: a weekday, a comma and a space.
pub const LEAD_IN: usize = 4;

/// The date that `time` reads from `text` under the description
/// `[day].[month].[year]`, if it reads one.
pub uninterp spec fn parsed_date(text: Seq<char>) -> Option<Date>;

/// The rows of fields that `csv` reads from tab-separated `data`, the header
/// row first, if it can read all of them.
pub uninterp spec fn csv_table(data: Seq<u8>) -> Option<Seq<Seq<Seq<char>>>>;

/// The fields of the rows as texts.
pub open spec fn cells(rows: Seq<Vec<String>>) -> Seq<Seq<Seq<char>>> {
    Seq::new(rows.len(), |i: int| Seq::new(rows[i]@.len(), |c: int| rows[i]@[c]@))
}

/// Calls `time`'s `Date::parse` with the description `[day].[month].[year]`
/// and reads the fields of the date. The claim: the result depends on the
/// text alone, and a date that is read exists.
#[verifier::external_body]
fn date_from_text(text: &str) -> (date: Option<Date>)
    ensures
        date == parsed_date(text@),
        date matches Some(d) ==> d.wf(),
{
    let items = time::format_description::parse_borrowed::<2>("[day].[month].[year]").unwrap();
    match time::Date::parse(text, &items) {
        Ok(d) => Some(Date { year: d.year(), month: u8::from(d.month()), day: d.day() }),
        Err(_) => None,
    }
}

/// Reads `data` with `csv`'s `Reader::records`, the reader built for tabs
/// as delimiters and without a header of its own, so that the header comes
/// as the first row. The claim: the result depends on the bytes alone.
#[verifier::external_body]
fn table_from_bytes(data: &[u8]) -> (rows: Option<Vec<Vec<String>>>)
    ensures
        match rows {
            Some(r) => csv_table(data@) == Some(cells(r@)),
            None => csv_table(data@) is None,
        },
{
    let mut reader = csv::ReaderBuilder::new().delimiter(b'\t').has_headers(false).from_reader(data);
    let mut rows: Vec<Vec<String>> = Vec::new();
    for record in reader.records() {
        match record {
            Ok(r) => rows.push(r.iter().map(String::from).collect()),
            Err(_) => return None,
        }
    }
    Some(rows)
}

/// The date in a field of the form `Mi, 01.01.2020`.
pub open spec fn date_of_field(field: Seq<char>) -> Result<Date, DateError> {
    if field.len() < LEAD_IN {
        Err(DateError::TooShort)
    } else {
        match parsed_date(field.subrange(LEAD_IN as int, field.len() as int)) {
            Some(d) => Ok(d),
            None => Err(DateError::Unreadable),
        }
    }
}

/// Reads the date of a field: skips the lead-in and reads the rest as
/// `day.month.year`.
pub fn parse_date(field: &str) -> (date: Result<Date, DateError>)
    ensures
        date == date_of_field(field@),
        date matches Ok(d) ==> d.wf(),
{
    let n = field.unicode_len();
    if n < LEAD_IN {
        return Err(DateError::TooShort);
    }
    let rest = field.substring_char(LEAD_IN, n);
    match date_from_text(rest) {
        Some(d) => Ok(d),
        None => Err(DateError::Unreadable),
    }
}

/// `c` is the first column with the title.
pub open spec fn is_column(header: Seq<Seq<char>>, title: Seq<char>, c: int) -> bool {
    &&& 0 <= c < header.len()
    &&& header[c] == title
    &&& forall|k: int| 0 <= k < c ==> #[trigger] header[k] != title
}

/// The first column with the title, if there is one.
pub open spec fn column(header: Seq<Seq<char>>, title: Seq<char>) -> Option<int> {
    if exists|c: int| is_column(header, title, c) {
        Some(choose|c: int| is_column(header, title, c))
    } else {
        None
    }
}

/// The first column of `row` that holds `title`.
pub fn find_column(row: &Vec<String>, title: &str) -> (col: Option<usize>)
    ensures
        match col {
            Some(c) => column(Seq::new(row@.len(), |c: int| row@[c]@), title@) == Some(c as int),
            None => column(Seq::new(row@.len(), |c: int| row@[c]@), title@) is None,
        },
{
    let ghost header = Seq::new(row@.len(), |c: int| row@[c]@);
    let wanted = String::from_str(title);
    let mut c: usize = 0;
    while c < row.len()
        invariant
            c <= row@.len(),
            wanted@ == title@,
            header == Seq::new(row@.len(), |c: int| row@[c]@),
            forall|k: int| 0 <= k < c ==> #[trigger] header[k] != title@,
        decreases row@.len() - c,
    {
        if row[c] == wanted {
            proof {
                assert(is_column(header, title@, c as int));
                let other = choose|k: int| is_column(header, title@, k);
                assert(header[c as int] == title@);
                assert(other == c);
            }
            return Some(c);
        }
        c += 1;
    }
    proof {
        assert forall|k: int| !is_column(header, title@, k) by {
            if 0 <= k < header.len() {
                assert(header[k] != title@);
            }
        }
    }
    None
}

/// What row `at` of a table says, given the columns of name and date.
pub open spec fn row_day(row: Seq<Seq<char>>, name_col: int, date_col: int, at: usize) -> Result<
    (Seq<char>, Date),
    ParseError,
> {
    if row.len() <= name_col || row.len() <= date_col {
        Err(ParseError::ShortRow(at))
    } else {
        match date_of_field(row[date_col]) {
            Ok(d) => Ok((row[name_col], d)),
            Err(e) => Err(ParseError::Date(at, e)),
        }
    }
}

/// `day` is the holiday of row `at`, observed by `land` alone.
pub open spec fn day_of_row(
    row: Seq<Seq<char>>,
    name_col: int,
    date_col: int,
    at: usize,
    land: Seq<char>,
    day: Feiertag,
) -> bool {
    &&& row_day(row, name_col, date_col, at) == Ok::<(Seq<char>, Date), ParseError>(
        (day.name@, day.date),
    )
    &&& day.lands@.len() == 1
    &&& day.lands@[0]@ == land
    &&& day.regions() == set![land]
    &&& day.wf()
}

/// `result` is what the rows after the header say: a holiday for each row, in
/// the order of the rows, or the error of the first row that cannot be read.
pub open spec fn rows_read(
    table: Seq<Seq<Seq<char>>>,
    name_col: int,
    date_col: int,
    land: Seq<char>,
    result: Result<Vec<Feiertag>, ParseError>,
) -> bool {
    match result {
        Ok(days) => {
            &&& days@.len() == table.len() - 1
            &&& forall|i: int|
                0 <= i < days@.len() ==> day_of_row(
                    table[i + 1],
                    name_col,
                    date_col,
                    (i + 1) as usize,
                    land,
                    #[trigger] days@[i],
                )
        },
        Err(e) => exists|at: int|
            {
                &&& 1 <= at < table.len()
                &&& #[trigger] row_day(table[at], name_col, date_col, at as usize) == Err::<
                    (Seq<char>, Date),
                    ParseError,
                >(e)
                &&& forall|k: int|
                    1 <= k < at ==> (#[trigger] row_day(
                        table[k],
                        name_col,
                        date_col,
                        k as usize,
                    )) is Ok
            },
    }
}

/// `result` is what the table says of the region `land`.
pub open spec fn table_read(
    table: Seq<Seq<Seq<char>>>,
    land: Seq<char>,
    result: Result<Vec<Feiertag>, ParseError>,
) -> bool {
    if table.len() <= 1 {
        result matches Ok(days) && days@.len() == 0
    } else {
        match (column(table[0], "name"@), column(table[0], "date"@)) {
            (Some(n), Some(d)) => rows_read(table, n, d, land, result),
            _ => result == Err::<Vec<Feiertag>, ParseError>(ParseError::MissingColumn),
        }
    }
}

/// Reads the holidays of one region from the rows of its table, the header
/// row first. Every holiday is observed by `land` alone. The first row that
/// cannot be read fails the whole table.
pub fn parse_rows(rows: &Vec<Vec<String>>, land: &String) -> (result: Result<
    Vec<Feiertag>,
    ParseError,
>)
    ensures
        table_read(cells(rows@), land@, result),
{
    let ghost table = cells(rows@);
    let mut days: Vec<Feiertag> = Vec::new();
    if rows.len() <= 1 {
        return Ok(days);
    }
    proof {
        assert(table[0] =~= Seq::new(rows@[0]@.len(), |c: int| rows@[0]@[c]@));
    }
    let name_col = match find_column(&rows[0], "name") {
        Some(c) => c,
        None => {
            return Err(ParseError::MissingColumn);
        },
    };
    let date_col = match find_column(&rows[0], "date") {
        Some(c) => c,
        None => {
            return Err(ParseError::MissingColumn);
        },
    };
    let mut at: usize = 1;
    while at < rows.len()
        invariant
            1 <= at <= rows@.len(),
            table == cells(rows@),
            column(table[0], "name"@) == Some(name_col as int),
            column(table[0], "date"@) == Some(date_col as int),
            days@.len() == at - 1,
            forall|i: int|
                0 <= i < days@.len() ==> day_of_row(
                    table[i + 1],
                    name_col as int,
                    date_col as int,
                    (i + 1) as usize,
                    land@,
                    #[trigger] days@[i],
                ),
        decreases rows@.len() - at,
    {
        let row = &rows[at];
        proof {
            assert(table[at as int] =~= Seq::new(row@.len(), |c: int| row@[c]@));
            assert forall|k: int| 1 <= k < at implies (#[trigger] row_day(
                table[k],
                name_col as int,
                date_col as int,
                k as usize,
            )) is Ok by {
                assert(day_of_row(
                    table[k - 1 + 1],
                    name_col as int,
                    date_col as int,
                    (k - 1 + 1) as usize,
                    land@,
                    days@[k - 1],
                ));
            }
        }
        if row.len() <= name_col || row.len() <= date_col {
            proof {
                let w = at as int;
                assert(row_day(table[w], name_col as int, date_col as int, w as usize) == Err::<
                    (Seq<char>, Date),
                    ParseError,
                >(ParseError::ShortRow(at)));
                assert(table.len() == rows@.len());
                assert(rows_read(
                    table,
                    name_col as int,
                    date_col as int,
                    land@,
                    Err(ParseError::ShortRow(at)),
                ));
            }
            return Err(ParseError::ShortRow(at));
        }
        match parse_date(row[date_col].as_str()) {
            Err(e) => {
                proof {
                    let w = at as int;
                    assert(row_day(table[w], name_col as int, date_col as int, w as usize) == Err::<
                        (Seq<char>, Date),
                        ParseError,
                    >(ParseError::Date(at, e)));
                    assert(table.len() == rows@.len());
                    assert(rows_read(
                        table,
                        name_col as int,
                        date_col as int,
                        land@,
                        Err(ParseError::Date(at, e)),
                    ));
                }
                return Err(ParseError::Date(at, e));
            },
            Ok(date) => {
                let day = Feiertag::new(row[name_col].clone(), date, land.clone());
                days.push(day);
            },
        }
        at += 1;
    }
    Ok(days)
}

/// Reads the holidays of one region from the bytes of its tab-separated
/// listing. `name` is the region.
pub fn parse_csv(data: &[u8], name: String) -> (result: Result<Vec<Feiertag>, ParseError>)
    ensures
        match csv_table(data@) {
            Some(table) => table_read(table, name@, result),
            None => result == Err::<Vec<Feiertag>, ParseError>(ParseError::Table),
        },
{
    match table_from_bytes(data) {
        Some(rows) => parse_rows(&rows, &name),
        None => Err(ParseError::Table),
    }
}

} // verus!
