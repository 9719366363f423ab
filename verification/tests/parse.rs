use feiertage::date::Date;
use feiertage::feiertag::Feiertag;
use feiertage::parse::{find_column, parse_csv, parse_date, parse_rows, DateError, ParseError};

fn day(name: &str, year: i32, month: u8, day: u8, lands: &[&str]) -> Feiertag {
    Feiertag {
        name: name.to_string(),
        date: Date { year, month, day },
        lands: lands.iter().map(|l| l.to_string()).collect(),
    }
}

fn row(fields: &[&str]) -> Vec<String> {
    fields.iter().map(|f| f.to_string()).collect()
}

#[test]
fn parse_date_skips_the_weekday() {
    assert_eq!(parse_date("Mi, 01.01.2020"), Ok(Date { year: 2020, month: 1, day: 1 }));
    assert_eq!(parse_date("Sa, 29.02.2020"), Ok(Date { year: 2020, month: 2, day: 29 }));
    assert_eq!(parse_date("xxxx31.12.1999"), Ok(Date { year: 1999, month: 12, day: 31 }));
}

#[test]
fn parse_date_counts_characters() {
    assert_eq!(parse_date("Mä, 03.10.2021"), Ok(Date { year: 2021, month: 10, day: 3 }));
}

#[test]
fn parse_date_rejects_a_short_field() {
    assert_eq!(parse_date(""), Err(DateError::TooShort));
    assert_eq!(parse_date("Mi,"), Err(DateError::TooShort));
}

#[test]
fn parse_date_rejects_another_format() {
    assert_eq!(parse_date("Mi, "), Err(DateError::Unreadable));
    assert_eq!(parse_date("Mi, 2020-01-01"), Err(DateError::Unreadable));
    assert_eq!(parse_date("01.01.2020"), Err(DateError::Unreadable));
    assert_eq!(parse_date("Mi, 01.01.2020 "), Err(DateError::Unreadable));
}

#[test]
fn parse_date_rejects_a_day_that_does_not_exist() {
    assert_eq!(parse_date("Mo, 30.02.2020"), Err(DateError::Unreadable));
    assert_eq!(parse_date("Mo, 29.02.2019"), Err(DateError::Unreadable));
    assert_eq!(parse_date("Mo, 01.13.2019"), Err(DateError::Unreadable));
}

#[test]
fn parse_csv_reads_every_row() {
    let data = "name\tdate\nNeujahr\tMi, 01.01.2020\nKarfreitag\tFr, 10.04.2020\n";
    assert_eq!(
        parse_csv(data.as_bytes(), "HE".to_string()),
        Ok(vec![day("Neujahr", 2020, 1, 1, &["HE"]), day("Karfreitag", 2020, 4, 10, &["HE"])])
    );
}

#[test]
fn parse_csv_finds_the_columns_by_their_titles() {
    let data = "weekday\tdate\tnote\tname\nMi\tMi, 01.01.2020\t-\tNeujahr\n";
    assert_eq!(
        parse_csv(data.as_bytes(), "NRW".to_string()),
        Ok(vec![day("Neujahr", 2020, 1, 1, &["NRW"])])
    );
}

#[test]
fn parse_csv_of_nothing_is_empty() {
    assert_eq!(parse_csv(b"", "HE".to_string()), Ok(vec![]));
    assert_eq!(parse_csv(b"name\tdate\n", "HE".to_string()), Ok(vec![]));
    assert_eq!(parse_csv(b"title\twhen\n", "HE".to_string()), Ok(vec![]));
}

#[test]
fn parse_csv_needs_both_columns() {
    let data = "name\twhen\nNeujahr\tMi, 01.01.2020\n";
    assert_eq!(parse_csv(data.as_bytes(), "HE".to_string()), Err(ParseError::MissingColumn));
    let data = "title\tdate\nNeujahr\tMi, 01.01.2020\n";
    assert_eq!(parse_csv(data.as_bytes(), "HE".to_string()), Err(ParseError::MissingColumn));
}

#[test]
fn parse_csv_rejects_rows_of_unequal_length() {
    let data = "name\tdate\nNeujahr\tMi, 01.01.2020\textra\n";
    assert_eq!(parse_csv(data.as_bytes(), "HE".to_string()), Err(ParseError::Table));
}

#[test]
fn parse_csv_rejects_bytes_that_are_no_text() {
    let data: [u8; 14] = [b'n', b'a', b'm', b'e', b'\t', b'd', b'a', b't', b'e', b'\n', 0xff, b'\t', b'x', b'\n'];
    assert_eq!(parse_csv(&data, "HE".to_string()), Err(ParseError::Table));
}

#[test]
fn parse_csv_fails_at_the_first_bad_date() {
    let data = "name\tdate\nNeujahr\tMi, 01.01.2020\nKarneval\tMo, 2020\nOstern\tSo\n";
    assert_eq!(
        parse_csv(data.as_bytes(), "HE".to_string()),
        Err(ParseError::Date(2, DateError::Unreadable))
    );
    let data = "name\tdate\nOstern\tSo\nKarneval\tMo, 2020\n";
    assert_eq!(
        parse_csv(data.as_bytes(), "HE".to_string()),
        Err(ParseError::Date(1, DateError::TooShort))
    );
}

#[test]
fn parse_csv_splits_at_tabs_only() {
    let data = "name\tdate\nTag, der Arbeit\tFr, 01.05.2020\n";
    assert_eq!(
        parse_csv(data.as_bytes(), "HE".to_string()),
        Ok(vec![day("Tag, der Arbeit", 2020, 5, 1, &["HE"])])
    );
}

#[test]
fn parse_rows_rejects_a_short_row() {
    let rows = vec![row(&["name", "date"]), row(&["Neujahr", "Mi, 01.01.2020"]), row(&["Ostern"])];
    assert_eq!(parse_rows(&rows, &"HE".to_string()), Err(ParseError::ShortRow(2)));
}

#[test]
fn parse_rows_reads_the_rows_after_the_header() {
    let rows = vec![row(&["date", "name"]), row(&["Mi, 01.01.2020", "Neujahr"])];
    assert_eq!(
        parse_rows(&rows, &"BY".to_string()),
        Ok(vec![day("Neujahr", 2020, 1, 1, &["BY"])])
    );
    assert_eq!(parse_rows(&vec![], &"BY".to_string()), Ok(vec![]));
}

#[test]
fn find_column_gives_the_first_match() {
    let header = row(&["a", "name", "b", "name"]);
    assert_eq!(find_column(&header, "name"), Some(1));
    assert_eq!(find_column(&header, "a"), Some(0));
    assert_eq!(find_column(&header, "date"), None);
    assert_eq!(find_column(&row(&[]), "date"), None);
}
