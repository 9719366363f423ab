use feiertage::date::{Date, Timestamp};
use feiertage::feiertag::Feiertag;
use feiertage::ical::{
    encode_calendar, encode_event, is_encodable, join_lands, to_document, write_ical,
};

fn day(name: &str, year: i32, month: u8, day: u8, lands: &[&str]) -> Feiertag {
    Feiertag {
        name: name.to_string(),
        date: Date { year, month, day },
        lands: lands.iter().map(|l| l.to_string()).collect(),
    }
}

fn at(year: i32, month: u8, day: u8, hour: u8, minute: u8, second: u8) -> Timestamp {
    Timestamp { date: Date { year, month, day }, hour, minute, second }
}

const HEADER: [&str; 8] = [
    "BEGIN:VCALENDAR",
    "PRODID:-//Geo Engine GmbH//Geo Engine Feiertage//DE",
    "VERSION:2.0",
    "CALSCALE:GREGORIAN",
    "METHOD:PUBLISH",
    "X-WR-CALNAME:Feiertage in Deutschland für die Geo Engine GmbH",
    "X-WR-TIMEZONE:UTC",
    "X-WR-CALDESC:Feiertage in Deutschland für die Geo Engine GmbH",
];

#[test]
fn calendar_without_holidays() {
    let lines = encode_calendar(&[], &at(2020, 1, 2, 3, 4, 5));
    let mut expected: Vec<String> = HEADER.iter().map(|l| l.to_string()).collect();
    expected.push("END:VCALENDAR".to_string());
    assert_eq!(lines, expected);
}

#[test]
fn calendar_with_two_holidays() {
    let days = [
        day("Neujahr", 2020, 1, 1, &["HE", "NRW"]),
        day("Silvester", 2020, 12, 31, &["HE"]),
    ];
    let lines = encode_calendar(&days, &at(2019, 11, 30, 7, 8, 9));
    let mut expected: Vec<String> = HEADER.iter().map(|l| l.to_string()).collect();
    for l in [
        "BEGIN:VEVENT",
        "DTSTART;VALUE=DATE:20200101",
        "DTEND;VALUE=DATE:20200102",
        "DTSTAMP:20191130T070809Z",
        "UID:20200101#feiertage",
        "CLASS:PUBLIC",
        "CREATED:20191130T070809Z",
        "DESCRIPTION:(HE, NRW)",
        "LAST-MODIFIED:20191130T070809Z",
        "SEQUENCE:0",
        "STATUS:CONFIRMED",
        "SUMMARY:Neujahr",
        "TRANSP:TRANSPARENT",
        "END:VEVENT",
        "BEGIN:VEVENT",
        "DTSTART;VALUE=DATE:20201231",
        "DTEND;VALUE=DATE:20210101",
        "DTSTAMP:20191130T070809Z",
        "UID:20201231#feiertage",
        "CLASS:PUBLIC",
        "CREATED:20191130T070809Z",
        "DESCRIPTION:(HE)",
        "LAST-MODIFIED:20191130T070809Z",
        "SEQUENCE:0",
        "STATUS:CONFIRMED",
        "SUMMARY:Silvester",
        "TRANSP:TRANSPARENT",
        "END:VEVENT",
        "END:VCALENDAR",
    ] {
        expected.push(l.to_string());
    }
    assert_eq!(lines, expected);
}

#[test]
fn event_end_is_the_day_after_the_start() {
    let mut lines = Vec::new();
    encode_event(&day("Schalttag", 2024, 2, 29, &["BY"]), "20240101T000000Z", &mut lines);
    assert_eq!(lines.len(), 14);
    assert_eq!(lines[1], "DTSTART;VALUE=DATE:20240229");
    assert_eq!(lines[2], "DTEND;VALUE=DATE:20240301");
}

#[test]
fn event_is_appended_after_what_is_there() {
    let mut lines = vec!["first".to_string()];
    encode_event(&day("Neujahr", 2020, 1, 1, &[]), "x", &mut lines);
    assert_eq!(lines.len(), 15);
    assert_eq!(lines[0], "first");
    assert_eq!(lines[1], "BEGIN:VEVENT");
    assert_eq!(lines[8], "DESCRIPTION:()");
    assert_eq!(lines[14], "END:VEVENT");
}

#[test]
fn identifier_does_not_depend_on_the_instant() {
    let days = [day("Neujahr", 2020, 1, 1, &["HE"])];
    let first = encode_calendar(&days, &at(2019, 11, 30, 7, 8, 9));
    let second = encode_calendar(&days, &at(2021, 3, 4, 5, 6, 7));
    assert_eq!(first[12], "UID:20200101#feiertage");
    assert_eq!(first[12], second[12]);
    assert_ne!(first[11], second[11]);
    assert_ne!(first[14], second[14]);
    assert_ne!(first[16], second[16]);
    assert_eq!(second[11], "DTSTAMP:20210304T050607Z");
    assert_eq!(second[14], "CREATED:20210304T050607Z");
    assert_eq!(second[16], "LAST-MODIFIED:20210304T050607Z");
}

#[test]
fn summary_is_the_name_as_it_is() {
    let days = [day("1. Mai; \"Tag\", der: Arbeit", 2020, 5, 1, &["HE"])];
    let lines = encode_calendar(&days, &at(2020, 1, 1, 0, 0, 0));
    assert_eq!(lines[19], "SUMMARY:1. Mai; \"Tag\", der: Arbeit");
}

#[test]
fn join_lands_separates_with_comma_and_space() {
    assert_eq!(join_lands(&vec![]), "");
    assert_eq!(join_lands(&vec!["HE".to_string()]), "HE");
    assert_eq!(
        join_lands(&vec!["BY".to_string(), "HE".to_string(), "NRW".to_string()]),
        "BY, HE, NRW"
    );
}

#[test]
fn write_ical_stamps_every_event_with_one_instant() {
    let days = [
        day("Neujahr", 2020, 1, 1, &["HE", "NRW"]),
        day("Karneval", 2020, 2, 10, &["NRW"]),
    ];
    let lines = write_ical(&days);
    assert_eq!(lines.len(), 8 + 2 * 14 + 1);
    assert_eq!(lines[0], "BEGIN:VCALENDAR");
    assert_eq!(lines[lines.len() - 1], "END:VCALENDAR");
    let stamp = lines[11].strip_prefix("DTSTAMP:").unwrap().to_string();
    assert_eq!(stamp.len(), 16);
    assert!(stamp.ends_with('Z'));
    assert_eq!(stamp.as_bytes()[8], b'T');
    for event in 0..2 {
        let base = 8 + event * 14;
        assert_eq!(lines[base + 3], format!("DTSTAMP:{}", stamp));
        assert_eq!(lines[base + 6], format!("CREATED:{}", stamp));
        assert_eq!(lines[base + 8], format!("LAST-MODIFIED:{}", stamp));
    }
    assert_eq!(lines[8 + 14 + 2], "DTEND;VALUE=DATE:20200211");
    assert_eq!(lines[8 + 14 + 7], "DESCRIPTION:(NRW)");
}

#[test]
fn the_last_date_cannot_be_encoded() {
    assert!(is_encodable(&[]));
    assert!(is_encodable(&[day("a", 9999, 12, 30, &["A"])]));
    assert!(!is_encodable(&[day("a", 2020, 1, 1, &["A"]), day("b", 9999, 12, 31, &["A"])]));
    assert!(!is_encodable(&[day("a", 2020, 2, 30, &["A"])]));
}

#[test]
fn document_ends_every_line_with_a_line_feed() {
    assert_eq!(to_document(&vec![]), "");
    assert_eq!(to_document(&vec!["a".to_string()]), "a\n");
    assert_eq!(to_document(&vec!["a".to_string(), "".to_string(), "für".to_string()]), "a\n\nfür\n");
    let lines = encode_calendar(&[], &at(2020, 1, 2, 3, 4, 5));
    let text = to_document(&lines);
    assert!(text.starts_with("BEGIN:VCALENDAR\nPRODID:-//Geo Engine GmbH//Geo Engine Feiertage//DE\nVERSION:2.0\n"));
    assert!(text.ends_with("X-WR-CALDESC:Feiertage in Deutschland für die Geo Engine GmbH\nEND:VCALENDAR\n"));
}
