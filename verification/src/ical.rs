//! Rendering of the merged holidays as the lines of an iCalendar document.
//!
//! The description of an event lists the observing regions, in ascending
//! order, separated by commas and enclosed in parentheses.

use vstd::prelude::*;
use vstd::string::*;
use crate::date::{lemma_stamp_compact_injective, lemma_successor_is_next, sample_now, Date, Timestamp};
use crate::feiertag::Feiertag;

verus! {

/// The texts of the lines.
pub open spec fn texts(lines: Seq<String>) -> Seq<Seq<char>> {
    Seq::new(lines.len(), |i: int| lines[i]@)
}

/// The lines that open the calendar.
pub open spec fn header_lines() -> Seq<Seq<char>> {
    seq![
        "BEGIN:VCALENDAR"@,
        "PRODID:-//Geo Engine GmbH//Geo Engine Feiertage//DE"@,
        "VERSION:2.0"@,
        "CALSCALE:GREGORIAN"@,
        "METHOD:PUBLISH"@,
        "X-WR-CALNAME:Feiertage in Deutschland für die Geo Engine GmbH"@,
        "X-WR-TIMEZONE:UTC"@,
        "X-WR-CALDESC:Feiertage in Deutschland für die Geo Engine GmbH"@,
    ]
}

/// The names, separated by a comma and a space.
pub open spec fn joined(lands: Seq<String>) -> Seq<char>
    decreases lands.len(),
{
    if lands.len() == 0 {
        Seq::empty()
    } else if lands.len() == 1 {
        lands[0]@
    } else {
        joined(lands.drop_last()) + ", "@ + lands.last()@
    }
}

/// The regions of the holiday, in parentheses.
pub open spec fn description(day: Feiertag) -> Seq<char> {
    "("@ + joined(day.lands@) + ")"@
}

/// The identifier of the event for a date.
pub open spec fn uid(date: Date) -> Seq<char> {
    date.compact() + "#feiertage"@
}

/// The lines of the event for one holiday, stamped with `stamp`.
pub open spec fn event_lines(day: Feiertag, stamp: Seq<char>) -> Seq<Seq<char>> {
    seq![
        "BEGIN:VEVENT"@,
        "DTSTART;VALUE=DATE:"@ + day.date.compact(),
        "DTEND;VALUE=DATE:"@ + day.date.successor().compact(),
        "DTSTAMP:"@ + stamp,
        "UID:"@ + uid(day.date),
        "CLASS:PUBLIC"@,
        "CREATED:"@ + stamp,
        "DESCRIPTION:"@ + description(day),
        "LAST-MODIFIED:"@ + stamp,
        "SEQUENCE:0"@,
        "STATUS:CONFIRMED"@,
        "SUMMARY:"@ + day.name@,
        "TRANSP:TRANSPARENT"@,
        "END:VEVENT"@,
    ]
}

/// The lines of the events for all the holidays, in their order.
pub open spec fn events_lines(days: Seq<Feiertag>, stamp: Seq<char>) -> Seq<Seq<char>>
    decreases days.len(),
{
    if days.len() == 0 {
        Seq::empty()
    } else {
        events_lines(days.drop_last(), stamp) + event_lines(days.last(), stamp)
    }
}

/// The lines of the whole calendar.
pub open spec fn calendar_lines(days: Seq<Feiertag>, now: Timestamp) -> Seq<Seq<char>> {
    header_lines() + events_lines(days, now.compact()) + seq!["END:VCALENDAR"@]
}

/// Every date exists and has a following day.
pub open spec fn encodable(days: Seq<Feiertag>) -> bool {
    forall|i: int| 0 <= i < days.len() ==> (#[trigger] days[i]).date.wf() && !days[i].date.is_last()
}

/// Whether every date exists and has a following day.
pub fn is_encodable(days: &[Feiertag]) -> (r: bool)
    ensures
        r == encodable(days@),
{
    let mut i: usize = 0;
    while i < days.len()
        invariant
            i <= days@.len(),
            forall|k: int| 0 <= k < i ==> (#[trigger] days@[k]).date.wf() && !days@[k].date.is_last(),
        decreases days@.len() - i,
    {
        let date = days[i].date;
        if !date.is_valid() || (date.year == 9999 && date.month == 12 && date.day == 31) {
            return false;
        }
        i += 1;
    }
    true
}

/// `head` followed by `tail`.
fn line(head: &str, tail: &str) -> (text: String)
    ensures
        text@ == head@ + tail@,
{
    let mut text = String::from_str(head);
    text.append(tail);
    text
}

/// Appends one line.
fn put(lines: &mut Vec<String>, text: String)
    ensures
        texts(final(lines)@) == texts(old(lines)@).push(text@),
{
    lines.push(text);
    proof {
        assert(texts(lines@) =~= texts(old(lines)@).push(text@));
    }
}

/// The names, separated by a comma and a space.
pub fn join_lands(lands: &Vec<String>) -> (text: String)
    ensures
        text@ == joined(lands@),
{
    let mut text = String::new();
    let mut i: usize = 0;
    while i < lands.len()
        invariant
            i <= lands.len(),
            text@ == joined(lands@.take(i as int)),
        decreases lands.len() - i,
    {
        proof {
            assert(lands@.take(i + 1).drop_last() =~= lands@.take(i as int));
        }
        if i > 0 {
            text.append(", ");
        } else {
            proof {
                assert(Seq::<char>::empty() + lands@[0]@ =~= lands@[0]@);
            }
        }
        text.append(lands[i].as_str());
        i += 1;
    }
    proof {
        assert(lands@.take(lands.len() as int) =~= lands@);
    }
    text
}

/// Appends the lines of the event for `day` to `lines`.
pub fn encode_event(day: &Feiertag, stamp: &str, lines: &mut Vec<String>)
    requires
        day.date.wf(),
        !day.date.is_last(),
    ensures
        texts(final(lines)@) == texts(old(lines)@) + event_lines(*day, stamp@),
{
    let date = day.date.to_compact();
    let next_date = day.date.next_day().to_compact();
    let lands = join_lands(&day.lands);
    let closed = line(lands.as_str(), ")");
    let described = line("(", closed.as_str());
    let id = line(date.as_str(), "#feiertage");
    put(lines, String::from_str("BEGIN:VEVENT"));
    put(lines, line("DTSTART;VALUE=DATE:", date.as_str()));
    put(lines, line("DTEND;VALUE=DATE:", next_date.as_str()));
    put(lines, line("DTSTAMP:", stamp));
    put(lines, line("UID:", id.as_str()));
    put(lines, String::from_str("CLASS:PUBLIC"));
    put(lines, line("CREATED:", stamp));
    put(lines, line("DESCRIPTION:", described.as_str()));
    put(lines, line("LAST-MODIFIED:", stamp));
    put(lines, String::from_str("SEQUENCE:0"));
    put(lines, String::from_str("STATUS:CONFIRMED"));
    put(lines, line("SUMMARY:", day.name.as_str()));
    put(lines, String::from_str("TRANSP:TRANSPARENT"));
    put(lines, String::from_str("END:VEVENT"));
    proof {
        assert("("@ + (joined(day.lands@) + ")"@) =~= description(*day));
        assert(texts(lines@) =~= texts(old(lines)@) + event_lines(*day, stamp@));
    }
}

/// The lines of the calendar for `days`, every event stamped with `now`.
pub fn encode_calendar(days: &[Feiertag], now: &Timestamp) -> (lines: Vec<String>)
    requires
        encodable(days@),
        now.wf(),
    ensures
        texts(lines@) == calendar_lines(days@, *now),
{
    let stamp = now.to_compact();
    let mut lines: Vec<String> = Vec::new();
    put(&mut lines, String::from_str("BEGIN:VCALENDAR"));
    put(&mut lines, String::from_str("PRODID:-//Geo Engine GmbH//Geo Engine Feiertage//DE"));
    put(&mut lines, String::from_str("VERSION:2.0"));
    put(&mut lines, String::from_str("CALSCALE:GREGORIAN"));
    put(&mut lines, String::from_str("METHOD:PUBLISH"));
    put(
        &mut lines,
        String::from_str("X-WR-CALNAME:Feiertage in Deutschland für die Geo Engine GmbH"),
    );
    put(&mut lines, String::from_str("X-WR-TIMEZONE:UTC"));
    put(
        &mut lines,
        String::from_str("X-WR-CALDESC:Feiertage in Deutschland für die Geo Engine GmbH"),
    );
    proof {
        assert(texts(lines@) =~= header_lines() + events_lines(days@.take(0), stamp@));
    }
    let mut i: usize = 0;
    while i < days.len()
        invariant
            i <= days@.len(),
            encodable(days@),
            texts(lines@) == header_lines() + events_lines(days@.take(i as int), stamp@),
        decreases days@.len() - i,
    {
        encode_event(&days[i], stamp.as_str(), &mut lines);
        proof {
            let done = days@.take(i as int);
            let more = days@.take(i + 1);
            assert(more.drop_last() =~= done);
            assert(more.last() == days@[i as int]);
            assert(texts(lines@) =~= header_lines() + events_lines(more, stamp@));
        }
        i += 1;
    }
    put(&mut lines, String::from_str("END:VCALENDAR"));
    proof {
        assert(days@.take(days@.len() as int) =~= days@);
    }
    lines
}

/// The lines of the calendar for `days`, every event stamped with the
/// present instant, which is read once.
pub fn write_ical(merged_days: &[Feiertag]) -> (lines: Vec<String>)
    requires
        encodable(merged_days@),
    ensures
        exists|now: Timestamp| now.wf() && texts(lines@) == calendar_lines(merged_days@, now),
{
    let now = sample_now();
    encode_calendar(merged_days, &now)
}

/// The text of a document: every line, ended by a line feed.
pub open spec fn document(lines: Seq<Seq<char>>) -> Seq<char>
    decreases lines.len(),
{
    if lines.len() == 0 {
        Seq::empty()
    } else {
        document(lines.drop_last()) + lines.last() + "\n"@
    }
}

/// Joins the lines into the text of the document.
pub fn to_document(lines: &Vec<String>) -> (text: String)
    ensures
        text@ == document(texts(lines@)),
{
    let mut text = String::new();
    let mut i: usize = 0;
    while i < lines.len()
        invariant
            i <= lines@.len(),
            text@ == document(texts(lines@).take(i as int)),
        decreases lines@.len() - i,
    {
        text.append(lines[i].as_str());
        text.append("\n");
        proof {
            let done = texts(lines@).take(i as int);
            let more = texts(lines@).take(i + 1);
            assert(more.drop_last() =~= done);
            assert(more.last() == lines@[i as int]@);
        }
        i += 1;
    }
    proof {
        assert(texts(lines@).take(lines@.len() as int) =~= texts(lines@));
    }
    text
}

/// The number of lines of an event.
pub open spec fn event_len() -> int {
    14
}

/// The events of a calendar stand one after the other, in the order of the
/// holidays, after the header.
pub proof fn lemma_event_at(days: Seq<Feiertag>, now: Timestamp, i: int, k: int)
    requires
        0 <= i < days.len(),
        0 <= k < event_len(),
    ensures
        calendar_lines(days, now).len() == header_lines().len() + event_len() * days.len() + 1,
        calendar_lines(days, now)[header_lines().len() + event_len() * i + k] == event_lines(
            days[i],
            now.compact(),
        )[k],
{
    lemma_events_at(days, now.compact(), i, k);
}

proof fn lemma_events_at(days: Seq<Feiertag>, stamp: Seq<char>, i: int, k: int)
    requires
        0 <= i < days.len(),
        0 <= k < event_len(),
    ensures
        events_lines(days, stamp).len() == event_len() * days.len(),
        events_lines(days, stamp)[event_len() * i + k] == event_lines(days[i], stamp)[k],
    decreases days.len(),
{
    lemma_events_len(days.drop_last(), stamp);
    if i < days.len() - 1 {
        lemma_events_at(days.drop_last(), stamp, i, k);
    }
}

proof fn lemma_events_len(days: Seq<Feiertag>, stamp: Seq<char>)
    ensures
        events_lines(days, stamp).len() == event_len() * days.len(),
    decreases days.len(),
{
    if days.len() > 0 {
        lemma_events_len(days.drop_last(), stamp);
    }
}

/// An event ends on the day after its start, and both dates are written in
/// the same compact form.
pub proof fn lemma_event_ends_next_day(day: Feiertag, stamp: Seq<char>, other: Date)
    requires
        day.date.wf(),
        !day.date.is_last(),
        other.wf(),
    ensures
        event_lines(day, stamp)[1] == "DTSTART;VALUE=DATE:"@ + day.date.compact(),
        event_lines(day, stamp)[2] == "DTEND;VALUE=DATE:"@ + day.date.successor().compact(),
        day.date.successor().wf(),
        day.date.key() < day.date.successor().key(),
        !(day.date.key() < other.key() < day.date.successor().key()),
{
    lemma_successor_is_next(day.date, other);
}

/// Texts that differ still differ behind a common head.
pub proof fn lemma_same_head(head: Seq<char>, a: Seq<char>, b: Seq<char>)
    requires
        head + a == head + b,
    ensures
        a == b,
{
    assert((head + a).subrange(head.len() as int, (head + a).len() as int) =~= a);
    assert((head + b).subrange(head.len() as int, (head + b).len() as int) =~= b);
}

/// Two holidays of one date get the same identifier at whatever instants
/// they are encoded, while the three stamps of an event differ between two
/// different instants.
pub proof fn lemma_identifier_is_stable(a: Feiertag, b: Feiertag, first: Timestamp, second: Timestamp)
    requires
        a.date == b.date,
        first.wf(),
        second.wf(),
    ensures
        event_lines(a, first.compact())[4] == "UID:"@ + uid(a.date),
        event_lines(a, first.compact())[4] == event_lines(b, second.compact())[4],
        first != second ==> {
            &&& event_lines(a, first.compact())[3] != event_lines(a, second.compact())[3]
            &&& event_lines(a, first.compact())[6] != event_lines(a, second.compact())[6]
            &&& event_lines(a, first.compact())[8] != event_lines(a, second.compact())[8]
        },
{
    if first != second {
        if first.compact() == second.compact() {
            lemma_stamp_compact_injective(first, second);
        }
        if "DTSTAMP:"@ + first.compact() == "DTSTAMP:"@ + second.compact() {
            lemma_same_head("DTSTAMP:"@, first.compact(), second.compact());
        }
        if "CREATED:"@ + first.compact() == "CREATED:"@ + second.compact() {
            lemma_same_head("CREATED:"@, first.compact(), second.compact());
        }
        if "LAST-MODIFIED:"@ + first.compact() == "LAST-MODIFIED:"@ + second.compact() {
            lemma_same_head("LAST-MODIFIED:"@, first.compact(), second.compact());
        }
    }
}

} // verus!
