//! The text form of a zone's log: one entry per line, the time, a comma, the team.

use crate::log::{events_of, in_time_order, BoardPart, Event, LogEntry};
use crate::time::{valid_parts, TimeOfDay};
use chrono::{NaiveTime, Timelike};
use vstd::prelude::*;

verus! {

/// Why a line of a log is refused.
#[derive(Clone, Copy, Debug, PartialEq, Eq)]
pub enum ParseFault {
    /// The line has no comma.
    MissingSeparator,
    /// What stands before the comma is not a time of day.
    MalformedTimestamp,
    /// The line's time is earlier than that of the line before it.
    OutOfOrder,
}

/// The first line of a log that is refused, counted from zero, and why.
#[derive(Clone, Copy, Debug, PartialEq, Eq)]
pub struct ParseError {
    pub line: usize,
    pub fault: ParseFault,
}

/// What chrono's `NaiveTime::from_str` makes of a text: nothing where it
/// reports an error, else the seconds since midnight and the nanoseconds within
/// that second of the time it returns.
pub uninterp spec fn naive_time_from_str(text: Seq<char>) -> Option<(u32, u32)>;

/// Calls chrono's `<NaiveTime as FromStr>::from_str` on `text` and hands back
/// the two fields of the time it returns, read with `num_seconds_from_midnight`
/// and `nanosecond`, or nothing where it reports an error. The contract claims
/// only that the outcome depends on the characters of `text` and on nothing else.
#[verifier::external_body]
fn naive_time_of(text: &str) -> (r: Option<(u32, u32)>)
    ensures
        r == naive_time_from_str(text@),
{
    match text.parse::<NaiveTime>() {
        Ok(time) => Some((time.num_seconds_from_midnight(), time.nanosecond())),
        Err(_) => None,
    }
}

/// `String::push` puts the character at the end of the string.
pub assume_specification[ String::push ](s: &mut String, ch: char)
    ensures
        final(s)@ == old(s)@.push(ch),
;

/// The index of the first `mark` in `text` at or after `from`, or the length of
/// `text` where none follows.
pub open spec fn first_at(text: Seq<char>, mark: char, from: int) -> int
    decreases text.len() - from,
{
    if from < 0 || from >= text.len() {
        text.len() as int
    } else if text[from] == mark {
        from
    } else {
        first_at(text, mark, from + 1)
    }
}

/// `first_at` gives the one index, between `from` and the end, that no `mark`
/// comes before and that holds a `mark` unless it is the end.
pub proof fn lemma_first_at(text: Seq<char>, mark: char, from: int, at: int)
    requires
        0 <= from <= at <= text.len(),
        forall|k: int| from <= k < at ==> text[k] != mark,
        at < text.len() ==> text[at] == mark,
    ensures
        first_at(text, mark, from) == at,
    decreases at - from,
{
    if from < at {
        lemma_first_at(text, mark, from + 1, at);
    }
}

/// A line without the carriage return at its end, where it has one.
pub open spec fn without_cr(line: Seq<char>) -> Seq<char> {
    if line.len() > 0 && line.last() == '\r' {
        line.drop_last()
    } else {
        line
    }
}

/// The lines of the part of `text` that starts at `from`. A line ends at a line
/// feed, which is no part of it, nor is a carriage return just before the line
/// feed. What follows the last line feed is a line too, unless it is empty.
pub open spec fn lines_from(text: Seq<char>, from: int) -> Seq<Seq<char>>
    decreases text.len() - from,
{
    if from < 0 || from >= text.len() {
        Seq::empty()
    } else {
        let end = first_at(text, '\n', from);
        if end >= text.len() {
            seq![text.subrange(from, text.len() as int)]
        } else {
            proof {
                lemma_first_at_bounds(text, '\n', from);
            }
            seq![without_cr(text.subrange(from, end))] + lines_from(text, end + 1)
        }
    }
}

/// The lines of a text.
pub open spec fn lines(text: Seq<char>) -> Seq<Seq<char>> {
    lines_from(text, 0)
}

/// What a time that chrono read, and the name beside it, come to: an event,
/// where the two numbers name a time of day.
pub open spec fn reading_entry(reading: Option<(u32, u32)>, team: Seq<char>) -> Result<
    Event,
    ParseFault,
> {
    match reading {
        Some((secs, frac)) => if valid_parts(secs as nat, frac as nat) {
            Ok(Event { time: TimeOfDay { secs, frac }, team })
        } else {
            Err(ParseFault::MalformedTimestamp)
        },
        None => Err(ParseFault::MalformedTimestamp),
    }
}

/// What one line of a log says. The time stands before the first comma, as
/// chrono reads it; all that follows that comma is the team's name.
pub open spec fn line_reading(line: Seq<char>) -> Result<Event, ParseFault> {
    let comma = first_at(line, ',', 0);
    if comma >= line.len() {
        Err(ParseFault::MissingSeparator)
    } else {
        reading_entry(
            naive_time_from_str(line.subrange(0, comma)),
            line.subrange(comma + 1, line.len() as int),
        )
    }
}

/// What is wrong with line `i` of a log, if anything: that it cannot be read,
/// or that it reads to a time earlier than that of the line before it.
pub open spec fn line_fault(lines: Seq<Seq<char>>, i: int) -> Option<ParseFault> {
    match line_reading(lines[i]) {
        Err(fault) => Some(fault),
        Ok(event) => if i > 0 && (line_reading(lines[i - 1]) matches Ok(before)
            && !before.time.at_or_before(event.time)) {
            Some(ParseFault::OutOfOrder)
        } else {
            None
        },
    }
}

/// `first_at` stays between `from` and the end of the text.
pub proof fn lemma_first_at_bounds(text: Seq<char>, mark: char, from: int)
    requires
        0 <= from <= text.len(),
    ensures
        from <= first_at(text, mark, from) <= text.len(),
    decreases text.len() - from,
{
    if from < text.len() && text[from] != mark {
        lemma_first_at_bounds(text, mark, from + 1);
    }
}

impl LogEntry {
    /// The entry for a time as chrono read it and a team's name, or the fault
    /// where there is no such time.
    pub fn from_reading(reading: Option<(u32, u32)>, team: String) -> (r: Result<
        LogEntry,
        ParseFault,
    >)
        ensures
            match r {
                Ok(entry) => reading_entry(reading, team@) == Ok::<Event, ParseFault>(entry@),
                Err(fault) => reading_entry(reading, team@) == Err::<Event, ParseFault>(fault),
            },
    {
        match reading {
            Some((secs, frac)) => match TimeOfDay::from_seconds(secs, frac) {
                Some(time) => Ok(LogEntry::new(time, team)),
                None => Err(ParseFault::MalformedTimestamp),
            },
            None => Err(ParseFault::MalformedTimestamp),
        }
    }
}

impl BoardPart {
    /// Reads the log of a zone of the given size from its text form, one entry
    /// per line. A log is read only if every line can be read and no line is
    /// earlier than the one before it: the first line at fault ends the
    /// reading, and nothing is put in order on the way.
    pub fn parse(size: u64, log: &str) -> (r: Result<BoardPart, ParseError>)
        ensures
            match r {
                Ok(part) => {
                    &&& part@.size == size
                    &&& part@.events.len() == lines(log@).len()
                    &&& forall|i: int|
                        0 <= i < lines(log@).len() ==> line_reading(#[trigger] lines(log@)[i])
                            == Ok::<Event, ParseFault>(part@.events[i])
                    &&& forall|i: int|
                        0 <= i < lines(log@).len() ==> line_fault(lines(log@), i) is None
                    &&& in_time_order(part@.events)
                },
                Err(e) => {
                    &&& e.line < lines(log@).len()
                    &&& line_fault(lines(log@), e.line as int) == Some(e.fault)
                    &&& forall|i: int| 0 <= i < e.line ==> line_fault(lines(log@), i) is None
                    &&& e.fault == ParseFault::OutOfOrder ==> e.line > 0
                },
            },
    {
        let chars: Vec<char> = chars_of(log);
        let n: usize = chars.len();
        let mut entries: Vec<LogEntry> = Vec::new();
        let mut pos: usize = 0;
        let ghost mut read: Seq<Seq<char>> = Seq::empty();
        while pos < n
            invariant
                pos <= n,
                n == chars.len(),
                chars@ == log@,
                read.len() == entries.len(),
                lines(log@) == read + lines_from(log@, pos as int),
                forall|i: int|
                    0 <= i < read.len() ==> line_reading(#[trigger] read[i]) == Ok::<
                        Event,
                        ParseFault,
                    >(entries[i]@),
                forall|i: int, j: int|
                    0 <= i <= j < entries.len() ==> (#[trigger] entries[i])@.time.at_or_before(
                        (#[trigger] entries[j])@.time,
                    ),
            decreases n - pos,
        {
            let end: usize = find_first(&chars, '\n', pos, n);
            let stop: usize = if end < n && end > pos && chars[end - 1] == '\r' {
                end - 1
            } else {
                end
            };
            let ghost line: Seq<char> = log@.subrange(pos as int, stop as int);
            proof {
                lemma_first_at(log@, '\n', pos as int, end as int);
                if end < n {
                    assert(line == without_cr(log@.subrange(pos as int, end as int)));
                }
            }
            let comma: usize = find_first(&chars, ',', pos, stop);
            proof {
                lemma_first_at(line, ',', 0, comma - pos);
            }
            if comma == stop {
                return Err(ParseError { line: entries.len(), fault: ParseFault::MissingSeparator });
            }
            let time_text: String = string_of(&chars, pos, comma);
            let team: String = string_of(&chars, comma + 1, stop);
            proof {
                assert(time_text@ == line.subrange(0, comma - pos));
                assert(team@ == line.subrange(comma - pos + 1, line.len() as int));
            }
            let count: usize = entries.len();
            proof {
                assert(lines(log@).take(count as int) == read);
                assert(lines(log@)[count as int] == line);
            }
            match LogEntry::from_reading(naive_time_of(time_text.as_str()), team) {
                Ok(entry) => {
                    if count > 0 && !entry.time().is_at_or_after(&entries[count - 1].time()) {
                        proof {
                            lemma_lines_read(lines(log@), read, events_of(entries@));
                        }
                        return Err(ParseError { line: count, fault: ParseFault::OutOfOrder });
                    }
                    entries.push(entry);
                },
                Err(fault) => {
                    proof {
                        lemma_lines_read(lines(log@), read, events_of(entries@));
                    }
                    return Err(ParseError { line: count, fault });
                },
            }
            proof {
                read = read.push(line);
            }
            pos = if end < n {
                end + 1
            } else {
                n
            };
        }
        proof {
            assert(lines(log@).take(read.len() as int) == read);
            lemma_lines_read(lines(log@), read, events_of(entries@));
        }
        Ok(BoardPart::new(size, entries))
    }
}

/// Where the first lines of a log read to events in time order, none of those
/// lines is at fault.
proof fn lemma_lines_read(lines: Seq<Seq<char>>, read: Seq<Seq<char>>, events: Seq<Event>)
    requires
        read.len() == events.len(),
        read.len() <= lines.len(),
        lines.take(read.len() as int) == read,
        forall|i: int|
            0 <= i < read.len() ==> line_reading(#[trigger] read[i]) == Ok::<Event, ParseFault>(
                events[i],
            ),
        in_time_order(events),
    ensures
        forall|i: int| 0 <= i < read.len() ==> line_fault(lines, i) is None,
{
    assert forall|i: int| 0 <= i < read.len() implies line_fault(lines, i) is None by {
        assert(lines[i] == read[i]);
        if i > 0 {
            assert(lines[i - 1] == read[i - 1]);
            assert(events[i - 1].time.at_or_before(events[i].time));
        }
    }
}

/// The characters of a text, one by one.
fn chars_of(text: &str) -> (r: Vec<char>)
    ensures
        r@ == text@,
{
    let mut out: Vec<char> = Vec::new();
    for c in it: text.chars()
        invariant
            it.seq() == text@,
            out@ == text@.take(it.index() as int),
    {
        out.push(c);
    }
    out
}

/// Looks for `mark` in `chars` from `from` up to `to`.
fn find_first(chars: &Vec<char>, mark: char, from: usize, to: usize) -> (r: usize)
    requires
        from <= to <= chars.len(),
    ensures
        from <= r <= to,
        forall|k: int| from <= k < r ==> chars@[k] != mark,
        r < to ==> chars@[r as int] == mark,
{
    let mut i: usize = from;
    while i < to
        invariant
            from <= i <= to <= chars.len(),
            forall|k: int| from <= k < i ==> chars@[k] != mark,
        decreases to - i,
    {
        if chars[i] == mark {
            return i;
        }
        i = i + 1;
    }
    i
}

/// The characters of `chars` from `from` up to `to`, as a string.
fn string_of(chars: &Vec<char>, from: usize, to: usize) -> (r: String)
    requires
        from <= to <= chars.len(),
    ensures
        r@ == chars@.subrange(from as int, to as int),
{
    let mut out: String = String::new();
    let mut i: usize = from;
    while i < to
        invariant
            from <= i <= to <= chars.len(),
            out@ == chars@.subrange(from as int, i as int),
        decreases to - i,
    {
        out.push(chars[i]);
        i = i + 1;
    }
    out
}

} // verus!
