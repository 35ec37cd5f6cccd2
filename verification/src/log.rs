//! The log of one zone: who took it, and when.

use crate::time::TimeOfDay;
use vstd::prelude::*;

verus! {

/// What a log entry says: at `time`, `team` took the zone.
pub struct Event {
    pub time: TimeOfDay,
    pub team: Seq<char>,
}

/// A zone as the scoring rules see it: its size and its events in log order.
pub struct Zone {
    pub size: nat,
    pub events: Seq<Event>,
}

/// One line of a zone's log.
#[derive(Eq, PartialEq, Debug, Clone)]
pub struct LogEntry {
    time: TimeOfDay,
    team: String,
}

impl View for LogEntry {
    type V = Event;

    closed spec fn view(&self) -> Event {
        Event { time: self.time, team: self.team@ }
    }
}

impl LogEntry {
    /// The entry that says `team` took the zone at `time`.
    pub fn new(time: TimeOfDay, team: String) -> (r: Self)
        ensures
            r@ == (Event { time, team: team@ }),
    {
        Self { time, team }
    }

    /// When the zone was taken.
    pub fn time(&self) -> (r: TimeOfDay)
        ensures
            r == self@.time,
    {
        self.time
    }

    /// Who took the zone.
    pub fn team(&self) -> (r: &str)
        ensures
            r@ == self@.team,
    {
        self.team.as_str()
    }

    /// The team's name as the entry owns it.
    pub(crate) fn team_name(&self) -> (r: &String)
        ensures
            r@ == self@.team,
    {
        &self.team
    }
}

/// The events that a sequence of log entries stands for, in the same order.
pub open spec fn events_of(log: Seq<LogEntry>) -> Seq<Event> {
    Seq::new(log.len(), |i: int| log[i]@)
}

/// Whether no event is earlier than the one before it.
pub open spec fn in_time_order(events: Seq<Event>) -> bool {
    forall|i: int, j: int|
        #![trigger events[i], events[j]]
        0 <= i <= j < events.len() ==> events[i].time.at_or_before(events[j].time)
}

/// A zone of the board: its size and its log.
#[derive(Eq, PartialEq, Debug, Clone)]
pub struct BoardPart {
    size: u64,
    log: Vec<LogEntry>,
}

impl View for BoardPart {
    type V = Zone;

    closed spec fn view(&self) -> Zone {
        Zone { size: self.size as nat, events: events_of(self.log@) }
    }
}

impl BoardPart {
    /// The zone of the given size with the given log. Nothing is checked or
    /// reordered: the log is taken as it comes.
    pub fn new(size: u64, log: Vec<LogEntry>) -> (r: Self)
        ensures
            r@ == (Zone { size: size as nat, events: events_of(log@) }),
    {
        Self { size, log }
    }

    /// The zone's size.
    pub fn size(&self) -> (r: u64)
        ensures
            r == self@.size,
    {
        self.size
    }

    /// The zone's log.
    pub fn log(&self) -> (r: &Vec<LogEntry>)
        ensures
            events_of(r@) == self@.events,
    {
        &self.log
    }

    /// Whether the log is in time order.
    pub fn is_ordered(&self) -> (r: bool)
        ensures
            r == in_time_order(self@.events),
    {
        let n: usize = self.log.len();
        if n == 0 {
            return true;
        }
        let mut i: usize = 1;
        while i < n
            invariant
                1 <= i <= n,
                n == self.log.len(),
                forall|a: int, b: int|
                    0 <= a <= b < i ==> (#[trigger] self.log[a])@.time.at_or_before(
                        (#[trigger] self.log[b])@.time,
                    ),
            decreases n - i,
        {
            if !self.log[i].time().is_at_or_after(&self.log[i - 1].time()) {
                assert(self@.events[i - 1] == self.log[i - 1]@);
                assert(self@.events[i as int] == self.log[i as int]@);
                return false;
            }
            i = i + 1;
        }
        true
    }
}

} // verus!
