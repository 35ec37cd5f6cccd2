//! The board and its evaluation.

use crate::log::{events_of, in_time_order, BoardPart, LogEntry, Zone};
use crate::score::{
    board_claims, credited, held_seconds, lemma_board_claims_step, lemma_credited_absent,
    lemma_overflow_stays, lemma_tally_push, overflows, tally, zone_claims, Claim,
};
use crate::table::ScoreTable;
use crate::time::{MatchWindow, TimeOfDay};
use vstd::prelude::*;

verus! {

/// Why a board could not be scored.
#[derive(Clone, Copy, Debug, PartialEq, Eq)]
pub enum ScoreError {
    /// A log is out of time order: whoever built the board broke its promise.
    InvariantViolation,
    /// A team's score does not fit in 64 bits.
    OverflowFault,
}

/// The zones of a match.
#[derive(Eq, PartialEq, Debug, Clone)]
pub struct Board(pub Vec<BoardPart>);

impl View for Board {
    type V = Seq<Zone>;

    open spec fn view(&self) -> Seq<Zone> {
        Seq::new(self.0.len() as nat, |i: int| self.0[i]@)
    }
}

/// Whether every log of the board is in time order.
pub open spec fn all_in_time_order(board: Seq<Zone>) -> bool {
    forall|k: int| 0 <= k < board.len() ==> in_time_order(#[trigger] board[k].events)
}

/// Whether `r` is what scoring the board gives when the match ends at `end`:
/// the tally of the board's claims, or the overflow fault where some team's
/// claims sum to more than 64 bits hold.
pub open spec fn is_evaluation(
    board: Seq<Zone>,
    end: TimeOfDay,
    r: Result<ScoreTable, ScoreError>,
) -> bool {
    match r {
        Ok(table) => !overflows(board_claims(board, end)) && table@ == tally(
            board_claims(board, end),
        ),
        Err(e) => overflows(board_claims(board, end)) && e == ScoreError::OverflowFault,
    }
}

/// The whole seconds for which the team of entry `i` holds the zone.
fn hold(log: &Vec<LogEntry>, i: usize, end: &TimeOfDay) -> (r: u64)
    requires
        i < log.len(),
    ensures
        r == held_seconds(events_of(log@), i as int, *end),
{
    let from: TimeOfDay = log[i].time();
    if from.is_at_or_after(end) {
        0
    } else {
        let close: TimeOfDay = if i + 1 < log.len() {
            log[i + 1].time()
        } else {
            *end
        };
        from.seconds_until(&close)
    }
}

/// Adds the claims of one zone to a table that holds the tally of `done`, or
/// gives nothing where a score would not fit.
fn score_zone(
    table: ScoreTable,
    zone: &BoardPart,
    end: &TimeOfDay,
    Ghost(done): Ghost<Seq<Claim>>,
) -> (r: Option<ScoreTable>)
    requires
        table@ == tally(done),
    ensures
        match r {
            Some(after) => after@ == tally(done + zone_claims(zone@, *end)),
            None => exists|n: int, team: Seq<char>|
                0 <= n <= zone@.events.len() && #[trigger] credited(
                    done + zone_claims(zone@, *end).take(n),
                    team,
                ) > u64::MAX,
        },
{
    let log: &Vec<LogEntry> = zone.log();
    let size: u64 = zone.size();
    let ghost claims = zone_claims(zone@, *end);
    let mut table: ScoreTable = table;
    let mut i: usize = 0;
    while i < log.len()
        invariant
            i <= log.len(),
            events_of(log@) == zone@.events,
            size == zone@.size,
            claims == zone_claims(zone@, *end),
            table@ == tally(done + claims.take(i as int)),
        decreases log.len() - i,
    {
        let seconds: u64 = hold(log, i, end);
        let team: &String = log[i].team_name();
        let ghost claim = claims[i as int];
        let ghost before = done + claims.take(i as int);
        proof {
            assert(done + claims.take(i + 1) == before.push(claim));
            assert(before.push(claim).drop_last() == before);
            lemma_tally_push(before, claim);
            if !tally(before).dom().contains(team@) {
                lemma_credited_absent(before, team@);
            }
        }
        let credited_table: Option<ScoreTable> = match size.checked_mul(seconds) {
            Some(worth) => table.credit(team, worth),
            None => None,
        };
        match credited_table {
            Some(after) => {
                table = after;
            },
            None => {
                assert(credited(done + claims.take(i + 1), team@) > u64::MAX);
                return None;
            },
        }
        i = i + 1;
    }
    proof {
        assert(claims.take(i as int) == claims);
    }
    Some(table)
}

impl Board {
    /// The board made of the given zones.
    pub fn new(parts: Vec<BoardPart>) -> (r: Board)
        ensures
            r.0 == parts,
    {
        Board(parts)
    }

    /// Whether every log of the board is in time order.
    pub fn is_ordered(&self) -> (r: bool)
        ensures
            r == all_in_time_order(self@),
    {
        let mut k: usize = 0;
        while k < self.0.len()
            invariant
                k <= self.0.len(),
                forall|j: int| 0 <= j < k ==> in_time_order(#[trigger] self@[j].events),
            decreases self.0.len() - k,
        {
            if !self.0[k].is_ordered() {
                assert(!in_time_order(self@[k as int].events));
                return false;
            }
            k = k + 1;
        }
        true
    }

    /// Scores the board: every team that took a zone, with the size of each
    /// zone for every whole second of the intervals that the team's claims
    /// opened before the match ended. The logs are taken to be in time order
    /// and are not checked; an interval that runs backwards counts as empty.
    /// A score that does not fit in 64 bits is reported and never wrapped.
    pub fn evaluate(&self, window: &MatchWindow) -> (r: Result<ScoreTable, ScoreError>)
        ensures
            is_evaluation(self@, window.end, r),
    {
        let end: TimeOfDay = window.end();
        let mut table: ScoreTable = ScoreTable::new();
        let mut k: usize = 0;
        while k < self.0.len()
            invariant
                k <= self.0.len(),
                end == window.end,
                table@ == tally(board_claims(self@.take(k as int), end)),
            decreases self.0.len() - k,
        {
            let ghost done = board_claims(self@.take(k as int), end);
            proof {
                lemma_board_claims_step(self@, end, k as int);
            }
            match score_zone(table, &self.0[k], &end, Ghost(done)) {
                Some(after) => {
                    table = after;
                },
                None => {
                    proof {
                        let claims = zone_claims(self@[k as int], end);
                        let (n, team) = choose|n: int, team: Seq<char>|
                            0 <= n <= claims.len() && #[trigger] credited(
                                done + claims.take(n),
                                team,
                            ) > u64::MAX;
                        assert(board_claims(self@.take(k + 1), end) == (done + claims.take(n))
                            + claims.skip(n));
                        lemma_overflow_stays(self@, end, k + 1, done + claims.take(n), team);
                    }
                    return Err(ScoreError::OverflowFault);
                },
            }
            k = k + 1;
        }
        proof {
            assert(self@.take(k as int) == self@);
            let claims = board_claims(self@, end);
            table.lemma_scores_fit();
            assert forall|team: Seq<char>| credited(claims, team) <= u64::MAX by {
                if tally(claims).dom().contains(team) {
                    assert(table@[team] == credited(claims, team));
                } else {
                    lemma_credited_absent(claims, team);
                }
            }
        }
        Ok(table)
    }

    /// Scores the board as `evaluate` does, after a check that every log is in
    /// time order. A log out of order is reported before anything is scored.
    pub fn evaluate_checked(&self, window: &MatchWindow) -> (r: Result<ScoreTable, ScoreError>)
        ensures
            if all_in_time_order(self@) {
                is_evaluation(self@, window.end, r)
            } else {
                r == Err::<ScoreTable, ScoreError>(ScoreError::InvariantViolation)
            },
    {
        if !self.is_ordered() {
            return Err(ScoreError::InvariantViolation);
        }
        self.evaluate(window)
    }
}

} // verus!
