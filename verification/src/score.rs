//! What a board is worth to each team: the rules of scoring, as mathematics.

use crate::log::{Event, Zone};
use crate::time::{whole_seconds, TimeOfDay};
use vstd::prelude::*;

verus! {

/// A team's gain from one interval of control.
pub struct Claim {
    pub team: Seq<char>,
    pub worth: nat,
}

/// Where the interval that event `i` opens comes to a close: at the next
/// event of the log, whenever that is, or at the end of the match for the
/// last event.
pub open spec fn interval_close(events: Seq<Event>, i: int, end: TimeOfDay) -> TimeOfDay {
    if i + 1 < events.len() {
        events[i + 1].time
    } else {
        end
    }
}

/// The whole seconds for which the team of event `i` holds the zone: those of
/// the interval that the event opens. Time before the first event is nobody's.
/// An event at or after the end of the match opens an interval that counts
/// for nothing, and so does one that the next event closes at once.
pub open spec fn held_seconds(events: Seq<Event>, i: int, end: TimeOfDay) -> nat {
    if end.at_or_before(events[i].time) {
        0
    } else {
        whole_seconds(events[i].time, interval_close(events, i, end))
    }
}

/// The claims that a zone gives rise to, one for each event and in their
/// order: the zone's size for every second held.
pub open spec fn zone_claims(zone: Zone, end: TimeOfDay) -> Seq<Claim> {
    Seq::new(
        zone.events.len(),
        |i: int|
            Claim {
                team: zone.events[i].team,
                worth: zone.size * held_seconds(zone.events, i, end),
            },
    )
}

/// The claims of all zones of a board, zone after zone.
pub open spec fn board_claims(board: Seq<Zone>, end: TimeOfDay) -> Seq<Claim>
    decreases board.len(),
{
    if board.len() == 0 {
        Seq::empty()
    } else {
        board_claims(board.drop_last(), end) + zone_claims(board.last(), end)
    }
}

/// The sum of the claims of one team.
pub open spec fn credited(claims: Seq<Claim>, team: Seq<char>) -> nat
    decreases claims.len(),
{
    if claims.len() == 0 {
        0
    } else {
        credited(claims.drop_last(), team) + if claims.last().team == team {
            claims.last().worth
        } else {
            0
        }
    }
}

/// The teams that made a claim.
pub open spec fn claimants(claims: Seq<Claim>) -> Set<Seq<char>> {
    Set::new(|team: Seq<char>| exists|i: int| 0 <= i < claims.len() && claims[i].team == team)
}

/// The scores that a sequence of claims comes to: each team that made a claim,
/// with the sum of its claims.
pub open spec fn tally(claims: Seq<Claim>) -> Map<Seq<char>, nat> {
    Map::new(
        |team: Seq<char>| claimants(claims).contains(team),
        |team: Seq<char>| credited(claims, team),
    )
}

/// Whether some team's claims sum to more than a score can hold.
pub open spec fn overflows(claims: Seq<Claim>) -> bool {
    exists|team: Seq<char>| credited(claims, team) > u64::MAX
}

/// The sum of all scores of a mapping with finitely many teams.
pub open spec fn total(scores: Map<Seq<char>, nat>) -> nat
    decreases scores.dom().len(),
{
    if scores.dom().finite() && scores.dom().len() > 0 {
        let team = scores.dom().choose();
        scores[team] + total(scores.remove(team))
    } else {
        0
    }
}

/// The seconds held in the first `upto` intervals of a log, taken together.
pub open spec fn seconds_upto(events: Seq<Event>, end: TimeOfDay, upto: int) -> nat
    decreases upto,
{
    if upto <= 0 {
        0
    } else {
        seconds_upto(events, end, upto - 1) + held_seconds(events, upto - 1, end)
    }
}

/// The seconds for which a zone is held by anyone: the sum over its intervals.
pub open spec fn zone_seconds(zone: Zone, end: TimeOfDay) -> nat {
    seconds_upto(zone.events, end, zone.events.len() as int)
}

/// What a board is worth in all: for each zone, its size for every second
/// that anyone held it.
pub open spec fn board_worth(board: Seq<Zone>, end: TimeOfDay) -> nat
    decreases board.len(),
{
    if board.len() == 0 {
        0
    } else {
        board_worth(board.drop_last(), end) + board.last().size * zone_seconds(board.last(), end)
    }
}

/// What a team has in a mapping of scores: its entry, or nothing.
pub open spec fn prior(scores: Map<Seq<char>, nat>, team: Seq<char>) -> nat {
    if scores.dom().contains(team) {
        scores[team]
    } else {
        0
    }
}

/// Two mappings of scores put together: each team of either, with the sum of
/// what it has in both.
pub open spec fn merged(one: Map<Seq<char>, nat>, other: Map<Seq<char>, nat>) -> Map<
    Seq<char>,
    nat,
> {
    Map::new(
        |team: Seq<char>| one.dom().contains(team) || other.dom().contains(team),
        |team: Seq<char>| prior(one, team) + prior(other, team),
    )
}

/// The claims of two sequences joined are, for each team, the claims of the
/// one and of the other.
pub proof fn lemma_credited_joined(first: Seq<Claim>, second: Seq<Claim>, team: Seq<char>)
    ensures
        credited(first + second, team) == credited(first, team) + credited(second, team),
    decreases second.len(),
{
    if second.len() > 0 {
        lemma_credited_joined(first, second.drop_last(), team);
        assert((first + second).drop_last() == first + second.drop_last());
    }
}

/// A team without a claim is credited with nothing.
pub proof fn lemma_credited_absent(claims: Seq<Claim>, team: Seq<char>)
    requires
        !claimants(claims).contains(team),
    ensures
        credited(claims, team) == 0,
    decreases claims.len(),
{
    if claims.len() > 0 {
        lemma_credited_absent(claims.drop_last(), team);
    }
}

/// One more claim adds its worth to the entry of its team, and makes the
/// entry where the team had none.
pub proof fn lemma_tally_push(claims: Seq<Claim>, claim: Claim)
    ensures
        tally(claims.push(claim)) == tally(claims).insert(
            claim.team,
            prior(tally(claims), claim.team) + claim.worth,
        ),
{
    let more = claims.push(claim);
    assert(more.drop_last() == claims);
    assert forall|team: Seq<char>| claimants(more).contains(team) <==> (claimants(
        claims,
    ).contains(team) || team == claim.team) by {
        if team == claim.team {
            assert(more[claims.len() as int].team == team);
        }
    }
    if !claimants(claims).contains(claim.team) {
        lemma_credited_absent(claims, claim.team);
    }
}

/// The claims of the first `k + 1` zones are those of the first `k` and those
/// of the zone that follows them.
pub proof fn lemma_board_claims_step(board: Seq<Zone>, end: TimeOfDay, k: int)
    requires
        0 <= k < board.len(),
    ensures
        board_claims(board.take(k + 1), end) == board_claims(board.take(k), end) + zone_claims(
            board[k],
            end,
        ),
{
    assert(board.take(k + 1).drop_last() == board.take(k));
}

/// Where the claims of some zones of a board overflow, or those zones' claims
/// up to some point, the board's claims do.
pub proof fn lemma_overflow_stays(
    board: Seq<Zone>,
    end: TimeOfDay,
    k: int,
    part: Seq<Claim>,
    team: Seq<char>,
)
    requires
        0 <= k <= board.len(),
        credited(part, team) > u64::MAX,
        exists|rest: Seq<Claim>| board_claims(board.take(k), end) == part + rest,
    ensures
        overflows(board_claims(board, end)),
    decreases board.len() - k,
{
    let rest = choose|rest: Seq<Claim>| board_claims(board.take(k), end) == part + rest;
    if k == board.len() {
        assert(board.take(k) == board);
        lemma_credited_joined(part, rest, team);
    } else {
        lemma_board_claims_step(board, end, k);
        let more = rest + zone_claims(board[k], end);
        assert(board_claims(board.take(k + 1), end) == part + more);
        lemma_overflow_stays(board, end, k + 1, part, team);
    }
}

} // verus!
