//! What holds of every board: laws of the scoring rules, each with its proof.

use crate::board::{is_evaluation, ScoreError};
use crate::log::{in_time_order, Event, Zone};
use crate::score::{
    board_claims, board_worth, claimants, credited, held_seconds, interval_close,
    lemma_credited_absent, lemma_credited_joined, lemma_tally_push, merged, overflows, prior,
    seconds_upto, tally, total, zone_claims, Claim,
};
use crate::table::ScoreTable;
use crate::time::{span_nanos, whole_seconds, TimeOfDay};
use vstd::prelude::*;

verus! {

/// The claims of two boards joined are those of the first and those of the second.
pub proof fn lemma_board_claims_joined(first: Seq<Zone>, second: Seq<Zone>, end: TimeOfDay)
    ensures
        board_claims(first + second, end) == board_claims(first, end) + board_claims(second, end),
    decreases second.len(),
{
    if second.len() > 0 {
        lemma_board_claims_joined(first, second.drop_last(), end);
        assert((first + second).drop_last() == first + second.drop_last());
    }
}

/// The teams that claim on two sequences joined are those of the one and
/// those of the other.
pub proof fn lemma_claimants_joined(first: Seq<Claim>, second: Seq<Claim>)
    ensures
        claimants(first + second) == claimants(first).union(claimants(second)),
{
    let both = first + second;
    assert forall|team: Seq<char>| claimants(both).contains(team) <==> claimants(first).contains(
        team,
    ) || claimants(second).contains(team) by {
        if claimants(both).contains(team) {
            let i = choose|i: int| 0 <= i < both.len() && both[i].team == team;
            assert(i < first.len() ==> first[i].team == team);
            assert(i >= first.len() ==> second[i - first.len()].team == team);
        }
        if claimants(first).contains(team) {
            let i = choose|i: int| 0 <= i < first.len() && first[i].team == team;
            assert(both[i].team == team);
        }
        if claimants(second).contains(team) {
            let i = choose|i: int| 0 <= i < second.len() && second[i].team == team;
            assert(both[first.len() + i].team == team);
        }
    }
}

/// Scoring is a function of the board and of the end of the match: two runs
/// on the same input give the same scores, or the same fault.
pub proof fn law_same_input_same_scores(
    board: Seq<Zone>,
    end: TimeOfDay,
    once: Result<ScoreTable, ScoreError>,
    again: Result<ScoreTable, ScoreError>,
)
    requires
        is_evaluation(board, end, once),
        is_evaluation(board, end, again),
    ensures
        match (once, again) {
            (Ok(first), Ok(second)) => first@ == second@,
            (Err(first), Err(second)) => first == second,
            _ => false,
        },
{
}

/// A board may be scored in parts: what a team earns on the whole board is
/// what it earns on the one part and on the other, and the teams with a score
/// are those of the one part and those of the other.
pub proof fn law_parts_add_up(first: Seq<Zone>, second: Seq<Zone>, end: TimeOfDay, team: Seq<char>)
    ensures
        credited(board_claims(first + second, end), team) == credited(
            board_claims(first, end),
            team,
        ) + credited(board_claims(second, end), team),
        claimants(board_claims(first + second, end)) == claimants(
            board_claims(first, end),
        ).union(claimants(board_claims(second, end))),
{
    lemma_board_claims_joined(first, second, end);
    lemma_credited_joined(board_claims(first, end), board_claims(second, end), team);
    lemma_claimants_joined(board_claims(first, end), board_claims(second, end));
}

/// Putting tables together is a sum for each team, so the order in which
/// partial results are put together is free: neither which of two comes first
/// nor how three are grouped changes what comes out.
pub proof fn law_merge_order_is_free(
    a: Map<Seq<char>, nat>,
    b: Map<Seq<char>, nat>,
    c: Map<Seq<char>, nat>,
)
    ensures
        merged(a, b) == merged(b, a),
        merged(merged(a, b), c) == merged(a, merged(b, c)),
{
}

/// The scores of a board are the scores of its parts put together.
pub proof fn law_parts_merge(first: Seq<Zone>, second: Seq<Zone>, end: TimeOfDay)
    ensures
        tally(board_claims(first + second, end)) == merged(
            tally(board_claims(first, end)),
            tally(board_claims(second, end)),
        ),
{
    let whole = tally(board_claims(first + second, end));
    let parts = merged(tally(board_claims(first, end)), tally(board_claims(second, end)));
    law_parts_add_up(first, second, end, Seq::empty());
    assert forall|team: Seq<char>| whole.dom().contains(team) implies #[trigger] whole[team]
        == parts[team] by {
        law_parts_add_up(first, second, end, team);
        if !claimants(board_claims(first, end)).contains(team) {
            lemma_credited_absent(board_claims(first, end), team);
        }
        if !claimants(board_claims(second, end)).contains(team) {
            lemma_credited_absent(board_claims(second, end), team);
        }
    }
}

/// Zones put in another order give each team the same sum of claims, and the
/// same teams make them.
pub proof fn lemma_rearranged(one: Seq<Zone>, other: Seq<Zone>, end: TimeOfDay, team: Seq<char>)
    requires
        one.to_multiset() == other.to_multiset(),
    ensures
        credited(board_claims(one, end), team) == credited(board_claims(other, end), team),
        claimants(board_claims(one, end)) == claimants(board_claims(other, end)),
    decreases one.len(),
{
    broadcast use vstd::seq_lib::group_to_multiset_ensures;

    if one.len() == 0 {
        assert(other.to_multiset().len() == 0);
    } else {
        let zone = one.last();
        assert(other.to_multiset().count(zone) > 0);
        let j = choose|j: int| 0 <= j < other.len() && other[j] == zone;
        let front = other.take(j);
        let back = other.skip(j + 1);
        let rest = other.remove(j);
        assert(one.drop_last() =~= one.remove(one.len() - 1));
        lemma_rearranged(one.drop_last(), rest, end, team);
        assert(other =~= (front + seq![zone]) + back);
        assert(one =~= one.drop_last() + seq![zone]);
        law_parts_add_up(front, back, end, team);
        law_parts_add_up(front, seq![zone], end, team);
        law_parts_add_up(front + seq![zone], back, end, team);
        law_parts_add_up(one.drop_last(), seq![zone], end, team);
    }
}

/// The scores of a board depend on which zones it has, not on the order in
/// which they come: however partial results are put together, the table is
/// the same.
pub proof fn law_order_of_zones_is_free(one: Seq<Zone>, other: Seq<Zone>, end: TimeOfDay)
    requires
        one.to_multiset() == other.to_multiset(),
    ensures
        tally(board_claims(one, end)) == tally(board_claims(other, end)),
        overflows(board_claims(one, end)) == overflows(board_claims(other, end)),
{
    let here = board_claims(one, end);
    let there = board_claims(other, end);
    assert forall|team: Seq<char>| credited(here, team) == credited(there, team) by {
        lemma_rearranged(one, other, end, team);
    }
    lemma_rearranged(one, other, end, Seq::empty());
}

/// A board on which nobody claimed anything has no scores: neither the board
/// without zones nor the one whose logs are all empty gives any team an entry.
pub proof fn law_no_claims_no_scores(board: Seq<Zone>, end: TimeOfDay)
    requires
        forall|k: int| 0 <= k < board.len() ==> (#[trigger] board[k]).events.len() == 0,
    ensures
        board_claims(board, end) == Seq::<Claim>::empty(),
        tally(board_claims(board, end)) == Map::<Seq<char>, nat>::empty(),
        !overflows(board_claims(board, end)),
    decreases board.len(),
{
    if board.len() > 0 {
        law_no_claims_no_scores(board.drop_last(), end);
    }
}

/// Where each claim of one sequence is matched by a claim of the same team and
/// of no less worth in another, no team is credited less by the other.
pub proof fn lemma_credited_grows(small: Seq<Claim>, large: Seq<Claim>, team: Seq<char>)
    requires
        small.len() == large.len(),
        forall|i: int|
            0 <= i < small.len() ==> small[i].team == large[i].team && small[i].worth
                <= large[i].worth,
    ensures
        credited(small, team) <= credited(large, team),
    decreases small.len(),
{
    if small.len() > 0 {
        lemma_credited_grows(small.drop_last(), large.drop_last(), team);
    }
}

/// Whether every event of every zone is at a time of day.
pub open spec fn all_times_valid(board: Seq<Zone>) -> bool {
    forall|k: int, i: int|
        0 <= k < board.len() && 0 <= i < board[k].events.len() ==> (
        #[trigger] board[k].events[i]).time.is_valid()
}

/// Whether a second is lost between two ends of a match: the earlier end lies
/// within a leap second, and the later one in the second that follows, less
/// far into it. A span that began before the leap second counts that second
/// up to the earlier end, and does not count it up to the later one.
pub open spec fn leap_second_lost(early: TimeOfDay, late: TimeOfDay) -> bool {
    &&& early.in_leap_second()
    &&& late.secs == early.secs + 1
    &&& late.frac + 1_000_000_000 < early.frac
}

/// No span has fewer whole seconds up to a later time, unless a leap second
/// is lost between the two.
pub proof fn lemma_seconds_grow(from: TimeOfDay, early: TimeOfDay, late: TimeOfDay)
    requires
        from.is_valid(),
        early.is_valid(),
        late.is_valid(),
        early.at_or_before(late),
        !leap_second_lost(early, late),
    ensures
        whole_seconds(from, early) <= whole_seconds(from, late),
{
    if from.at_or_before(early) && early.secs < late.secs {
        if early.in_leap_second() {
            assert(early.secs % 60 == 59);
            if late.secs == early.secs + 1 {
                assert(late.secs % 60 == 0);
                assert(!late.in_leap_second());
            }
        }
    }
}

/// No interval is held for fewer seconds when the match ends later, unless a
/// leap second is lost between the two ends.
pub proof fn lemma_held_grows(zone: Zone, i: int, early: TimeOfDay, late: TimeOfDay)
    requires
        0 <= i < zone.events.len(),
        zone.events[i].time.is_valid(),
        early.is_valid(),
        late.is_valid(),
        early.at_or_before(late),
        !leap_second_lost(early, late),
    ensures
        zone.size * held_seconds(zone.events, i, early) <= zone.size * held_seconds(
            zone.events,
            i,
            late,
        ),
{
    let before = held_seconds(zone.events, i, early);
    let after = held_seconds(zone.events, i, late);
    lemma_seconds_grow(zone.events[i].time, early, late);
    assert(before <= after);
    assert(zone.size * before <= zone.size * after) by (nonlinear_arith)
        requires
            before <= after,
    ;
}

/// A match that ends later scores no team lower, all else being equal: so
/// neither the team that holds a zone's last interval, which runs to the end of
/// the match, nor any other. This is so for all times of day, unless a leap
/// second is lost between the two ends.
pub proof fn law_later_end_scores_no_less(
    board: Seq<Zone>,
    early: TimeOfDay,
    late: TimeOfDay,
    team: Seq<char>,
)
    requires
        all_times_valid(board),
        early.is_valid(),
        late.is_valid(),
        early.at_or_before(late),
        !leap_second_lost(early, late),
    ensures
        credited(board_claims(board, early), team) <= credited(board_claims(board, late), team),
    decreases board.len(),
{
    if board.len() > 0 {
        let zone = board.last();
        assert forall|k: int, i: int|
            0 <= k < board.drop_last().len() && 0 <= i < board.drop_last()[k].events.len() implies (
        #[trigger] board.drop_last()[k].events[i]).time.is_valid() by {
            assert(board[k].events[i].time.is_valid());
        }
        law_later_end_scores_no_less(board.drop_last(), early, late, team);
        assert forall|i: int| 0 <= i < zone.events.len() implies zone_claims(zone, early)[i].worth
            <= zone_claims(zone, late)[i].worth by {
            assert(board[board.len() - 1].events[i].time.is_valid());
            lemma_held_grows(zone, i, early, late);
        }
        lemma_credited_grows(zone_claims(zone, early), zone_claims(zone, late), team);
        lemma_credited_joined(
            board_claims(board.drop_last(), early),
            zone_claims(zone, early),
            team,
        );
        lemma_credited_joined(board_claims(board.drop_last(), late), zone_claims(zone, late), team);
    }
}

/// The board of one zone of size one that `team` takes once, at `time`.
pub open spec fn lone_claim(time: TimeOfDay, team: Seq<char>) -> Seq<Zone> {
    seq![Zone { size: 1, events: seq![Event { time, team }] }]
}

/// Where a leap second is lost between two ends of a match, the later end
/// does score a team lower: the team that took a zone at the start of that
/// leap second has held it for a second at the earlier end, and for none at
/// the later one.
pub proof fn law_later_end_scores_less_where_leap_second_is_lost(
    early: TimeOfDay,
    late: TimeOfDay,
    team: Seq<char>,
)
    requires
        early.is_valid(),
        late.is_valid(),
        leap_second_lost(early, late),
    ensures
        early.at_or_before(late),
        ({
            let start = TimeOfDay { secs: early.secs, frac: (early.frac - 1_000_000_000) as u32 };
            &&& start.is_valid()
            &&& credited(board_claims(lone_claim(start, team), late), team) < credited(
                board_claims(lone_claim(start, team), early),
                team,
            )
        }),
{
    let start = TimeOfDay { secs: early.secs, frac: (early.frac - 1_000_000_000) as u32 };
    let board = lone_claim(start, team);
    let zone = board[0];
    assert(board.drop_last() =~= Seq::<Zone>::empty());
    assert(board.last() == zone);
    assert(held_seconds(zone.events, 0, early) == 1);
    assert(held_seconds(zone.events, 0, late) == 0);
    assert(board_claims(board.drop_last(), early) =~= Seq::<Claim>::empty());
    assert(board_claims(board.drop_last(), late) =~= Seq::<Claim>::empty());
    assert(board_claims(board, early) =~= zone_claims(zone, early));
    assert(board_claims(board, late) =~= zone_claims(zone, late));
    assert(zone_claims(zone, early).drop_last() =~= Seq::<Claim>::empty());
    assert(zone_claims(zone, late).drop_last() =~= Seq::<Claim>::empty());
    assert(zone_claims(zone, early).last().worth == 1);
    assert(zone_claims(zone, late).last().worth == 0);
}

/// The sum of all scores is the score of any one team and the sum of the rest.
pub proof fn lemma_total_without(scores: Map<Seq<char>, nat>, team: Seq<char>)
    requires
        scores.dom().finite(),
        scores.dom().contains(team),
    ensures
        total(scores) == scores[team] + total(scores.remove(team)),
    decreases scores.dom().len(),
{
    let pick = scores.dom().choose();
    if pick != team {
        let less = scores.remove(pick);
        lemma_total_without(less, team);
        lemma_total_without(scores.remove(team), pick);
        assert(less.remove(team) =~= scores.remove(team).remove(pick));
    }
}

/// A new score for one team changes the sum by the difference to the old one.
pub proof fn lemma_total_insert(scores: Map<Seq<char>, nat>, team: Seq<char>, score: nat)
    requires
        scores.dom().finite(),
    ensures
        total(scores.insert(team, score)) + prior(scores, team) == total(scores) + score,
{
    let after = scores.insert(team, score);
    lemma_total_without(after, team);
    if scores.dom().contains(team) {
        lemma_total_without(scores, team);
        assert(after.remove(team) =~= scores.remove(team));
    } else {
        assert(after.remove(team) =~= scores);
    }
}

/// The sum of the worth of all claims.
pub open spec fn claimed(claims: Seq<Claim>) -> nat
    decreases claims.len(),
{
    if claims.len() == 0 {
        0
    } else {
        claimed(claims.drop_last()) + claims.last().worth
    }
}

/// The scores that claims come to sum to the worth of the claims.
pub proof fn lemma_tally_total(claims: Seq<Claim>)
    ensures
        tally(claims).dom().finite(),
        total(tally(claims)) == claimed(claims),
    decreases claims.len(),
{
    if claims.len() == 0 {
        assert(tally(claims).dom() =~= Set::<Seq<char>>::empty());
    } else {
        let front = claims.drop_last();
        lemma_tally_total(front);
        assert(front.push(claims.last()) == claims);
        lemma_tally_push(front, claims.last());
        lemma_total_insert(
            tally(front),
            claims.last().team,
            prior(tally(front), claims.last().team) + claims.last().worth,
        );
    }
}

/// The worth of two sequences of claims joined is the worth of both.
pub proof fn lemma_claimed_joined(first: Seq<Claim>, second: Seq<Claim>)
    ensures
        claimed(first + second) == claimed(first) + claimed(second),
    decreases second.len(),
{
    if second.len() > 0 {
        lemma_claimed_joined(first, second.drop_last());
        assert((first + second).drop_last() == first + second.drop_last());
    }
}

/// The first claims of a zone are worth its size for every second of the
/// intervals that they stand for.
pub proof fn lemma_zone_claimed(zone: Zone, end: TimeOfDay, upto: int)
    requires
        0 <= upto <= zone.events.len(),
    ensures
        claimed(zone_claims(zone, end).take(upto)) == zone.size * seconds_upto(
            zone.events,
            end,
            upto,
        ),
    decreases upto,
{
    let claims = zone_claims(zone, end);
    if upto > 0 {
        lemma_zone_claimed(zone, end, upto - 1);
        assert(claims.take(upto).drop_last() == claims.take(upto - 1));
        let sum = seconds_upto(zone.events, end, upto - 1);
        let held = held_seconds(zone.events, upto - 1, end);
        assert(zone.size * (sum + held) == zone.size * sum + zone.size * held)
            by (nonlinear_arith);
    } else {
        assert(zone.size * 0 == 0);
    }
}

/// No score leaks and none is counted twice: the scores of all teams sum to
/// what the board is worth, each zone's size for every second that it was held.
pub proof fn law_scores_add_up(board: Seq<Zone>, end: TimeOfDay)
    ensures
        tally(board_claims(board, end)).dom().finite(),
        total(tally(board_claims(board, end))) == board_worth(board, end),
{
    lemma_tally_total(board_claims(board, end));
    lemma_board_claimed(board, end);
}

/// The claims of a board are worth what the board is worth.
pub proof fn lemma_board_claimed(board: Seq<Zone>, end: TimeOfDay)
    ensures
        claimed(board_claims(board, end)) == board_worth(board, end),
    decreases board.len(),
{
    if board.len() > 0 {
        let zone = board.last();
        lemma_board_claimed(board.drop_last(), end);
        lemma_claimed_joined(board_claims(board.drop_last(), end), zone_claims(zone, end));
        lemma_zone_claimed(zone, end, zone.events.len() as int);
        assert(zone_claims(zone, end).take(zone.events.len() as int) == zone_claims(zone, end));
    }
}

/// Whether the parts of a second that the two pieces of a span drop, when it
/// is cut at `mid`, make up less than a second.
pub open spec fn cut_keeps_seconds(from: TimeOfDay, mid: TimeOfDay, to: TimeOfDay) -> bool {
    span_nanos(from, mid) % 1_000_000_000 + span_nanos(mid, to) % 1_000_000_000 < 1_000_000_000
}

/// Where neither the start of a span nor the cut lies within a leap second,
/// the whole seconds of the span are those of its two pieces just where the
/// parts of a second that the pieces drop make up less than a second.
pub proof fn lemma_seconds_of_pieces(from: TimeOfDay, mid: TimeOfDay, to: TimeOfDay)
    requires
        from.at_or_before(mid),
        mid.at_or_before(to),
        !from.in_leap_second(),
        !mid.in_leap_second(),
    ensures
        cut_keeps_seconds(from, mid, to) <==> whole_seconds(from, to) == whole_seconds(from, mid)
            + whole_seconds(mid, to),
{
    let x = span_nanos(from, mid);
    let y = span_nanos(mid, to);
    assert(span_nanos(from, to) == x + y);
    assert(x >= 0 && y >= 0);
    assert(cut_keeps_seconds(from, mid, to) <==> (x + y) / 1_000_000_000 == x / 1_000_000_000 + y
        / 1_000_000_000);
}

/// A zone without one of its events.
pub open spec fn without_event(zone: Zone, i: int) -> Zone {
    Zone { size: zone.size, events: zone.events.remove(i) }
}

/// Whether event `i + 1`, a second claim in a row by the team of event `i`,
/// leaves the seconds held as they would be without it. Where both claims come
/// at or after the end of the match, it does. Where both come before the end,
/// it does if the span from the first claim to the close of the second one's
/// interval has the whole seconds of the two pieces that the second claim cuts
/// it into; `lemma_seconds_of_pieces` says when that is. Where only the second
/// comes at or after the end, the first interval runs up to it, and it does if
/// that is as many whole seconds as up to the close of its own interval.
pub open spec fn reclaim_is_even(events: Seq<Event>, i: int, end: TimeOfDay) -> bool {
    let first = events[i].time;
    let second = events[i + 1].time;
    let close = interval_close(events, i + 1, end);
    if end.at_or_before(first) {
        true
    } else if !end.at_or_before(second) {
        whole_seconds(first, close) == whole_seconds(first, second) + whole_seconds(second, close)
    } else {
        whole_seconds(first, second) == whole_seconds(first, close)
    }
}

/// The seconds of two intervals in a row are those of the one interval that
/// is left when the second event is struck out, just where the second claim
/// is even.
pub proof fn lemma_reclaim_seconds(zone: Zone, end: TimeOfDay, i: int)
    requires
        in_time_order(zone.events),
        0 <= i,
        i + 1 < zone.events.len(),
    ensures
        reclaim_is_even(zone.events, i, end) <==> held_seconds(
            without_event(zone, i + 1).events,
            i,
            end,
        ) == held_seconds(zone.events, i, end) + held_seconds(zone.events, i + 1, end),
        held_seconds(without_event(zone, i + 1).events, i, end) == (if end.at_or_before(
            zone.events[i].time,
        ) {
            0
        } else {
            whole_seconds(zone.events[i].time, interval_close(zone.events, i + 1, end))
        }),
{
    let events = zone.events;
    let first = events[i].time;
    let second = events[i + 1].time;
    assert(first.at_or_before(second));
    assert(interval_close(without_event(zone, i + 1).events, i, end) == interval_close(
        events,
        i + 1,
        end,
    ));
}

/// With one of two claims in a row by the same team struck out, a zone's
/// claims are made by the same teams.
pub proof fn lemma_same_claimants(zone: Zone, end: TimeOfDay, i: int)
    requires
        0 <= i,
        i + 1 < zone.events.len(),
        zone.events[i].team == zone.events[i + 1].team,
    ensures
        claimants(zone_claims(without_event(zone, i + 1), end)) == claimants(
            zone_claims(zone, end),
        ),
{
    let all = zone_claims(zone, end);
    let fewer = zone_claims(without_event(zone, i + 1), end);
    assert forall|team: Seq<char>| claimants(fewer).contains(team) <==> claimants(all).contains(
        team,
    ) by {
        if claimants(fewer).contains(team) {
            let j = choose|j: int| 0 <= j < fewer.len() && fewer[j].team == team;
            if j <= i {
                assert(all[j].team == team);
            } else {
                assert(all[j + 1].team == team);
            }
        }
        if claimants(all).contains(team) {
            let j = choose|j: int| 0 <= j < all.len() && all[j].team == team;
            if j <= i {
                assert(fewer[j].team == team);
            } else {
                assert(fewer[j - 1].team == team);
            }
        }
    }
}

/// What a team is credited with and without the second of two claims in a
/// row by one team differs by what the two intervals, and the one that is left
/// of them, are worth to that team.
pub proof fn lemma_reclaim_credit(zone: Zone, end: TimeOfDay, i: int, team: Seq<char>)
    requires
        0 <= i,
        i + 1 < zone.events.len(),
        zone.events[i].team == zone.events[i + 1].team,
    ensures
        credited(zone_claims(without_event(zone, i + 1), end), team) + (if zone.events[i].team
            == team {
            zone.size * (held_seconds(zone.events, i, end) + held_seconds(
                zone.events,
                i + 1,
                end,
            ))
        } else {
            0
        }) == credited(zone_claims(zone, end), team) + (if zone.events[i].team == team {
            zone.size * held_seconds(without_event(zone, i + 1).events, i, end)
        } else {
            0
        }),
{
    let all = zone_claims(zone, end);
    let fewer = zone_claims(without_event(zone, i + 1), end);
    let held = held_seconds(zone.events, i, end);
    let again = held_seconds(zone.events, i + 1, end);
    assert(zone.size * (held + again) == zone.size * held + zone.size * again)
        by (nonlinear_arith);
    assert(fewer.take(i) =~= all.take(i));
    assert(fewer.skip(i + 1) =~= all.skip(i + 2));
    assert(all =~= all.take(i) + all.subrange(i, i + 2) + all.skip(i + 2));
    assert(fewer =~= fewer.take(i) + fewer.subrange(i, i + 1) + fewer.skip(i + 1));
    let two = all.subrange(i, i + 2);
    let one = fewer.subrange(i, i + 1);
    assert(two.drop_last().drop_last() =~= Seq::<Claim>::empty());
    assert(one.drop_last() =~= Seq::<Claim>::empty());
    assert(credited(two.drop_last(), team) == credited(two.drop_last().drop_last(), team)
        + if two.drop_last().last().team == team {
        two.drop_last().last().worth
    } else {
        0
    });
    lemma_credited_joined(all.take(i), two, team);
    lemma_credited_joined(all.take(i) + two, all.skip(i + 2), team);
    lemma_credited_joined(fewer.take(i), one, team);
    lemma_credited_joined(fewer.take(i) + one, fewer.skip(i + 1), team);
}

/// A team that takes again a zone that it holds goes on holding it: the
/// second claim can be struck from the log without a change to any score, and
/// the team is credited once for the whole seconds from its first claim to the
/// close of the second one's interval. This is so where the second claim is
/// even, or the zone has no size.
pub proof fn law_reclaim_keeps_scores(zone: Zone, end: TimeOfDay, i: int)
    requires
        in_time_order(zone.events),
        0 <= i,
        i + 1 < zone.events.len(),
        zone.events[i].team == zone.events[i + 1].team,
        zone.size == 0 || reclaim_is_even(zone.events, i, end),
    ensures
        tally(zone_claims(without_event(zone, i + 1), end)) == tally(zone_claims(zone, end)),
        reclaim_is_even(zone.events, i, end) ==> held_seconds(zone.events, i, end) + held_seconds(
            zone.events,
            i + 1,
            end,
        ) == (if end.at_or_before(zone.events[i].time) {
            0
        } else {
            whole_seconds(zone.events[i].time, interval_close(zone.events, i + 1, end))
        }),
{
    let fewer = zone_claims(without_event(zone, i + 1), end);
    lemma_reclaim_seconds(zone, end, i);
    assert forall|team: Seq<char>| credited(fewer, team) == credited(
        zone_claims(zone, end),
        team,
    ) by {
        lemma_reclaim_credit(zone, end, i, team);
        let both = held_seconds(zone.events, i, end) + held_seconds(zone.events, i + 1, end);
        let one = held_seconds(without_event(zone, i + 1).events, i, end);
        assert(zone.size * both == zone.size * one) by (nonlinear_arith)
            requires
                zone.size == 0 || both == one,
        ;
    }
    lemma_same_claimants(zone, end, i);
}

/// Everywhere else the second claim changes the score of the team that makes
/// it: the two intervals are not worth what the one would be.
pub proof fn law_reclaim_changes_scores_elsewhere(zone: Zone, end: TimeOfDay, i: int)
    requires
        in_time_order(zone.events),
        0 <= i,
        i + 1 < zone.events.len(),
        zone.events[i].team == zone.events[i + 1].team,
        zone.size > 0,
        !reclaim_is_even(zone.events, i, end),
    ensures
        credited(zone_claims(without_event(zone, i + 1), end), zone.events[i].team) != credited(
            zone_claims(zone, end),
            zone.events[i].team,
        ),
{
    lemma_reclaim_seconds(zone, end, i);
    lemma_reclaim_credit(zone, end, i, zone.events[i].team);
    let both = held_seconds(zone.events, i, end) + held_seconds(zone.events, i + 1, end);
    let one = held_seconds(without_event(zone, i + 1).events, i, end);
    assert(zone.size * both != zone.size * one) by (nonlinear_arith)
        requires
            zone.size > 0,
            both != one,
    ;
}

} // verus!
