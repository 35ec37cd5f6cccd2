//! The table of scores: for each team that claimed a zone, what it has earned.

use crate::board::ScoreError;
use crate::score::{merged, prior};
use vstd::prelude::*;

verus! {

/// One row of the table.
#[derive(Debug)]
struct TeamScore {
    team: String,
    score: u64,
}

/// Whether no team has two rows.
spec fn one_row_each(rows: Seq<TeamScore>) -> bool {
    forall|i: int, j: int| 0 <= i < j < rows.len() ==> rows[i].team@ != rows[j].team@
}

/// The mapping that the rows stand for.
spec fn rows_map(rows: Seq<TeamScore>) -> Map<Seq<char>, nat>
    decreases rows.len(),
{
    if rows.len() == 0 {
        Map::empty()
    } else {
        rows_map(rows.drop_last()).insert(rows.last().team@, rows.last().score as nat)
    }
}

/// With one row for each team, the mapping has just the teams of the rows as
/// its keys, and gives each the score of its row.
proof fn lemma_rows_map(rows: Seq<TeamScore>)
    requires
        one_row_each(rows),
    ensures
        rows_map(rows).dom().finite(),
        rows_map(rows).dom().len() == rows.len(),
        forall|i: int|
            0 <= i < rows.len() ==> rows_map(rows).dom().contains(#[trigger] rows[i].team@)
                && rows_map(rows)[rows[i].team@] == rows[i].score,
        forall|team: Seq<char>| #[trigger]
            rows_map(rows).dom().contains(team) ==> exists|i: int|
                0 <= i < rows.len() && rows[i].team@ == team,
    decreases rows.len(),
{
    if rows.len() > 0 {
        let front = rows.drop_last();
        lemma_rows_map(front);
        assert forall|i: int| 0 <= i < rows.len() implies rows_map(rows).dom().contains(
            #[trigger] rows[i].team@,
        ) && rows_map(rows)[rows[i].team@] == rows[i].score by {
            if i < front.len() {
                assert(front[i] == rows[i]);
            }
        }
    }
}

/// The scores of a match: a mapping from each team that claimed a zone to what
/// it earned. A team that claimed nothing has no entry.
#[derive(Debug)]
pub struct ScoreTable {
    rows: Vec<TeamScore>,
}

impl View for ScoreTable {
    type V = Map<Seq<char>, nat>;

    closed spec fn view(&self) -> Map<Seq<char>, nat> {
        rows_map(self.rows@)
    }
}

impl ScoreTable {
    #[verifier::type_invariant]
    spec fn well_formed(&self) -> bool {
        one_row_each(self.rows@)
    }

    /// The table without any team.
    pub fn new() -> (r: ScoreTable)
        ensures
            r@ == Map::<Seq<char>, nat>::empty(),
    {
        ScoreTable { rows: Vec::new() }
    }

    /// The row of `team`, where it has one.
    fn find(&self, team: &String) -> (r: Option<usize>)
        ensures
            match r {
                Some(i) => i < self.rows.len() && self.rows[i as int].team@ == team@,
                None => forall|i: int| 0 <= i < self.rows.len() ==> self.rows[i].team@ != team@,
            },
    {
        let mut i: usize = 0;
        while i < self.rows.len()
            invariant
                i <= self.rows.len(),
                forall|k: int| 0 <= k < i ==> self.rows[k].team@ != team@,
            decreases self.rows.len() - i,
        {
            if self.rows[i].team == *team {
                return Some(i);
            }
            i = i + 1;
        }
        None
    }

    /// How many teams have a score.
    pub fn len(&self) -> (r: usize)
        ensures
            self@.dom().finite(),
            r == self@.dom().len(),
    {
        proof {
            use_type_invariant(self);
            lemma_rows_map(self.rows@);
        }
        self.rows.len()
    }

    /// Whether no team has a score.
    pub fn is_empty(&self) -> (r: bool)
        ensures
            r == (self@ == Map::<Seq<char>, nat>::empty()),
    {
        proof {
            use_type_invariant(self);
            lemma_rows_map(self.rows@);
        }
        self.rows.len() == 0
    }

    /// The score of `team`, where it has one.
    pub fn get(&self, team: &str) -> (r: Option<u64>)
        ensures
            r == (if self@.dom().contains(team@) {
                Some(self@[team@] as u64)
            } else {
                None
            }),
            self@.dom().contains(team@) ==> self@[team@] <= u64::MAX,
    {
        let name: String = team.to_owned();
        proof {
            use_type_invariant(self);
            lemma_rows_map(self.rows@);
        }
        match self.find(&name) {
            Some(i) => Some(self.rows[i].score),
            None => None,
        }
    }

    /// The teams that have a score, each once, in no order that means anything.
    pub fn teams(&self) -> (r: Vec<String>)
        ensures
            forall|team: Seq<char>|
                self@.dom().contains(team) <==> exists|i: int|
                    0 <= i < r.len() && (#[trigger] r[i])@ == team,
            forall|i: int, j: int| 0 <= i < j < r.len() ==> r[i]@ != r[j]@,
    {
        proof {
            use_type_invariant(self);
            lemma_rows_map(self.rows@);
        }
        let mut out: Vec<String> = Vec::new();
        let mut i: usize = 0;
        while i < self.rows.len()
            invariant
                i <= self.rows.len(),
                out.len() == i,
                forall|k: int| 0 <= k < i ==> (#[trigger] out[k])@ == self.rows[k].team@,
            decreases self.rows.len() - i,
        {
            out.push(self.rows[i].team.clone());
            i = i + 1;
        }
        proof {
            assert forall|team: Seq<char>| self@.dom().contains(team) implies exists|i: int|
                0 <= i < out.len() && (#[trigger] out[i])@ == team by {
                let k = choose|k: int| 0 <= k < self.rows.len() && self.rows[k].team@ == team;
                assert(out[k]@ == team);
            }
        }
        out
    }

    /// The two tables put together: each team with a score in either, with
    /// the sum of what it has in both. Where a sum does not fit in 64 bits, the
    /// overflow fault.
    pub fn merge(self, other: &ScoreTable) -> (r: Result<ScoreTable, ScoreError>)
        ensures
            match r {
                Ok(table) => table@ == merged(self@, other@),
                Err(e) => e == ScoreError::OverflowFault,
            },
            r is Ok <==> forall|team: Seq<char>|
                #[trigger] prior(self@, team) + prior(other@, team) <= u64::MAX,
    {
        let ghost mine = self@;
        let mut table: ScoreTable = self;
        let mut i: usize = 0;
        proof {
            use_type_invariant(other);
        }
        while i < other.rows.len()
            invariant
                i <= other.rows.len(),
                one_row_each(other.rows@),
                mine == self@,
                table@ == merged(mine, rows_map(other.rows@.take(i as int))),
            decreases other.rows.len() - i,
        {
            let ghost seen = other.rows@.take(i as int);
            proof {
                lemma_rows_map(seen);
                lemma_rows_map(other.rows@);
                assert(other.rows@.take(i + 1).drop_last() =~= seen);
            }
            match table.credit(&other.rows[i].team, other.rows[i].score) {
                Some(after) => {
                    table = after;
                },
                None => {
                    return Err(ScoreError::OverflowFault);
                },
            }
            i = i + 1;
        }
        proof {
            assert(other.rows@.take(i as int) =~= other.rows@);
            lemma_rows_fit(table.rows@);
            assert forall|team: Seq<char>| #[trigger] prior(mine, team) + prior(other@, team)
                <= u64::MAX by {
                if table@.dom().contains(team) {
                    assert(table@[team] <= u64::MAX);
                }
            }
        }
        Ok(table)
    }

    /// Every score of a table fits in 64 bits.
    pub proof fn lemma_scores_fit(self)
        ensures
            forall|team: Seq<char>| self@.dom().contains(team) ==> #[trigger] self@[team] <= u64::MAX,
    {
        lemma_rows_fit(self.rows@);
    }

    /// The table with `amount` added to the score of `team`, which gets an
    /// entry if it had none; or nothing, where the sum does not fit.
    pub(crate) fn credit(self, team: &String, amount: u64) -> (r: Option<ScoreTable>)
        ensures
            r is Some <==> prior(self@, team@) + amount <= u64::MAX,
            r matches Some(table) ==> table@ == self@.insert(
                team@,
                prior(self@, team@) + amount as nat,
            ),
    {
        proof {
            use_type_invariant(&self);
            lemma_rows_map(self.rows@);
        }
        let found: Option<usize> = self.find(team);
        let ghost old_rows = self.rows@;
        let mut rows: Vec<TeamScore> = self.rows;
        match found {
            Some(i) => {
                let before: u64 = rows[i].score;
                match before.checked_add(amount) {
                    Some(sum) => {
                        let row = TeamScore { team: team.clone(), score: sum };
                        rows.set(i, row);
                        proof {
                            lemma_row_replaced(rows@, old_rows, i as int);
                        }
                        Some(ScoreTable { rows })
                    },
                    None => None,
                }
            },
            None => {
                let row = TeamScore { team: team.clone(), score: amount };
                rows.push(row);
                proof {
                    assert(rows@.drop_last() == old_rows);
                }
                Some(ScoreTable { rows })
            },
        }
    }
}

/// No row holds more than 64 bits can.
proof fn lemma_rows_fit(rows: Seq<TeamScore>)
    ensures
        forall|team: Seq<char>|
            rows_map(rows).dom().contains(team) ==> #[trigger] rows_map(rows)[team] <= u64::MAX,
    decreases rows.len(),
{
    if rows.len() > 0 {
        lemma_rows_fit(rows.drop_last());
        assert forall|team: Seq<char>| rows_map(rows).dom().contains(team) implies #[trigger]
            rows_map(rows)[team] <= u64::MAX by {
            if team != rows.last().team@ {
                assert(rows_map(rows.drop_last()).dom().contains(team));
            }
        }
    }
}

/// Replacing one row's score gives the mapping with that team's entry replaced.
proof fn lemma_row_replaced(rows: Seq<TeamScore>, old_rows: Seq<TeamScore>, i: int)
    requires
        0 <= i < old_rows.len(),
        rows.len() == old_rows.len(),
        one_row_each(rows),
        one_row_each(old_rows),
        forall|k: int| 0 <= k < rows.len() ==> rows[k].team@ == old_rows[k].team@,
        forall|k: int| 0 <= k < rows.len() && k != i ==> rows[k].score == old_rows[k].score,
    ensures
        rows_map(rows) == rows_map(old_rows).insert(rows[i].team@, rows[i].score as nat),
{
    lemma_rows_map(rows);
    lemma_rows_map(old_rows);
}

} // verus!
