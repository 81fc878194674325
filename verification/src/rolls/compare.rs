//! Rolling one table against another.

use crate::item_counter::{
    lemma_copies, lemma_tally_filter, lemma_tally_prefix, listed_where, tally,
};
use crate::rolls::{RollCompareResult, RollProbabilities};
use itertools::Itertools;
use vstd::arithmetic::div_mod::lemma_fundamental_div_mod_converse;
use vstd::multiset::Multiset;
use vstd::prelude::*;

verus! {

/// A row of a table: an outcome and how many joint rolls gave it.
pub type Row = (Multiset<Seq<char>>, nat);

/// How a value stands against another.
#[derive(Clone, Copy, PartialEq, Eq, Structural)]
pub enum Standing {
    Win,
    Tie,
    Loss,
}

/// How `mine` stands against `theirs`: the greater value wins.
pub open spec fn standing(mine: nat, theirs: nat) -> Standing {
    if mine > theirs {
        Standing::Win
    } else if mine == theirs {
        Standing::Tie
    } else {
        Standing::Loss
    }
}

/// What a pair of rows adds to the count for `s`: the product of the two
/// numbers of joint rolls where the first outcome, valued by how many
/// symbols it holds, stands as `s` against the second; else nothing.
pub open spec fn pair_weight(mine: Row, theirs: Row, s: Standing) -> nat {
    if standing(mine.0.len(), theirs.0.len()) == s {
        mine.1 * theirs.1
    } else {
        0
    }
}

/// What one row adds against all rows of the other table.
pub open spec fn row_weight(mine: Row, theirs: Seq<Row>, s: Standing) -> nat
    decreases theirs.len(),
{
    if theirs.len() == 0 {
        0
    } else {
        row_weight(mine, theirs.drop_last(), s) + pair_weight(mine, theirs.last(), s)
    }
}

/// The count for `s` over every pair of a row of `mine` and a row of
/// `theirs`.
pub open spec fn cross_weight(mine: Seq<Row>, theirs: Seq<Row>, s: Standing) -> nat
    decreases mine.len(),
{
    if mine.len() == 0 {
        0
    } else {
        cross_weight(mine.drop_last(), theirs, s) + row_weight(mine.last(), theirs, s)
    }
}

/// The count for `s` over the pairs that come before pair `(i, j)` when the
/// rows of `mine` are taken one after the other, each against the rows of
/// `theirs` in turn.
spec fn weight_before(mine: Seq<Row>, theirs: Seq<Row>, s: Standing, i: int, j: int) -> nat {
    cross_weight(mine.take(i), theirs, s) + row_weight(mine[i], theirs.take(j), s)
}

/// Going from one pair to the next adds the pair's weight.
proof fn lemma_next_pair(mine: Seq<Row>, theirs: Seq<Row>, s: Standing, i: int, j: int)
    requires
        0 <= i < mine.len(),
        0 <= j < theirs.len(),
    ensures
        j + 1 < theirs.len() ==> weight_before(mine, theirs, s, i, j + 1) == weight_before(
            mine,
            theirs,
            s,
            i,
            j,
        ) + pair_weight(mine[i], theirs[j], s),
        j + 1 == theirs.len() ==> weight_before(mine, theirs, s, i + 1, 0) == weight_before(
            mine,
            theirs,
            s,
            i,
            j,
        ) + pair_weight(mine[i], theirs[j], s),
{
    assert(theirs.take(j + 1).drop_last() =~= theirs.take(j));
    if j + 1 == theirs.len() {
        assert(mine.take(i + 1).drop_last() =~= mine.take(i));
    }
}

/// `Itertools::cartesian_product` of the ranges `0..n` and `0..m`, with all
/// that it yields collected: every pair of a number below `n` and a number
/// below `m`, the pairs with the same first number together and in the order
/// of their second.
#[verifier::external_body]
fn index_pairs(n: usize, m: usize) -> (r: Vec<(usize, usize)>)
    requires
        n * m <= usize::MAX,
    ensures
        r@.len() == n * m,
        forall|k: int|
            0 <= k < r@.len() ==> #[trigger] r@[k] == (
                (k / (m as int)) as usize,
                (k % (m as int)) as usize,
            ),
{
    (0..n).cartesian_product(0..m).collect()
}

impl RollProbabilities {
    /// Pairs every joint roll of this table with every joint roll of
    /// `other` and counts in how many pairs this table's outcome holds more
    /// symbols than the other's, as many, and fewer. The number of pairs must
    /// fit the machine.
    pub fn roll_against(&self, other: &Self) -> (r: RollCompareResult)
        requires
            self@.len() * other@.len() <= usize::MAX,
        ensures
            r@.wins == cross_weight(self.rows(), other.rows(), Standing::Win),
            r@.ties == cross_weight(self.rows(), other.rows(), Standing::Tie),
            r@.losses == cross_weight(self.rows(), other.rows(), Standing::Loss),
            r@.wins + r@.ties + r@.losses == self@.len() * other@.len(),
    {
        let ghost mine = self.rows();
        let ghost theirs = other.rows();
        let ghost my_total = self@.len();
        let ghost their_total = other@.len();
        let n = self.len();
        let m = other.len();
        assert(n * m <= my_total * their_total) by (nonlinear_arith)
            requires
                n <= my_total,
                m <= their_total,
        ;
        let pairs = index_pairs(n, m);
        let mut wins: usize = 0;
        let mut ties: usize = 0;
        let mut losses: usize = 0;
        let mut k: usize = 0;
        let ghost mut row: int = 0;
        let ghost mut col: int = 0;
        proof {
            assert(tally(mine.take(0)).len() * their_total == 0) by (nonlinear_arith)
                requires
                    tally(mine.take(0)).len() == 0,
            ;
            assert(mine[0].1 * tally(theirs.take(0)).len() == 0) by (nonlinear_arith)
                requires
                    tally(theirs.take(0)).len() == 0,
            ;
        }
        while k < pairs.len()
            invariant
                k <= pairs@.len() == n * m,
                n == mine.len(),
                m == theirs.len(),
                mine == self.rows(),
                theirs == other.rows(),
                my_total == tally(mine).len(),
                their_total == tally(theirs).len(),
                my_total * their_total <= usize::MAX,
                forall|p: int|
                    0 <= p < pairs@.len() ==> #[trigger] pairs@[p] == (
                        (p / (m as int)) as usize,
                        (p % (m as int)) as usize,
                    ),
                k == row * m + col,
                0 <= row <= n,
                0 <= col,
                m > 0 ==> col < m,
                m == 0 ==> col == 0,
                wins == weight_before(mine, theirs, Standing::Win, row, col),
                ties == weight_before(mine, theirs, Standing::Tie, row, col),
                losses == weight_before(mine, theirs, Standing::Loss, row, col),
                wins + ties + losses == tally(mine.take(row)).len() * their_total + mine[row].1
                    * tally(theirs.take(col)).len(),
            decreases pairs.len() - k,
        {
            assert(m > 0 && row < n) by (nonlinear_arith)
                requires
                    k == row * m + col,
                    k < n * m,
                    0 <= col,
                    0 <= row,
                    0 <= m,
                    0 <= n,
            ;
            proof {
                lemma_fundamental_div_mod_converse(k as int, m as int, row, col);
            }
            let (i, j) = pairs[k];
            let this_val = self.outcome_at(i).total_count();
            let other_val = other.outcome_at(j).total_count();
            let this_count = self.occurrences_at(i);
            let other_count = other.occurrences_at(j);
            proof {
                let done = tally(mine.take(row)).len();
                let seen = tally(theirs.take(col)).len();
                assert(mine.take(row + 1).drop_last() =~= mine.take(row));
                assert(theirs.take(col + 1).drop_last() =~= theirs.take(col));
                lemma_copies(mine[row].0, mine[row].1);
                lemma_copies(theirs[col].0, theirs[col].1);
                lemma_tally_prefix(mine, row + 1);
                lemma_tally_prefix(theirs, col + 1);
                assert(done * their_total + this_count * (seen + other_count) <= my_total
                    * their_total) by (nonlinear_arith)
                    requires
                        done + this_count <= my_total,
                        seen + other_count <= their_total,
                ;
                assert(done * their_total + this_count * (seen + other_count) == done
                    * their_total + this_count * seen + this_count * other_count)
                    by (nonlinear_arith);
                lemma_next_pair(mine, theirs, Standing::Win, row, col);
                lemma_next_pair(mine, theirs, Standing::Tie, row, col);
                lemma_next_pair(mine, theirs, Standing::Loss, row, col);
                if col + 1 < m {
                    col = col + 1;
                } else {
                    assert(k + 1 == (row + 1) * m) by (nonlinear_arith)
                        requires
                            k == row * m + col,
                            col + 1 == m,
                    ;
                    assert((done + this_count) * their_total == done * their_total + this_count
                        * their_total) by (nonlinear_arith);
                    row = row + 1;
                    col = 0;
                }
            }
            let occurrences = this_count * other_count;
            if this_val > other_val {
                wins += occurrences;
            } else if this_val == other_val {
                ties += occurrences;
            } else {
                losses += occurrences;
            }
            k += 1;
        }
        proof {
            if m > 0 {
                assert(row == n && col == 0) by (nonlinear_arith)
                    requires
                        n * m == row * m + col,
                        0 <= col < m,
                        0 <= row <= n,
                ;
                assert(mine.take(n as int) =~= mine);
                assert(mine[n as int].1 * tally(theirs.take(0)).len() == 0) by (nonlinear_arith)
                    requires
                        tally(theirs.take(0)).len() == 0,
                ;
            } else {
                lemma_no_rows(mine, theirs, Standing::Win);
                lemma_no_rows(mine, theirs, Standing::Tie);
                lemma_no_rows(mine, theirs, Standing::Loss);
                assert(my_total * their_total == 0) by (nonlinear_arith)
                    requires
                        their_total == 0,
                ;
                assert(tally(mine.take(row)).len() * their_total == 0) by (nonlinear_arith)
                    requires
                        their_total == 0,
                ;
            }
        }
        RollCompareResult::new(wins, ties, losses)
    }
}

/// How the second value stands against the first where the first stands as
/// `s` against the second.
pub open spec fn reversed(s: Standing) -> Standing {
    match s {
        Standing::Win => Standing::Loss,
        Standing::Tie => Standing::Tie,
        Standing::Loss => Standing::Win,
    }
}

/// What all rows of `mine` add against one row of the other table.
spec fn column_weight(mine: Seq<Row>, theirs: Row, s: Standing) -> nat
    decreases mine.len(),
{
    if mine.len() == 0 {
        0
    } else {
        column_weight(mine.drop_last(), theirs, s) + pair_weight(mine.last(), theirs, s)
    }
}

proof fn lemma_pair_reversed(mine: Row, theirs: Row, s: Standing)
    ensures
        pair_weight(mine, theirs, s) == pair_weight(theirs, mine, reversed(s)),
{
    assert(mine.1 * theirs.1 == theirs.1 * mine.1) by (nonlinear_arith);
}

proof fn lemma_column(mine: Seq<Row>, theirs: Row, s: Standing)
    ensures
        column_weight(mine, theirs, s) == row_weight(theirs, mine, reversed(s)),
    decreases mine.len(),
{
    if mine.len() > 0 {
        lemma_column(mine.drop_last(), theirs, s);
        lemma_pair_reversed(mine.last(), theirs, s);
    }
}

proof fn lemma_one_more_row(mine: Seq<Row>, theirs: Seq<Row>, row: Row, s: Standing)
    ensures
        cross_weight(mine, theirs.push(row), s) == cross_weight(mine, theirs, s) + column_weight(
            mine,
            row,
            s,
        ),
    decreases mine.len(),
{
    if mine.len() > 0 {
        lemma_one_more_row(mine.drop_last(), theirs, row, s);
        assert(theirs.push(row).drop_last() =~= theirs);
    }
}

/// Rolling the other way round turns wins into losses and leaves ties:
/// what is counted for `s` one way is counted for the reverse of `s` the
/// other way.
pub proof fn lemma_cross_reversed(mine: Seq<Row>, theirs: Seq<Row>, s: Standing)
    ensures
        cross_weight(mine, theirs, s) == cross_weight(theirs, mine, reversed(s)),
    decreases theirs.len(),
{
    if theirs.len() == 0 {
        lemma_no_rows(mine, theirs, s);
    } else {
        let front = theirs.drop_last();
        assert(theirs =~= front.push(theirs.last()));
        lemma_one_more_row(mine, front, theirs.last(), s);
        lemma_cross_reversed(mine, front, s);
        lemma_column(mine, theirs.last(), s);
    }
}

/// A table rolled against itself wins as often as it loses.
pub proof fn lemma_against_itself(rows: Seq<Row>)
    ensures
        cross_weight(rows, rows, Standing::Win) == cross_weight(rows, rows, Standing::Loss),
{
    lemma_cross_reversed(rows, rows, Standing::Win);
}

/// What a row adds to the count for `s`: its own number of joint rolls
/// times the number of joint rolls of the other table against whose outcome
/// it stands as `s`. For ties these are the other table's joint rolls of the
/// same value.
pub proof fn lemma_row_weight(mine: Row, theirs: Seq<Row>, s: Standing)
    ensures
        row_weight(mine, theirs, s) == mine.1 * tally(theirs).filter(
            |outcome: Multiset<Seq<char>>| standing(mine.0.len(), outcome.len()) == s,
        ).len(),
{
    let stands = |outcome: Multiset<Seq<char>>| standing(mine.0.len(), outcome.len()) == s;
    lemma_tally_filter(theirs, stands);
    lemma_row_listed(mine, theirs, s);
}

/// How many outcomes of the table, each counted as often as the table holds
/// it, hold `value` symbols: in so many joint rolls the roll has this value.
pub open spec fn valued(table: Multiset<Multiset<Seq<char>>>, value: nat) -> nat {
    table.filter(|outcome: Multiset<Seq<char>>| outcome.len() == value).len()
}

/// A row ties with the joint rolls of the other table that have its value:
/// the chance of a tie is the chance that the two rolls, each on its own,
/// come to the same value.
pub proof fn lemma_tie_weight(mine: Row, theirs: Seq<Row>)
    ensures
        row_weight(mine, theirs, Standing::Tie) == mine.1 * valued(tally(theirs), mine.0.len()),
{
    lemma_row_weight(mine, theirs, Standing::Tie);
    let ties = |outcome: Multiset<Seq<char>>|
        standing(mine.0.len(), outcome.len()) == Standing::Tie;
    let same = |outcome: Multiset<Seq<char>>| outcome.len() == mine.0.len();
    assert(tally(theirs).filter(ties) =~= tally(theirs).filter(same));
}

/// The counts depend on what the two tables hold, not on the order of their
/// rows: tables that hold the same outcomes equally often give the same
/// counts.
pub proof fn lemma_cross_by_tally(
    mine: Seq<Row>,
    theirs: Seq<Row>,
    mine_again: Seq<Row>,
    theirs_again: Seq<Row>,
    s: Standing,
)
    requires
        tally(mine) == tally(mine_again),
        tally(theirs) == tally(theirs_again),
    ensures
        cross_weight(mine, theirs, s) == cross_weight(mine_again, theirs_again, s),
{
    lemma_cross_same_theirs(mine, theirs, theirs_again, s);
    lemma_cross_reversed(mine, theirs_again, s);
    lemma_cross_same_theirs(theirs_again, mine, mine_again, reversed(s));
    lemma_cross_reversed(mine_again, theirs_again, s);
}

proof fn lemma_cross_same_theirs(
    mine: Seq<Row>,
    theirs: Seq<Row>,
    theirs_again: Seq<Row>,
    s: Standing,
)
    requires
        tally(theirs) == tally(theirs_again),
    ensures
        cross_weight(mine, theirs, s) == cross_weight(mine, theirs_again, s),
    decreases mine.len(),
{
    if mine.len() > 0 {
        lemma_cross_same_theirs(mine.drop_last(), theirs, theirs_again, s);
        lemma_row_weight(mine.last(), theirs, s);
        lemma_row_weight(mine.last(), theirs_again, s);
    }
}

proof fn lemma_row_listed(mine: Row, theirs: Seq<Row>, s: Standing)
    ensures
        row_weight(mine, theirs, s) == mine.1 * listed_where(
            theirs,
            |outcome: Multiset<Seq<char>>| standing(mine.0.len(), outcome.len()) == s,
        ),
    decreases theirs.len(),
{
    let stands = |outcome: Multiset<Seq<char>>| standing(mine.0.len(), outcome.len()) == s;
    if theirs.len() == 0 {
        assert(mine.1 * 0 == 0) by (nonlinear_arith);
    } else {
        lemma_row_listed(mine, theirs.drop_last(), s);
        let before = listed_where(theirs.drop_last(), stands);
        let last = theirs.last().1;
        assert(mine.1 * (before + last) == mine.1 * before + mine.1 * last) by (nonlinear_arith);
    }
}

/// Against a table without rows nothing is counted.
proof fn lemma_no_rows(mine: Seq<Row>, theirs: Seq<Row>, s: Standing)
    requires
        theirs.len() == 0,
    ensures
        cross_weight(mine, theirs, s) == 0,
    decreases mine.len(),
{
    if mine.len() > 0 {
        lemma_no_rows(mine.drop_last(), theirs, s);
    }
}

} // verus!
