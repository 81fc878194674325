//! Asking a table how many of its joint rolls meet a set of targets.

use crate::dice::{names, DieSymbol};
use crate::item_counter::{lemma_listed_where_prefix, lemma_tally_filter, listed_where};
use crate::rolls::{RollProbabilities, RollResultPossibility, RollTarget, RollTargetTypes, Target};
use vstd::multiset::Multiset;
use vstd::prelude::*;

verus! {

/// How many symbols of the list the outcome holds: the sum, over the list,
/// of how often the outcome holds each.
pub open spec fn counted(outcome: Multiset<Seq<char>>, symbols: Seq<Seq<char>>) -> nat
    decreases symbols.len(),
{
    if symbols.len() == 0 {
        0
    } else {
        counted(outcome, symbols.drop_last()) + outcome.count(symbols.last())
    }
}

/// Whether the outcome meets the target.
pub open spec fn meets(outcome: Multiset<Seq<char>>, target: Target) -> bool {
    match target.kind {
        RollTargetTypes::Exactly => counted(outcome, target.symbols) == target.amount,
        RollTargetTypes::AtLeast => counted(outcome, target.symbols) >= target.amount,
        RollTargetTypes::AtMost => counted(outcome, target.symbols) <= target.amount,
    }
}

/// Whether the outcome meets every one of the targets.
pub open spec fn meets_all(outcome: Multiset<Seq<char>>, targets: Seq<Target>) -> bool {
    forall|i: int| 0 <= i < targets.len() ==> meets(outcome, #[trigger] targets[i])
}

/// How many outcomes of the table, each counted as often as the table holds
/// it, meet every one of the targets.
pub open spec fn meeting(table: Multiset<Multiset<Seq<char>>>, targets: Seq<Target>) -> nat {
    table.filter(|outcome: Multiset<Seq<char>>| meets_all(outcome, targets)).len()
}

/// The target of exactly `amount` symbols out of `symbols`.
pub open spec fn exactly(amount: nat, symbols: Seq<Seq<char>>) -> Target {
    Target { kind: RollTargetTypes::Exactly, amount, symbols }
}

/// The target of at least `amount` symbols out of `symbols`.
pub open spec fn at_least(amount: nat, symbols: Seq<Seq<char>>) -> Target {
    Target { kind: RollTargetTypes::AtLeast, amount, symbols }
}

/// The target of at most `amount` symbols out of `symbols`.
pub open spec fn at_most(amount: nat, symbols: Seq<Seq<char>>) -> Target {
    Target { kind: RollTargetTypes::AtMost, amount, symbols }
}

/// How many outcomes of the table hold exactly 0, exactly 1, and so on up
/// to exactly `most` of `symbols`, all these numbers added up.
pub open spec fn meeting_exactly_up_to(
    table: Multiset<Multiset<Seq<char>>>,
    symbols: Seq<Seq<char>>,
    most: nat,
) -> nat
    decreases most,
{
    meeting(table, seq![exactly(most, symbols)]) + if most == 0 {
        0
    } else {
        meeting_exactly_up_to(table, symbols, (most - 1) as nat)
    }
}

/// The targets "exactly 0" up to "exactly `most`" of one list of symbols
/// are met by as many outcomes, taken together, as the target "at most
/// `most`".
pub proof fn lemma_exact_targets_add_up(
    table: Multiset<Multiset<Seq<char>>>,
    symbols: Seq<Seq<char>>,
    most: nat,
)
    ensures
        meeting_exactly_up_to(table, symbols, most) == meeting(
            table,
            seq![at_most(most, symbols)],
        ),
    decreases most,
{
    let exact = |outcome: Multiset<Seq<char>>| meets_all(outcome, seq![exactly(most, symbols)]);
    let upto = |outcome: Multiset<Seq<char>>| meets_all(outcome, seq![at_most(most, symbols)]);
    assert forall|outcome: Multiset<Seq<char>>| exact(outcome) == (counted(outcome, symbols)
        == most) by {
        assert(seq![exactly(most, symbols)][0] == exactly(most, symbols));
    }
    assert forall|outcome: Multiset<Seq<char>>| upto(outcome) == (counted(outcome, symbols)
        <= most) by {
        assert(seq![at_most(most, symbols)][0] == at_most(most, symbols));
    }
    if most == 0 {
        assert(table.filter(exact) =~= table.filter(upto));
    } else {
        let below = |outcome: Multiset<Seq<char>>|
            meets_all(outcome, seq![at_most((most - 1) as nat, symbols)]);
        assert forall|outcome: Multiset<Seq<char>>| below(outcome) == (counted(outcome, symbols)
            < most) by {
            assert(seq![at_most((most - 1) as nat, symbols)][0] == at_most(
                (most - 1) as nat,
                symbols,
            ));
        }
        lemma_exact_targets_add_up(table, symbols, (most - 1) as nat);
        assert(table.filter(upto) =~= table.filter(exact).add(table.filter(below)));
    }
}

/// Where no outcome of the table holds more than `most` of `symbols`, the
/// targets "exactly 0" up to "exactly `most`" are met by as many outcomes,
/// taken together, as the table holds: every joint roll meets exactly one of
/// them, and the odds of these targets add up to 1.
pub proof fn lemma_exact_targets_cover(
    table: Multiset<Multiset<Seq<char>>>,
    symbols: Seq<Seq<char>>,
    most: nat,
)
    requires
        forall|outcome: Multiset<Seq<char>>|
            table.count(outcome) > 0 ==> counted(outcome, symbols) <= most,
    ensures
        meeting_exactly_up_to(table, symbols, most) == table.len(),
{
    lemma_exact_targets_add_up(table, symbols, most);
    let upto = |outcome: Multiset<Seq<char>>| meets_all(outcome, seq![at_most(most, symbols)]);
    assert(table.filter(upto) =~= table);
}

/// Every outcome meets either "at least `amount`" or "at most `amount` - 1"
/// and never both: the two targets share the table between them.
pub proof fn lemma_at_least_or_below(
    table: Multiset<Multiset<Seq<char>>>,
    symbols: Seq<Seq<char>>,
    amount: nat,
)
    requires
        amount > 0,
    ensures
        meeting(table, seq![at_least(amount, symbols)]) + meeting(
            table,
            seq![at_most((amount - 1) as nat, symbols)],
        ) == table.len(),
{
    let high = |outcome: Multiset<Seq<char>>| meets_all(outcome, seq![at_least(amount, symbols)]);
    let low = |outcome: Multiset<Seq<char>>|
        meets_all(outcome, seq![at_most((amount - 1) as nat, symbols)]);
    assert forall|outcome: Multiset<Seq<char>>| high(outcome) == (counted(outcome, symbols)
        >= amount) by {
        assert(seq![at_least(amount, symbols)][0] == at_least(amount, symbols));
    }
    assert forall|outcome: Multiset<Seq<char>>| low(outcome) == (counted(outcome, symbols)
        < amount) by {
        assert(seq![at_most((amount - 1) as nat, symbols)][0] == at_most(
            (amount - 1) as nat,
            symbols,
        ));
    }
    assert(table =~= table.filter(high).add(table.filter(low)));
}

/// How many outcomes of the table meet the first list of targets, how many
/// the second, and so on, all these numbers added up.
pub open spec fn meeting_each(table: Multiset<Multiset<Seq<char>>>, lists: Seq<Seq<Target>>) -> nat
    decreases lists.len(),
{
    if lists.len() == 0 {
        0
    } else {
        meeting_each(table, lists.drop_last()) + meeting(table, lists.last())
    }
}

/// Whether the outcome meets one of the lists of targets.
pub open spec fn meets_one(outcome: Multiset<Seq<char>>, lists: Seq<Seq<Target>>) -> bool {
    exists|i: int| 0 <= i < lists.len() && meets_all(outcome, #[trigger] lists[i])
}

/// No outcome of the table meets two of the lists of targets.
pub open spec fn exclusive(table: Multiset<Multiset<Seq<char>>>, lists: Seq<Seq<Target>>) -> bool {
    forall|outcome: Multiset<Seq<char>>, i: int, j: int|
        #![trigger meets_all(outcome, lists[i]), meets_all(outcome, lists[j])]
        table.count(outcome) > 0 && 0 <= i < j < lists.len() ==> !(meets_all(outcome, lists[i])
            && meets_all(outcome, lists[j]))
}

/// Where no outcome of the table meets two of the lists of targets, the
/// lists are met by as many outcomes, taken together, as meet one of them.
pub proof fn lemma_exclusive_targets_add_up(
    table: Multiset<Multiset<Seq<char>>>,
    lists: Seq<Seq<Target>>,
)
    requires
        exclusive(table, lists),
    ensures
        meeting_each(table, lists) == table.filter(
            |outcome: Multiset<Seq<char>>| meets_one(outcome, lists),
        ).len(),
    decreases lists.len(),
{
    let one = |outcome: Multiset<Seq<char>>| meets_one(outcome, lists);
    if lists.len() == 0 {
        assert(table.filter(one) =~= Multiset::empty());
    } else {
        let front = lists.drop_last();
        let before = |outcome: Multiset<Seq<char>>| meets_one(outcome, front);
        let last = |outcome: Multiset<Seq<char>>| meets_all(outcome, lists.last());
        assert forall|outcome: Multiset<Seq<char>>, i: int, j: int|
            #![trigger meets_all(outcome, front[i]), meets_all(outcome, front[j])]
            table.count(outcome) > 0 && 0 <= i < j < front.len() implies !(meets_all(
            outcome,
            front[i],
        ) && meets_all(outcome, front[j])) by {
            assert(front[i] == lists[i] && front[j] == lists[j]);
        }
        lemma_exclusive_targets_add_up(table, front);
        assert forall|outcome: Multiset<Seq<char>>| #[trigger]
            table.filter(one).count(outcome) == table.filter(before).add(
                table.filter(last),
            ).count(outcome) by {
            if table.count(outcome) > 0 {
                if meets_one(outcome, front) {
                    let i = choose|i: int|
                        0 <= i < front.len() && meets_all(outcome, #[trigger] front[i]);
                    assert(front[i] == lists[i]);
                    assert(lists.last() == lists[lists.len() - 1]);
                    assert(!last(outcome));
                    assert(meets_one(outcome, lists));
                } else if last(outcome) {
                    assert(lists.last() == lists[lists.len() - 1]);
                    assert(meets_one(outcome, lists));
                } else if meets_one(outcome, lists) {
                    let i = choose|i: int|
                        0 <= i < lists.len() && meets_all(outcome, #[trigger] lists[i]);
                    if i < front.len() {
                        assert(front[i] == lists[i]);
                    }
                }
            }
        }
        assert(table.filter(one) =~= table.filter(before).add(table.filter(last)));
    }
}

/// Where every outcome of the table meets exactly one of the lists of
/// targets, the lists are met by as many outcomes, taken together, as the
/// table holds: their odds add up to 1.
pub proof fn lemma_exclusive_targets_cover(
    table: Multiset<Multiset<Seq<char>>>,
    lists: Seq<Seq<Target>>,
)
    requires
        forall|outcome: Multiset<Seq<char>>|
            table.count(outcome) > 0 ==> meets_one(outcome, lists),
        exclusive(table, lists),
    ensures
        meeting_each(table, lists) == table.len(),
{
    lemma_exclusive_targets_add_up(table, lists);
    let one = |outcome: Multiset<Seq<char>>| meets_one(outcome, lists);
    assert(table.filter(one) =~= table);
}

/// The targets as contracts see them.
pub open spec fn target_views(targets: Seq<RollTarget>) -> Seq<Target> {
    targets.map_values(|t: RollTarget| t@)
}

/// The sum of the outcome's counts over `symbols`.
fn count_symbols(poss: &RollResultPossibility, symbols: &[DieSymbol]) -> (r: u128)
    ensures
        r == counted(poss@, names(symbols@)),
{
    let ghost all = names(symbols@);
    let mut count: u128 = 0;
    let mut i: usize = 0;
    while i < symbols.len()
        invariant
            i <= symbols@.len(),
            all == names(symbols@),
            count == counted(poss@, all.take(i as int)),
            count <= i * usize::MAX,
        decreases symbols.len() - i,
    {
        proof {
            assert(all.take(i + 1).drop_last() =~= all.take(i as int));
        }
        count += poss.count_of(&symbols[i]) as u128;
        i += 1;
    }
    assert(all.take(i as int) =~= all);
    count
}

/// Whether the outcome meets every one of the targets.
fn meets_targets(poss: &RollResultPossibility, targets: &[RollTarget]) -> (b: bool)
    ensures
        b == meets_all(poss@, target_views(targets@)),
{
    let mut cond = true;
    let mut i: usize = 0;
    while i < targets.len()
        invariant
            i <= targets@.len(),
            cond == meets_all(poss@, target_views(targets@).take(i as int)),
        decreases targets.len() - i,
    {
        let target = &targets[i];
        let count = count_symbols(poss, target.symbols);
        let met = match target.target_type {
            RollTargetTypes::Exactly => count == target.amount as u128,
            RollTargetTypes::AtLeast => count >= target.amount as u128,
            RollTargetTypes::AtMost => count <= target.amount as u128,
        };
        proof {
            let views = target_views(targets@);
            assert(views.take(i + 1)[i as int] == views[i as int]);
        }
        cond = cond && met;
        i += 1;
    }
    assert(target_views(targets@).take(i as int) =~= target_views(targets@));
    cond
}

impl RollProbabilities {
    /// How many of the joint rolls gave an outcome that meets every one of
    /// `targets`. Divided by the total, this is the probability of meeting
    /// them.
    pub fn occurrences_meeting(&self, targets: &[RollTarget]) -> (r: usize)
        ensures
            r == meeting(self@, target_views(targets@)),
            r <= self@.len(),
    {
        let ghost wanted = |outcome: Multiset<Seq<char>>|
            meets_all(outcome, target_views(targets@));
        let ghost entries = self.rows();
        let count = self.len();
        let mut total_occurrences: usize = 0;
        let mut i: usize = 0;
        proof {
            lemma_tally_filter(entries, wanted);
        }
        while i < count
            invariant
                i <= count == entries.len(),
                entries == self.rows(),
                wanted == |outcome: Multiset<Seq<char>>|
                    meets_all(outcome, target_views(targets@)),
                listed_where(entries, wanted) <= self@.len() <= usize::MAX,
                total_occurrences == listed_where(entries.take(i as int), wanted),
            decreases count - i,
        {
            proof {
                assert(entries.take(i + 1).drop_last() =~= entries.take(i as int));
                lemma_listed_where_prefix(entries, wanted, i + 1);
            }
            if meets_targets(self.outcome_at(i), targets) {
                total_occurrences += self.occurrences_at(i);
            }
            i += 1;
        }
        assert(entries.take(i as int) =~= entries);
        total_occurrences
    }
}

} // verus!
