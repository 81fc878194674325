//! What a pool of dice can show, how often, and how two pools compare.

pub mod collect;
pub mod compare;
pub mod query;
pub mod table;

use crate::dice::{names, DieSymbol};
use crate::item_counter::{listed_once, tally, Item, ItemCounter};
use vstd::multiset::Multiset;
use vstd::prelude::*;
use vstd::std_specs::cmp::PartialEqSpecImpl;

verus! {

/// What one joint roll yields: how often each symbol was collected.
pub struct RollResultPossibility {
    symbols: ItemCounter<DieSymbol>,
}

impl View for RollResultPossibility {
    type V = Multiset<Seq<char>>;

    closed spec fn view(&self) -> Multiset<Seq<char>> {
        self.symbols@
    }
}

impl Clone for RollResultPossibility {
    fn clone(&self) -> (r: Self)
        ensures
            r@ == self@,
    {
        RollResultPossibility { symbols: self.symbols.clone() }
    }
}

impl PartialEq for RollResultPossibility {
    fn eq(&self, other: &Self) -> (r: bool) {
        self.symbols == other.symbols
    }
}

impl PartialEqSpecImpl for RollResultPossibility {
    open spec fn obeys_eq_spec() -> bool {
        true
    }

    open spec fn eq_spec(&self, other: &Self) -> bool {
        self@ == other@
    }
}

impl Eq for RollResultPossibility {

}

impl Item for RollResultPossibility {
    fn same_as(&self, other: &Self) -> (b: bool) {
        *self == *other
    }

    fn duplicate(&self) -> (r: Self) {
        self.clone()
    }
}

impl RollResultPossibility {
    /// The outcome with no symbols at all.
    pub fn new() -> (r: RollResultPossibility)
        ensures
            r@ == Multiset::<Seq<char>>::empty(),
    {
        RollResultPossibility { symbols: ItemCounter::new() }
    }

    /// This outcome with each of `symbols` counted once more. The order of
    /// `symbols` makes no difference.
    pub fn add_symbols(&self, symbols: &[DieSymbol]) -> (r: RollResultPossibility)
        requires
            self@.len() + symbols@.len() <= usize::MAX,
        ensures
            r@ == self@.add(names(symbols@).to_multiset()),
    {
        let mut symbol_count = self.symbols.clone();
        let mut i: usize = 0;
        proof {
            let none = names(symbols@).take(0);
            none.to_multiset_ensures();
        }
        while i < symbols.len()
            invariant
                i <= symbols@.len(),
                self@.len() + symbols@.len() <= usize::MAX,
                symbol_count@ == self@.add(names(symbols@).take(i as int).to_multiset()),
            decreases symbols.len() - i,
        {
            proof {
                let upto = names(symbols@).take(i as int);
                assert(names(symbols@).take(i + 1) =~= upto.push(symbols@[i as int]@));
                upto.to_multiset_ensures();
            }
            symbol_count.add(&symbols[i]);
            i += 1;
        }
        assert(names(symbols@).take(i as int) =~= names(symbols@));
        RollResultPossibility { symbols: symbol_count }
    }

    /// How many symbols the outcome holds, each as often as it occurs.
    pub fn total_count(&self) -> (r: usize)
        ensures
            r == self@.len(),
    {
        self.symbols.total_count()
    }

    /// How often `symbol` occurs in the outcome.
    pub fn count_of(&self, symbol: &DieSymbol) -> (r: usize)
        ensures
            r == self@.count(symbol@),
    {
        self.symbols.get_count(symbol)
    }
}

/// An outcome does not depend on the order in which its symbols were added:
/// `first` and then `second` give what `second` and then `first` give, and
/// what the two give when added in one go.
pub proof fn lemma_outcome_order(
    held: Multiset<Seq<char>>,
    first: Seq<Seq<char>>,
    second: Seq<Seq<char>>,
)
    ensures
        held.add(first.to_multiset()).add(second.to_multiset()) == held.add(
            second.to_multiset(),
        ).add(first.to_multiset()),
        held.add((first + second).to_multiset()) == held.add(first.to_multiset()).add(
            second.to_multiset(),
        ),
        held.add((first + second).to_multiset()) == held.add((second + first).to_multiset()),
{
    vstd::seq_lib::lemma_multiset_commutative(first, second);
    vstd::seq_lib::lemma_multiset_commutative(second, first);
}

/// How a target compares the count it finds with its amount.
#[derive(Copy, Clone, PartialEq, Eq, Structural, Hash)]
pub enum RollTargetTypes {
    Exactly,
    AtLeast,
    AtMost,
}

/// A target as contracts see it.
pub struct Target {
    pub kind: RollTargetTypes,
    pub amount: nat,
    pub symbols: Seq<Seq<char>>,
}

/// Something that a roll may or may not achieve: exactly, at least or at
/// most a number of symbols out of a given list.
#[derive(Copy, Clone, PartialEq, Eq, Hash)]
pub struct RollTarget<'a> {
    target_type: RollTargetTypes,
    amount: usize,
    symbols: &'a [DieSymbol],
}

impl<'a> View for RollTarget<'a> {
    type V = Target;

    closed spec fn view(&self) -> Target {
        Target {
            kind: self.target_type,
            amount: self.amount as nat,
            symbols: names(self.symbols@),
        }
    }
}

impl<'a> RollTarget<'a> {
    /// The target of exactly `n` symbols out of `symbols`.
    pub fn exactly_n_of(n: usize, symbols: &'a [DieSymbol]) -> (r: RollTarget<'a>)
        ensures
            r@ == (Target {
                kind: RollTargetTypes::Exactly,
                amount: n as nat,
                symbols: names(symbols@),
            }),
    {
        RollTarget { target_type: RollTargetTypes::Exactly, amount: n, symbols }
    }

    /// The target of at least `n` symbols out of `symbols`.
    pub fn at_least_n_of(n: usize, symbols: &'a [DieSymbol]) -> (r: RollTarget<'a>)
        ensures
            r@ == (Target {
                kind: RollTargetTypes::AtLeast,
                amount: n as nat,
                symbols: names(symbols@),
            }),
    {
        RollTarget { target_type: RollTargetTypes::AtLeast, amount: n, symbols }
    }

    /// The target of at most `n` symbols out of `symbols`.
    pub fn at_most_n_of(n: usize, symbols: &'a [DieSymbol]) -> (r: RollTarget<'a>)
        ensures
            r@ == (Target {
                kind: RollTargetTypes::AtMost,
                amount: n as nat,
                symbols: names(symbols@),
            }),
    {
        RollTarget { target_type: RollTargetTypes::AtMost, amount: n, symbols }
    }
}

/// Which of the rolled sides a policy collects, once they are ranked by how
/// many symbols of the policy each shows.
#[derive(Copy, Clone, PartialEq, Eq, Structural)]
pub enum RollCollectionTypes {
    CollectAll,
    TakeHighestN(usize),
    TakeLowestN(usize),
    RemoveHighestN(usize),
    RemoveLowestN(usize),
}

impl RollCollectionTypes {
    /// How many dice the rule names; none for the rule that collects all.
    pub open spec fn dice_named(self) -> nat {
        match self {
            RollCollectionTypes::CollectAll => 0,
            RollCollectionTypes::TakeHighestN(n) => n as nat,
            RollCollectionTypes::TakeLowestN(n) => n as nat,
            RollCollectionTypes::RemoveHighestN(n) => n as nat,
            RollCollectionTypes::RemoveLowestN(n) => n as nat,
        }
    }
}

/// A policy as contracts see it.
pub struct Policy {
    pub rule: RollCollectionTypes,
    pub symbols: Seq<Seq<char>>,
}

/// Says which dice of a roll count, and which of their symbols.
#[derive(Copy, Clone, PartialEq, Eq)]
pub struct RollCollectionPolicy<'a> {
    coll_type: RollCollectionTypes,
    symbols: &'a [DieSymbol],
}

impl<'a> View for RollCollectionPolicy<'a> {
    type V = Policy;

    closed spec fn view(&self) -> Policy {
        Policy { rule: self.coll_type, symbols: names(self.symbols@) }
    }
}

impl<'a> RollCollectionPolicy<'a> {
    /// How many dice the policy names; none where it collects all.
    pub fn dice_named(&self) -> (r: usize)
        ensures
            r == self@.rule.dice_named(),
    {
        match self.coll_type {
            RollCollectionTypes::CollectAll => 0,
            RollCollectionTypes::TakeHighestN(n) => n,
            RollCollectionTypes::TakeLowestN(n) => n,
            RollCollectionTypes::RemoveHighestN(n) => n,
            RollCollectionTypes::RemoveLowestN(n) => n,
        }
    }

    /// Collect every die of the roll.
    pub fn collect_all(symbols: &'a [DieSymbol]) -> (r: RollCollectionPolicy<'a>)
        ensures
            r@ == (Policy { rule: RollCollectionTypes::CollectAll, symbols: names(symbols@) }),
    {
        RollCollectionPolicy { coll_type: RollCollectionTypes::CollectAll, symbols }
    }

    /// Keep the `n` dice that show the most of `symbols`.
    pub fn take_highest_n_of(n: usize, symbols: &'a [DieSymbol]) -> (r: RollCollectionPolicy<'a>)
        ensures
            r@ == (Policy {
                rule: RollCollectionTypes::TakeHighestN(n),
                symbols: names(symbols@),
            }),
    {
        RollCollectionPolicy { coll_type: RollCollectionTypes::TakeHighestN(n), symbols }
    }

    /// Keep the `n` dice that show the fewest of `symbols`.
    pub fn take_lowest_n_of(n: usize, symbols: &'a [DieSymbol]) -> (r: RollCollectionPolicy<'a>)
        ensures
            r@ == (Policy {
                rule: RollCollectionTypes::TakeLowestN(n),
                symbols: names(symbols@),
            }),
    {
        RollCollectionPolicy { coll_type: RollCollectionTypes::TakeLowestN(n), symbols }
    }

    /// Drop the `n` dice that show the most of `symbols` and keep the rest.
    pub fn remove_highest_n_of(n: usize, symbols: &'a [DieSymbol]) -> (r: RollCollectionPolicy<'a>)
        ensures
            r@ == (Policy {
                rule: RollCollectionTypes::RemoveHighestN(n),
                symbols: names(symbols@),
            }),
    {
        RollCollectionPolicy { coll_type: RollCollectionTypes::RemoveHighestN(n), symbols }
    }

    /// Drop the `n` dice that show the fewest of `symbols` and keep the rest.
    pub fn remove_lowest_n_of(n: usize, symbols: &'a [DieSymbol]) -> (r: RollCollectionPolicy<'a>)
        ensures
            r@ == (Policy {
                rule: RollCollectionTypes::RemoveLowestN(n),
                symbols: names(symbols@),
            }),
    {
        RollCollectionPolicy { coll_type: RollCollectionTypes::RemoveLowestN(n), symbols }
    }
}

/// How often each outcome comes up when a pool of dice is rolled: one
/// occurrence for each joint roll.
pub struct RollProbabilities {
    occurrences: ItemCounter<RollResultPossibility>,
    total: usize,
}

impl View for RollProbabilities {
    type V = Multiset<Multiset<Seq<char>>>;

    closed spec fn view(&self) -> Multiset<Multiset<Seq<char>>> {
        self.occurrences@
    }
}

impl RollProbabilities {
    /// The rows of the table: each outcome that came up, with the number of
    /// joint rolls that gave it.
    pub closed spec fn rows(&self) -> Seq<(Multiset<Seq<char>>, nat)> {
        self.occurrences.entries()
    }

    /// The table holds each outcome as often as its row says.
    pub proof fn lemma_rows(&self)
        ensures
            tally(self.rows()) == self@,
    {
    }

    /// How many rows the table has. No outcome has two rows, and none has a
    /// row that counts no joint roll.
    pub fn len(&self) -> (r: usize)
        ensures
            r == self.rows().len(),
            listed_once(self.rows()),
            r <= self@.len() <= usize::MAX,
    {
        self.occurrences.len()
    }

    /// The outcome of row `i`.
    pub fn outcome_at(&self, i: usize) -> (r: &RollResultPossibility)
        requires
            i < self.rows().len(),
        ensures
            r@ == self.rows()[i as int].0,
    {
        self.occurrences.item_at(i)
    }

    /// How many joint rolls gave the outcome of row `i`.
    pub fn occurrences_at(&self, i: usize) -> (r: usize)
        requires
            i < self.rows().len(),
        ensures
            r == self.rows()[i as int].1,
    {
        self.occurrences.count_at(i)
    }

    /// The total is the number of joint rolls counted.
    #[verifier::type_invariant]
    spec fn inv(&self) -> bool {
        self.total == self.occurrences@.len()
    }
}

/// The three counts of a comparison, as contracts see them.
pub struct Standings {
    pub wins: nat,
    pub ties: nat,
    pub losses: nat,
}

/// How one roll fares against another: in how many of the paired joint
/// rolls it wins, ties and loses.
pub struct RollCompareResult {
    wins: usize,
    ties: usize,
    losses: usize,
    total: usize,
}

impl View for RollCompareResult {
    type V = Standings;

    closed spec fn view(&self) -> Standings {
        Standings { wins: self.wins as nat, ties: self.ties as nat, losses: self.losses as nat }
    }
}

impl RollCompareResult {
    /// The total is the sum of the three counts.
    #[verifier::type_invariant]
    spec fn inv(&self) -> bool {
        self.total == self.wins + self.ties + self.losses
    }

    /// The result with the given counts. Their sum must fit the machine.
    pub fn new(wins: usize, ties: usize, losses: usize) -> (r: RollCompareResult)
        requires
            wins + ties + losses <= usize::MAX,
        ensures
            r@ == (Standings { wins: wins as nat, ties: ties as nat, losses: losses as nat }),
    {
        let total = wins + ties + losses;
        RollCompareResult { wins, ties, losses, total }
    }

    /// In how many paired joint rolls the first roll's value is the greater.
    pub fn wins(&self) -> (r: usize)
        ensures
            r == self@.wins,
    {
        self.wins
    }

    /// In how many paired joint rolls the two values are equal.
    pub fn ties(&self) -> (r: usize)
        ensures
            r == self@.ties,
    {
        self.ties
    }

    /// In how many paired joint rolls the first roll's value is the smaller.
    pub fn losses(&self) -> (r: usize)
        ensures
            r == self@.losses,
    {
        self.losses
    }

    /// How many paired joint rolls there are: wins, ties and losses together.
    pub fn total(&self) -> (r: usize)
        ensures
            r == self@.wins + self@.ties + self@.losses,
    {
        proof {
            use_type_invariant(self);
        }
        self.total
    }
}

} // verus!
