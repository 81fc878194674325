//! Building the table of outcomes: every joint roll of a pool, counted by
//! what the policy collects from it.

use crate::dice::{Die, DieSide};
use crate::item_counter::ItemCounter;
use crate::multi_cart::{
    in_range, lemma_odometer_in_range, lemma_odometer_place, lemma_place, lemma_product_push,
    lemma_product_reverse, lengths, odometer, pick, place, product,
};
use crate::rolls::collect::{collected, shown};
use crate::rolls::{Policy, RollCollectionPolicy, RollProbabilities, RollResultPossibility};
use itertools::Itertools;
use vstd::multiset::Multiset;
use vstd::prelude::*;
use vstd::string::StringExecFns;

verus! {

/// The sides of each die of a pool.
pub open spec fn pool(dice: Seq<Die>) -> Seq<Seq<Seq<Seq<char>>>> {
    dice.map_values(|die: Die| die@)
}

/// How many joint rolls a pool has: the product of its dice's numbers of
/// sides.
pub open spec fn joint_rolls(pool: Seq<Seq<Seq<Seq<char>>>>) -> nat {
    product(lengths(pool))
}

/// The joint roll at place `k`, one side of each die: the last die turns
/// fastest, the first slowest.
pub open spec fn joint_roll(pool: Seq<Seq<Seq<Seq<char>>>>, k: nat) -> Seq<Seq<Seq<char>>> {
    pick(pool.reverse(), k).reverse()
}

/// The joint roll that shows, of each die, the side at the die's index.
pub open spec fn sides_at(pool: Seq<Seq<Seq<Seq<char>>>>, indexes: Seq<nat>) -> Seq<
    Seq<Seq<char>>,
> {
    Seq::new(pool.len(), |i: int| pool[i][indexes[i] as int])
}

/// The indexes of the sides that the joint roll at place `k` shows.
pub open spec fn indexes_at(pool: Seq<Seq<Seq<Seq<char>>>>, k: nat) -> Seq<nat> {
    odometer(lengths(pool.reverse()), k).reverse()
}

/// Every choice of one side of each die is a joint roll: it stands at a
/// place below the number of joint rolls.
pub proof fn lemma_every_choice_is_rolled(pool: Seq<Seq<Seq<Seq<char>>>>, indexes: Seq<nat>)
    requires
        in_range(lengths(pool), indexes),
    ensures
        place(lengths(pool.reverse()), indexes.reverse()) < joint_rolls(pool),
        joint_roll(pool, place(lengths(pool.reverse()), indexes.reverse())) == sides_at(
            pool,
            indexes,
        ),
{
    let lens = lengths(pool.reverse());
    assert(lens =~= lengths(pool).reverse());
    lemma_product_reverse(lengths(pool));
    lemma_place(lens, indexes.reverse());
}

/// Each place below the number of joint rolls shows one side of each die,
/// and no two places show the same sides of the same dice.
pub proof fn lemma_every_place_is_a_choice(pool: Seq<Seq<Seq<Seq<char>>>>, k: nat)
    requires
        k < joint_rolls(pool),
    ensures
        in_range(lengths(pool), indexes_at(pool, k)),
        joint_roll(pool, k) == sides_at(pool, indexes_at(pool, k)),
        place(lengths(pool.reverse()), indexes_at(pool, k).reverse()) == k,
{
    let lens = lengths(pool.reverse());
    assert(lens =~= lengths(pool).reverse());
    lemma_product_reverse(lengths(pool));
    lemma_odometer_in_range(lens, k);
    lemma_odometer_place(lens, k);
    assert(indexes_at(pool, k).reverse() =~= odometer(lens, k));
}

/// What the policy collects from each joint roll of the pool, as a multiset
/// of symbols, in the order of the joint rolls.
pub open spec fn outcomes(pool: Seq<Seq<Seq<Seq<char>>>>, policy: Policy) -> Seq<
    Multiset<Seq<char>>,
> {
    Seq::new(
        joint_rolls(pool),
        |k: int| collected(joint_roll(pool, k as nat), policy).to_multiset(),
    )
}

/// `Itertools::multi_cartesian_product` over the sides of each die, with
/// all that it yields collected: one item for each way to pick a side of
/// every die, as many as the product of the numbers of sides, in the order in
/// which the last die turns fastest. For no dice it yields one empty pick.
#[verifier::external_body]
fn all_rolls<'a>(dice: &'a [Die]) -> (r: Vec<Vec<&'a DieSide>>)
    requires
        joint_rolls(pool(dice@)) <= usize::MAX,
    ensures
        r@.len() == joint_rolls(pool(dice@)),
        forall|k: int|
            0 <= k < r@.len() ==> shown(#[trigger] r@[k]@) == joint_roll(pool(dice@), k as nat),
{
    dice.iter().map(|die| die.sides()).multi_cartesian_product().collect()
}

impl RollProbabilities {
    /// How many joint rolls the pool has, or `None` where that number does
    /// not fit the machine.
    pub fn joint_roll_count(dice: &[Die]) -> (r: Option<usize>)
        ensures
            match r {
                Some(n) => n == joint_rolls(pool(dice@)),
                None => joint_rolls(pool(dice@)) > usize::MAX,
            },
    {
        let ghost lens = lengths(pool(dice@));
        let mut count: Option<usize> = Some(1);
        let mut i: usize = 0;
        while i < dice.len()
            invariant
                i <= dice@.len(),
                lens == lengths(pool(dice@)),
                match count {
                    Some(n) => n == product(lens.take(i as int)),
                    None => product(lens.take(i as int)) > usize::MAX,
                },
            decreases dice.len() - i,
        {
            let sides = dice[i].sides().len();
            proof {
                let before = product(lens.take(i as int));
                assert(lens.take(i + 1) =~= lens.take(i as int).push(lens[i as int]));
                lemma_product_push(lens.take(i as int), lens[i as int]);
                assert(before <= before * sides) by (nonlinear_arith)
                    requires
                        sides >= 2,
                        before >= 0,
                ;
            }
            count = match count {
                Some(n) => n.checked_mul(sides),
                None => None,
            };
            i += 1;
        }
        assert(lens.take(i as int) =~= lens);
        count
    }

    /// Counts, for a pool of dice and a policy, how often each outcome comes
    /// up over all joint rolls. An empty pool is rejected, and so is a policy
    /// that names more dice than the pool has. The number of joint rolls must
    /// fit the machine.
    pub fn new(dice: &[Die], policy: &RollCollectionPolicy) -> (r: Result<
        RollProbabilities,
        String,
    >)
        requires
            joint_rolls(pool(dice@)) <= usize::MAX,
        ensures
            r is Ok <==> 0 < dice@.len() && policy@.rule.dice_named() <= dice@.len(),
            r matches Ok(table) ==> {
                &&& table@ == outcomes(pool(dice@), policy@).to_multiset()
                &&& table@.len() == joint_rolls(pool(dice@))
            },
            r matches Err(e) ==> e@ == if dice@.len() == 0 {
                "must include at least one die"@
            } else {
                "policy names more dice than the pool has"@
            },
    {
        if dice.len() == 0 {
            return Err(String::from_str("must include at least one die"));
        }
        if policy.dice_named() > dice.len() {
            return Err(String::from_str("policy names more dice than the pool has"));
        }
        let ghost all = outcomes(pool(dice@), policy@);
        let rolls = all_rolls(dice);
        let mut occur: ItemCounter<RollResultPossibility> = ItemCounter::new();
        let mut k: usize = 0;
        proof {
            all.take(0).to_multiset_ensures();
        }
        while k < rolls.len()
            invariant
                k <= rolls@.len(),
                rolls@.len() == joint_rolls(pool(dice@)),
                all == outcomes(pool(dice@), policy@),
                policy@.rule.dice_named() <= dice@.len(),
                forall|j: int|
                    0 <= j < rolls@.len() ==> shown(#[trigger] rolls@[j]@) == joint_roll(
                        pool(dice@),
                        j as nat,
                    ),
                occur@ == all.take(k as int).to_multiset(),
            decreases rolls.len() - k,
        {
            let roll = rolls[k].as_slice();
            let collected = Self::collect_symbols(roll, policy).unwrap();
            let fresh = RollResultPossibility::new();
            proof {
                assert(collected@.len() == collected.len());
            }
            let new_poss = fresh.add_symbols(collected.as_slice());
            proof {
                assert(new_poss@ =~= all[k as int]);
                assert(all.take(k + 1) =~= all.take(k as int).push(all[k as int]));
                all.take(k as int).to_multiset_ensures();
            }
            occur.add(&new_poss);
            k += 1;
        }
        proof {
            assert(all.take(k as int) =~= all);
            all.to_multiset_ensures();
        }
        let total = occur.total_count();
        Ok(RollProbabilities { occurrences: occur, total })
    }

    /// How many joint rolls the table counts.
    pub fn total(&self) -> (r: usize)
        ensures
            r == self@.len(),
    {
        proof {
            use_type_invariant(self);
        }
        self.total
    }
}

} // verus!
