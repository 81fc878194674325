//! Every way to pick one member from each of several sequences, one pick at
//! a time, in odometer order: the first sequence turns fastest.

use vstd::arithmetic::div_mod::lemma_fundamental_div_mod_converse;
use vstd::prelude::*;

verus! {

/// The lengths of the sequences, in order.
pub open spec fn lengths<T>(sets: Seq<Seq<T>>) -> Seq<nat> {
    sets.map_values(|s: Seq<T>| s.len())
}

/// The product of the numbers in `lens`; 1 where there is none.
pub open spec fn product(lens: Seq<nat>) -> nat
    decreases lens.len(),
{
    if lens.len() == 0 {
        1
    } else {
        lens.first() * product(lens.drop_first())
    }
}

/// The indexes that stand at place `k` of the odometer: the first index is
/// `k` modulo the first length, and what is carried goes to the rest. With a
/// length of 0 there are no places.
pub open spec fn odometer(lens: Seq<nat>, k: nat) -> Seq<nat>
    decreases lens.len(),
{
    if lens.len() == 0 || lens.first() == 0 {
        Seq::empty()
    } else {
        seq![k % lens.first()] + odometer(lens.drop_first(), k / lens.first())
    }
}

/// The place of `indexes` on the odometer.
pub open spec fn place(lens: Seq<nat>, indexes: Seq<nat>) -> nat
    decreases lens.len(),
{
    if lens.len() == 0 {
        0
    } else {
        indexes.first() + lens.first() * place(lens.drop_first(), indexes.drop_first())
    }
}

/// Each index points into its sequence.
pub open spec fn in_range(lens: Seq<nat>, indexes: Seq<nat>) -> bool {
    &&& indexes.len() == lens.len()
    &&& forall|i: int| 0 <= i < lens.len() ==> indexes[i] < lens[i]
}

/// The pick at place `k`: from each sequence the member that the odometer
/// points at.
pub open spec fn pick<T>(sets: Seq<Seq<T>>, k: nat) -> Seq<T> {
    Seq::new(sets.len(), |i: int| sets[i][odometer(lengths(sets), k)[i] as int])
}

/// Before the last place every index of the odometer points into its
/// sequence.
pub proof fn lemma_odometer_in_range(lens: Seq<nat>, k: nat)
    requires
        k < product(lens),
    ensures
        in_range(lens, odometer(lens, k)),
    decreases lens.len(),
{
    if lens.len() > 0 {
        let first = lens.first();
        let rest = lens.drop_first();
        assert(first > 0) by (nonlinear_arith)
            requires
                k < first * product(rest),
        ;
        assert(k / first < product(rest)) by (nonlinear_arith)
            requires
                k < first * product(rest),
                first > 0,
        ;
        lemma_odometer_in_range(rest, k / first);
    }
}

/// Indexes that point into their sequences stand before the last place, and
/// the odometer shows them at their place.
pub proof fn lemma_place(lens: Seq<nat>, indexes: Seq<nat>)
    requires
        in_range(lens, indexes),
    ensures
        place(lens, indexes) < product(lens),
        odometer(lens, place(lens, indexes)) == indexes,
    decreases lens.len(),
{
    if lens.len() > 0 {
        let first = lens.first();
        let rest = lens.drop_first();
        let inner = place(rest, indexes.drop_first());
        lemma_place(rest, indexes.drop_first());
        let k = place(lens, indexes);
        assert(k < first * product(rest)) by (nonlinear_arith)
            requires
                k == indexes.first() + first * inner,
                indexes.first() < first,
                inner < product(rest),
        ;
        lemma_fundamental_div_mod_converse(
            k as int,
            first as int,
            inner as int,
            indexes.first() as int,
        );
    }
}

/// The indexes that the odometer shows at a place stand at that place: no
/// two places show the same indexes.
pub proof fn lemma_odometer_place(lens: Seq<nat>, k: nat)
    requires
        k < product(lens),
    ensures
        place(lens, odometer(lens, k)) == k,
    decreases lens.len(),
{
    if lens.len() > 0 {
        let first = lens.first();
        let rest = lens.drop_first();
        assert(first > 0) by (nonlinear_arith)
            requires
                k < first * product(rest),
        ;
        assert(k / first < product(rest)) by (nonlinear_arith)
            requires
                k < first * product(rest),
                first > 0,
        ;
        lemma_odometer_place(rest, k / first);
        assert(odometer(lens, k).drop_first() =~= odometer(rest, k / first));
        vstd::arithmetic::div_mod::lemma_fundamental_div_mod(k as int, first as int);
    }
}

/// One step of the odometer: the indexes before `at` turn from their last
/// value back to 0, the index at `at` goes up by one.
proof fn lemma_step(lens: Seq<nat>, before: Seq<nat>, after: Seq<nat>, at: int)
    requires
        in_range(lens, before),
        in_range(lens, after),
        0 <= at < lens.len(),
        forall|i: int| 0 <= i < at ==> before[i] == lens[i] - 1 && after[i] == 0,
        after[at] == before[at] + 1,
        forall|i: int| at < i < lens.len() ==> after[i] == before[i],
    ensures
        place(lens, after) == place(lens, before) + 1,
    decreases lens.len(),
{
    let rest = lens.drop_first();
    if at == 0 {
        assert(after.drop_first() =~= before.drop_first());
    } else {
        lemma_step(rest, before.drop_first(), after.drop_first(), at - 1);
        let b = place(rest, before.drop_first());
        let a = place(rest, after.drop_first());
        assert(lens.first() * a == lens.first() * b + lens.first()) by (nonlinear_arith)
            requires
                a == b + 1,
        ;
    }
}

/// Where every index shows its last value, the odometer is at its last place.
proof fn lemma_last_place(lens: Seq<nat>, indexes: Seq<nat>)
    requires
        in_range(lens, indexes),
        forall|i: int| 0 <= i < lens.len() ==> indexes[i] == lens[i] - 1,
    ensures
        place(lens, indexes) + 1 == product(lens),
    decreases lens.len(),
{
    if lens.len() > 0 {
        let rest = lens.drop_first();
        lemma_last_place(rest, indexes.drop_first());
        let inner = place(rest, indexes.drop_first());
        assert(lens.first() * (inner + 1) == lens.first() * inner + lens.first())
            by (nonlinear_arith);
    }
}

/// One more length at the end multiplies the product by it.
pub proof fn lemma_product_push(lens: Seq<nat>, last: nat)
    ensures
        product(lens.push(last)) == product(lens) * last,
    decreases lens.len(),
{
    if lens.len() == 0 {
        assert(lens.push(last).drop_first() =~= lens);
        assert(last * 1 == 1 * last) by (nonlinear_arith);
    } else {
        lemma_product_push(lens.drop_first(), last);
        assert(lens.push(last).drop_first() =~= lens.drop_first().push(last));
        assert(lens.first() * (product(lens.drop_first()) * last) == (lens.first() * product(
            lens.drop_first(),
        )) * last) by (nonlinear_arith);
    }
}

/// The product does not depend on the order of the lengths, taken forwards
/// or backwards.
pub proof fn lemma_product_reverse(lens: Seq<nat>)
    ensures
        product(lens.reverse()) == product(lens),
    decreases lens.len(),
{
    if lens.len() > 0 {
        let rest = lens.drop_first();
        lemma_product_reverse(rest);
        assert(lens.reverse() =~= rest.reverse().push(lens.first()));
        lemma_product_push(rest.reverse(), lens.first());
        assert(product(rest) * lens.first() == lens.first() * product(rest)) by (nonlinear_arith);
    }
}

/// With an empty sequence among them there is nothing to pick.
pub proof fn lemma_product_zero(lens: Seq<nat>, i: int)
    requires
        0 <= i < lens.len(),
        lens[i] == 0,
    ensures
        product(lens) == 0,
    decreases lens.len(),
{
    if i > 0 {
        lemma_product_zero(lens.drop_first(), i - 1);
        assert(lens.first() * 0 == 0) by (nonlinear_arith);
    } else {
        assert(0 * product(lens.drop_first()) == 0) by (nonlinear_arith);
    }
}

/// Hands out, one by one, every way to pick one member from each of the
/// sequences it was made for. A pass cannot be started again: make a new
/// value to go through the picks once more.
pub struct MultiCartesianProduct<'a, T: Clone> {
    sets: &'a [&'a [T]],
    maximums: Vec<usize>,
    indexes: Vec<usize>,
    is_complete: bool,
}

impl<'a, T: Clone> MultiCartesianProduct<'a, T> {
    /// The sequences that the picks are made from.
    pub closed spec fn sets(&self) -> Seq<Seq<T>> {
        self.sets@.map_values(|s: &[T]| s@)
    }

    /// How many picks have been handed out.
    pub closed spec fn produced(&self) -> nat {
        if self.is_complete {
            product(lengths(self.sets()))
        } else {
            place(lengths(self.sets()), self.indexes@.map_values(|i: usize| i as nat))
        }
    }

    #[verifier::type_invariant]
    spec fn inv(&self) -> bool {
        &&& self.maximums@.map_values(|m: usize| m as nat) == lengths(self.sets())
        &&& !self.is_complete ==> in_range(
            lengths(self.sets()),
            self.indexes@.map_values(|i: usize| i as nat),
        )
    }

    /// Starts a pass over the picks from `sets`.
    pub fn new(sets: &'a [&'a [T]]) -> (r: MultiCartesianProduct<'a, T>)
        ensures
            r.sets() == sets@.map_values(|s: &[T]| s@),
            r.produced() == 0,
    {
        let set_count = sets.len();
        let mut maximums: Vec<usize> = Vec::with_capacity(set_count);
        let mut indexes: Vec<usize> = Vec::with_capacity(set_count);
        let mut found_empty = false;
        let ghost all = sets@.map_values(|s: &[T]| s@);
        let mut index: usize = 0;
        while index < set_count
            invariant
                index <= set_count,
                set_count == sets@.len(),
                all == sets@.map_values(|s: &[T]| s@),
                maximums@.len() == index,
                indexes@.len() == index,
                forall|i: int| 0 <= i < index ==> maximums@[i] == all[i].len(),
                forall|i: int| 0 <= i < index ==> indexes@[i] == 0,
                found_empty <==> exists|i: int| 0 <= i < index && all[i].len() == 0,
            decreases set_count - index,
        {
            maximums.push(sets[index].len());
            indexes.push(0);
            assert(all[index as int] == sets@[index as int]@);
            if sets[index].len() == 0 {
                found_empty = true;
            }
            index += 1;
        }
        let ghost lens = lengths(all);
        let ghost zeros = indexes@.map_values(|i: usize| i as nat);
        proof {
            assert(maximums@.map_values(|m: usize| m as nat) =~= lens);
            if found_empty {
                let i = choose|i: int| 0 <= i < set_count && all[i].len() == 0;
                lemma_product_zero(lens, i);
            } else {
                lemma_zero_place(lens, zeros);
            }
        }
        MultiCartesianProduct { sets, maximums, indexes, is_complete: found_empty }
    }

    /// Turns the odometer by one step; past its last place the pass is over.
    fn increment_counter(&mut self)
        requires
            old(self).produced() < product(lengths(old(self).sets())),
        ensures
            final(self).sets() == old(self).sets(),
            final(self).produced() == old(self).produced() + 1,
    {
        proof {
            use_type_invariant(&*self);
        }
        let ghost lens = lengths(self.sets());
        let ghost before = self.indexes@.map_values(|i: usize| i as nat);
        let mut indexes: Vec<usize> = Vec::new();
        self.is_complete = true;
        std::mem::swap(&mut self.indexes, &mut indexes);
        let mut incrementing = true;
        let mut index: usize = 0;
        let index_len = indexes.len();
        while incrementing && index < index_len
            invariant
                index <= index_len,
                index_len == lens.len(),
                indexes@.len() == index_len,
                before.len() == index_len,
                in_range(lens, before),
                self.maximums@.map_values(|m: usize| m as nat) == lens,
                in_range(lens, indexes@.map_values(|i: usize| i as nat)),
                incrementing ==> forall|i: int|
                    0 <= i < index ==> before[i] == lens[i] - 1 && indexes@[i] == 0,
                incrementing ==> forall|i: int|
                    index <= i < index_len ==> indexes@[i] == before[i],
                !incrementing ==> index > 0 && place(
                    lens,
                    indexes@.map_values(|i: usize| i as nat),
                ) == place(lens, before) + 1,
            decreases index_len - index,
        {
            let maximum = self.maximums[index];
            assert(maximum == lens[index as int]);
            let next = (indexes[index] + 1) % maximum;
            assert(next == if indexes@[index as int] + 1 == maximum {
                0
            } else {
                indexes@[index as int] + 1
            }) by {
                if indexes@[index as int] + 1 == maximum {
                    vstd::arithmetic::div_mod::lemma_mod_self_0(maximum as int);
                } else {
                    vstd::arithmetic::div_mod::lemma_small_mod(
                        (indexes@[index as int] + 1) as nat,
                        maximum as nat,
                    );
                }
            }
            indexes[index] = next;
            incrementing = next == 0;
            proof {
                let later = indexes@.map_values(|i: usize| i as nat);
                if !incrementing {
                    lemma_step(lens, before, later, index as int);
                }
            }
            index += 1;
        }
        proof {
            if incrementing {
                lemma_last_place(lens, before);
            }
        }
        self.indexes = indexes;
        self.is_complete = index == index_len && incrementing;
    }

    /// The next pick, or `None` once every pick has been handed out.
    pub fn next(&mut self) -> (r: Option<Vec<T>>)
        ensures
            final(self).sets() == old(self).sets(),
            old(self).produced() <= product(lengths(old(self).sets())),
            old(self).produced() < product(lengths(old(self).sets())) ==> {
                &&& final(self).produced() == old(self).produced() + 1
                &&& r is Some
                &&& r->Some_0@.len() == old(self).sets().len()
                &&& forall|i: int|
                    0 <= i < old(self).sets().len() ==> cloned(
                        #[trigger] pick(old(self).sets(), old(self).produced())[i],
                        r->Some_0@[i],
                    )
            },
            old(self).produced() == product(lengths(old(self).sets())) ==> {
                &&& final(self).produced() == old(self).produced()
                &&& r is None
            },
    {
        proof {
            use_type_invariant(&*self);
        }
        if self.is_complete {
            return None;
        }
        let ghost all = self.sets();
        let ghost lens = lengths(all);
        let ghost shown = self.indexes@.map_values(|i: usize| i as nat);
        proof {
            lemma_place(lens, shown);
        }
        let mut to_return: Vec<T> = Vec::new();
        let mut i: usize = 0;
        while i < self.sets.len()
            invariant
                i <= self.sets@.len(),
                all == self.sets@.map_values(|s: &[T]| s@),
                lens == lengths(all),
                shown == self.indexes@.map_values(|i: usize| i as nat),
                in_range(lens, shown),
                to_return@.len() == i,
                forall|j: int|
                    0 <= j < i ==> cloned(all[j][shown[j] as int], #[trigger] to_return@[j]),
            decreases self.sets.len() - i,
        {
            assert(shown[i as int] < lens[i as int]);
            let set = self.sets[i];
            to_return.push(set[self.indexes[i]].clone());
            i += 1;
        }
        self.increment_counter();
        Some(to_return)
    }
}

/// With every index at 0 the odometer is at its first place.
proof fn lemma_zero_place(lens: Seq<nat>, indexes: Seq<nat>)
    requires
        indexes.len() == lens.len(),
        forall|i: int| 0 <= i < lens.len() ==> indexes[i] == 0,
    ensures
        place(lens, indexes) == 0,
    decreases lens.len(),
{
    if lens.len() > 0 {
        lemma_zero_place(lens.drop_first(), indexes.drop_first());
        assert(lens.first() * 0 == 0) by (nonlinear_arith);
    }
}

} // verus!
