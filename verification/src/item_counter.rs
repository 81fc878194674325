//! A counter of items that forgets the order in which they were added.

use vstd::multiset::Multiset;
use vstd::prelude::*;
use vstd::std_specs::cmp::PartialEqSpecImpl;

verus! {

/// What a counter asks of the things it counts: each has a view, two items
/// are the same item exactly when their views are equal, and an item can be
/// copied.
pub trait Item: View + Sized {
    /// Whether `other` is the same item as `self`.
    fn same_as(&self, other: &Self) -> (b: bool)
        ensures
            b == (self@ == other@),
    ;

    /// A copy of the item.
    fn duplicate(&self) -> (r: Self)
        ensures
            r@ == self@,
    ;
}

/// The multiset that holds `a` exactly `n` times and nothing else.
pub open spec fn copies<A>(a: A, n: nat) -> Multiset<A>
    decreases n,
{
    if n == 0 {
        Multiset::empty()
    } else {
        copies(a, (n - 1) as nat).insert(a)
    }
}

/// The multiset that a list of items with their counts stands for.
pub open spec fn tally<A>(entries: Seq<(A, nat)>) -> Multiset<A>
    decreases entries.len(),
{
    if entries.len() == 0 {
        Multiset::empty()
    } else {
        tally(entries.drop_last()).add(copies(entries.last().0, entries.last().1))
    }
}

/// The sum of the counts that `entries` gives for `a`.
pub open spec fn listed<A>(entries: Seq<(A, nat)>, a: A) -> nat
    decreases entries.len(),
{
    if entries.len() == 0 {
        0
    } else {
        listed(entries.drop_last(), a) + if entries.last().0 == a {
            entries.last().1
        } else {
            0
        }
    }
}

/// No item is listed twice, and none with a count of 0.
pub open spec fn listed_once<A>(entries: Seq<(A, nat)>) -> bool {
    &&& forall|i: int, j: int| 0 <= i < j < entries.len() ==> entries[i].0 != entries[j].0
    &&& forall|i: int| 0 <= i < entries.len() ==> entries[i].1 > 0
}

/// The list after `n` more of `a` were counted: the entry for `a` is raised
/// by `n`; where there is none, one is put at the end; nothing changes for
/// `n` = 0.
pub open spec fn recorded<A>(entries: Seq<(A, nat)>, a: A, n: nat) -> Seq<(A, nat)> {
    if n == 0 {
        entries
    } else if exists|i: int| 0 <= i < entries.len() && entries[i].0 == a {
        let i = choose|i: int| 0 <= i < entries.len() && entries[i].0 == a;
        entries.update(i, (a, entries[i].1 + n))
    } else {
        entries.push((a, n))
    }
}

/// A list without empty entries tallies to at least as many items as it has
/// entries.
pub proof fn lemma_tally_len<A>(entries: Seq<(A, nat)>)
    requires
        forall|i: int| 0 <= i < entries.len() ==> entries[i].1 > 0,
    ensures
        entries.len() <= tally(entries).len(),
    decreases entries.len(),
{
    if entries.len() > 0 {
        lemma_tally_len(entries.drop_last());
        lemma_copies(entries.last().0, entries.last().1);
    }
}

/// `n` copies of `a` are `n` items, all of them `a`.
pub proof fn lemma_copies<A>(a: A, n: nat)
    ensures
        copies(a, n).len() == n,
        copies(a, n).count(a) == n,
        forall|b: A| b != a ==> copies(a, n).count(b) == 0,
    decreases n,
{
    if n > 0 {
        lemma_copies(a, (n - 1) as nat);
    }
}

/// A tally holds each item as often as the list says, all entries for it
/// taken together.
pub proof fn lemma_tally_count<A>(entries: Seq<(A, nat)>, a: A)
    ensures
        tally(entries).count(a) == listed(entries, a),
    decreases entries.len(),
{
    if entries.len() > 0 {
        lemma_tally_count(entries.drop_last(), a);
        lemma_copies(entries.last().0, entries.last().1);
    }
}

/// An item that no entry names is not in the tally.
pub proof fn lemma_listed_absent<A>(entries: Seq<(A, nat)>, a: A)
    requires
        forall|i: int| 0 <= i < entries.len() ==> entries[i].0 != a,
    ensures
        listed(entries, a) == 0,
    decreases entries.len(),
{
    if entries.len() > 0 {
        lemma_listed_absent(entries.drop_last(), a);
    }
}

/// Where no item is listed twice, the tally holds an item as often as its
/// one entry says.
pub proof fn lemma_listed_at<A>(entries: Seq<(A, nat)>, i: int)
    requires
        0 <= i < entries.len(),
        listed_once(entries),
    ensures
        listed(entries, entries[i].0) == entries[i].1,
    decreases entries.len(),
{
    let front = entries.drop_last();
    if i == entries.len() - 1 {
        lemma_listed_absent(front, entries[i].0);
    } else {
        lemma_listed_at(front, i);
    }
}

/// A longer list tallies to at least as much as any of its prefixes.
pub proof fn lemma_tally_prefix<A>(entries: Seq<(A, nat)>, n: int)
    requires
        0 <= n <= entries.len(),
    ensures
        tally(entries.take(n)).len() <= tally(entries).len(),
    decreases entries.len(),
{
    if n < entries.len() {
        assert(entries.drop_last().take(n) =~= entries.take(n));
        lemma_tally_prefix(entries.drop_last(), n);
    } else {
        assert(entries.take(n) =~= entries);
    }
}

/// Raising one entry's count by `n` adds `n` copies of its item.
pub proof fn lemma_tally_raise<A>(entries: Seq<(A, nat)>, i: int, n: nat)
    requires
        0 <= i < entries.len(),
    ensures
        tally(entries.update(i, (entries[i].0, entries[i].1 + n))) =~= tally(entries).add(
            copies(entries[i].0, n),
        ),
    decreases entries.len(),
{
    let raised = entries.update(i, (entries[i].0, entries[i].1 + n));
    assert forall|a: A|
        tally(raised).count(a) == tally(entries).add(copies(entries[i].0, n)).count(a) by {
        lemma_tally_count(raised, a);
        lemma_tally_count(entries, a);
        lemma_copies(entries[i].0, n);
        lemma_listed_raise(entries, i, n, a);
    }
}

proof fn lemma_listed_raise<A>(entries: Seq<(A, nat)>, i: int, n: nat, a: A)
    requires
        0 <= i < entries.len(),
    ensures
        listed(entries.update(i, (entries[i].0, entries[i].1 + n)), a) == listed(entries, a) + if a
            == entries[i].0 {
            n
        } else {
            0
        },
    decreases entries.len(),
{
    let raised = entries.update(i, (entries[i].0, entries[i].1 + n));
    if i == entries.len() - 1 {
        assert(raised.drop_last() =~= entries.drop_last());
    } else {
        assert(raised.drop_last() =~= entries.drop_last().update(
            i,
            (entries[i].0, entries[i].1 + n),
        ));
        lemma_listed_raise(entries.drop_last(), i, n, a);
    }
}

/// The sum of the counts of the entries whose item meets `wanted`.
pub open spec fn listed_where<A>(entries: Seq<(A, nat)>, wanted: spec_fn(A) -> bool) -> nat
    decreases entries.len(),
{
    if entries.len() == 0 {
        0
    } else {
        listed_where(entries.drop_last(), wanted) + if wanted(entries.last().0) {
            entries.last().1
        } else {
            0
        }
    }
}

/// Of a tally, the items that meet `wanted` are as many as the entries for
/// such items say.
pub proof fn lemma_tally_filter<A>(entries: Seq<(A, nat)>, wanted: spec_fn(A) -> bool)
    ensures
        tally(entries).filter(wanted).len() == listed_where(entries, wanted),
        listed_where(entries, wanted) <= tally(entries).len(),
    decreases entries.len(),
{
    if entries.len() == 0 {
        assert(tally(entries).filter(wanted) =~= Multiset::empty());
    } else {
        let front = tally(entries.drop_last());
        let last = copies(entries.last().0, entries.last().1);
        lemma_tally_filter(entries.drop_last(), wanted);
        lemma_copies(entries.last().0, entries.last().1);
        assert(front.add(last).filter(wanted) =~= front.filter(wanted).add(last.filter(wanted)));
        if wanted(entries.last().0) {
            assert(last.filter(wanted) =~= last);
        } else {
            assert(last.filter(wanted) =~= Multiset::empty());
        }
    }
}

/// The entries for items that meet `wanted` count no more in a prefix of a
/// list than in the whole list.
pub proof fn lemma_listed_where_prefix<A>(
    entries: Seq<(A, nat)>,
    wanted: spec_fn(A) -> bool,
    n: int,
)
    requires
        0 <= n <= entries.len(),
    ensures
        listed_where(entries.take(n), wanted) <= listed_where(entries, wanted),
    decreases entries.len(),
{
    if n < entries.len() {
        assert(entries.drop_last().take(n) =~= entries.take(n));
        lemma_listed_where_prefix(entries.drop_last(), wanted, n);
    } else {
        assert(entries.take(n) =~= entries);
    }
}

/// Adding `first` and then `second` leaves a counter holding what adding
/// `second` and then `first` does.
pub proof fn lemma_order_of_adding<A>(held: Multiset<A>, first: A, second: A)
    ensures
        held.insert(first).insert(second) == held.insert(second).insert(first),
{
}

/// Adding `n` of `first` and then `m` of `second` leaves a counter holding
/// what adding them the other way round does.
pub proof fn lemma_order_of_adding_amounts<A>(
    held: Multiset<A>,
    first: A,
    n: nat,
    second: A,
    m: nat,
)
    ensures
        held.add(copies(first, n)).add(copies(second, m)) == held.add(copies(second, m)).add(
            copies(first, n),
        ),
{
}

struct Entry<T> {
    key: T,
    count: usize,
}

/// Counts how often each item was added. Two counters are equal when they
/// hold every item equally often, in whatever order the items came.
pub struct ItemCounter<T: Item> {
    entries: Vec<Entry<T>>,
}

impl<T: Item> View for ItemCounter<T> {
    type V = Multiset<T::V>;

    open spec fn view(&self) -> Multiset<T::V> {
        tally(self.entries())
    }
}

impl<T: Item> Clone for ItemCounter<T> {
    fn clone(&self) -> (r: Self)
        ensures
            r@ == self@,
            r.entries() == self.entries(),
    {
        proof {
            use_type_invariant(self);
        }
        let mut entries: Vec<Entry<T>> = Vec::new();
        let mut i: usize = 0;
        while i < self.entries.len()
            invariant
                i <= self.entries@.len(),
                entries@.len() == i,
                forall|k: int|
                    0 <= k < i ==> entries@[k].key@ == self.entries@[k].key@ && entries@[k].count
                        == self.entries@[k].count,
            decreases self.entries.len() - i,
        {
            let key = self.entries[i].key.duplicate();
            entries.push(Entry { key, count: self.entries[i].count });
            i += 1;
        }
        let ghost copied = Seq::new(
            entries@.len(),
            |k: int| (entries@[k].key@, entries@[k].count as nat),
        );
        assert(copied =~= self.entries());
        let r = ItemCounter { entries };
        r
    }
}

impl<T: Item> PartialEq for ItemCounter<T> {
    fn eq(&self, other: &Self) -> (r: bool) {
        let r = self.within(other) && other.within(self);
        proof {
            use_type_invariant(self);
            use_type_invariant(other);
            let mine = self.entries();
            let theirs = other.entries();
            assert forall|i: int| 0 <= i < mine.len() implies self@.count(mine[i].0)
                == mine[i].1 by {
                lemma_tally_count(mine, mine[i].0);
                lemma_listed_at(mine, i);
            }
            assert forall|i: int| 0 <= i < theirs.len() implies other@.count(theirs[i].0)
                == theirs[i].1 by {
                lemma_tally_count(theirs, theirs[i].0);
                lemma_listed_at(theirs, i);
            }
            if r {
                assert forall|a: T::V| self@.count(a) == other@.count(a) by {
                    lemma_tally_count(mine, a);
                    lemma_tally_count(theirs, a);
                    if !(exists|i: int| 0 <= i < mine.len() && mine[i].0 == a) && !(exists|j: int|
                        0 <= j < theirs.len() && theirs[j].0 == a) {
                        lemma_listed_absent(mine, a);
                        lemma_listed_absent(theirs, a);
                    }
                }
                assert(self@ =~= other@);
            }
        }
        r
    }
}

impl<T: Item> Eq for ItemCounter<T> {

}

impl<T: Item> PartialEqSpecImpl for ItemCounter<T> {
    open spec fn obeys_eq_spec() -> bool {
        true
    }

    open spec fn eq_spec(&self, other: &Self) -> bool {
        self@ == other@
    }
}

impl<T: Item> ItemCounter<T> {
    /// The items held, each with its count, in the order of their first
    /// addition.
    pub closed spec fn entries(&self) -> Seq<(T::V, nat)> {
        Seq::new(
            self.entries@.len(),
            |i: int| (self.entries@[i].key@, self.entries@[i].count as nat),
        )
    }

    #[verifier::type_invariant]
    spec fn inv(&self) -> bool {
        &&& listed_once(self.entries())
        &&& tally(self.entries()).len() <= usize::MAX
    }

    /// A counter that holds nothing.
    pub fn new() -> (r: ItemCounter<T>)
        ensures
            r@ == Multiset::<T::V>::empty(),
            r.entries() == Seq::<(T::V, nat)>::empty(),
    {
        let r = ItemCounter { entries: Vec::new() };
        r
    }

    /// How many different items the counter lists. None is listed twice or
    /// with a count of 0, and the counts together fit the machine.
    pub fn len(&self) -> (r: usize)
        ensures
            r == self.entries().len(),
            listed_once(self.entries()),
            r <= self@.len() <= usize::MAX,
    {
        proof {
            use_type_invariant(self);
            lemma_tally_len(self.entries());
        }
        self.entries.len()
    }

    /// The item of entry `i`.
    pub fn item_at(&self, i: usize) -> (r: &T)
        requires
            i < self.entries().len(),
        ensures
            r@ == self.entries()[i as int].0,
    {
        &self.entries[i].key
    }

    /// The count of entry `i`.
    pub fn count_at(&self, i: usize) -> (r: usize)
        requires
            i < self.entries().len(),
        ensures
            r == self.entries()[i as int].1,
    {
        self.entries[i].count
    }

    fn position(&self, item: &T) -> (r: Option<usize>)
        ensures
            match r {
                Some(i) => i < self.entries().len() && self.entries()[i as int].0 == item@,
                None => forall|i: int|
                    0 <= i < self.entries().len() ==> self.entries()[i].0 != item@,
            },
    {
        let mut i: usize = 0;
        while i < self.entries.len()
            invariant
                i <= self.entries@.len(),
                self.entries().len() == self.entries@.len(),
                forall|j: int| 0 <= j < i ==> self.entries()[j].0 != item@,
            decreases self.entries.len() - i,
        {
            if self.entries[i].key.same_as(item) {
                return Some(i);
            }
            i += 1;
        }
        None
    }

    /// Whether `other` holds every item listed here as often as this
    /// counter does.
    fn within(&self, other: &Self) -> (b: bool)
        ensures
            b == forall|i: int|
                0 <= i < self.entries().len() ==> #[trigger] other@.count(self.entries()[i].0)
                    == self.entries()[i].1,
    {
        let mut i: usize = 0;
        while i < self.entries.len()
            invariant
                i <= self.entries@.len(),
                self.entries().len() == self.entries@.len(),
                forall|j: int|
                    0 <= j < i ==> #[trigger] other@.count(self.entries()[j].0)
                        == self.entries()[j].1,
            decreases self.entries.len() - i,
        {
            if other.get_count(&self.entries[i].key) != self.entries[i].count {
                assert(other@.count(self.entries()[i as int].0) != self.entries()[i as int].1);
                return false;
            }
            i += 1;
        }
        true
    }

    /// Counts `item` once more.
    pub fn add(&mut self, item: &T)
        requires
            old(self)@.len() < usize::MAX,
        ensures
            final(self)@ == old(self)@.insert(item@),
            final(self).entries() == recorded(old(self).entries(), item@, 1),
    {
        self.add_amount(item, 1);
        assert(copies(item@, 0) =~= Multiset::empty());
    }

    /// Counts `item` `amount` times more.
    pub fn add_amount(&mut self, item: &T, amount: usize)
        requires
            old(self)@.len() + amount <= usize::MAX,
        ensures
            final(self)@ == old(self)@.add(copies(item@, amount as nat)),
            final(self).entries() == recorded(old(self).entries(), item@, amount as nat),
    {
        proof {
            use_type_invariant(&*self);
            lemma_copies(item@, amount as nat);
        }
        if amount == 0 {
            return;
        }
        let ghost before = self.entries();
        match self.position(item) {
            Some(i) => {
                proof {
                    lemma_tally_count(before, item@);
                    lemma_listed_at(before, i as int);
                    lemma_tally_raise(before, i as int, amount as nat);
                }
                let mut entries: Vec<Entry<T>> = Vec::new();
                std::mem::swap(&mut self.entries, &mut entries);
                entries[i].count += amount;
                let ghost after = Seq::new(
                    entries@.len(),
                    |k: int| (entries@[k].key@, entries@[k].count as nat),
                );
                assert(after =~= before.update(
                    i as int,
                    (before[i as int].0, before[i as int].1 + amount as nat),
                ));
                self.entries = entries;
            },
            None => {
                let entry = Entry { key: item.duplicate(), count: amount };
                let mut entries: Vec<Entry<T>> = Vec::new();
                std::mem::swap(&mut self.entries, &mut entries);
                entries.push(entry);
                let ghost after = Seq::new(
                    entries@.len(),
                    |k: int| (entries@[k].key@, entries@[k].count as nat),
                );
                assert(after =~= before.push((item@, amount as nat)));
                assert(after.drop_last() =~= before);
                self.entries = entries;
            },
        }
    }

    /// How often `item` has been counted; 0 if never.
    pub fn get_count(&self, item: &T) -> (r: usize)
        ensures
            r == self@.count(item@),
    {
        proof {
            use_type_invariant(self);
            lemma_tally_count(self.entries(), item@);
        }
        match self.position(item) {
            Some(i) => {
                proof {
                    lemma_listed_at(self.entries(), i as int);
                }
                self.entries[i].count
            },
            None => {
                proof {
                    lemma_listed_absent(self.entries(), item@);
                }
                0
            },
        }
    }

    /// How many items have been counted, each as often as it was added.
    pub fn total_count(&self) -> (r: usize)
        ensures
            r == self@.len(),
    {
        proof {
            use_type_invariant(self);
        }
        let mut total: usize = 0;
        let mut i: usize = 0;
        while i < self.entries.len()
            invariant
                i <= self.entries@.len(),
                self.entries().len() == self.entries@.len(),
                tally(self.entries()).len() <= usize::MAX,
                total == tally(self.entries().take(i as int)).len(),
            decreases self.entries.len() - i,
        {
            proof {
                let next = self.entries().take(i + 1);
                assert(next.drop_last() =~= self.entries().take(i as int));
                lemma_copies(next.last().0, next.last().1);
                lemma_tally_prefix(self.entries(), i + 1);
            }
            total += self.entries[i].count;
            i += 1;
        }
        assert(self.entries().take(i as int) =~= self.entries());
        total
    }
}

} // verus!
