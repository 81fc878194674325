//! Which symbols a policy collects from one joint roll.

use crate::dice::{contains_symbol, names, DieSide, DieSymbol};
use crate::rolls::{Policy, RollCollectionPolicy, RollCollectionTypes, RollProbabilities};
use vstd::prelude::*;
use vstd::string::StringExecFns;

verus! {

/// The symbols of `side` that the policy names, in their order on the side.
pub open spec fn relevant(side: Seq<Seq<char>>, wanted: Seq<Seq<char>>) -> Seq<Seq<char>> {
    side.filter(|s: Seq<char>| wanted.contains(s))
}

/// A ranked list with `side` put in: behind every side that shows at least
/// as much, before those that show less.
pub open spec fn placed<A>(ranked: Seq<Seq<A>>, side: Seq<A>) -> Seq<Seq<A>>
    decreases ranked.len(),
{
    if ranked.len() == 0 || ranked.last().len() >= side.len() {
        ranked.push(side)
    } else {
        placed(ranked.drop_last(), side).push(ranked.last())
    }
}

/// The sides in ranked order: the side that shows most comes first, and
/// sides that show equally much keep the order in which they were rolled.
pub open spec fn ranked<A>(sides: Seq<Seq<A>>) -> Seq<Seq<A>>
    decreases sides.len(),
{
    if sides.len() == 0 {
        sides
    } else {
        placed(ranked(sides.drop_last()), sides.last())
    }
}

/// The sides that `rule` picks from a ranked list.
pub open spec fn chosen<A>(ranked: Seq<Seq<A>>, rule: RollCollectionTypes) -> Seq<Seq<A>> {
    match rule {
        RollCollectionTypes::CollectAll => ranked,
        RollCollectionTypes::TakeHighestN(n) => ranked.take(n as int),
        RollCollectionTypes::TakeLowestN(n) => ranked.skip(ranked.len() - n),
        RollCollectionTypes::RemoveHighestN(n) => ranked.skip(n as int),
        RollCollectionTypes::RemoveLowestN(n) => ranked.take(ranked.len() - n),
    }
}

/// What the policy collects from a joint roll: of each rolled side the
/// symbols that the policy names, the sides ranked by how many those are,
/// the symbols of the sides that the rule picks, one side after the other.
pub open spec fn collected(roll: Seq<Seq<Seq<char>>>, policy: Policy) -> Seq<Seq<char>> {
    chosen(
        ranked(roll.map_values(|side: Seq<Seq<char>>| relevant(side, policy.symbols))),
        policy.rule,
    ).flatten()
}

/// What each side of a joint roll shows.
pub open spec fn shown(roll: Seq<&DieSide>) -> Seq<Seq<Seq<char>>> {
    roll.map_values(|side: &DieSide| side@)
}

/// The names in each of several lists of symbols.
pub open spec fn lists(sides: Seq<Vec<DieSymbol>>) -> Seq<Seq<Seq<char>>> {
    sides.map_values(|side: Vec<DieSymbol>| names(side@))
}

/// Putting a side in adds one to the ranked list.
pub proof fn lemma_placed_len<A>(ranked: Seq<Seq<A>>, side: Seq<A>)
    ensures
        placed(ranked, side).len() == ranked.len() + 1,
    decreases ranked.len(),
{
    if !(ranked.len() == 0 || ranked.last().len() >= side.len()) {
        lemma_placed_len(ranked.drop_last(), side);
    }
}

/// Ranking keeps the number of sides.
pub proof fn lemma_ranked_len<A>(sides: Seq<Seq<A>>)
    ensures
        ranked(sides).len() == sides.len(),
    decreases sides.len(),
{
    if sides.len() > 0 {
        lemma_ranked_len(sides.drop_last());
        lemma_placed_len(ranked(sides.drop_last()), sides.last());
    }
}

/// Each side of the list shows at least as much as every side behind it.
pub open spec fn falling<A>(sides: Seq<Seq<A>>) -> bool {
    forall|i: int, j: int| 0 <= i < j < sides.len() ==> sides[i].len() >= sides[j].len()
}

/// The sides of the list that show exactly `n` symbols, in order.
pub open spec fn showing<A>(sides: Seq<Seq<A>>, n: nat) -> Seq<Seq<A>> {
    sides.filter(|side: Seq<A>| side.len() == n)
}

/// Putting a side into a falling list leaves it falling, and among the
/// sides that show as much as it the new side comes last. The list then
/// holds the new side and the sides it held before, no others.
pub proof fn lemma_placed<A>(ranked: Seq<Seq<A>>, side: Seq<A>, n: nat)
    requires
        falling(ranked),
    ensures
        falling(placed(ranked, side)),
        showing(placed(ranked, side), n) == if side.len() == n {
            showing(ranked, n).push(side)
        } else {
            showing(ranked, n)
        },
        forall|i: int|
            0 <= i < placed(ranked, side).len() ==> #[trigger] placed(ranked, side)[i] == side
                || ranked.contains(placed(ranked, side)[i]),
    decreases ranked.len(),
{
    let has = |s: Seq<A>| s.len() == n;
    if ranked.len() == 0 || ranked.last().len() >= side.len() {
        ranked.lemma_filter_push(side, has);
    } else {
        let front = ranked.drop_last();
        let last = ranked.last();
        lemma_placed(front, side, n);
        let inner = placed(front, side);
        lemma_placed_len(front, side);
        assert(ranked =~= front.push(last));
        front.lemma_filter_push(last, has);
        inner.lemma_filter_push(last, has);
    }
}

/// The ranked list is falling: no side shows less than a side behind it.
/// And the sides that show equally much stand in it in the order in which
/// they were rolled.
pub proof fn lemma_ranked<A>(sides: Seq<Seq<A>>, n: nat)
    ensures
        falling(ranked(sides)),
        showing(ranked(sides), n) == showing(sides, n),
    decreases sides.len(),
{
    let has = |s: Seq<A>| s.len() == n;
    if sides.len() > 0 {
        lemma_ranked(sides.drop_last(), n);
        lemma_placed(ranked(sides.drop_last()), sides.last(), n);
        assert(sides =~= sides.drop_last().push(sides.last()));
        sides.drop_last().lemma_filter_push(sides.last(), has);
    }
}

/// A side is put in at the place before which every side shows at least as
/// much as it and from which on every side shows less.
proof fn lemma_placed_at<A>(ranked: Seq<Seq<A>>, side: Seq<A>, at: int)
    requires
        0 <= at <= ranked.len(),
        at > 0 ==> ranked[at - 1].len() >= side.len(),
        forall|j: int| at <= j < ranked.len() ==> ranked[j].len() < side.len(),
    ensures
        placed(ranked, side) == ranked.insert(at, side),
    decreases ranked.len() - at,
{
    if at < ranked.len() {
        lemma_placed_at(ranked.drop_last(), side, at);
    }
}

/// The symbols of `symbols` that stand in `wanted`, in order.
fn keep(symbols: &[DieSymbol], wanted: &[DieSymbol]) -> (r: Vec<DieSymbol>)
    ensures
        names(r@) == relevant(names(symbols@), names(wanted@)),
{
    let ghost all = names(symbols@);
    let ghost is_wanted = |s: Seq<char>| names(wanted@).contains(s);
    let mut kept: Vec<DieSymbol> = Vec::new();
    let mut i: usize = 0;
    proof {
        reveal(Seq::filter);
    }
    while i < symbols.len()
        invariant
            i <= symbols@.len(),
            all == names(symbols@),
            is_wanted == |s: Seq<char>| names(wanted@).contains(s),
            names(kept@) =~= all.take(i as int).filter(is_wanted),
        decreases symbols.len() - i,
    {
        proof {
            assert(all.take(i + 1) =~= all.take(i as int).push(symbols@[i as int]@));
            all.take(i as int).lemma_filter_push(symbols@[i as int]@, is_wanted);
        }
        if contains_symbol(wanted, &symbols[i]) {
            let symbol = symbols[i].clone();
            kept.push(symbol);
        }
        i += 1;
    }
    assert(all.take(i as int) =~= all);
    kept
}

/// Puts `side` into the ranked list at its place.
fn place(ranked: &mut Vec<Vec<DieSymbol>>, side: Vec<DieSymbol>)
    ensures
        lists(final(ranked)@) == placed(lists(old(ranked)@), names(side@)),
{
    let ghost before = lists(ranked@);
    let mut at: usize = ranked.len();
    while at > 0 && ranked[at - 1].len() < side.len()
        invariant
            at <= ranked@.len(),
            before == lists(ranked@),
            forall|j: int| at <= j < ranked@.len() ==> before[j].len() < side@.len(),
        decreases at,
    {
        at -= 1;
    }
    proof {
        lemma_placed_at(before, names(side@), at as int);
    }
    ranked.insert(at, side);
}

impl RollProbabilities {
    /// The symbols that `policy` collects from the joint roll `roll`, which
    /// holds one side of each die. A policy that names more dice than were
    /// rolled is rejected.
    pub fn collect_symbols(roll: &[&DieSide], policy: &RollCollectionPolicy) -> (r: Result<
        Vec<DieSymbol>,
        String,
    >)
        ensures
            r is Ok <==> policy@.rule.dice_named() <= roll@.len(),
            r matches Ok(symbols) ==> names(symbols@) == collected(shown(roll@), policy@),
            r matches Err(e) ==> e@ == "policy names more dice than the pool has"@,
    {
        if policy.dice_named() > roll.len() {
            return Err(String::from_str("policy names more dice than the pool has"));
        }
        let ghost sides = shown(roll@).map_values(
            |side: Seq<Seq<char>>| relevant(side, policy@.symbols),
        );
        let mut filtered_sides: Vec<Vec<DieSymbol>> = Vec::new();
        let mut i: usize = 0;
        while i < roll.len()
            invariant
                i <= roll@.len(),
                sides == shown(roll@).map_values(
                    |side: Seq<Seq<char>>| relevant(side, policy@.symbols),
                ),
                lists(filtered_sides@) == ranked(sides.take(i as int)),
            decreases roll.len() - i,
        {
            let side = keep(roll[i].symbols(), policy.symbols);
            proof {
                assert(sides.take(i + 1).drop_last() =~= sides.take(i as int));
            }
            place(&mut filtered_sides, side);
            i += 1;
        }
        proof {
            assert(sides.take(i as int) =~= sides);
            lemma_ranked_len(sides);
        }
        let sides_len = filtered_sides.len();
        let (from, to) = match policy.coll_type {
            RollCollectionTypes::CollectAll => (0, sides_len),
            RollCollectionTypes::TakeHighestN(n) => (0, n),
            RollCollectionTypes::TakeLowestN(n) => (sides_len - n, sides_len),
            RollCollectionTypes::RemoveHighestN(n) => (n, sides_len),
            RollCollectionTypes::RemoveLowestN(n) => (0, sides_len - n),
        };
        let ghost picked = lists(filtered_sides@).subrange(from as int, to as int);
        assert(picked =~= chosen(ranked(sides), policy@.rule));
        let mut symbols: Vec<DieSymbol> = Vec::new();
        let mut at: usize = from;
        while at < to
            invariant
                from <= at <= to <= filtered_sides@.len(),
                picked == lists(filtered_sides@).subrange(from as int, to as int),
                names(symbols@) == picked.take(at - from).flatten(),
            decreases to - at,
        {
            let side = &filtered_sides[at];
            let ghost before = names(symbols@);
            let mut j: usize = 0;
            while j < side.len()
                invariant
                    j <= side@.len(),
                    names(symbols@) == before + names(side@).take(j as int),
                decreases side.len() - j,
            {
                let ghost sofar = names(symbols@);
                let symbol = side[j].clone();
                symbols.push(symbol);
                assert(names(symbols@) =~= sofar.push(symbol@));
                j += 1;
            }
            proof {
                assert(picked.take(at + 1 - from) =~= picked.take(at - from).push(names(side@)));
                picked.take(at - from).lemma_flatten_push(names(side@));
            }
            at += 1;
        }
        assert(picked.take(at - from) =~= picked);
        Ok(symbols)
    }
}

} // verus!
