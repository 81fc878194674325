//! Symbols, sides and dice: the values a roll is made of.

pub mod basic;
pub mod standard;

use crate::item_counter::Item;
use vstd::prelude::*;
use vstd::std_specs::cmp::PartialEqSpecImpl;
use vstd::string::StringExecFns;
use vstd::string::StrSliceExecFns;

verus! {

/// Whether `char::is_whitespace` holds of a character.
pub uninterp spec fn is_whitespace(c: char) -> bool;

/// `char::is_whitespace`: tells whether the character has the Unicode
/// property White_Space. The answer depends on the character alone.
#[verifier::external_body]
fn char_is_whitespace(c: char) -> (b: bool)
    ensures
        b == is_whitespace(c),
{
    c.is_whitespace()
}

/// How many whitespace characters stand at the front of `s`.
pub open spec fn leading_whitespace(s: Seq<char>) -> nat
    decreases s.len(),
{
    if s.len() > 0 && is_whitespace(s.first()) {
        1 + leading_whitespace(s.drop_first())
    } else {
        0
    }
}

/// How many whitespace characters stand at the back of `s`.
pub open spec fn trailing_whitespace(s: Seq<char>) -> nat
    decreases s.len(),
{
    if s.len() > 0 && is_whitespace(s.last()) {
        1 + trailing_whitespace(s.drop_last())
    } else {
        0
    }
}

/// `s` without its leading and trailing whitespace.
pub open spec fn trimmed(s: Seq<char>) -> Seq<char> {
    let rest = s.skip(leading_whitespace(s) as int);
    rest.take(rest.len() - trailing_whitespace(rest))
}

/// A named marking on a face of a die.
#[derive(Eq, Hash, PartialOrd, Ord, Debug)]
pub struct DieSymbol {
    name: String,
}

impl View for DieSymbol {
    type V = Seq<char>;

    closed spec fn view(&self) -> Seq<char> {
        self.name@
    }
}

impl Clone for DieSymbol {
    fn clone(&self) -> (r: Self)
        ensures
            r@ == self@,
    {
        proof {
            use_type_invariant(self);
        }
        DieSymbol { name: self.name.clone() }
    }
}

impl PartialEq for DieSymbol {
    fn eq(&self, other: &Self) -> (r: bool) {
        self.name == other.name
    }
}

impl PartialEqSpecImpl for DieSymbol {
    open spec fn obeys_eq_spec() -> bool {
        true
    }

    open spec fn eq_spec(&self, other: &Self) -> bool {
        self@ == other@
    }
}

impl Item for DieSymbol {
    fn same_as(&self, other: &Self) -> (b: bool) {
        *self == *other
    }

    fn duplicate(&self) -> (r: Self) {
        self.clone()
    }
}

impl DieSymbol {
    /// A symbol's name is never empty.
    #[verifier::type_invariant]
    spec fn inv(&self) -> bool {
        self.name@.len() > 0
    }

    /// Makes a symbol named by `val` without its leading and trailing
    /// whitespace. A name that is empty after trimming is rejected.
    pub fn new(val: &str) -> (r: Result<DieSymbol, String>)
        ensures
            r is Ok <==> trimmed(val@).len() > 0,
            r matches Ok(s) ==> s@ == trimmed(val@),
            r matches Err(e) ==> e@ == "Value cannot be empty"@,
    {
        let n = val.unicode_len();
        let mut start: usize = 0;
        assert(val@.skip(0) =~= val@);
        while start < n && char_is_whitespace(val.get_char(start))
            invariant
                start <= n,
                n == val@.len(),
                leading_whitespace(val@) == start + leading_whitespace(val@.skip(start as int)),
            decreases n - start,
        {
            assert(val@.skip(start as int).drop_first() =~= val@.skip(start + 1));
            start += 1;
        }
        let ghost rest = val@.skip(start as int);
        let mut end: usize = n;
        while end > start && char_is_whitespace(val.get_char(end - 1))
            invariant
                start <= end <= n,
                n == val@.len(),
                rest == val@.skip(start as int),
                trailing_whitespace(rest) == (n - end) + trailing_whitespace(
                    val@.subrange(start as int, end as int),
                ),
            decreases end - start,
        {
            assert(val@.subrange(start as int, end as int).drop_last() =~= val@.subrange(
                start as int,
                end - 1,
            ));
            end -= 1;
        }
        if start == end {
            Err(String::from_str("Value cannot be empty"))
        } else {
            Ok(DieSymbol { name: String::from_str(val.substring_char(start, end)) })
        }
    }

    /// The symbol's name.
    pub fn name(&self) -> (r: &String)
        ensures
            r@ == self@,
    {
        &self.name
    }
}

/// The names of a sequence of symbols, in order.
pub open spec fn names(symbols: Seq<DieSymbol>) -> Seq<Seq<char>> {
    symbols.map_values(|s: DieSymbol| s@)
}

/// Tells whether a symbol named as `symbol` stands in `list`.
pub fn contains_symbol(list: &[DieSymbol], symbol: &DieSymbol) -> (b: bool)
    ensures
        b == names(list@).contains(symbol@),
{
    let mut i: usize = 0;
    while i < list.len()
        invariant
            i <= list.len(),
            forall|j: int| 0 <= j < i ==> names(list@)[j] != symbol@,
        decreases list.len() - i,
    {
        if list[i] == *symbol {
            assert(names(list@)[i as int] == symbol@);
            return true;
        }
        i += 1;
    }
    false
}

/// One face of a die: the symbols that show together when it comes up.
#[derive(Debug)]
pub struct DieSide {
    symbols: Vec<DieSymbol>,
}

impl View for DieSide {
    type V = Seq<Seq<char>>;

    closed spec fn view(&self) -> Seq<Seq<char>> {
        names(self.symbols@)
    }
}

impl Clone for DieSide {
    fn clone(&self) -> (r: Self)
        ensures
            r@ == self@,
    {
        let mut symbols: Vec<DieSymbol> = Vec::new();
        let mut i: usize = 0;
        while i < self.symbols.len()
            invariant
                i <= self.symbols.len(),
                names(symbols@) =~= names(self.symbols@).take(i as int),
            decreases self.symbols.len() - i,
        {
            let ghost before = names(symbols@);
            let symbol = self.symbols[i].clone();
            symbols.push(symbol);
            assert(names(symbols@) =~= before.push(symbol@));
            i += 1;
        }
        DieSide { symbols }
    }
}

impl DieSide {
    /// Makes a side that shows `symbols`; none at all is a blank side.
    pub fn new(symbols: Vec<DieSymbol>) -> (r: DieSide)
        ensures
            r@ == names(symbols@),
    {
        DieSide { symbols }
    }

    /// The symbols on this side, in the order they were given.
    pub fn symbols(&self) -> (r: &[DieSymbol])
        ensures
            names(r@) == self@,
    {
        self.symbols.as_slice()
    }
}

/// What each of a sequence of sides shows, in order.
pub open spec fn faces(sides: Seq<DieSide>) -> Seq<Seq<Seq<char>>> {
    sides.map_values(|s: DieSide| s@)
}

/// The members of `s` in order of first appearance, each once.
pub open spec fn distinct<A>(s: Seq<A>) -> Seq<A>
    decreases s.len(),
{
    if s.len() == 0 {
        s
    } else {
        let before = distinct(s.drop_last());
        if before.contains(s.last()) {
            before
        } else {
            before.push(s.last())
        }
    }
}

/// The distinct members of `s` are the members of `s`, and none of them
/// comes twice.
pub proof fn lemma_distinct<A>(s: Seq<A>)
    ensures
        distinct(s).no_duplicates(),
        forall|a: A| distinct(s).contains(a) <==> s.contains(a),
    decreases s.len(),
{
    if s.len() > 0 {
        let front = s.drop_last();
        lemma_distinct(front);
        let before = distinct(front);
        let after = distinct(s);
        assert forall|a: A| after.contains(a) <==> s.contains(a) by {
            if s.contains(a) {
                let i = choose|i: int| 0 <= i < s.len() && s[i] == a;
                if i < front.len() {
                    assert(front[i] == a);
                }
                if front.contains(a) {
                    assert(before.contains(a));
                    let j = choose|j: int| 0 <= j < before.len() && before[j] == a;
                    assert(after[j] == a);
                } else if before.contains(s.last()) {
                    let j = choose|j: int| 0 <= j < before.len() && before[j] == s.last();
                    assert(after[j] == a);
                } else {
                    assert(after[after.len() - 1] == a);
                }
            }
            if after.contains(a) {
                let j = choose|j: int| 0 <= j < after.len() && after[j] == a;
                if j < before.len() {
                    assert(before[j] == a);
                    assert(before.contains(a));
                    assert(front.contains(a));
                    let i = choose|i: int| 0 <= i < front.len() && front[i] == a;
                    assert(s[i] == a);
                } else {
                    assert(s[s.len() - 1] == a);
                }
            }
        }
    }
}

/// A die: two sides or more, in a fixed order.
#[derive(Debug)]
pub struct Die {
    sides: Vec<DieSide>,
}

impl View for Die {
    type V = Seq<Seq<Seq<char>>>;

    closed spec fn view(&self) -> Seq<Seq<Seq<char>>> {
        faces(self.sides@)
    }
}

impl Clone for Die {
    fn clone(&self) -> (r: Self)
        ensures
            r@ == self@,
    {
        proof {
            use_type_invariant(self);
        }
        let mut sides: Vec<DieSide> = Vec::new();
        let mut i: usize = 0;
        while i < self.sides.len()
            invariant
                i <= self.sides.len(),
                sides@.len() == i,
                faces(sides@) =~= faces(self.sides@).take(i as int),
            decreases self.sides.len() - i,
        {
            let side = self.sides[i].clone();
            sides.push(side);
            i += 1;
        }
        Die { sides }
    }
}

impl Die {
    /// A die has at least two sides.
    #[verifier::type_invariant]
    spec fn inv(&self) -> bool {
        self.sides@.len() >= 2
    }

    /// Makes a die of the given sides. Fewer than two sides are rejected.
    pub fn new(sides: Vec<DieSide>) -> (r: Result<Die, String>)
        ensures
            r is Ok <==> sides.len() >= 2,
            r matches Ok(d) ==> d@ == faces(sides@),
            r matches Err(e) ==> e@ == "Die must have at least 2 sides"@,
    {
        if sides.len() < 2 {
            Err(String::from_str("Die must have at least 2 sides"))
        } else {
            Ok(Die { sides })
        }
    }

    /// The sides of the die, in order; there are at least two.
    pub fn sides(&self) -> (r: &[DieSide])
        ensures
            faces(r@) == self@,
            r@.len() >= 2,
    {
        proof {
            use_type_invariant(self);
        }
        self.sides.as_slice()
    }

    /// Every symbol that shows anywhere on the die, once each, in order of
    /// first appearance.
    pub fn unique_symbols(&self) -> (r: Vec<DieSymbol>)
        ensures
            names(r@) == distinct(self@.flatten()),
    {
        let mut unique: Vec<DieSymbol> = Vec::new();
        let mut i: usize = 0;
        while i < self.sides.len()
            invariant
                i <= self.sides.len(),
                names(unique@) == distinct(self@.take(i as int).flatten()),
            decreases self.sides.len() - i,
        {
            let side = self.sides[i].symbols();
            let ghost seen = self@.take(i as int).flatten();
            let mut j: usize = 0;
            while j < side.len()
                invariant
                    j <= side.len(),
                    i < self.sides.len(),
                    names(side@) == self@[i as int],
                    seen == self@.take(i as int).flatten(),
                    names(unique@) == distinct(seen + self@[i as int].take(j as int)),
                decreases side.len() - j,
            {
                proof {
                    let upto = seen + self@[i as int].take(j as int);
                    let next = seen + self@[i as int].take(j + 1);
                    assert(next.drop_last() =~= upto);
                }
                if !contains_symbol(unique.as_slice(), &side[j]) {
                    unique.push(side[j].clone());
                }
                j += 1;
            }
            proof {
                assert(self@[i as int].take(j as int) =~= self@[i as int]);
                assert(self@.take(i + 1) =~= self@.take(i as int).push(self@[i as int]));
                self@.take(i as int).lemma_flatten_push(self@[i as int]);
            }
            i += 1;
        }
        assert(self@.take(i as int) =~= self@);
        unique
    }

    /// How many times `symbol` shows on the die, all sides taken together.
    pub fn occurrences_of(&self, symbol: &DieSymbol) -> (r: usize)
        requires
            self@.flatten().len() <= usize::MAX,
        ensures
            r == self@.flatten().filter(|s: Seq<char>| s == symbol@).len(),
    {
        let ghost wanted = |s: Seq<char>| s == symbol@;
        let mut count: usize = 0;
        let mut i: usize = 0;
        while i < self.sides.len()
            invariant
                i <= self.sides.len(),
                wanted == |s: Seq<char>| s == symbol@,
                self@.flatten().len() <= usize::MAX,
                count == self@.take(i as int).flatten().filter(wanted).len(),
            decreases self.sides.len() - i,
        {
            let side = self.sides[i].symbols();
            let ghost seen = self@.take(i as int).flatten();
            let mut j: usize = 0;
            while j < side.len()
                invariant
                    j <= side.len(),
                    i < self.sides.len(),
                    wanted == |s: Seq<char>| s == symbol@,
                    names(side@) == self@[i as int],
                    seen == self@.take(i as int).flatten(),
                    self@.flatten().len() <= usize::MAX,
                    count == (seen + self@[i as int].take(j as int)).filter(wanted).len(),
                decreases side.len() - j,
            {
                proof {
                    let upto = seen + self@[i as int].take(j as int);
                    let next = seen + self@[i as int].take(j + 1);
                    assert(next =~= upto.push(side@[j as int]@));
                    upto.lemma_filter_push(side@[j as int]@, wanted);
                    assert(self@.take(i + 1) =~= self@.take(i as int).push(self@[i as int]));
                    self@.take(i as int).lemma_flatten_push(self@[i as int]);
                    lemma_flatten_prefix_len(self@, i + 1);
                }
                if side[j] == *symbol {
                    count += 1;
                }
                j += 1;
            }
            proof {
                assert(self@[i as int].take(j as int) =~= self@[i as int]);
                assert(self@.take(i + 1) =~= self@.take(i as int).push(self@[i as int]));
                self@.take(i as int).lemma_flatten_push(self@[i as int]);
            }
            i += 1;
        }
        assert(self@.take(i as int) =~= self@);
        count
    }
}

/// The first `n` members of a sequence of sequences flatten to no more
/// than all of them do.
proof fn lemma_flatten_prefix_len<A>(s: Seq<Seq<A>>, n: int)
    requires
        0 <= n <= s.len(),
    ensures
        s.take(n).flatten().len() <= s.flatten().len(),
    decreases s.len() - n,
{
    if n < s.len() {
        assert(s.take(n + 1) =~= s.take(n).push(s[n]));
        s.take(n).lemma_flatten_push(s[n]);
        lemma_flatten_prefix_len(s, n + 1);
    } else {
        assert(s.take(n) =~= s);
    }
}

} // verus!
