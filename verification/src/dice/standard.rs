//! The common polyhedral dice: side `i` of each shows `i + 1` pips.

use crate::dice::{Die, DieSide, DieSymbol};
use vstd::prelude::*;
use vstd::string::StringExecFns;

verus! {

/// A side that shows `n` pips.
pub open spec fn pips(n: nat) -> Seq<Seq<char>> {
    Seq::new(n, |i: int| "Pip"@)
}

/// The die of `n` sides whose sides show one pip, two pips, and so on.
pub open spec fn standard_die(n: nat) -> Seq<Seq<Seq<char>>> {
    Seq::new(n, |i: int| pips((i + 1) as nat))
}

fn side_of_n_symbols(n: usize, symbol: &DieSymbol) -> (r: DieSide)
    ensures
        r@ == Seq::new(n as nat, |i: int| symbol@),
{
    let mut symbols: Vec<DieSymbol> = Vec::new();
    let mut i: usize = 0;
    while i < n
        invariant
            i <= n,
            crate::dice::names(symbols@) =~= Seq::new(i as nat, |k: int| symbol@),
        decreases n - i,
    {
        let ghost before = crate::dice::names(symbols@);
        let copy = symbol.clone();
        symbols.push(copy);
        assert(crate::dice::names(symbols@) =~= before.push(copy@));
        i += 1;
    }
    DieSide::new(symbols)
}

pub(crate) fn n_sided_die(n: usize) -> (r: Die)
    requires
        2 <= n,
    ensures
        r@ == standard_die(n as nat),
{
    let pip = pip();
    let mut sides: Vec<DieSide> = Vec::new();
    let mut i: usize = 0;
    while i < n
        invariant
            i <= n,
            pip@ == "Pip"@,
            crate::dice::faces(sides@) =~= standard_die(i as nat),
        decreases n - i,
    {
        let ghost before = crate::dice::faces(sides@);
        let side = side_of_n_symbols(i + 1, &pip);
        sides.push(side);
        assert(crate::dice::faces(sides@) =~= before.push(side@));
        i += 1;
    }
    Die::new(sides).unwrap()
}

/// The symbol that the standard dice show.
pub fn pip() -> (r: DieSymbol)
    ensures
        r@ == "Pip"@,
{
    proof {
        reveal_strlit("Pip");
    }
    DieSymbol { name: String::from_str("Pip") }
}

/// A standard 4 sided die.
pub fn d4() -> (r: Die)
    ensures
        r@ == standard_die(4),
{
    n_sided_die(4)
}

/// A standard 6 sided die.
pub fn d6() -> (r: Die)
    ensures
        r@ == standard_die(6),
{
    n_sided_die(6)
}

/// A standard 8 sided die.
pub fn d8() -> (r: Die)
    ensures
        r@ == standard_die(8),
{
    n_sided_die(8)
}

/// A standard 10 sided die.
pub fn d10() -> (r: Die)
    ensures
        r@ == standard_die(10),
{
    n_sided_die(10)
}

/// A standard 12 sided die.
pub fn d12() -> (r: Die)
    ensures
        r@ == standard_die(12),
{
    n_sided_die(12)
}

/// A standard 20 sided die.
pub fn d20() -> (r: Die)
    ensures
        r@ == standard_die(20),
{
    n_sided_die(20)
}

} // verus!
