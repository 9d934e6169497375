use vstd::prelude::*;

pub mod array;
pub mod binary_diagnostic;
pub mod bingo;
pub mod boat_races;
pub mod camel_cards;
pub mod cube_conundrum;
pub mod dive;
pub mod gear_ratios;
pub mod hydrothermal;
pub mod lanternfish;
pub mod parse;
pub mod scratchcards;
pub mod seven_segment;
pub mod sonar_sweep;
mod sorting;
pub mod syntax_scoring;
pub mod treachery_of_whales;
pub mod trebuchet;

verus! {

/// Returns `a` when `condition` holds and `b` otherwise.
pub fn select<T>(condition: bool, a: T, b: T) -> (r: T)
    ensures
        r == (if condition { a } else { b }),
{
    if condition {
        a
    } else {
        b
    }
}

} // verus!
