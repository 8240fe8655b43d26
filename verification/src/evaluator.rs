//! Hand strength classes: the 7462 totally ordered equivalency classes a
//! five-to-seven-card hand can map to, and the category each class belongs
//! to. Classes are scored best to worst starting with the smallest value.

use vstd::prelude::*;

verus! {

/// The class of a poker hand, best to worst.
#[derive(Eq, PartialEq, Ord, PartialOrd, Copy, Clone, Debug)]
pub enum Category {
    StraightFlush,
    FourOfAKind,
    FullHouse,
    Flush,
    Straight,
    ThreeOfAKind,
    TwoPair,
    Pair,
    HighCard,
}

/// The category a strength class belongs to.
pub open spec fn spec_category(c: u32) -> Category {
    if c <= 10 {
        Category::StraightFlush
    } else if c <= 166 {
        Category::FourOfAKind
    } else if c <= 322 {
        Category::FullHouse
    } else if c <= 1599 {
        Category::Flush
    } else if c <= 1609 {
        Category::Straight
    } else if c <= 2463 {
        Category::ThreeOfAKind
    } else if c <= 3325 {
        Category::TwoPair
    } else if c <= 6185 {
        Category::Pair
    } else {
        Category::HighCard
    }
}

/// Category a strength class belongs to. A class is an integer 1..=7462
/// standing for one of the equivalency classes of a poker hand; the bands
/// of the numbering map to the nine categories. The numbering's
/// three-of-a-kind band ends at 2463 and its two-pair band starts at 2468,
/// so the values 2464..=2467 — like 0 or anything above 7462 — name no
/// class and are deliberately left out of the precondition.
pub fn category(class: &u32) -> (r: Category)
    requires
        1 <= *class <= 7462,
        !(2464 <= *class <= 2467),
    ensures
        r == spec_category(*class),
{
    let c = *class;
    if c <= 10 {
        Category::StraightFlush
    } else if c <= 166 {
        Category::FourOfAKind
    } else if c <= 322 {
        Category::FullHouse
    } else if c <= 1599 {
        Category::Flush
    } else if c <= 1609 {
        Category::Straight
    } else if c <= 2463 {
        Category::ThreeOfAKind
    } else if c <= 3325 {
        Category::TwoPair
    } else if c <= 6185 {
        Category::Pair
    } else {
        Category::HighCard
    }
}

} // verus!
