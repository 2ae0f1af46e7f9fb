//! The order of hands in the terms of the standard library.

use crate::day7::{hand_order, order_with, Hand, Rules};
use std::cmp::Ordering;
use vstd::prelude::*;

verus! {

impl<R: Rules> Hand<R> {
    /// Compares two hands as `cmp` does; every two hands can be compared.
    pub fn partial_cmp(&self, other: &Self) -> (r: Option<Ordering>)
        ensures
            match r {
                Some(Ordering::Less) => hand_order::<R>(self@.cards, other@.cards) == -1,
                Some(Ordering::Equal) => hand_order::<R>(self@.cards, other@.cards) == 0,
                Some(Ordering::Greater) => hand_order::<R>(self@.cards, other@.cards) == 1,
                None => false,
            },
    {
        Some(self.cmp(other))
    }

    /// Compares two hands: first by the strength of their kinds, then, for hands of
    /// one kind, card by card from the first.
    pub fn cmp(&self, other: &Self) -> (r: Ordering)
        ensures
            match r {
                Ordering::Less => hand_order::<R>(self@.cards, other@.cards) == -1,
                Ordering::Equal => hand_order::<R>(self@.cards, other@.cards) == 0,
                Ordering::Greater => hand_order::<R>(self@.cards, other@.cards) == 1,
            },
    {
        let o = order_with::<R>(self.outcome(), &self.cards, other.outcome(), &other.cards);
        if o < 0 {
            Ordering::Less
        } else if o > 0 {
            Ordering::Greater
        } else {
            Ordering::Equal
        }
    }
}

} // verus!
