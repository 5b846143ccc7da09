//! Ordering power metrics newest first, and pairing neighbours, with
//! `itertools`.

use vstd::prelude::*;
use std::cmp::Ordering;
use itertools::Itertools;
use crate::intervals::entry_at;

verus! {

/// Compares two `(time stamp, position)` entries so that the later time
/// stamp comes first; entries with equal time stamps compare equal.
pub fn newer_first(a: &(i64, usize), b: &(i64, usize)) -> (o: Ordering)
    ensures
        (o == Ordering::Less) <==> a.0 > b.0,
        (o == Ordering::Equal) <==> a.0 == b.0,
        (o == Ordering::Greater) <==> a.0 < b.0,
{
    if a.0 > b.0 {
        Ordering::Less
    } else if a.0 == b.0 {
        Ordering::Equal
    } else {
        Ordering::Greater
    }
}

/// Sorts `(time stamp, position)` entries with `Itertools::sorted_by` and
/// `newer_first`, which collects them into a `Vec` and applies the stable
/// `slice::sort_by`. Claimed of that call, for entries whose second field
/// is their position in `items`: the result holds each entry of `items`
/// exactly once, later time stamps come first, and entries with equal time
/// stamps keep their order (their positions increase).
#[verifier::external_body]
pub(crate) fn sort_newest_first(items: Vec<(i64, usize)>) -> (sorted: Vec<(i64, usize)>)
    requires
        forall|i: int| 0 <= i < items@.len() ==> (#[trigger] items@[i]).1 == i,
    ensures
        sorted@.len() == items@.len(),
        forall|i: int| 0 <= i < items@.len() ==> sorted@.contains(#[trigger] items@[i]),
        forall|k: int|
            0 <= k < sorted@.len() ==> (#[trigger] sorted@[k]).1 < items@.len()
                && sorted@[k] == entry_at(items@, sorted@[k].1),
        forall|k: int, l: int|
            0 <= k < l < sorted@.len() ==> (#[trigger] sorted@[k]).0 >= (#[trigger] sorted@[l]).0,
        forall|k: int, l: int|
            0 <= k < l < sorted@.len() && (#[trigger] sorted@[k]).0 == (#[trigger] sorted@[l]).0
                ==> sorted@[k].1 < sorted@[l].1,
{
    items.into_iter().sorted_by(|a, b| newer_first(a, b)).collect()
}

/// Pairs each entry with the one after it, with `Itertools::tuple_windows`.
/// Claimed of that call: there is one pair fewer than entries (none for no
/// entry), and pair `k` is entries `k` and `k + 1`.
#[verifier::external_body]
pub(crate) fn consecutive_pairs(items: Vec<(i64, usize)>) -> (pairs: Vec<((i64, usize), (i64, usize))>)
    ensures
        items@.len() == 0 ==> pairs@.len() == 0,
        items@.len() > 0 ==> pairs@.len() + 1 == items@.len(),
        forall|k: int|
            0 <= k < pairs@.len() ==> (#[trigger] pairs@[k]) == (items@[k], items@[k + 1]),
{
    items.into_iter().tuple_windows().collect()
}

} // verus!
