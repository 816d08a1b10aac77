//! The iterator adaptors of `itertools` that the tile functions build on,
//! each behind a function whose contract states what the adaptor yields.
//!
//! The contracts in this file are not proved: they restate the documented
//! behaviour of the adaptors, on items that are plain integers.

use crate::distinct::first_occurrences;
use itertools::Itertools;
use vstd::prelude::*;

verus! {

/// A tile as three plain integers: zoom, column and row.
pub type TileKey = (u8, u32, u32);

/// Every pair of an item of `xs` with an item of `ys`, the pairs of one item
/// of `xs` together and in the order of `ys`.
pub open spec fn product_pairs(xs: Seq<u32>, ys: Seq<u32>) -> Seq<(u32, u32)> {
    Seq::new(
        xs.len() * ys.len(),
        |i: int| (xs[i / (ys.len() as int)], ys[i % (ys.len() as int)]),
    )
}

/// Runs `Itertools::cartesian_product` over the items of `xs` and `ys` and
/// collects what it yields.
///
/// Trusted: the adaptor pairs every item of the first iterator with every
/// item of the second, advancing the second iterator fastest, so the result is
/// `product_pairs`. The bound keeps the collected pairs within what one
/// allocation can hold.
#[verifier::external_body]
pub(crate) fn cartesian_product(xs: &Vec<u32>, ys: &Vec<u32>) -> (r: Vec<(u32, u32)>)
    requires
        xs@.len() * ys@.len() * 8 <= isize::MAX,
    ensures
        r@ == product_pairs(xs@, ys@),
{
    xs.iter().copied().cartesian_product(ys.iter().copied()).collect()
}

/// Runs `Itertools::unique` over `keys` and collects what it yields.
///
/// Trusted: the adaptor passes on each item that compares unequal to all
/// items before it and drops the others, without reordering, so the result is
/// `first_occurrences`.
#[verifier::external_body]
pub(crate) fn unique(keys: Vec<TileKey>) -> (r: Vec<TileKey>)
    ensures
        r@ == first_occurrences(keys@),
{
    keys.into_iter().unique().collect()
}

} // verus!
