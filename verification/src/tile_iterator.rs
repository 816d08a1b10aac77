//! Enumeration of the tiles of a rectangle of the grid, row by row.

use crate::adaptors::{unique, TileKey};
use crate::distinct::{
    first_occurrences, lemma_first_occurrences_distinct, lemma_first_occurrences_items,
    lemma_first_occurrences_map,
};
use crate::tile::{lemma_ancestor_step, Tile};
use std::ops::RangeInclusive;
use vstd::arithmetic::div_mod::{
    lemma_basic_div, lemma_div_plus_one, lemma_fundamental_div_mod, lemma_mod_add_multiples_vanish,
    lemma_small_mod,
};
use vstd::arithmetic::power2::lemma2_to64;
use vstd::prelude::*;
use vstd::std_specs::cmp::{PartialOrdIs, PartialOrdSpec};

verus! {

/// The numbers that a range of `u32` still holds, in ascending order.
pub open spec fn range_items(range: RangeInclusive<u32>) -> Seq<u32> {
    if range@.exhausted {
        Seq::empty()
    } else {
        span(range@.start, range@.end)
    }
}

/// The numbers from `first` to `last`, both included, in ascending order.
pub open spec fn span(first: u32, last: u32) -> Seq<u32> {
    if first > last {
        Seq::empty()
    } else {
        Seq::new((last - first + 1) as nat, |i: int| (first + i) as u32)
    }
}

/// The tiles at zoom `zoom` with a column of `xs` and a row of `ys`, row by
/// row: all columns for the first row, then all columns for the next.
pub open spec fn row_major(zoom: u8, xs: Seq<u32>, ys: Seq<u32>) -> Seq<Tile> {
    Seq::new(
        xs.len() * ys.len(),
        |i: int| Tile { zoom, x: xs[i % (xs.len() as int)], y: ys[i / (xs.len() as int)] },
    )
}

/// The tile and its ancestors up to zoom 0, the nearest first.
pub open spec fn ancestor_chain(tile: Tile) -> Seq<Tile> {
    Seq::new((tile.zoom + 1) as nat, |k: int| tile.spec_ancestor(k as nat).unwrap())
}

/// The ancestor chains of `tiles`, one after the other.
pub open spec fn ancestor_chains(tiles: Seq<Tile>) -> Seq<Tile>
    decreases tiles.len(),
{
    if tiles.len() == 0 {
        Seq::empty()
    } else {
        ancestor_chains(tiles.drop_last()) + ancestor_chain(tiles.last())
    }
}

/// The pyramid over `tiles`: the tiles and all their ancestors, each once,
/// at the place where the ancestor chains reach it first.
pub open spec fn pyramid_of(tiles: Seq<Tile>) -> Seq<Tile> {
    first_occurrences(ancestor_chains(tiles))
}

/// The tile that three plain integers stand for.
spec fn key_tile(key: TileKey) -> Tile {
    Tile { zoom: key.0, x: key.1, y: key.2 }
}

/// The tiles that a sequence of keys stands for.
spec fn key_tiles(keys: Seq<TileKey>) -> Seq<Tile> {
    keys.map_values(|key: TileKey| key_tile(key))
}

/// `RangeInclusive::start` gives the lower bound of a range that has not
/// been iterated to its end.
pub assume_specification<Idx>[ RangeInclusive::<Idx>::start ](range: &RangeInclusive<Idx>) -> (r:
    &Idx)
    ensures
        !range@.exhausted ==> *r == range@.start,
;

/// `RangeInclusive::end` gives the upper bound of a range that has not been
/// iterated to its end.
pub assume_specification<Idx>[ RangeInclusive::<Idx>::end ](range: &RangeInclusive<Idx>) -> (r:
    &Idx)
    ensures
        !range@.exhausted ==> *r == range@.end,
;

/// `RangeInclusive::is_empty` tells whether a range holds no item: it has
/// been iterated to its end, or its lower bound is not at or below its upper
/// bound.
pub assume_specification<Idx>[ RangeInclusive::<Idx>::is_empty ](
    range: &RangeInclusive<Idx>,
) -> (r: bool) where Idx: PartialOrd + PartialOrd
    ensures
        Idx::obeys_partial_cmp_spec() ==> r == (range@.exhausted || !range@.start.is_le(
            &range@.end,
        )),
;

/// A cursor over the tiles of a rectangle of the grid at one zoom level. It
/// gives the tiles row by row and, once through, gives nothing more.
pub struct TileIterator {
    zoom: u8,
    x_first: u32,
    x_last: u32,
    y_last: u32,
    x: u32,
    y: u32,
    done: bool,
}

impl View for TileIterator {
    type V = Seq<Tile>;

    /// The tiles that the cursor has yet to give, in order.
    closed spec fn view(&self) -> Seq<Tile> {
        if self.done {
            Seq::empty()
        } else {
            row_major(self.zoom, span(self.x_first, self.x_last), span(self.y, self.y_last)).skip(
                self.x - self.x_first,
            )
        }
    }
}

impl TileIterator {
    #[verifier::type_invariant]
    spec fn inv(&self) -> bool {
        self.done || (self.x_first <= self.x <= self.x_last && self.y <= self.y_last)
    }

    /// Creates a cursor over the tiles at `zoom` whose column is in `x_range`
    /// and whose row is in `y_range`.
    pub fn new(zoom: u8, x_range: RangeInclusive<u32>, y_range: RangeInclusive<u32>) -> (r: Self)
        ensures
            r@ == row_major(zoom, range_items(x_range), range_items(y_range)),
    {
        let empty = x_range.is_empty() || y_range.is_empty();
        if empty {
            let r = TileIterator { zoom, x_first: 0, x_last: 0, y_last: 0, x: 0, y: 0, done: true };
            assert(r@ =~= row_major(zoom, range_items(x_range), range_items(y_range))) by {
                assert(range_items(x_range).len() * range_items(y_range).len() == 0)
                    by (nonlinear_arith)
                    requires
                        range_items(x_range).len() == 0 || range_items(y_range).len() == 0,
                ;
            }
            r
        } else {
            let x_first = *x_range.start();
            let x_last = *x_range.end();
            let y_first = *y_range.start();
            let y_last = *y_range.end();
            let r = TileIterator {
                zoom,
                x_first,
                x_last,
                y_last,
                x: x_first,
                y: y_first,
                done: false,
            };
            assert(r@ =~= row_major(zoom, range_items(x_range), range_items(y_range)));
            r
        }
    }

    /// Gives the next tile and moves on, or gives `None` when no tile is left.
    pub fn next(&mut self) -> (r: Option<Tile>)
        ensures
            old(self)@.len() == 0 ==> r is None && final(self)@ == old(self)@,
            old(self)@.len() > 0 ==> r == Some(old(self)@[0]) && final(self)@ == old(self)@.skip(
                1,
            ),
    {
        proof {
            use_type_invariant(&*self);
        }
        if self.done {
            return None;
        }
        let tile = Tile { zoom: self.zoom, x: self.x, y: self.y };
        let ghost xs = span(self.x_first, self.x_last);
        let ghost ys = span(self.y, self.y_last);
        let ghost w = xs.len() as int;
        let ghost h = ys.len() as int;
        let ghost k = self.x - self.x_first;
        proof {
            lemma_small_mod(k as nat, w as nat);
            lemma_basic_div(k, w);
            assert(w * h >= w) by (nonlinear_arith)
                requires
                    w >= 1,
                    h >= 1,
            ;
            assert(old(self)@[0] == tile);
        }
        if self.x < self.x_last {
            self.x = self.x + 1;
            assert(final(self)@ =~= old(self)@.skip(1));
        } else if self.y < self.y_last {
            self.x = self.x_first;
            self.y = self.y + 1;
            proof {
                let below = span(self.y, self.y_last);
                assert(w * (h - 1) == w * h - w) by (nonlinear_arith);
                assert forall|i: int| 0 <= i < w * (h - 1) implies row_major(
                    self.zoom,
                    xs,
                    below,
                )[i] == row_major(self.zoom, xs, ys)[i + w] by {
                    lemma_div_plus_one(i, w);
                    lemma_mod_add_multiples_vanish(i, w);
                    lemma_fundamental_div_mod(i, w);
                    assert(0 <= i / w < h - 1) by (nonlinear_arith)
                        requires
                            0 <= i < w * (h - 1),
                            w >= 1,
                    ;
                }
                assert(final(self)@ =~= old(self)@.skip(1));
            }
        } else {
            self.done = true;
            proof {
                assert(w * h == w) by (nonlinear_arith)
                    requires
                        h == 1,
                ;
                assert(final(self)@ =~= old(self)@.skip(1));
            }
        }
        Some(tile)
    }

    /// Gives the pyramid over the tiles that are left: each tile followed by
    /// its ancestors up to zoom 0, without the tiles that were given before.
    pub fn pyramid(self) -> (r: Vec<Tile>)
        ensures
            r@ == pyramid_of(self@),
            r@.no_duplicates(),
            forall|tile: Tile| r@.contains(tile) <==> ancestor_chains(self@).contains(tile),
    {
        let base = self.collect();
        let mut keys: Vec<TileKey> = Vec::new();
        let mut i: usize = 0;
        while i < base.len()
            invariant
                i <= base.len(),
                key_tiles(keys@) == ancestor_chains(base@.take(i as int)),
            decreases base.len() - i,
        {
            let ghost before = keys@;
            let mut tile = base[i];
            let mut level: u8 = 0;
            keys.push((tile.zoom, tile.x, tile.y));
            let ghost chain = ancestor_chain(base@[i as int]);
            proof {
                lemma2_to64();
                assert(key_tiles(keys@) =~= key_tiles(before) + chain.take(1));
            }
            while tile.zoom > 0
                invariant
                    i < base.len(),
                    level <= base@[i as int].zoom,
                    chain == ancestor_chain(base@[i as int]),
                    Some(tile) == base@[i as int].spec_ancestor(level as nat),
                    key_tiles(keys@) == key_tiles(before) + chain.take(level + 1),
                decreases tile.zoom,
            {
                proof {
                    lemma_ancestor_step(base@[i as int], level as nat);
                }
                tile = tile.parent().unwrap();
                level = level + 1;
                let ghost earlier = keys@;
                keys.push((tile.zoom, tile.x, tile.y));
                proof {
                    assert(chain[level as int] == tile);
                    assert(chain.take(level + 1) =~= chain.take(level as int).push(tile));
                    assert(key_tiles(keys@) =~= key_tiles(earlier).push(tile));
                }
            }
            proof {
                assert(chain.take(level + 1) =~= chain);
                assert(base@.take(i + 1).drop_last() =~= base@.take(i as int));
            }
            i = i + 1;
        }
        assert(base@.take(i as int) =~= base@);
        let ghost all_keys = keys@;
        let kept = unique(keys);
        let mut r: Vec<Tile> = Vec::new();
        let mut j: usize = 0;
        while j < kept.len()
            invariant
                j <= kept.len(),
                r@ == key_tiles(kept@.take(j as int)),
            decreases kept.len() - j,
        {
            let key = kept[j];
            r.push(Tile { zoom: key.0, x: key.1, y: key.2 });
            j = j + 1;
            assert(r@ =~= key_tiles(kept@.take(j as int)));
        }
        proof {
            assert(kept@.take(j as int) =~= kept@);
            lemma_first_occurrences_map(all_keys, |key: TileKey| key_tile(key));
            assert(all_keys.map_values(|key: TileKey| key_tile(key)) =~= key_tiles(all_keys));
            assert(first_occurrences(all_keys).map_values(|key: TileKey| key_tile(key))
                =~= key_tiles(kept@));
            lemma_first_occurrences_distinct(ancestor_chains(self@));
            lemma_first_occurrences_items(ancestor_chains(self@));
        }
        r
    }

    /// Gives all the tiles that are left, in order.
    pub fn collect(self) -> (r: Vec<Tile>)
        ensures
            r@ == self@,
    {
        let mut cursor = self;
        let mut r: Vec<Tile> = Vec::new();
        loop
            invariant
                r@ + cursor@ == self@,
            decreases cursor@.len(),
        {
            match cursor.next() {
                None => {
                    assert(r@ =~= r@ + cursor@);
                    return r;
                },
                Some(tile) => {
                    r.push(tile);
                    assert(r@ + cursor@ =~= self@);
                },
            }
        }
    }
}

} // verus!
