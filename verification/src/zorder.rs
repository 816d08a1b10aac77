//! Z-order (Morton) keys of tiles and sorting by them.

use crate::tile::Tile;
use vstd::arithmetic::div_mod::lemma_div_denominator;
use vstd::arithmetic::power2::{
    lemma2_to64, lemma2_to64_rest, lemma_pow2_adds, lemma_pow2_pos, lemma_pow2_strictly_increases,
    lemma_pow2_unfold, pow2,
};
use vstd::bits::lemma_u32_shr_is_div;
use vstd::multiset::{lemma_insert_increases_count_by_1, lemma_insert_other_elements_unchanged};
use vstd::prelude::*;
use vstd::seq_lib::{to_multiset_build, to_multiset_contains, to_multiset_len};

verus! {

/// The number whose bit `2 * i` is bit `i` of `v`, for the lowest `bits` bits
/// of `v`, and whose other bits are 0.
pub open spec fn spread_bits(v: nat, bits: nat) -> nat
    decreases bits,
{
    if bits == 0 {
        0
    } else {
        v % 2 + 4 * spread_bits(v / 2, (bits - 1) as nat)
    }
}

/// Bit `i` of `v`, counted from the lowest.
pub open spec fn bit(v: nat, i: nat) -> nat {
    (v / pow2(i)) % 2
}

/// Spreading `bits` bits gives a number below `4^bits`.
pub proof fn lemma_spread_bits_bound(v: nat, bits: nat)
    ensures
        spread_bits(v, bits) < pow2(2 * bits),
    decreases bits,
{
    lemma2_to64();
    if bits > 0 {
        lemma_spread_bits_bound(v / 2, (bits - 1) as nat);
        lemma_pow2_adds(2, (2 * (bits - 1)) as nat);
    }
}

impl Tile {
    /// The Morton code of the tile: the bits of `x` at the even places and
    /// the bits of `y` at the odd places. The zoom has no part in it.
    pub open spec fn spec_morton_code(self) -> nat {
        spread_bits(self.x as nat, 32) + 2 * spread_bits(self.y as nat, 32)
    }

    /// Spreads the bits of `v` over the even places of a 64-bit number.
    pub fn interleave(v: u32) -> (r: u64)
        ensures
            r == spread_bits(v as nat, 32),
            r & 0xaaaa_aaaa_aaaa_aaaa == 0,
    {
        let mut result: u64 = 0;
        let mut i: u32 = 32;
        proof {
            lemma2_to64();
            assert(0u64 & 0xaaaa_aaaa_aaaa_aaaa == 0) by (bit_vector);
            assert(v as nat / pow2(32) == 0);
            assert(spread_bits(0, 0) == 0);
        }
        while i > 0
            invariant
                i <= 32,
                result == spread_bits(v as nat / pow2(i as nat), (32 - i) as nat),
                result & 0xaaaa_aaaa_aaaa_aaaa == 0,
            decreases i,
        {
            let ghost above = v as nat / pow2(i as nat);
            i = i - 1;
            let low = ((v >> i) & 1) as u64;
            let ghost here = v as nat / pow2(i as nat);
            proof {
                lemma_pow2_pos(i as nat);
                lemma_pow2_unfold((i + 1) as nat);
                lemma_div_denominator(v as int, pow2(i as nat) as int, 2);
                assert(here / 2 == above);
                lemma_u32_shr_is_div(v, i);
                let shifted = v >> i;
                assert(shifted & 1 == shifted % 2) by (bit_vector);
                assert(low == here % 2);
                lemma_spread_bits_bound(above, (31 - i) as nat);
                if i > 0 {
                    lemma_pow2_strictly_increases((2 * (31 - i)) as nat, 62);
                }
                lemma2_to64_rest();
                assert(result < 0x4000_0000_0000_0000);
                assert((result << 2) | low == 4 * result + low && ((result << 2) | low)
                    & 0xaaaa_aaaa_aaaa_aaaa == 0) by (bit_vector)
                    requires
                        result < 0x4000_0000_0000_0000,
                        result & 0xaaaa_aaaa_aaaa_aaaa == 0,
                        low <= 1,
                ;
            }
            result = (result << 2) | low;
        }
        proof {
            lemma2_to64();
            assert(v as nat / pow2(0) == v);
        }
        result
    }

    /// Returns the Morton code of the tile, its key on the Z-order curve.
    #[must_use]
    pub fn morton_code(&self) -> (r: u64)
        ensures
            r == self.spec_morton_code(),
    {
        let even = Self::interleave(self.x);
        let odd = Self::interleave(self.y);
        proof {
            lemma_spread_bits_bound(self.x as nat, 32);
            lemma_spread_bits_bound(self.y as nat, 32);
            lemma2_to64();
            assert(even | (odd << 1) == even + 2 * odd) by (bit_vector)
                requires
                    even & 0xaaaa_aaaa_aaaa_aaaa == 0,
                    odd & 0xaaaa_aaaa_aaaa_aaaa == 0,
            ;
        }
        even | (odd << 1)
    }
}

/// Whether the Morton codes of `tiles` ascend from each tile to the next.
pub open spec fn ascending(tiles: Seq<Tile>) -> bool {
    forall|i: int, j: int|
        0 <= i < j < tiles.len() ==> (#[trigger] tiles[i]).spec_morton_code() <= (
        #[trigger] tiles[j]).spec_morton_code()
}

/// The tiles of `tiles` whose Morton code is `code`, in their order.
pub open spec fn with_code(tiles: Seq<Tile>, code: nat) -> Seq<Tile> {
    tiles.filter(|tile: Tile| tile.spec_morton_code() == code)
}

/// Whether `after` holds the tiles of `before` with tiles of equal Morton
/// code in the order they had.
pub open spec fn keeps_order_within_codes(before: Seq<Tile>, after: Seq<Tile>) -> bool {
    forall|code: nat| #[trigger] with_code(after, code) == with_code(before, code)
}

/// A tile with its Morton code beside it.
type Coded = (u64, Tile);

/// The tiles of `items`, without their codes.
spec fn tiles_of(items: Seq<Coded>) -> Seq<Tile> {
    items.map_values(|item: Coded| item.1)
}

/// Whether each item of `items` holds the Morton code of its tile.
spec fn well_coded(items: Seq<Coded>) -> bool {
    forall|i: int|
        0 <= i < items.len() ==> (#[trigger] items[i]).0 == items[i].1.spec_morton_code()
}

/// The tiles of a code among `tiles` and one more tile: the more tile comes
/// last if it has the code, and is not among them if it has another.
proof fn lemma_with_code_push(tiles: Seq<Tile>, tile: Tile, code: nat)
    ensures
        with_code(tiles.push(tile), code) == if tile.spec_morton_code() == code {
            with_code(tiles, code).push(tile)
        } else {
            with_code(tiles, code)
        },
{
    reveal(Seq::filter);
    assert(tiles.push(tile).drop_last() =~= tiles);
}

/// Where no tile has the code, the tiles of the code are none.
proof fn lemma_with_code_none(tiles: Seq<Tile>, code: nat)
    requires
        forall|i: int| 0 <= i < tiles.len() ==> (#[trigger] tiles[i]).spec_morton_code() != code,
    ensures
        with_code(tiles, code) == Seq::<Tile>::empty(),
    decreases tiles.len(),
{
    reveal(Seq::filter);
    if tiles.len() > 0 {
        let front = tiles.drop_last();
        assert forall|i: int| 0 <= i < front.len() implies (#[trigger] front[i]).spec_morton_code()
            != code by {
            assert(front[i] == tiles[i]);
        }
        lemma_with_code_none(front, code);
    }
}

/// A tile occurs as often among the tiles of its code as among all tiles.
proof fn lemma_with_code_count(tiles: Seq<Tile>, tile: Tile)
    ensures
        with_code(tiles, tile.spec_morton_code()).to_multiset().count(tile)
            == tiles.to_multiset().count(tile),
    decreases tiles.len(),
{
    let code = tile.spec_morton_code();
    if tiles.len() == 0 {
        lemma_with_code_none(tiles, code);
        to_multiset_contains(tiles, tile);
        to_multiset_contains(Seq::<Tile>::empty(), tile);
    } else {
        let front = tiles.drop_last();
        let last = tiles.last();
        let chosen = with_code(front, code);
        lemma_with_code_count(front, tile);
        assert(tiles =~= front.push(last));
        lemma_with_code_push(front, last, code);
        to_multiset_build(front, last);
        to_multiset_build(chosen, last);
        if last == tile {
            lemma_insert_increases_count_by_1(front.to_multiset(), tile);
            lemma_insert_increases_count_by_1(chosen.to_multiset(), tile);
        } else {
            lemma_insert_other_elements_unchanged(front.to_multiset(), last, tile);
            lemma_insert_other_elements_unchanged(chosen.to_multiset(), last, tile);
        }
    }
}

/// Tiles that were rearranged within the order of each code are the same
/// tiles, each as often as before.
pub proof fn lemma_keeps_order_keeps_tiles(before: Seq<Tile>, after: Seq<Tile>)
    requires
        keeps_order_within_codes(before, after),
    ensures
        before.to_multiset() == after.to_multiset(),
        before.len() == after.len(),
{
    assert forall|tile: Tile|
        before.to_multiset().count(tile) == after.to_multiset().count(tile) by {
        lemma_with_code_count(before, tile);
        lemma_with_code_count(after, tile);
        assert(with_code(after, tile.spec_morton_code()) == with_code(
            before,
            tile.spec_morton_code(),
        ));
    }
    assert(before.to_multiset() =~= after.to_multiset());
    to_multiset_len(before);
    to_multiset_len(after);
}

/// Merges two ascending runs into one. Of two tiles with the same code, the
/// one from `left` comes first.
fn merge(left: &Vec<Coded>, right: &Vec<Coded>) -> (out: Vec<Coded>)
    requires
        well_coded(left@),
        well_coded(right@),
        ascending(tiles_of(left@)),
        ascending(tiles_of(right@)),
    ensures
        well_coded(out@),
        ascending(tiles_of(out@)),
        out@.len() == left@.len() + right@.len(),
        forall|code: nat| #[trigger]
            with_code(tiles_of(out@), code) == with_code(tiles_of(left@), code) + with_code(
                tiles_of(right@),
                code,
            ),
{
    let mut out: Vec<Coded> = Vec::new();
    let mut i: usize = 0;
    let mut j: usize = 0;
    let ghost lefts = tiles_of(left@);
    let ghost rights = tiles_of(right@);
    proof {
        assert forall|code: nat| #[trigger]
            with_code(tiles_of(out@), code) == with_code(lefts.take(0), code) + with_code(
                rights.take(0),
                code,
            ) by {
            lemma_with_code_none(tiles_of(out@), code);
            lemma_with_code_none(lefts.take(0), code);
            lemma_with_code_none(rights.take(0), code);
        }
    }
    while i < left.len() || j < right.len()
        invariant
            i <= left.len(),
            j <= right.len(),
            lefts == tiles_of(left@),
            rights == tiles_of(right@),
            well_coded(left@),
            well_coded(right@),
            ascending(lefts),
            ascending(rights),
            well_coded(out@),
            ascending(tiles_of(out@)),
            out@.len() == i + j,
            forall|k: int|
                0 <= k < out@.len() && i < left@.len() ==> (#[trigger] out@[k]).0
                    <= left@[i as int].0,
            forall|k: int|
                0 <= k < out@.len() && j < right@.len() ==> (#[trigger] out@[k]).0
                    <= right@[j as int].0,
            forall|k: int|
                0 <= k < j && i < left@.len() ==> (#[trigger] right@[k]).0 < left@[i as int].0,
            forall|code: nat| #[trigger]
                with_code(tiles_of(out@), code) == with_code(lefts.take(i as int), code)
                    + with_code(rights.take(j as int), code),
        decreases left.len() - i + (right.len() - j),
    {
        let ghost before = out@;
        let take_left = if i == left.len() {
            false
        } else if j == right.len() {
            true
        } else {
            left[i].0 <= right[j].0
        };
        if take_left {
            let item = left[i];
            out.push(item);
            proof {
                assert(tiles_of(out@) =~= tiles_of(before).push(item.1));
                assert(lefts.take(i + 1) =~= lefts.take(i as int).push(item.1));
                assert(lefts[i as int] == item.1);
                assert forall|a: int, b: int| 0 <= a < b < tiles_of(out@).len() implies (
                #[trigger] tiles_of(out@)[a]).spec_morton_code() <= (#[trigger] tiles_of(
                    out@,
                )[b]).spec_morton_code() by {
                    if b < before.len() {
                        assert(tiles_of(before)[a] == tiles_of(out@)[a]);
                        assert(tiles_of(before)[b] == tiles_of(out@)[b]);
                    } else {
                        assert(before[a].0 <= item.0);
                    }
                }
                if i + 1 < left@.len() {
                    assert(lefts[i as int].spec_morton_code() <= lefts[i + 1].spec_morton_code());
                    assert(lefts[i + 1] == left@[i + 1].1);
                }
                assert forall|code: nat| #[trigger]
                    with_code(tiles_of(out@), code) == with_code(lefts.take(i + 1), code)
                        + with_code(rights.take(j as int), code) by {
                    lemma_with_code_push(tiles_of(before), item.1, code);
                    lemma_with_code_push(lefts.take(i as int), item.1, code);
                    let earlier = with_code(tiles_of(before), code);
                    assert(earlier == with_code(lefts.take(i as int), code) + with_code(
                        rights.take(j as int),
                        code,
                    ));
                    if item.1.spec_morton_code() == code {
                        assert forall|k: int| 0 <= k < rights.take(j as int).len() implies (
                        #[trigger] rights.take(j as int)[k]).spec_morton_code() != code by {
                            assert(right@[k].0 < left@[i as int].0);
                            assert(rights[k] == right@[k].1);
                        }
                        lemma_with_code_none(rights.take(j as int), code);
                        assert(earlier.push(item.1) =~= with_code(lefts.take(i as int), code).push(
                            item.1,
                        ) + with_code(rights.take(j as int), code));
                    }
                }
            }
            i = i + 1;
        } else {
            let item = right[j];
            out.push(item);
            proof {
                assert(tiles_of(out@) =~= tiles_of(before).push(item.1));
                assert(rights.take(j + 1) =~= rights.take(j as int).push(item.1));
                assert(rights[j as int] == item.1);
                assert forall|a: int, b: int| 0 <= a < b < tiles_of(out@).len() implies (
                #[trigger] tiles_of(out@)[a]).spec_morton_code() <= (#[trigger] tiles_of(
                    out@,
                )[b]).spec_morton_code() by {
                    if b < before.len() {
                        assert(tiles_of(before)[a] == tiles_of(out@)[a]);
                        assert(tiles_of(before)[b] == tiles_of(out@)[b]);
                    } else {
                        assert(before[a].0 <= item.0);
                    }
                }
                if j + 1 < right@.len() {
                    assert(rights[j as int].spec_morton_code() <= rights[j + 1].spec_morton_code());
                    assert(rights[j + 1] == right@[j + 1].1);
                }
                assert forall|code: nat| #[trigger]
                    with_code(tiles_of(out@), code) == with_code(lefts.take(i as int), code)
                        + with_code(rights.take(j + 1), code) by {
                    lemma_with_code_push(tiles_of(before), item.1, code);
                    lemma_with_code_push(rights.take(j as int), item.1, code);
                    let earlier = with_code(tiles_of(before), code);
                    assert(earlier == with_code(lefts.take(i as int), code) + with_code(
                        rights.take(j as int),
                        code,
                    ));
                    if item.1.spec_morton_code() == code {
                        assert(earlier.push(item.1) =~= with_code(lefts.take(i as int), code)
                            + with_code(rights.take(j as int), code).push(item.1));
                    }
                }
            }
            j = j + 1;
        }
    }
    proof {
        assert(lefts.take(i as int) =~= lefts);
        assert(rights.take(j as int) =~= rights);
    }
    out
}

/// Sorts the items `from .. to` of `items` into a run of their own, by
/// halving and merging.
fn sorted_run(items: &Vec<Coded>, from: usize, to: usize) -> (out: Vec<Coded>)
    requires
        from <= to <= items@.len(),
        well_coded(items@),
    ensures
        well_coded(out@),
        ascending(tiles_of(out@)),
        out@.len() == to - from,
        keeps_order_within_codes(tiles_of(items@.subrange(from as int, to as int)), tiles_of(out@)),
    decreases to - from,
{
    let ghost given = tiles_of(items@.subrange(from as int, to as int));
    if to - from <= 1 {
        let mut out: Vec<Coded> = Vec::new();
        if from < to {
            out.push(items[from]);
        }
        assert(tiles_of(out@) =~= given);
        out
    } else {
        let mid = from + (to - from) / 2;
        let left = sorted_run(items, from, mid);
        let right = sorted_run(items, mid, to);
        let out = merge(&left, &right);
        proof {
            let first = tiles_of(items@.subrange(from as int, mid as int));
            let second = tiles_of(items@.subrange(mid as int, to as int));
            assert(given =~= first + second);
            assert forall|code: nat| #[trigger]
                with_code(tiles_of(out@), code) == with_code(given, code) by {
                assert(with_code(tiles_of(left@), code) == with_code(first, code));
                assert(with_code(tiles_of(right@), code) == with_code(second, code));
                Seq::filter_distributes_over_add(
                    first,
                    second,
                    |tile: Tile| tile.spec_morton_code() == code,
                );
            }
        }
        out
    }
}

impl Tile {
    /// Sorts `tiles` by Morton code, ascending, and leaves tiles of equal
    /// code in the order they had. The zoom has no part in the order.
    pub fn sort_by_zorder(tiles: &mut [Tile])
        ensures
            ascending(final(tiles)@),
            keeps_order_within_codes(old(tiles)@, final(tiles)@),
            final(tiles)@.to_multiset() == old(tiles)@.to_multiset(),
    {
        let n = tiles.len();
        let mut items: Vec<Coded> = Vec::new();
        let mut k: usize = 0;
        while k < n
            invariant
                k <= n,
                n == tiles@.len(),
                tiles@ == old(tiles)@,
                well_coded(items@),
                items@.len() == k,
                tiles_of(items@) == tiles@.take(k as int),
            decreases n - k,
        {
            let ghost before = items@;
            let tile = tiles[k];
            items.push((tile.morton_code(), tile));
            proof {
                assert(tiles_of(items@) =~= tiles_of(before).push(tile));
                assert(tiles@.take(k + 1) =~= tiles@.take(k as int).push(tile));
            }
            k = k + 1;
        }
        assert(items@.subrange(0, n as int) =~= items@);
        assert(tiles@.take(n as int) =~= tiles@);
        let sorted = sorted_run(&items, 0, n);
        k = 0;
        while k < n
            invariant
                k <= n,
                n == tiles@.len(),
                n == sorted@.len(),
                tiles@.take(k as int) == tiles_of(sorted@).take(k as int),
            decreases n - k,
        {
            tiles[k] = sorted[k].1;
            k = k + 1;
            assert(tiles@.take(k as int) =~= tiles_of(sorted@).take(k as int));
        }
        proof {
            assert(tiles@.take(n as int) =~= tiles@);
            assert(tiles_of(sorted@).take(n as int) =~= tiles_of(sorted@));
            lemma_keeps_order_keeps_tiles(old(tiles)@, tiles@);
        }
    }
}

/// Dividing `low + 4 * high` by `4 * d` gives `high / d`, for `low` below 4.
proof fn lemma_drop_two_bits(low: nat, high: nat, d: nat)
    requires
        low < 4,
        d > 0,
    ensures
        (low + 4 * high) / (4 * d) == high / d,
{
    lemma_div_denominator((low + 4 * high) as int, 4, d as int);
}

/// The sum of the spread bits of `x` and twice the spread bits of `y` has
/// bit `i` of `x` at place `2 * i` and bit `i` of `y` at place `2 * i + 1`.
proof fn lemma_interleaved_bits(x: nat, y: nat, bits: nat, i: nat)
    requires
        i < bits,
    ensures
        bit(spread_bits(x, bits) + 2 * spread_bits(y, bits), 2 * i) == bit(x, i),
        bit(spread_bits(x, bits) + 2 * spread_bits(y, bits), 2 * i + 1) == bit(y, i),
    decreases i,
{
    lemma2_to64();
    let low = x % 2 + 2 * (y % 2);
    let rest = (bits - 1) as nat;
    let high = spread_bits(x / 2, rest) + 2 * spread_bits(y / 2, rest);
    assert(spread_bits(x, bits) + 2 * spread_bits(y, bits) == low + 4 * high);
    if i == 0 {
        assert((low + 4 * high) / 2 == y % 2 + 2 * high);
    } else {
        let below = (i - 1) as nat;
        lemma_interleaved_bits(x / 2, y / 2, rest, below);
        lemma_pow2_pos(2 * below);
        lemma_pow2_pos(2 * below + 1);
        lemma_pow2_pos(below);
        lemma_pow2_adds(2, 2 * below);
        lemma_pow2_adds(2, 2 * below + 1);
        lemma_pow2_adds(1, below);
        lemma_drop_two_bits(low, high, pow2(2 * below));
        lemma_drop_two_bits(low, high, pow2(2 * below + 1));
        lemma_div_denominator(x as int, 2, pow2(below) as int);
        lemma_div_denominator(y as int, 2, pow2(below) as int);
    }
}

/// The Morton code of a tile has bit `i` of `x` at place `2 * i` and bit `i`
/// of `y` at place `2 * i + 1`.
pub proof fn lemma_morton_code_bits(tile: Tile, i: nat)
    requires
        i < 32,
    ensures
        bit(tile.spec_morton_code(), 2 * i) == bit(tile.x as nat, i),
        bit(tile.spec_morton_code(), 2 * i + 1) == bit(tile.y as nat, i),
{
    lemma_interleaved_bits(tile.x as nat, tile.y as nat, 32, i);
}

/// Tiles with the same column and row have the same Morton code, whatever
/// their zoom.
pub proof fn lemma_morton_code_ignores_zoom(a: Tile, b: Tile)
    requires
        a.x == b.x,
        a.y == b.y,
    ensures
        a.spec_morton_code() == b.spec_morton_code(),
{
}

} // verus!
