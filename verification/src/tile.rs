//! Tile identities and navigation in the quad-tree.

use crate::adaptors::{cartesian_product, product_pairs};
use vstd::arithmetic::div_mod::{
    lemma_div_denominator, lemma_fundamental_div_mod, lemma_mod_bound, lemma_mod_multiples_vanish,
    lemma_small_mod,
};
use vstd::arithmetic::power::pow;
use vstd::arithmetic::power2::{
    lemma2_to64, lemma_pow2_adds, lemma_pow2_pos, lemma_pow2_strictly_increases,
    lemma_pow2_unfold, pow2,
};
use vstd::bits::{lemma_u32_low_bits_mask_is_mod, lemma_u64_shl_is_mul, low_bits_mask};
use vstd::prelude::*;

verus! {

/// One cell of the quad-tree: column `x` and row `y` of the grid at depth `zoom`.
///
/// The grid at depth `zoom` has `2^zoom` cells on each axis. The coordinates
/// are not checked against that bound.
#[derive(Debug, Clone, Copy, PartialEq, Eq, Hash, Structural)]
pub struct Tile {
    pub zoom: u8,
    pub x: u32,
    pub y: u32,
}

/// Twice `v`, kept to 32 bits: the coordinate of the first of the two cells
/// that cover cell `v` one level down.
pub open spec fn doubled(v: u32) -> u32 {
    ((2 * v) % 0x1_0000_0000) as u32
}

/// `2^e` as a machine integer.
fn pow2_u64(e: u8) -> (r: u64)
    requires
        e < 64,
    ensures
        r == pow2(e as nat),
{
    proof {
        lemma_pow2_pos(e as nat);
        lemma_pow2_strictly_increases(e as nat, 64);
        lemma2_to64();
        lemma_u64_shl_is_mul(1, e as u64);
    }
    1u64 << (e as u64)
}

/// `v - shift` brought into `0 .. width` by adding or taking away multiples
/// of `width`.
fn wrap_coordinate(v: u64, shift: u8, width: u64) -> (r: u32)
    requires
        0 < width <= 0x1_0000_0000,
        v <= 0x2_0000_0200,
    ensures
        r == (v - shift) % (width as int),
{
    let back = shift as u64 % width;
    proof {
        let q = shift as int / width as int;
        lemma_fundamental_div_mod(shift as int, width as int);
        assert(v + (width - back) == (1 + q) * width + (v - shift)) by (nonlinear_arith)
            requires
                shift == width * q + back,
        ;
        lemma_mod_multiples_vanish(1 + q, v - shift, width as int);
    }
    ((v + (width - back)) % width) as u32
}

/// The numbers `0 .. n` in order.
fn offsets(n: u32) -> (r: Vec<u32>)
    ensures
        r@ == Seq::new(n as nat, |i: int| i as u32),
{
    let mut r: Vec<u32> = Vec::new();
    let mut i: u32 = 0;
    while i < n
        invariant
            i <= n,
            r@ == Seq::new(i as nat, |k: int| k as u32),
        decreases n - i,
    {
        r.push(i);
        i = i + 1;
        assert(r@ =~= Seq::new(i as nat, |k: int| k as u32));
    }
    r
}

/// The tiles of `tiles`, each replaced by its four children.
pub open spec fn split_each(tiles: Seq<Tile>) -> Seq<Tile> {
    Seq::new(4 * tiles.len(), |i: int| tiles[i / 4].spec_child(i % 4))
}

impl Tile {
    /// Whether the tile lies in the grid of its zoom: column and row are
    /// below `2^zoom`.
    pub open spec fn spec_in_grid(self) -> bool {
        self.x < pow2(self.zoom as nat) && self.y < pow2(self.zoom as nat)
    }

    /// The tile one level up that contains this one, if there is a level up.
    pub open spec fn spec_parent(self) -> Option<Tile> {
        if self.zoom == 0 {
            None
        } else {
            Some(Tile { zoom: (self.zoom - 1) as u8, x: self.x / 2, y: self.y / 2 })
        }
    }

    /// The tile `rel_level` levels up that contains this one, if the tree
    /// reaches that far up.
    pub open spec fn spec_ancestor(self, rel_level: nat) -> Option<Tile> {
        if rel_level <= self.zoom {
            Some(
                Tile {
                    zoom: (self.zoom - rel_level) as u8,
                    x: (self.x as nat / pow2(rel_level)) as u32,
                    y: (self.y as nat / pow2(rel_level)) as u32,
                },
            )
        } else {
            None
        }
    }

    /// Child number `i` of this tile, counted by columns then rows from the
    /// top-left corner.
    pub open spec fn spec_child(self, i: int) -> Tile {
        Tile {
            zoom: (self.zoom + 1) as u8,
            x: (doubled(self.x) + i % 2) as u32,
            y: (doubled(self.y) + i / 2) as u32,
        }
    }

    /// The place of this tile inside its ancestor `rel_level` levels up:
    /// column and row, counted from the ancestor's top-left corner.
    pub open spec fn spec_sector_in_ancestor(self, rel_level: nat) -> (nat, nat) {
        (self.x as nat % pow2(rel_level), self.y as nat % pow2(rel_level))
    }

    /// The four children of this tile in their fixed order.
    pub open spec fn spec_children(self) -> Seq<Tile> {
        Seq::new(4, |i: int| self.spec_child(i))
    }

    /// The tiles that are `rel_level` levels below this one and inside it.
    /// Each level down puts the four children of a tile in its place.
    pub open spec fn spec_descendants(self, rel_level: nat) -> Seq<Tile>
        decreases rel_level,
    {
        if rel_level == 0 {
            seq![self]
        } else {
            split_each(self.spec_descendants((rel_level - 1) as nat))
        }
    }

    /// The tile of the buffered block of children at column offset `dx` and row
    /// offset `dy`: the offsets count from `buffer` cells before the first
    /// child, and positions that leave the grid one level down come back in
    /// at its opposite edge.
    pub open spec fn spec_buffered_child(self, buffer: u8, dx: int, dy: int) -> Tile {
        let width = pow2((self.zoom + 1) as nat) as int;
        Tile {
            zoom: (self.zoom + 1) as u8,
            x: ((2 * self.x + dx - buffer) % width) as u32,
            y: ((2 * self.y + dy - buffer) % width) as u32,
        }
    }

    /// The buffered block of children, column offset by column offset, each
    /// with its row offsets in order.
    pub open spec fn spec_children_buffered(self, buffer: u8) -> Seq<Tile> {
        let side = 2 * (buffer + 1);
        Seq::new(
            (side * side) as nat,
            |i: int| self.spec_buffered_child(buffer, i / side, i % side),
        )
    }

    /// The row index counted from the opposite edge of the grid.
    pub open spec fn spec_reversed_y(self) -> int {
        pow2(self.zoom as nat) - 1 - self.y
    }

    /// Returns the reversed y coordinate, `2^zoom - 1 - y`, which converts a
    /// row index between the XYZ and TMS conventions.
    #[must_use]
    pub fn reversed_y(&self) -> (r: u32)
        requires
            self.zoom <= 32,
            self.y < pow2(self.zoom as nat),
        ensures
            r == self.spec_reversed_y(),
    {
        proof {
            lemma2_to64();
        }
        if self.zoom == 32 {
            u32::MAX - self.y
        } else {
            let width = pow2_u64(self.zoom);
            proof {
                lemma_pow2_strictly_increases(self.zoom as nat, 32);
            }
            (width - 1 - self.y as u64) as u32
        }
    }

    /// Returns this tile with its y coordinate reversed.
    #[must_use]
    pub fn to_reversed_y(&self) -> (r: Tile)
        requires
            self.zoom <= 32,
            self.y < pow2(self.zoom as nat),
        ensures
            r.zoom == self.zoom,
            r.x == self.x,
            r.y == self.spec_reversed_y(),
    {
        Tile { zoom: self.zoom, x: self.x, y: self.reversed_y() }
    }

    /// Returns the parent tile: the tile of one less zoom that contains this
    /// tile, or `None` at zoom 0.
    #[must_use]
    pub fn parent(&self) -> (r: Option<Tile>)
        ensures
            r == self.spec_parent(),
    {
        if self.zoom == 0 {
            None
        } else {
            let x = self.x;
            let y = self.y;
            assert(x >> 1 == x / 2) by (bit_vector);
            assert(y >> 1 == y / 2) by (bit_vector);
            Some(Tile { x: self.x >> 1, y: self.y >> 1, zoom: self.zoom - 1 })
        }
    }

    /// Returns the ancestor `rel_level` levels up, or `None` when `rel_level`
    /// is more than this tile's zoom.
    #[must_use]
    pub fn ancestor(&self, rel_level: u8) -> (r: Option<Tile>)
        ensures
            r == self.spec_ancestor(rel_level as nat),
            rel_level == 0 ==> r == Some(*self),
    {
        proof {
            lemma2_to64();
        }
        let mut tile = *self;
        let mut level: u8 = 0;
        while level < rel_level
            invariant
                level <= rel_level,
                Some(tile) == self.spec_ancestor(level as nat),
            decreases rel_level - level,
        {
            match tile.parent() {
                None => {
                    return None;
                },
                Some(up) => {
                    proof {
                        lemma_ancestor_step(*self, level as nat);
                    }
                    tile = up;
                    level = level + 1;
                },
            }
        }
        Some(tile)
    }

    /// Returns the position of this tile inside its ancestor `rel_level`
    /// levels up, as column and row counted from the ancestor's top-left
    /// corner.
    #[must_use]
    pub fn sector_in_ancestor(&self, rel_level: u8) -> (r: (u32, u32))
        ensures
            r.0 == self.spec_sector_in_ancestor(rel_level as nat).0,
            r.1 == self.spec_sector_in_ancestor(rel_level as nat).1,
    {
        if rel_level >= 32 {
            proof {
                lemma2_to64();
                if rel_level > 32 {
                    lemma_pow2_strictly_increases(32, rel_level as nat);
                }
                lemma_small_mod(self.x as nat, pow2(rel_level as nat));
                lemma_small_mod(self.y as nat, pow2(rel_level as nat));
            }
            (self.x, self.y)
        } else {
            let width = pow2_u64(rel_level);
            proof {
                lemma_pow2_strictly_increases(rel_level as nat, 32);
                lemma2_to64();
            }
            let mask = (width - 1) as u32;
            proof {
                assert(mask == low_bits_mask(rel_level as nat) as u32);
                lemma_u32_low_bits_mask_is_mod(self.x, rel_level as nat);
                lemma_u32_low_bits_mask_is_mod(self.y, rel_level as nat);
            }
            (self.x & mask, self.y & mask)
        }
    }

    /// Returns the four children of this tile, in the order top-left,
    /// top-right, bottom-left, bottom-right.
    #[must_use]
    pub fn children(&self) -> (r: [Tile; 4])
        requires
            self.zoom < u8::MAX,
        ensures
            r@ == self.spec_children(),
    {
        let zoom = self.zoom + 1;
        let sx = self.x;
        let sy = self.y;
        assert(sx << 1 == doubled(sx) && (sx << 1) < 0xffff_ffff) by (bit_vector);
        assert(sy << 1 == doubled(sy) && (sy << 1) < 0xffff_ffff) by (bit_vector);
        let x = self.x << 1;
        let y = self.y << 1;
        let r = [
            Tile { zoom, x, y },
            Tile { zoom, x: x + 1, y },
            Tile { zoom, x, y: y + 1 },
            Tile { zoom, x: x + 1, y: y + 1 },
        ];
        assert(r@ =~= self.spec_children());
        r
    }

    /// Returns all descendants of this tile `rel_level` levels down: the tile
    /// itself for level 0, and for each further level the children of every
    /// tile of the level before, in order.
    #[must_use]
    pub fn descendants(&self, rel_level: u8) -> (r: Vec<Tile>)
        requires
            self.zoom + rel_level <= u8::MAX,
        ensures
            r@ == self.spec_descendants(rel_level as nat),
            r@.len() == pow(4, rel_level as nat),
            rel_level == 0 ==> r@ == seq![*self],
    {
        let mut tiles: Vec<Tile> = Vec::new();
        tiles.push(*self);
        assert(tiles@ =~= seq![*self]);
        let mut level: u8 = 0;
        while level < rel_level
            invariant
                level <= rel_level,
                self.zoom + rel_level <= u8::MAX,
                tiles@ == self.spec_descendants(level as nat),
            decreases rel_level - level,
        {
            let mut below: Vec<Tile> = Vec::new();
            let mut i: usize = 0;
            proof {
                lemma_descendants_zoom(*self, level as nat);
            }
            while i < tiles.len()
                invariant
                    i <= tiles.len(),
                    forall|k: int| 0 <= k < tiles@.len() ==> (#[trigger] tiles@[k]).zoom < u8::MAX,
                    below@ == split_each(tiles@).take(4 * i),
                decreases tiles.len() - i,
            {
                let four = tiles[i].children();
                below.push(four[0]);
                below.push(four[1]);
                below.push(four[2]);
                below.push(four[3]);
                i = i + 1;
                assert(below@ =~= split_each(tiles@).take(4 * i));
            }
            assert(below@ =~= split_each(tiles@));
            tiles = below;
            level = level + 1;
        }
        proof {
            lemma_descendants_len(*self, rel_level as nat);
        }
        tiles
    }

    /// Returns the children of this tile together with the tiles around them,
    /// `buffer` tiles deep on every side: a block of `2 * (buffer + 1)` columns
    /// and as many rows, which wraps around the edges of the grid.
    pub fn children_buffered(&self, buffer: u8) -> (r: Vec<Tile>)
        requires
            self.zoom < 32,
        ensures
            r@ == self.spec_children_buffered(buffer),
            forall|i: int| 0 <= i < r@.len() ==> (#[trigger] r@[i]).spec_in_grid(),
    {
        let zoom = self.zoom + 1;
        let width = pow2_u64(zoom);
        proof {
            lemma_pow2_pos(zoom as nat);
            lemma2_to64();
            if zoom < 32 {
                lemma_pow2_strictly_increases(zoom as nat, 32);
            }
        }
        let side: u32 = (buffer as u32 + 1) * 2;
        let steps = offsets(side);
        assert(steps@.len() * steps@.len() * 8 <= isize::MAX) by (nonlinear_arith)
            requires
                steps@.len() <= 512,
        ;
        let pairs = cartesian_product(&steps, &steps);
        let mut r: Vec<Tile> = Vec::new();
        let mut i: usize = 0;
        while i < pairs.len()
            invariant
                i <= pairs.len(),
                0 < side <= 512,
                zoom == self.zoom + 1,
                0 < width <= 0x1_0000_0000,
                width == pow2(zoom as nat),
                steps@ == Seq::new(side as nat, |k: int| k as u32),
                pairs@ == product_pairs(steps@, steps@),
                r@ == self.spec_children_buffered(buffer).take(i as int),
                side == 2 * (buffer + 1),
            decreases pairs.len() - i,
        {
            let (dx, dy) = pairs[i];
            proof {
                let k = i as int;
                let n = side as int;
                lemma_fundamental_div_mod(k, n);
                assert(0 <= k / n < n && 0 <= k % n < n) by (nonlinear_arith)
                    requires
                        0 <= k < n * n,
                        0 < n,
                ;
                assert(dx == k / n);
                assert(dy == k % n);
            }
            let x = wrap_coordinate(2 * (self.x as u64) + dx as u64, buffer, width);
            let y = wrap_coordinate(2 * (self.y as u64) + dy as u64, buffer, width);
            r.push(Tile { zoom, x, y });
            i = i + 1;
            assert(r@ =~= self.spec_children_buffered(buffer).take(i as int));
        }
        assert(r@ =~= self.spec_children_buffered(buffer));
        proof {
            assert forall|i: int| 0 <= i < r@.len() implies (#[trigger] r@[i]).spec_in_grid() by {
                lemma_buffered_child_in_grid(*self, buffer, i / (side as int), i % (side as int));
            }
        }
        r
    }
}

/// Every tile of a buffered block of children lies in the grid one level
/// down, wherever the tile itself lies.
pub proof fn lemma_buffered_child_in_grid(tile: Tile, buffer: u8, dx: int, dy: int)
    requires
        tile.zoom < 32,
    ensures
        tile.spec_buffered_child(buffer, dx, dy).spec_in_grid(),
{
    let width = pow2((tile.zoom + 1) as nat) as int;
    lemma2_to64();
    lemma_pow2_pos((tile.zoom + 1) as nat);
    if tile.zoom < 31 {
        lemma_pow2_strictly_increases((tile.zoom + 1) as nat, 32);
    }
    lemma_mod_bound(2 * tile.x + dx - buffer, width);
    lemma_mod_bound(2 * tile.y + dy - buffer, width);
}

/// The parent of a tile in the grid lies in the grid.
pub proof fn lemma_parent_in_grid(tile: Tile)
    requires
        tile.spec_in_grid(),
        tile.zoom > 0,
    ensures
        tile.spec_parent() matches Some(parent) && parent.spec_in_grid(),
{
    lemma_pow2_unfold(tile.zoom as nat);
}

/// The children of a tile in the grid lie in the grid, as long as the grid
/// one level down fits in 32 bits.
pub proof fn lemma_children_in_grid(tile: Tile, i: int)
    requires
        tile.spec_in_grid(),
        tile.zoom < 32,
        0 <= i < 4,
    ensures
        tile.spec_children()[i].spec_in_grid(),
{
    lemma2_to64();
    lemma_pow2_unfold((tile.zoom + 1) as nat);
    if tile.zoom < 31 {
        lemma_pow2_strictly_increases(tile.zoom as nat, 31);
    }
}

/// The ancestor `first + second` levels up is the ancestor `second` levels
/// up of the ancestor `first` levels up.
pub proof fn lemma_ancestor_of_ancestor(tile: Tile, first: nat, second: nat)
    ensures
        tile.spec_ancestor(first + second) == match tile.spec_ancestor(first) {
            Some(up) => up.spec_ancestor(second),
            None => None,
        },
{
    lemma_pow2_pos(first);
    lemma_pow2_pos(second);
    lemma_pow2_adds(first, second);
    lemma_div_denominator(tile.x as int, pow2(first) as int, pow2(second) as int);
    lemma_div_denominator(tile.y as int, pow2(first) as int, pow2(second) as int);
}

/// Every descendant of a tile has that tile as its ancestor, as many levels
/// up as the descendant is down, as long as the coordinates of the
/// descendants fit in 32 bits.
pub proof fn lemma_descendant_has_ancestor(tile: Tile, rel_level: nat, k: int)
    requires
        tile.zoom + rel_level <= u8::MAX,
        (tile.x + 1) * pow2(rel_level) <= 0x1_0000_0000,
        (tile.y + 1) * pow2(rel_level) <= 0x1_0000_0000,
        0 <= k < tile.spec_descendants(rel_level).len(),
    ensures
        tile.spec_descendants(rel_level)[k].spec_ancestor(rel_level) == Some(tile),
    decreases rel_level,
{
    lemma2_to64();
    if rel_level > 0 {
        let above = (rel_level - 1) as nat;
        let up = tile.spec_descendants(above)[k / 4];
        let down = tile.spec_descendants(rel_level)[k];
        lemma_pow2_pos(above);
        lemma_pow2_unfold(rel_level);
        assert((tile.x + 1) * pow2(above) <= 0x8000_0000 && (tile.y + 1) * pow2(above)
            <= 0x8000_0000) by (nonlinear_arith)
            requires
                (tile.x + 1) * (2 * pow2(above)) <= 0x1_0000_0000,
                (tile.y + 1) * (2 * pow2(above)) <= 0x1_0000_0000,
        ;
        lemma_descendant_has_ancestor(tile, above, k / 4);
        lemma_descendants_zoom(tile, above);
        lemma_quotient_bound(up.x as int, pow2(above) as int, tile.x as int);
        lemma_quotient_bound(up.y as int, pow2(above) as int, tile.y as int);
        assert(down == up.spec_child(k % 4));
        lemma_child_has_parent(up, k % 4);
        lemma_ancestor_of_ancestor(down, 1, above);
    }
}

/// A number whose quotient by `d` is `q` is below `(q + 1) * d`.
proof fn lemma_quotient_bound(x: int, d: int, q: int)
    requires
        d > 0,
        x / d == q,
    ensures
        x < (q + 1) * d,
{
    lemma_fundamental_div_mod(x, d);
    lemma_mod_bound(x, d);
    assert((q + 1) * d == d * q + d) by (nonlinear_arith);
}

/// A tile below zoom 0 is one of the four children of its parent, and only
/// one: the child at the column and row that give its place in the parent.
pub proof fn lemma_parent_has_child(tile: Tile)
    requires
        tile.zoom > 0,
    ensures
        tile.spec_parent() matches Some(parent) && {
            let (column, row) = tile.spec_sector_in_ancestor(1);
            let place = column as int + 2 * row as int;
            &&& column < 2 && row < 2
            &&& parent.spec_children()[place] == tile
            &&& forall|i: int| 0 <= i < 4 && parent.spec_children()[i] == tile ==> i == place
        },
{
    lemma2_to64();
}

/// Each of the four children of a tile has that tile as its parent, as long
/// as the doubled coordinates fit in 32 bits.
pub proof fn lemma_child_has_parent(tile: Tile, i: int)
    requires
        tile.zoom < u8::MAX,
        tile.x <= 0x7fff_ffff,
        tile.y <= 0x7fff_ffff,
        0 <= i < 4,
    ensures
        tile.spec_children()[i].spec_parent() == Some(tile),
{
}

/// The ancestor no level up is the tile itself.
pub proof fn lemma_ancestor_zero(tile: Tile)
    ensures
        tile.spec_ancestor(0) == Some(tile),
{
    lemma2_to64();
}

/// There are `4^rel_level` descendants `rel_level` levels down.
pub proof fn lemma_descendants_len(tile: Tile, rel_level: nat)
    ensures
        tile.spec_descendants(rel_level).len() == pow(4, rel_level),
    decreases rel_level,
{
    reveal(pow);
    if rel_level > 0 {
        lemma_descendants_len(tile, (rel_level - 1) as nat);
    }
}

/// The descendants `rel_level` levels down are `rel_level` zoom levels
/// deeper than the tile.
pub proof fn lemma_descendants_zoom(tile: Tile, rel_level: nat)
    requires
        tile.zoom + rel_level <= u8::MAX,
    ensures
        forall|k: int|
            0 <= k < tile.spec_descendants(rel_level).len() ==> (
            #[trigger] tile.spec_descendants(rel_level)[k]).zoom == tile.zoom + rel_level,
    decreases rel_level,
{
    if rel_level > 0 {
        let above = tile.spec_descendants((rel_level - 1) as nat);
        lemma_descendants_zoom(tile, (rel_level - 1) as nat);
        assert forall|k: int| 0 <= k < split_each(above).len() implies (#[trigger] split_each(
            above,
        )[k]).zoom == tile.zoom + rel_level by {
            assert(above[k / 4].zoom == tile.zoom + rel_level - 1);
        }
    }
}

/// One step up from the ancestor `level` levels up gives the ancestor
/// `level + 1` levels up.
pub proof fn lemma_ancestor_step(tile: Tile, level: nat)
    ensures
        tile.spec_ancestor(level + 1) == match tile.spec_ancestor(level) {
            Some(up) => up.spec_parent(),
            None => None,
        },
{
    lemma_pow2_pos(level);
    lemma_pow2_unfold(level + 1);
    lemma_div_denominator(tile.x as int, pow2(level) as int, 2);
    lemma_div_denominator(tile.y as int, pow2(level) as int, 2);
}

} // verus!
