//! The domino engine: tiles, the shuffled bone pile, the train state
//! machine, and the hand with its exhaustive longest-line search.
//!
//! A tile is a pair of pip counts with a unique id; flipping swaps the pips
//! and keeps the id. A train grows tile by tile from a fixed head value, each
//! placed tile (flipped as needed) connecting to the open tail. The hand's
//! search builds the longest sequence of its tiles playable as one connected
//! chain from a given starting value.

use vstd::prelude::*;
use vstd::string::StringExecFns;

use crate::gameerror::GameError;
use crate::numtext::{decimal, push_decimal};
use crate::random::shuffle_vec;
use crate::GameResult;

verus! {

/// The maximum number of pips allowed on each side of a domino.
pub const MAX_PIPS: u8 = 18;

/// A single domino tile: two pip counts and a unique id. The id is the only
/// identity — left and right may be swapped freely.
#[derive(Debug, Clone, Copy, PartialEq, Eq, Structural)]
pub struct Domino {
    pub left: u8,
    pub right: u8,
    pub id: usize,
}

/// The same tile turned around: pips swapped, id kept.
pub open spec fn flipped_tile(t: Domino) -> Domino {
    Domino { left: t.right, right: t.left, id: t.id }
}

/// No two tiles of the sequence share an id.
pub open spec fn distinct_ids(tiles: Seq<Domino>) -> bool {
    forall|i: int, j: int|
        0 <= i < j < tiles.len() ==> #[trigger] tiles[i].id != #[trigger] tiles[j].id
}

/// Flipping a tile twice gives the tile back, in every field.
pub proof fn lemma_flip_involution(t: Domino)
    ensures
        flipped_tile(flipped_tile(t)) == t,
{
}

impl Domino {
    /// Create a new domino. Typically tiles come from a [`BonePile`], which
    /// assigns each a unique sequential id.
    pub fn new(left: u8, right: u8, id: usize) -> (tile: Domino)
        ensures
            tile == (Domino { left, right, id }),
    {
        Domino { left, right, id }
    }

    /// The pip count on the left side.
    pub fn left(&self) -> (v: u8)
        ensures
            v == self.left,
    {
        self.left
    }

    /// The pip count on the right side.
    pub fn right(&self) -> (v: u8)
        ensures
            v == self.right,
    {
        self.right
    }

    /// The tile's unique id.
    pub fn id(&self) -> (v: usize)
        ensures
            v == self.id,
    {
        self.id
    }

    /// The `(left, right, id)` values of this domino as a tuple.
    pub fn as_tuple(&self) -> (t: (u8, u8, usize))
        ensures
            t == (self.left, self.right, self.id),
    {
        (self.left, self.right, self.id)
    }

    /// A copy of this domino with left and right reversed, but the same id.
    pub fn flipped(&self) -> (tile: Domino)
        ensures
            tile == flipped_tile(*self),
    {
        Domino { left: self.right, right: self.left, id: self.id }
    }

    /// The points the tile is worth, with the given value substituted for
    /// the double-blank tile.
    pub fn points_with_zero_worth(&self, value: u8) -> (points: u8)
        requires
            self.left + self.right <= u8::MAX,
        ensures
            self.left + self.right == 0 ==> points == value,
            self.left + self.right > 0 ==> points == self.left + self.right,
    {
        let total = self.left + self.right;
        if total == 0 {
            value
        } else {
            total
        }
    }

    /// The total number of pips on the tile.
    pub fn points(&self) -> (points: u8)
        requires
            self.left + self.right <= u8::MAX,
        ensures
            points == self.left + self.right,
    {
        self.left + self.right
    }

    /// The tile as text: the double blank reads `[0:0]`.
    pub fn text(&self) -> (s: String)
        ensures
            s@ == tile_text(*self),
    {
        let mut s = String::from_str("[");
        push_decimal(&mut s, self.left);
        s.append(":");
        push_decimal(&mut s, self.right);
        s.append("]");
        proof {
            assert(s@ =~= tile_text(*self));
        }
        s
    }
}

/// The tile at index `i` shows the pip pair `(a, b)`.
pub open spec fn pair_at(tiles: Seq<Domino>, i: int, a: int, b: int) -> bool {
    tiles[i].left == a && tiles[i].right == b
}

/// Some tile of the sequence shows the pip pair `(a, b)`.
pub open spec fn has_pair(tiles: Seq<Domino>, a: int, b: int) -> bool {
    exists|i: int| 0 <= i < tiles.len() && #[trigger] pair_at(tiles, i, a, b)
}

/// The number of distinct unordered pip pairs `(a, b)` with
/// `0 <= a <= b <= m`: one tile for each.
pub open spec fn supply_size(m: int) -> int {
    (m + 1) * (m + 2) / 2
}

/// How many pairs precede those with left side `a` when pairs are listed
/// left side first: all pairs `(l, r)` with `l < a <= r' <= m`.
pub open spec fn pairs_before(a: int, m: int) -> int
    decreases a,
{
    if a <= 0 {
        0
    } else {
        pairs_before(a - 1, m) + (m + 2 - a)
    }
}

proof fn lemma_pairs_before_closed(a: int, m: int)
    requires
        0 <= a <= m + 1,
    ensures
        2 * pairs_before(a, m) == a * (2 * m + 3 - a),
    decreases a,
{
    if a > 0 {
        lemma_pairs_before_closed(a - 1, m);
        assert(2 * pairs_before(a, m) == a * (2 * m + 3 - a)) by (nonlinear_arith)
            requires
                2 * pairs_before(a - 1, m) == (a - 1) * (2 * m + 3 - (a - 1)),
                pairs_before(a, m) == pairs_before(a - 1, m) + (m + 2 - a),
        ;
    } else {
        assert(2 * pairs_before(a, m) == a * (2 * m + 3 - a)) by (nonlinear_arith)
            requires
                a == 0,
                pairs_before(a, m) == 0,
        ;
    }
}

proof fn lemma_supply_size_total(m: int)
    requires
        m >= 0,
    ensures
        pairs_before(m + 1, m) == supply_size(m),
{
    lemma_pairs_before_closed(m + 1, m);
    assert(pairs_before(m + 1, m) == (m + 1) * (m + 2) / 2) by (nonlinear_arith)
        requires
            2 * pairs_before(m + 1, m) == (m + 1) * (2 * m + 3 - (m + 1)),
    ;
}

/// Pile of all of the dominos used for a game, shuffled on creation.
#[derive(Debug, Clone)]
pub struct BonePile {
    pub tiles: Vec<Domino>,
}

impl BonePile {
    /// Create a new randomized set of dominos, one tile for each unordered
    /// pair of pip counts up to `most_pips` (capped at [`MAX_PIPS`]). Every
    /// pair appears exactly once, ids are unique, and the order is random.
    pub fn new(most_pips: u8) -> (pile: BonePile)
        ensures
            ({
                let m = (if most_pips <= MAX_PIPS {
                    most_pips
                } else {
                    MAX_PIPS
                }) as int;
                &&& pile.tiles@.len() == supply_size(m)
                &&& forall|i: int|
                    0 <= i < pile.tiles@.len() ==> #[trigger] pile.tiles@[i].left
                        <= pile.tiles@[i].right <= m
                &&& forall|i: int|
                    0 <= i < pile.tiles@.len() ==> #[trigger] pile.tiles@[i].id < supply_size(m)
                &&& distinct_ids(pile.tiles@)
                &&& forall|i: int, j: int|
                    0 <= i < j < pile.tiles@.len() ==> !(#[trigger] pile.tiles@[i].left
                        == #[trigger] pile.tiles@[j].left && pile.tiles@[i].right
                        == pile.tiles@[j].right)
                &&& forall|a: int, b: int| 0 <= a <= b <= m ==> #[trigger] has_pair(
                    pile.tiles@,
                    a,
                    b,
                )
            }),
    {
        let max: u8 = if most_pips <= MAX_PIPS {
            most_pips
        } else {
            MAX_PIPS
        };
        let ghost m = max as int;
        let mut tiles: Vec<Domino> = Vec::new();
        let mut left: u8 = 0;
        while left <= max
            invariant
                m == max as int,
                max <= MAX_PIPS,
                left <= max + 1,
                tiles@.len() == pairs_before(left as int, m),
                forall|i: int| 0 <= i < tiles@.len() ==> #[trigger] tiles@[i].id == i,
                forall|i: int|
                    0 <= i < tiles@.len() ==> #[trigger] tiles@[i].left <= tiles@[i].right <= m,
                forall|i: int| 0 <= i < tiles@.len() ==> #[trigger] tiles@[i].left < left,
                forall|i: int, j: int|
                    0 <= i < j < tiles@.len() ==> (#[trigger] tiles@[i].left, tiles@[i].right)
                        != (#[trigger] tiles@[j].left, tiles@[j].right),
                forall|a: int, b: int|
                    0 <= a <= b <= m && a < left ==> #[trigger] has_pair(tiles@, a, b),
            decreases max + 1 - left,
        {
            let mut right: u8 = left;
            while right <= max
                invariant
                    m == max as int,
                    max <= MAX_PIPS,
                    left <= max,
                    left <= right <= max + 1,
                    tiles@.len() == pairs_before(left as int, m) + (right - left),
                    forall|i: int| 0 <= i < tiles@.len() ==> #[trigger] tiles@[i].id == i,
                    forall|i: int|
                        0 <= i < tiles@.len() ==> #[trigger] tiles@[i].left <= tiles@[i].right
                            <= m,
                    forall|i: int|
                        0 <= i < tiles@.len() ==> (#[trigger] tiles@[i].left < left || (
                        tiles@[i].left == left && tiles@[i].right < right)),
                    forall|i: int, j: int|
                        0 <= i < j < tiles@.len() ==> (#[trigger] tiles@[i].left, tiles@[i].right)
                            != (#[trigger] tiles@[j].left, tiles@[j].right),
                    forall|a: int, b: int|
                        0 <= a <= b <= m && (a < left || (a == left && b < right))
                            ==> #[trigger] has_pair(tiles@, a, b),
                decreases max + 1 - right,
            {
                let did = tiles.len();
                let ghost prev = tiles@;
                tiles.push(Domino { left, right, id: did });
                proof {
                    let n = tiles@.len();
                    assert(tiles@[n - 1].left == left && tiles@[n - 1].right == right as int);
                    assert forall|a: int, b: int|
                        0 <= a <= b <= m && (a < left || (a == left && b < right
                            + 1)) implies #[trigger] has_pair(tiles@, a, b) by {
                        if a == left && b == right {
                            assert(pair_at(tiles@, n - 1, a, b));
                        } else {
                            assert(has_pair(prev, a, b));
                            let i = choose|i: int|
                                0 <= i < prev.len() && #[trigger] pair_at(prev, i, a, b);
                            assert(pair_at(tiles@, i, a, b));
                        }
                    }
                }
                right += 1;
            }
            left += 1;
        }
        proof {
            lemma_supply_size_total(m);
            assert(tiles@.len() == supply_size(m));
        }
        let ghost built = tiles@;
        shuffle_vec(&mut tiles);
        proof {
            lemma_permutation_keeps_contents(built, tiles@);
            assert(distinct_ids(built));
            lemma_permutation_keeps_distinct_ids(built, tiles@);
            lemma_permutation_keeps_distinct_pairs(built, tiles@);
            assert forall|i: int|
                0 <= i < tiles@.len() implies #[trigger] tiles@[i].left <= tiles@[i].right
                <= m by {
                assert(built.contains(tiles@[i]));
            }
            assert forall|i: int|
                0 <= i < tiles@.len() implies #[trigger] tiles@[i].id < supply_size(m) by {
                assert(built.contains(tiles@[i]));
            }
            assert forall|a: int, b: int| 0 <= a <= b <= m implies #[trigger] has_pair(
                tiles@,
                a,
                b,
            ) by {
                assert(has_pair(built, a, b));
                let i0 = choose|i: int| 0 <= i < built.len() && #[trigger] pair_at(built, i, a, b);
                assert(tiles@.contains(built[i0]));
                let i1 = choose|i: int| 0 <= i < tiles@.len() && tiles@[i] == built[i0];
                assert(pair_at(tiles@, i1, a, b));
            }
        }
        BonePile { tiles }
    }

    /// Draw a single tile from the pile: the last of the internal order, or
    /// `None` if none are left. An empty pile is unchanged.
    pub fn draw_tile(&mut self) -> (tile: Option<Domino>)
        ensures
            old(self).tiles@.len() == 0 ==> tile is None
                && final(self).tiles@ == old(self).tiles@,
            old(self).tiles@.len() > 0 ==> tile == Some(old(self).tiles@.last())
                && final(self).tiles@ == old(self).tiles@.drop_last(),
    {
        self.tiles.pop()
    }

    /// Draw `count` tiles from the pile. Either all `count` come off the end
    /// of the pile, or — when fewer remain — `None` is returned and the pile
    /// keeps every tile.
    pub fn draw_tiles(&mut self, count: usize) -> (drawn: Option<Vec<Domino>>)
        ensures
            count > old(self).tiles@.len() ==> drawn is None
                && final(self).tiles@ == old(self).tiles@,
            count <= old(self).tiles@.len() ==> ({
                &&& drawn matches Some(v) && v@ == old(self).tiles@.subrange(
                    old(self).tiles@.len() - count,
                    old(self).tiles@.len() as int,
                )
                &&& final(self).tiles@ == old(self).tiles@.subrange(
                    0,
                    old(self).tiles@.len() - count,
                )
            }),
    {
        if count > self.tiles.len() {
            None
        } else {
            Some(self.tiles.split_off(self.tiles.len() - count))
        }
    }
}

/// The text a tile shows: `[left:right]`.
pub open spec fn tile_text(t: Domino) -> Seq<char> {
    "["@ + decimal(t.left as int) + ":"@ + decimal(t.right as int) + "]"@
}

/// The texts of a row of tiles, joined.
pub open spec fn tiles_text(tiles: Seq<Domino>) -> Seq<char>
    decreases tiles.len(),
{
    if tiles.len() == 0 {
        Seq::<char>::empty()
    } else {
        tiles_text(tiles.drop_last()) + tile_text(tiles.last())
    }
}

/// Appends the text of each tile in order.
fn push_tiles_text(out: &mut String, tiles: &Vec<Domino>)
    ensures
        final(out)@ == old(out)@ + tiles_text(tiles@),
{
    let mut i: usize = 0;
    while i < tiles.len()
        invariant
            i <= tiles@.len(),
            out@ == old(out)@ + tiles_text(tiles@.take(i as int)),
        decreases tiles@.len() - i,
    {
        let t = tiles[i].text();
        out.append(t.as_str());
        proof {
            assert(tiles@.take(i + 1).drop_last() =~= tiles@.take(i as int));
            assert(tiles@.take(i + 1).last() == tiles@[i as int]);
            assert(out@ =~= old(out)@ + tiles_text(tiles@.take(i + 1)));
        }
        i += 1;
    }
    proof {
        assert(tiles@.take(tiles@.len() as int) =~= tiles@);
    }
}

/// Whether some tile of the sequence carries the id.
pub open spec fn has_tile(tiles: Seq<Domino>, id: usize) -> bool {
    exists|i: int| 0 <= i < tiles.len() && #[trigger] tiles[i].id == id
}

/// The index of the tile carrying the id (the tile, where ids are unique).
pub open spec fn tile_index(tiles: Seq<Domino>, id: usize) -> int {
    choose|i: int| 0 <= i < tiles.len() && #[trigger] tiles[i].id == id
}

/// The tile of the sequence carrying the id.
pub open spec fn tile_with(tiles: Seq<Domino>, id: usize) -> Domino {
    tiles[tile_index(tiles, id)]
}

/// Whether a tile can be placed against the open tail value.
pub open spec fn connects(t: Domino, tail: u8) -> bool {
    t.left == tail || t.right == tail
}

/// The tile as it lies once placed against the tail: flipped when only its
/// right side matched.
pub open spec fn placed_tile(t: Domino, tail: u8) -> Domino {
    if t.left == tail {
        t
    } else {
        flipped_tile(t)
    }
}

/// The value left open after placing the tile against the tail.
pub open spec fn next_tail(t: Domino, tail: u8) -> u8 {
    placed_tile(t, tail).right
}

/// No id occurs twice in the sequence.
pub open spec fn distinct_seq(ids: Seq<usize>) -> bool {
    forall|i: int, j: int| 0 <= i < j < ids.len() ==> ids[i] != ids[j]
}

/// How many of the ids, taken in order, play onto a train whose open tail
/// starts at `tail`: the count stops at the first id whose tile is missing
/// or does not connect.
pub open spec fn playable_prefix(tiles: Seq<Domino>, ids: Seq<usize>, tail: u8) -> int
    decreases ids.len(),
{
    if ids.len() == 0 {
        0
    } else if !has_tile(tiles, ids[0]) || !connects(tile_with(tiles, ids[0]), tail) {
        0
    } else {
        1 + playable_prefix(tiles, ids.drop_first(), next_tail(tile_with(tiles, ids[0]), tail))
    }
}

/// The row of tiles as they lie once the ids are played in order from
/// `tail` (meaningful over the playable prefix).
pub open spec fn line_placed(tiles: Seq<Domino>, ids: Seq<usize>, tail: u8) -> Seq<Domino>
    decreases ids.len(),
{
    if ids.len() == 0 {
        Seq::<Domino>::empty()
    } else {
        seq![placed_tile(tile_with(tiles, ids[0]), tail)] + line_placed(
            tiles,
            ids.drop_first(),
            next_tail(tile_with(tiles, ids[0]), tail),
        )
    }
}

/// The value left open after the ids are played in order from `tail`
/// (meaningful over the playable prefix).
pub open spec fn line_end(tiles: Seq<Domino>, ids: Seq<usize>, tail: u8) -> u8
    decreases ids.len(),
{
    if ids.len() == 0 {
        tail
    } else {
        line_end(tiles, ids.drop_first(), next_tail(tile_with(tiles, ids[0]), tail))
    }
}

/// The tiles of the sequence that the ids name.
pub open spec fn tiles_named(tiles: Seq<Domino>, ids: Seq<usize>) -> Seq<Domino> {
    ids.map_values(|id: usize| tile_with(tiles, id))
}

/// A sequence of ids that the given tiles can play as one connected chain
/// starting at `head`: the ids name distinct tiles of the sequence, and each
/// tile in turn connects to the open end left by the one before.
pub open spec fn valid_line(tiles: Seq<Domino>, ids: Seq<usize>, head: u8) -> bool {
    &&& distinct_seq(ids)
    &&& forall|k: int| 0 <= k < ids.len() ==> #[trigger] has_tile(tiles, ids[k])
    &&& playable_prefix(tiles, ids, head) == ids.len()
}

/// A chain that could grow the working line: ids of distinct tiles of the
/// hand, none already on the line, playable in order from its open end.
pub open spec fn extends_line(
    tiles: Seq<Domino>,
    base: Seq<usize>,
    ext: Seq<usize>,
    head: u8,
) -> bool {
    &&& distinct_seq(ext)
    &&& forall|k: int| 0 <= k < ext.len() ==> #[trigger] has_tile(tiles, ext[k])
    &&& forall|k: int| 0 <= k < ext.len() ==> !base.contains(#[trigger] ext[k])
    &&& playable_prefix(tiles, ext, head) == ext.len()
}

/// The usage row marks exactly the tiles whose ids are on the working line.
spec fn used_matches(tiles: Seq<Domino>, used: Seq<bool>, line: Seq<usize>) -> bool {
    &&& used.len() == tiles.len()
    &&& forall|i: int|
        0 <= i < tiles.len() ==> (#[trigger] used[i] <==> line.contains(tiles[i].id))
}

/// How many entries of the usage row are still unused.
spec fn count_unused(used: Seq<bool>) -> nat
    decreases used.len(),
{
    if used.len() == 0 {
        0nat
    } else {
        count_unused(used.drop_last()) + if used.last() {
            0nat
        } else {
            1nat
        }
    }
}

proof fn lemma_count_unused_set(used: Seq<bool>, j: int)
    requires
        0 <= j < used.len(),
        !used[j],
    ensures
        count_unused(used.update(j, true)) == count_unused(used) - 1,
    decreases used.len(),
{
    if j == used.len() - 1 {
        assert(used.update(j, true).drop_last() =~= used.drop_last());
    } else {
        assert(used.update(j, true).drop_last() =~= used.drop_last().update(j, true));
        lemma_count_unused_set(used.drop_last(), j);
        assert(used.update(j, true).last() == used.last());
    }
}

proof fn lemma_count_unused_all_false(used: Seq<bool>)
    requires
        forall|i: int| 0 <= i < used.len() ==> !(#[trigger] used[i]),
    ensures
        count_unused(used) == used.len(),
    decreases used.len(),
{
    if used.len() > 0 {
        lemma_count_unused_all_false(used.drop_last());
    }
}

/// With pairwise distinct ids, looking a tile up by the id it carries finds
/// that tile.
proof fn lemma_tile_with_at(tiles: Seq<Domino>, i: int)
    requires
        distinct_ids(tiles),
        0 <= i < tiles.len(),
    ensures
        tile_index(tiles, tiles[i].id) == i,
        tile_with(tiles, tiles[i].id) == tiles[i],
{
    assert(has_tile(tiles, tiles[i].id));
    let j = tile_index(tiles, tiles[i].id);
    assert(0 <= j < tiles.len() && tiles[j].id == tiles[i].id);
    if j < i {
        assert(tiles[j].id != tiles[i].id);
    } else if j > i {
        assert(tiles[i].id != tiles[j].id);
    }
}

/// With pairwise distinct ids, an id some tile carries indexes that tile.
proof fn lemma_tile_index_valid(tiles: Seq<Domino>, id: usize)
    requires
        distinct_ids(tiles),
        has_tile(tiles, id),
    ensures
        0 <= tile_index(tiles, id) < tiles.len(),
        tiles[tile_index(tiles, id)].id == id,
        tile_with(tiles, id).id == id,
{
    let j = tile_index(tiles, id);
    assert(0 <= j < tiles.len() && tiles[j].id == id);
}

/// Splitting a play at `j`: the whole playable prefix is the fully playable
/// first `j` ids plus the playable prefix of the rest from where they end.
proof fn lemma_line_decompose(tiles: Seq<Domino>, ids: Seq<usize>, tail: u8, j: int)
    requires
        0 <= j <= ids.len(),
        playable_prefix(tiles, ids.take(j), tail) == j,
    ensures
        playable_prefix(tiles, ids, tail) == j + playable_prefix(
            tiles,
            ids.skip(j),
            line_end(tiles, ids.take(j), tail),
        ),
    decreases j,
{
    if j == 0 {
        assert(ids.skip(0) =~= ids);
        assert(ids.take(0) =~= Seq::<usize>::empty());
    } else {
        let first = ids.take(j)[0];
        assert(first == ids[0]);
        let t0 = tile_with(tiles, ids[0]);
        let next = next_tail(t0, tail);
        assert(ids.take(j).drop_first() =~= ids.drop_first().take(j - 1));
        lemma_line_decompose(tiles, ids.drop_first(), next, j - 1);
        assert(ids.drop_first().skip(j - 1) =~= ids.skip(j));
    }
}

/// Appending one more id to a fully playable line: when its tile connects to
/// the line's end, the longer line is fully playable, ends at that tile's
/// free side, and lays that tile last.
proof fn lemma_line_snoc(tiles: Seq<Domino>, ids: Seq<usize>, tail: u8, id: usize)
    requires
        playable_prefix(tiles, ids, tail) == ids.len(),
        has_tile(tiles, id),
        connects(tile_with(tiles, id), line_end(tiles, ids, tail)),
    ensures
        playable_prefix(tiles, ids.push(id), tail) == ids.len() + 1,
        line_end(tiles, ids.push(id), tail) == next_tail(
            tile_with(tiles, id),
            line_end(tiles, ids, tail),
        ),
        line_placed(tiles, ids.push(id), tail) == line_placed(tiles, ids, tail).push(
            placed_tile(tile_with(tiles, id), line_end(tiles, ids, tail)),
        ),
    decreases ids.len(),
{
    if ids.len() == 0 {
        reveal_with_fuel(playable_prefix, 2);
        reveal_with_fuel(line_end, 2);
        reveal_with_fuel(line_placed, 2);
        assert(ids.push(id)[0] == id);
        assert(ids.push(id).drop_first() =~= Seq::<usize>::empty());
        assert(line_end(tiles, ids, tail) == tail);
        assert(line_placed(tiles, ids, tail) =~= Seq::<Domino>::empty());
        assert(line_placed(tiles, ids.push(id), tail) =~= line_placed(tiles, ids, tail).push(
            placed_tile(tile_with(tiles, id), line_end(tiles, ids, tail)),
        ));
    } else {
        let t0 = tile_with(tiles, ids[0]);
        let next = next_tail(t0, tail);
        assert(ids.push(id)[0] == ids[0]);
        assert(ids.push(id).drop_first() =~= ids.drop_first().push(id));
        lemma_line_snoc(tiles, ids.drop_first(), next, id);
        assert(line_placed(tiles, ids.push(id), tail) =~= line_placed(tiles, ids, tail).push(
            placed_tile(tile_with(tiles, id), line_end(tiles, ids, tail)),
        ));
    }
}

/// Taking one element out by `swap_remove` takes exactly one occurrence of
/// it out of the sequence's multiset.
proof fn lemma_swap_remove_multiset(s: Seq<Domino>, pos: int)
    requires
        0 <= pos < s.len(),
    ensures
        s.update(pos, s.last()).drop_last().to_multiset() == s.to_multiset().remove(s[pos]),
{
    broadcast use vstd::seq_lib::group_to_multiset_ensures;

    let swapped = s.update(pos, s.last());
    assert(swapped.drop_last() =~= swapped.remove(s.len() - 1));
    assert(swapped.remove(s.len() - 1).to_multiset() == swapped.to_multiset().remove(
        swapped[s.len() - 1],
    ));
    assert(swapped.to_multiset() == s.to_multiset().insert(s.last()).remove(s[pos]));
    assert(swapped[s.len() - 1] == s.last());
    assert(s.to_multiset().insert(s.last()).remove(s[pos]).remove(s.last())
        =~= s.to_multiset().remove(s[pos]));
}

/// Every element of a permuted sequence is an element of the original, and
/// the other way round.
proof fn lemma_permutation_keeps_contents(a: Seq<Domino>, b: Seq<Domino>)
    requires
        a.to_multiset() == b.to_multiset(),
    ensures
        forall|t: Domino| a.contains(t) <==> b.contains(t),
{
    assert forall|t: Domino| a.contains(t) <==> b.contains(t) by {
        vstd::seq_lib::to_multiset_contains(a, t);
        vstd::seq_lib::to_multiset_contains(b, t);
    }
}

/// A permutation of a sequence with pairwise distinct ids again has pairwise
/// distinct ids.
proof fn lemma_permutation_keeps_distinct_ids(a: Seq<Domino>, b: Seq<Domino>)
    requires
        a.to_multiset() == b.to_multiset(),
        distinct_ids(a),
    ensures
        distinct_ids(b),
{
    broadcast use vstd::seq_lib::group_to_multiset_ensures;

    lemma_distinct_ids_no_duplicates(a);
    a.lemma_multiset_has_no_duplicates();
    b.lemma_multiset_has_no_duplicates_conv();
    assert forall|i: int, j: int| 0 <= i < j < b.len() implies #[trigger] b[i].id
        != #[trigger] b[j].id by {
        if b[i].id == b[j].id {
            assert(b[i] != b[j]);
            lemma_permutation_keeps_contents(a, b);
            assert(b.contains(b[i]) && b.contains(b[j]));
            assert(a.contains(b[i]) && a.contains(b[j]));
            let i0 = choose|k: int| 0 <= k < a.len() && a[k] == b[i];
            let j0 = choose|k: int| 0 <= k < a.len() && a[k] == b[j];
            assert(i0 != j0 && a[i0].id == a[j0].id);
            if i0 < j0 {
                assert(a[i0].id != a[j0].id);
            } else {
                assert(a[j0].id != a[i0].id);
            }
        }
    }
}

/// Tiles with pairwise distinct ids are pairwise distinct values.
proof fn lemma_distinct_ids_no_duplicates(a: Seq<Domino>)
    requires
        distinct_ids(a),
    ensures
        a.no_duplicates(),
{
    assert forall|i: int, j: int|
        0 <= i < a.len() && 0 <= j < a.len() && i != j implies a[i] != a[j] by {
        if i < j {
            assert(a[i].id != a[j].id);
        } else {
            assert(a[j].id != a[i].id);
        }
    }
}

/// A permutation of a sequence with pairwise distinct pip pairs again has
/// pairwise distinct pip pairs.
proof fn lemma_permutation_keeps_distinct_pairs(a: Seq<Domino>, b: Seq<Domino>)
    requires
        a.to_multiset() == b.to_multiset(),
        distinct_ids(a),
        forall|i: int, j: int|
            0 <= i < j < a.len() ==> (#[trigger] a[i].left, a[i].right) != (
                #[trigger] a[j].left,
                a[j].right,
            ),
    ensures
        forall|i: int, j: int|
            0 <= i < j < b.len() ==> !(#[trigger] b[i].left == #[trigger] b[j].left && b[i].right
                == b[j].right),
{
    broadcast use vstd::seq_lib::group_to_multiset_ensures;

    lemma_distinct_ids_no_duplicates(a);
    a.lemma_multiset_has_no_duplicates();
    b.lemma_multiset_has_no_duplicates_conv();
    assert forall|i: int, j: int| 0 <= i < j < b.len() implies !(#[trigger] b[i].left
        == #[trigger] b[j].left && b[i].right == b[j].right) by {
        if b[i].left == b[j].left && b[i].right == b[j].right {
            assert(b[i] != b[j]);
            lemma_permutation_keeps_contents(a, b);
            assert(b.contains(b[i]) && b.contains(b[j]));
            assert(a.contains(b[i]) && a.contains(b[j]));
            let i0 = choose|k: int| 0 <= k < a.len() && a[k] == b[i];
            let j0 = choose|k: int| 0 <= k < a.len() && a[k] == b[j];
            assert(i0 != j0);
            if i0 < j0 {
                assert((a[i0].left, a[i0].right) != (a[j0].left, a[j0].right));
            } else {
                assert((a[j0].left, a[j0].right) != (a[i0].left, a[i0].right));
            }
        }
    }
}

/// Search/commit round trip: any valid line of a hand's tiles from `head`
/// — in particular the one [`DominoHand::find_longest_from`] returns —
/// satisfies everything [`DominoHand::play_line`] needs to commit every
/// step onto a freshly created train anchored at `head` whose owner plays
/// it: the ids name distinct tiles that are all in the hand, and the whole
/// line is playable from the train's starting tail, so the commit returns
/// `Ok` and no step is refused.
pub proof fn lemma_search_commit_round_trip(tiles: Seq<Domino>, ids: Seq<usize>, head: u8)
    requires
        valid_line(tiles, ids, head),
    ensures
        distinct_seq(ids),
        forall|k: int| 0 <= k < ids.len() ==> #[trigger] has_tile(tiles, ids[k]),
        playable_prefix(tiles, ids, head) == ids.len(),
{
}

/// A train of dominos that have been played.
///
/// `player` is the owner's name, or a chosen token (such as the empty
/// string) for a public train. `open` says whether other players may extend
/// it. `head` is the fixed starting value of the round; `tail` is the value
/// the next tile must connect to.
#[derive(Debug, Clone)]
pub struct Train {
    pub player: String,
    pub open: bool,
    pub head: u8,
    pub tail: u8,
    pub tiles: Vec<Domino>,
}

impl Train {
    /// Create a new train with no tiles: its tail starts at its head value.
    pub fn new(player: &str, open: bool, start: u8) -> (train: Train)
        ensures
            train.player@ == player@,
            train.open == open,
            train.head == start,
            train.tail == start,
            train.tiles@ == Seq::<Domino>::empty(),
    {
        Train {
            player: player.to_owned(),
            open,
            head: start,
            tail: start,
            tiles: Vec::<Domino>::new(),
        }
    }

    /// Attempt to play a tile on the train.
    ///
    /// A closed train takes plays only from its owner; any other player gets
    /// `TrainClosed` and the train is untouched. A permitted tile must
    /// connect to the tail with one of its sides — flipped if needed — or
    /// the play fails with `TileUnconnected`, again with no change. A
    /// successful play appends the placed tile and moves the tail to its
    /// free side.
    pub fn play(&mut self, tile: Domino, player: &str) -> (result: GameResult<()>)
        ensures
            !old(self).open && old(self).player@ != player@ ==> result == Err::<(), GameError>(
                GameError::TrainClosed,
            ) && *final(self) == *old(self),
            (old(self).open || old(self).player@ == player@) && !connects(tile, old(self).tail)
                ==> result == Err::<(), GameError>(GameError::TileUnconnected) && *final(self)
                == *old(self),
            (old(self).open || old(self).player@ == player@) && connects(tile, old(self).tail)
                ==> ({
                &&& result == Ok::<(), GameError>(())
                &&& final(self).tiles@ == old(self).tiles@.push(placed_tile(tile, old(self).tail))
                &&& final(self).tail == next_tail(tile, old(self).tail)
                &&& final(self).player == old(self).player
                &&& final(self).open == old(self).open
                &&& final(self).head == old(self).head
            }),
    {
        if !self.open {
            let caller: String = player.to_owned();
            if !(self.player == caller) {
                return Err(GameError::TrainClosed);
            }
        }
        let new_tile = if tile.left == self.tail {
            tile
        } else if tile.right == self.tail {
            tile.flipped()
        } else {
            return Err(GameError::TileUnconnected);
        };
        self.tail = new_tile.right;
        self.tiles.push(new_tile);
        Ok(())
    }

    /// The train as text: `[O]-` or `[X]-` for open or closed, the owner,
    /// the head value, then every placed tile.
    pub fn text(&self) -> (s: String)
        ensures
            s@ == (if self.open {
                "[O]-"@
            } else {
                "[X]-"@
            }) + self.player@ + "-("@ + decimal(self.head as int) + ")"@ + tiles_text(self.tiles@),
    {
        let mut s = if self.open {
            String::from_str("[O]-")
        } else {
            String::from_str("[X]-")
        };
        s.append(self.player.as_str());
        s.append("-(");
        push_decimal(&mut s, self.head);
        s.append(")");
        push_tiles_text(&mut s, &self.tiles);
        proof {
            assert(s@ =~= (if self.open {
                "[O]-"@
            } else {
                "[X]-"@
            }) + self.player@ + "-("@ + decimal(self.head as int) + ")"@ + tiles_text(
                self.tiles@,
            ));
        }
        s
    }
}

/// A player's hand of dominos.
#[derive(Debug, Clone)]
pub struct DominoHand {
    pub player: String,
    pub tiles: Vec<Domino>,
}

impl DominoHand {
    /// Create a new empty hand.
    pub fn new(player: &str) -> (hand: DominoHand)
        ensures
            hand.player@ == player@,
            hand.tiles@ == Seq::<Domino>::empty(),
    {
        DominoHand { player: player.to_owned(), tiles: Vec::<Domino>::new() }
    }

    /// Create a new hand and draw its tiles from the pile: all `count` of
    /// them, or `InsufficientTiles` with the pile left as it was.
    pub fn new_with_draw(player: &str, count: usize, pile: &mut BonePile) -> (result: GameResult<
        DominoHand,
    >)
        ensures
            count > old(pile).tiles@.len() ==> result == Err::<DominoHand, GameError>(
                GameError::InsufficientTiles,
            ) && final(pile).tiles@ == old(pile).tiles@,
            count <= old(pile).tiles@.len() ==> ({
                &&& result matches Ok(hand)
                &&& hand.player@ == player@
                &&& hand.tiles@ == old(pile).tiles@.subrange(
                    old(pile).tiles@.len() - count,
                    old(pile).tiles@.len() as int,
                )
                &&& final(pile).tiles@ == old(pile).tiles@.subrange(
                    0,
                    old(pile).tiles@.len() - count,
                )
            }),
    {
        if let Some(starting_tiles) = pile.draw_tiles(count) {
            Ok(DominoHand { player: player.to_owned(), tiles: starting_tiles })
        } else {
            Err(GameError::InsufficientTiles)
        }
    }

    /// Takes a sequence of domino ids and attempts to play them on a train,
    /// in order, each tile leaving the hand as it is tried.
    ///
    /// The ids must name distinct tiles of this hand. The whole line goes
    /// through exactly when the caller may use the train and every tile in
    /// turn connects; the first refused step aborts the rest, and whatever
    /// was already removed from the hand or placed on the train stays so.
    pub fn play_line(&mut self, id_sequence: &Vec<usize>, train: &mut Train) -> (result:
        GameResult<()>)
        requires
            distinct_ids(old(self).tiles@),
            distinct_seq(id_sequence@),
            forall|k: int|
                0 <= k < id_sequence@.len() ==> #[trigger] has_tile(
                    old(self).tiles@,
                    id_sequence@[k],
                ),
        ensures
            final(self).player == old(self).player,
            distinct_ids(final(self).tiles@),
            final(train).player == old(train).player,
            final(train).open == old(train).open,
            final(train).head == old(train).head,
            ({
                let tiles0 = old(self).tiles@;
                let ids = id_sequence@;
                let permitted = old(train).open || old(train).player@ == old(self).player@;
                let k = playable_prefix(tiles0, ids, old(train).tail);
                let applied = if permitted {
                    k
                } else {
                    0int
                };
                let removed = if ids.len() == 0 {
                    0int
                } else if !permitted {
                    1int
                } else if k < ids.len() {
                    k + 1
                } else {
                    k
                };
                &&& (result == Ok::<(), GameError>(()) <==> (ids.len() == 0 || (permitted && k
                    == ids.len())))
                &&& (ids.len() > 0 && !permitted ==> result == Err::<(), GameError>(
                    GameError::TrainClosed,
                ))
                &&& (ids.len() > 0 && permitted && k < ids.len() ==> result == Err::<
                    (),
                    GameError,
                >(GameError::TileUnconnected))
                &&& final(train).tiles@ == old(train).tiles@ + line_placed(
                    tiles0,
                    ids.take(applied),
                    old(train).tail,
                )
                &&& final(train).tail == line_end(tiles0, ids.take(applied), old(train).tail)
                &&& final(self).tiles@.to_multiset().add(
                    tiles_named(tiles0, ids.take(removed)).to_multiset(),
                ) == tiles0.to_multiset()
            }),
    {
        broadcast use vstd::seq_lib::group_to_multiset_ensures;

        let ghost tiles0 = self.tiles@;
        let ghost ids = id_sequence@;
        let ghost train0 = *train;
        let ghost permitted = train0.open || train0.player@ == old(self).player@;
        let mut idx: usize = 0;
        while idx < id_sequence.len()
            invariant
                distinct_ids(tiles0),
                distinct_seq(ids),
                forall|k: int| 0 <= k < ids.len() ==> #[trigger] has_tile(tiles0, ids[k]),
                ids == id_sequence@,
                tiles0 == old(self).tiles@,
                idx <= ids.len(),
                self.player == old(self).player,
                train0 == *old(train),
                permitted == (train0.open || train0.player@ == old(self).player@),
                idx > 0 ==> permitted,
                playable_prefix(tiles0, ids.take(idx as int), train0.tail) == idx,
                train.player == train0.player,
                train.open == train0.open,
                train.head == train0.head,
                train.tiles@ == train0.tiles@ + line_placed(
                    tiles0,
                    ids.take(idx as int),
                    train0.tail,
                ),
                train.tail == line_end(tiles0, ids.take(idx as int), train0.tail),
                self.tiles@.to_multiset().add(
                    tiles_named(tiles0, ids.take(idx as int)).to_multiset(),
                ) == tiles0.to_multiset(),
                distinct_ids(self.tiles@),
                forall|i: int|
                    0 <= i < self.tiles@.len() ==> tiles0.contains(#[trigger] self.tiles@[i]),
                forall|k: int|
                    idx <= k < ids.len() ==> #[trigger] has_tile(self.tiles@, ids[k]),
            decreases ids.len() - idx,
        {
            let ghost j = idx as int;
            let domino_id = id_sequence[idx];
            let pos = Self::position_of_id(&self.tiles, domino_id);
            let ghost before = self.tiles@;
            let tile = self.tiles.swap_remove(pos);
            proof {
                // The removed tile is the one the id names in the original hand.
                assert(tiles0.contains(tile));
                let orig = choose|i: int| 0 <= i < tiles0.len() && tiles0[i] == tile;
                assert(tiles0[orig].id == domino_id);
                assert(tile_index(tiles0, domino_id) == orig || tiles0[tile_index(
                    tiles0,
                    domino_id,
                )].id == domino_id);
                let ti = tile_index(tiles0, domino_id);
                if ti != orig {
                    if ti < orig {
                        assert(tiles0[ti].id != tiles0[orig].id);
                    } else {
                        assert(tiles0[orig].id != tiles0[ti].id);
                    }
                }
                assert(tile == tile_with(tiles0, ids[j]));

                lemma_swap_remove_multiset(before, pos as int);
                assert(before[pos as int] == tile);
                assert(before.contains(tile));
                vstd::seq_lib::to_multiset_contains(before, tile);
                assert(before.to_multiset().count(tile) > 0);
                assert(tiles_named(tiles0, ids.take(j + 1)) =~= tiles_named(
                    tiles0,
                    ids.take(j),
                ).push(tile));
                assert(tiles_named(tiles0, ids.take(j + 1)).to_multiset() == tiles_named(
                    tiles0,
                    ids.take(j),
                ).push(tile).to_multiset());
                vstd::seq_lib::to_multiset_build(tiles_named(tiles0, ids.take(j)), tile);
                assert(tiles_named(tiles0, ids.take(j + 1)).to_multiset() == tiles_named(
                    tiles0,
                    ids.take(j),
                ).to_multiset().insert(tile));
                assert(self.tiles@.to_multiset() == before.to_multiset().remove(tile));
                assert(self.tiles@.to_multiset().add(
                    tiles_named(tiles0, ids.take(j + 1)).to_multiset(),
                ) =~= tiles0.to_multiset());

                // The rest of the hand: still tiles of the original hand,
                // still with distinct ids, still holding the later ids.
                assert forall|i: int|
                    0 <= i < self.tiles@.len() implies tiles0.contains(
                    #[trigger] self.tiles@[i],
                ) by {
                    assert(self.tiles@[i] == before[i] || self.tiles@[i] == before.last());
                }
                assert forall|a: int, b: int|
                    0 <= a < b < self.tiles@.len() implies #[trigger] self.tiles@[a].id
                    != #[trigger] self.tiles@[b].id by {
                    assert(self.tiles@[a] == before[a] || self.tiles@[a] == before.last());
                    assert(self.tiles@[b] == before[b] || self.tiles@[b] == before.last());
                }
                assert forall|k: int| j + 1 <= k < ids.len() implies #[trigger] has_tile(
                    self.tiles@,
                    ids[k],
                ) by {
                    assert(has_tile(before, ids[k]));
                    let q = choose|i: int|
                        0 <= i < before.len() && #[trigger] before[i].id == ids[k];
                    assert(ids[j] != ids[k]);
                    if q < pos {
                        assert(before[q].id != before[pos as int].id);
                    } else if q > pos {
                        assert(before[pos as int].id != before[q].id);
                    }
                    assert(q != pos);
                    if q == before.len() - 1 {
                        assert(self.tiles@[pos as int].id == ids[k]);
                    } else {
                        assert(self.tiles@[q].id == ids[k]);
                    }
                }
            }
            let outcome = train.play(tile, self.player.as_str());
            match outcome {
                Ok(_) => {
                    proof {
                        let end_j = line_end(tiles0, ids.take(j), train0.tail);
                        assert(connects(tile, end_j));
                        lemma_line_snoc(tiles0, ids.take(j), train0.tail, ids[j]);
                        assert(ids.take(j + 1) =~= ids.take(j).push(ids[j]));
                    }
                },
                Err(e) => {
                    proof {
                        let end_j = line_end(tiles0, ids.take(j), train0.tail);
                        let k = playable_prefix(tiles0, ids, train0.tail);
                        if permitted {
                            assert(!connects(tile, end_j));
                            lemma_line_decompose(tiles0, ids, train0.tail, j);
                            assert(ids.skip(j)[0] == ids[j]);
                            assert(playable_prefix(tiles0, ids.skip(j), end_j) == 0);
                            assert(k == j);
                            assert(k < ids.len());
                            assert(e == GameError::TileUnconnected);
                            assert(train.tiles@ == train0.tiles@ + line_placed(
                                tiles0,
                                ids.take(k),
                                train0.tail,
                            ));
                            assert(train.tail == line_end(tiles0, ids.take(k), train0.tail));
                            assert(self.tiles@.to_multiset().add(
                                tiles_named(tiles0, ids.take(k + 1)).to_multiset(),
                            ) == tiles0.to_multiset());
                        } else {
                            assert(j == 0);
                            assert(e == GameError::TrainClosed);
                            assert(ids.take(0int) =~= Seq::<usize>::empty());
                            assert(line_placed(tiles0, ids.take(0int), train0.tail)
                                =~= Seq::<Domino>::empty());
                            assert(train.tiles@ =~= train0.tiles@ + line_placed(
                                tiles0,
                                ids.take(0int),
                                train0.tail,
                            ));
                            assert(self.tiles@.to_multiset().add(
                                tiles_named(tiles0, ids.take(1int)).to_multiset(),
                            ) == tiles0.to_multiset());
                        }
                        assert(ids.len() > 0);
                    }
                    return Err(e);
                },
            }
            idx += 1;
        }
        proof {
            assert(ids.take(ids.len() as int) =~= ids);
        }
        Ok(())
    }

    /// Build the longest possible sequence of dominos from this hand,
    /// starting with the specified number.
    ///
    /// The hand's tiles are the edges of a multigraph on pip values; the
    /// search walks every trail from `head` by depth-first backtracking and
    /// returns the ids of the longest one: a valid line from `head` that is
    /// at least as long as every valid line from `head` this hand can play.
    /// The problem is NP-hard in general, so the exhaustive walk is expected
    /// to grow steeply with hand size.
    pub fn find_longest_from(&self, head: u8) -> (line: Vec<usize>)
        requires
            distinct_ids(self.tiles@),
        ensures
            valid_line(self.tiles@, line@, head),
            forall|ids: Seq<usize>|
                valid_line(self.tiles@, ids, head) ==> line@.len() >= #[trigger] ids.len(),
    {
        let mut best: Vec<usize> = Vec::new();
        let mut working: Vec<usize> = Vec::new();
        let mut used: Vec<bool> = Vec::new();
        let mut k: usize = 0;
        while k < self.tiles.len()
            invariant
                k <= self.tiles@.len(),
                used@.len() == k,
                forall|i: int| 0 <= i < k ==> !(#[trigger] used@[i]),
            decreases self.tiles@.len() - k,
        {
            used.push(false);
            k += 1;
        }
        proof {
            lemma_count_unused_all_false(used@);
            assert(used_matches(self.tiles@, used@, working@));
            assert(valid_line(self.tiles@, working@, head));
            assert(valid_line(self.tiles@, best@, head));
        }
        Self::depth_first_search(
            &self.tiles,
            head,
            &mut best,
            &mut used,
            &mut working,
            self.tiles.len(),
            Ghost(head),
        );
        proof {
            assert forall|ids: Seq<usize>|
                valid_line(self.tiles@, ids, head) implies best@.len() >= #[trigger] ids.len() by {
                assert(forall|k: int|
                    0 <= k < ids.len() ==> !Seq::<usize>::empty().contains(#[trigger] ids[k]));
                assert(extends_line(self.tiles@, Seq::<usize>::empty(), ids, head));
            }
        }
        best
    }

    /// One step of the backtracking search. `working` is a valid line from
    /// `start` whose open end is `head`, `used` marks exactly the tiles on
    /// it, and `best` is the longest full line found so far. Afterwards
    /// `best` is at least as long as `working` extended by any playable
    /// chain of unused tiles; `used` and `working` are restored.
    fn depth_first_search(
        tiles: &Vec<Domino>,
        head: u8,
        best: &mut Vec<usize>,
        used: &mut Vec<bool>,
        working: &mut Vec<usize>,
        free: usize,
        Ghost(start): Ghost<u8>,
    )
        requires
            distinct_ids(tiles@),
            used_matches(tiles@, old(used)@, old(working)@),
            valid_line(tiles@, old(working)@, start),
            line_end(tiles@, old(working)@, start) == head,
            valid_line(tiles@, old(best)@, start),
            free == count_unused(old(used)@),
        ensures
            final(used)@ == old(used)@,
            final(working)@ == old(working)@,
            valid_line(tiles@, final(best)@, start),
            final(best)@.len() >= old(best)@.len(),
            forall|ext: Seq<usize>|
                extends_line(tiles@, old(working)@, ext, head) ==> final(best)@.len() >= old(
                    working,
                )@.len() + #[trigger] ext.len(),
        decreases free,
    {
        let ghost pre_used = old(used)@;
        let ghost pre_working = old(working)@;
        let ghost pre_best = old(best)@;
        let mut extended = false;
        let mut i: usize = 0;
        while i < tiles.len()
            invariant
                distinct_ids(tiles@),
                i <= tiles@.len(),
                pre_used == old(used)@,
                pre_working == old(working)@,
                pre_best == old(best)@,
                used@ == pre_used,
                working@ == pre_working,
                used_matches(tiles@, used@, working@),
                valid_line(tiles@, working@, start),
                line_end(tiles@, working@, start) == head,
                free == count_unused(used@),
                valid_line(tiles@, best@, start),
                best@.len() >= pre_best.len(),
                extended ==> best@.len() >= working@.len() + 1,
                !extended ==> forall|j: int|
                    0 <= j < i ==> !(!used@[j] && connects(#[trigger] tiles@[j], head)),
                forall|ext: Seq<usize>|
                    extends_line(tiles@, working@, ext, head) && ext.len() > 0 && tile_index(
                        tiles@,
                        ext[0],
                    ) < i ==> best@.len() >= working@.len() + #[trigger] ext.len(),
            decreases tiles@.len() - i,
        {
            let tried = !used[i] && (tiles[i].left == head || tiles[i].right == head);
            if tried {
                let t = tiles[i];
                let far = if t.left == head {
                    t.right
                } else {
                    t.left
                };
                let ghost w0 = working@;
                used[i] = true;
                working.push(t.id);
                proof {
                    lemma_count_unused_set(pre_used, i as int);
                    assert(tiles@[i as int].id == t.id);
                    assert(has_tile(tiles@, t.id));
                    lemma_tile_with_at(tiles@, i as int);
                    assert(!w0.contains(t.id));
                    lemma_line_snoc(tiles@, w0, start, t.id);
                    assert(next_tail(tile_with(tiles@, t.id), head) == far);
                    assert(working@ == w0.push(t.id));
                    assert forall|k: int|
                        0 <= k < tiles@.len() implies (used@[k] <==> working@.contains(
                        #[trigger] tiles@[k].id,
                    )) by {
                        if k == i {
                            assert(working@[working@.len() - 1] == t.id);
                            assert(working@.contains(tiles@[k].id));
                        } else {
                            if k < i {
                                assert(tiles@[k].id != tiles@[i as int].id);
                            } else {
                                assert(tiles@[i as int].id != tiles@[k].id);
                            }
                            if working@.contains(tiles@[k].id) {
                                let q = choose|q: int|
                                    0 <= q < working@.len() && working@[q] == tiles@[k].id;
                                assert(working@[working@.len() - 1] == t.id);
                                assert(q < w0.len());
                                assert(w0[q] == tiles@[k].id);
                                assert(w0.contains(tiles@[k].id));
                            }
                            if w0.contains(tiles@[k].id) {
                                let q = choose|q: int|
                                    0 <= q < w0.len() && w0[q] == tiles@[k].id;
                                assert(working@[q] == tiles@[k].id);
                                assert(working@.contains(tiles@[k].id));
                            }
                        }
                    }
                    assert forall|a: int, b: int|
                        0 <= a < b < working@.len() implies working@[a] != working@[b] by {
                        if b < w0.len() {
                            assert(w0[a] != w0[b]);
                        } else {
                            assert(working@[b] == t.id);
                            assert(w0[a] != t.id) by {
                                assert(working@[a] == w0[a]);
                                if w0.contains(t.id) {
                                }
                            }
                        }
                    }
                    assert(distinct_seq(working@));
                    assert forall|k: int| 0 <= k < working@.len() implies #[trigger] has_tile(
                        tiles@,
                        working@[k],
                    ) by {
                        if k < w0.len() {
                            assert(has_tile(tiles@, w0[k]));
                        }
                    }
                    assert(valid_line(tiles@, working@, start));
                }
                Self::depth_first_search(tiles, far, best, used, working, free - 1, Ghost(start));
                let _ = working.pop();
                used[i] = false;
                proof {
                    assert(working@ =~= w0);
                    assert(used@ =~= pre_used);
                    let ghost pushed = w0.push(t.id);
                    assert(best@.len() >= pushed.len() + Seq::<usize>::empty().len()) by {
                        assert(forall|k: int|
                            0 <= k < 0 ==> #[trigger] has_tile(tiles@, Seq::<usize>::empty()[k]));
                        assert(extends_line(tiles@, pushed, Seq::<usize>::empty(), far));
                    }
                    assert(best@.len() >= working@.len() + 1);
                    assert forall|ext: Seq<usize>|
                        extends_line(tiles@, working@, ext, head) && ext.len() > 0 && tile_index(
                            tiles@,
                            ext[0],
                        ) == i implies best@.len() >= working@.len() + #[trigger] ext.len() by {
                        assert(has_tile(tiles@, ext[0]));
                        lemma_tile_index_valid(tiles@, ext[0]);
                        assert(tiles@[i as int].id == ext[0]);
                        assert(ext[0] == t.id);
                        assert(tile_with(tiles@, ext[0]) == t);
                        let rest = ext.drop_first();
                        assert(playable_prefix(tiles@, ext, head) == ext.len());
                        assert(1 + playable_prefix(tiles@, rest, next_tail(t, head))
                            == ext.len());
                        assert(playable_prefix(tiles@, rest, far) == rest.len());
                        assert forall|k: int| 0 <= k < rest.len() implies #[trigger] has_tile(
                            tiles@,
                            rest[k],
                        ) && !pushed.contains(rest[k]) by {
                            assert(rest[k] == ext[k + 1]);
                            assert(has_tile(tiles@, ext[k + 1]));
                            assert(!working@.contains(ext[k + 1]));
                            assert(ext[0] != ext[k + 1]);
                            assert forall|q: int|
                                0 <= q < pushed.len() && pushed[q] == rest[k] implies false by {
                                if q < w0.len() {
                                    assert(w0[q] == ext[k + 1]);
                                    assert(working@.contains(ext[k + 1]));
                                } else {
                                    assert(pushed[q] == t.id);
                                }
                            }
                        }
                        assert forall|a: int, b: int|
                            0 <= a < b < rest.len() implies rest[a] != rest[b] by {
                            assert(ext[a + 1] != ext[b + 1]);
                        }
                        assert(extends_line(tiles@, pushed, rest, far));
                        assert(best@.len() >= pushed.len() + rest.len());
                    }
                }
                extended = true;
            } else {
                proof {
                    assert forall|ext: Seq<usize>|
                        extends_line(tiles@, working@, ext, head) && ext.len() > 0 && tile_index(
                            tiles@,
                            ext[0],
                        ) == i implies best@.len() >= working@.len() + #[trigger] ext.len() by {
                        assert(has_tile(tiles@, ext[0]));
                        lemma_tile_index_valid(tiles@, ext[0]);
                        assert(tiles@[i as int].id == ext[0]);
                        assert(tile_with(tiles@, ext[0]) == tiles@[i as int]);
                        if used@[i as int] {
                            assert(working@.contains(tiles@[i as int].id));
                            assert(!working@.contains(ext[0]));
                            assert(false);
                        } else {
                            assert(!connects(tiles@[i as int], head));
                            assert(playable_prefix(tiles@, ext, head) == 0);
                            assert(false);
                        }
                    }
                }
            }
            i += 1;
        }
        if !extended {
            if working.len() > best.len() {
                let found = Self::copy_line(working);
                *best = found;
            }
        }
        proof {
            assert forall|ext: Seq<usize>|
                extends_line(tiles@, pre_working, ext, head) implies best@.len()
                >= pre_working.len() + #[trigger] ext.len() by {
                if ext.len() == 0 {
                    assert(best@.len() >= pre_working.len());
                } else {
                    assert(has_tile(tiles@, ext[0]));
                    lemma_tile_index_valid(tiles@, ext[0]);
                    assert(tile_index(tiles@, ext[0]) < tiles@.len());
                }
            }
        }
    }

    /// A copy of the working line, taken when it becomes the best found.
    fn copy_line(line: &Vec<usize>) -> (out: Vec<usize>)
        ensures
            out@ == line@,
    {
        let mut out: Vec<usize> = Vec::new();
        let mut i: usize = 0;
        while i < line.len()
            invariant
                i <= line@.len(),
                out@ == line@.take(i as int),
            decreases line@.len() - i,
        {
            out.push(line[i]);
            proof {
                assert(line@.take(i + 1) =~= line@.take(i as int).push(line@[i as int]));
            }
            i += 1;
        }
        proof {
            assert(line@.take(line@.len() as int) =~= line@);
        }
        out
    }

    /// The position in the hand of the tile carrying the id.
    fn position_of_id(tiles: &Vec<Domino>, id: usize) -> (pos: usize)
        requires
            has_tile(tiles@, id),
        ensures
            pos < tiles@.len(),
            tiles@[pos as int].id == id,
    {
        let mut i: usize = 0;
        while i < tiles.len()
            invariant
                i <= tiles@.len(),
                has_tile(tiles@, id),
                forall|k: int| 0 <= k < i ==> #[trigger] tiles@[k].id != id,
            decreases tiles@.len() - i,
        {
            if tiles[i].id == id {
                return i;
            }
            i += 1;
        }
        proof {
            let w = choose|k: int| 0 <= k < tiles@.len() && #[trigger] tiles@[k].id == id;
            assert(false);
        }
        vstd::pervasive::unreached()
    }

    /// The hand as text: the owner, an arrow, then every tile.
    pub fn text(&self) -> (s: String)
        ensures
            s@ == self.player@ + "->"@ + tiles_text(self.tiles@),
    {
        let mut s = String::from_str(self.player.as_str());
        s.append("->");
        push_tiles_text(&mut s, &self.tiles);
        proof {
            assert(s@ =~= self.player@ + "->"@ + tiles_text(self.tiles@));
        }
        s
    }
}

} // verus!
