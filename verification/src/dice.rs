//! Numeric dice with up to 255 sides, and pools of simultaneous rolls.
//!
//! A [`Die`] produces single rolls; [`DicePool`] holds a batch of rolls and
//! offers the usual table-game transformations (buff, nerf, keep-highest and
//! so on), each specified exactly over the pool's mathematical view.

use std::collections::HashMap;
use vstd::multiset::Multiset;
use vstd::prelude::*;

use crate::random::random_in_range;

verus! {

/// Sum of all rolls in a pool, as an unbounded integer.
pub open spec fn sum_of(s: Seq<u8>) -> int
    decreases s.len(),
{
    if s.len() == 0 {
        0
    } else {
        sum_of(s.drop_last()) + s.last()
    }
}

/// How many entries of `s` equal `v`.
pub open spec fn count_of(s: Seq<u8>, v: u8) -> nat
    decreases s.len(),
{
    if s.len() == 0 {
        0nat
    } else {
        count_of(s.drop_last(), v) + if s.last() == v {
            1nat
        } else {
            0nat
        }
    }
}

/// How many entries of `s` satisfy the predicate `p`.
pub open spec fn count_matching(s: Seq<u8>, p: spec_fn(u8) -> bool) -> nat
    decreases s.len(),
{
    if s.len() == 0 {
        0nat
    } else {
        count_matching(s.drop_last(), p) + if p(s.last()) {
            1nat
        } else {
            0nat
        }
    }
}

/// The sequence never increases from left to right.
pub open spec fn sorted_descending(s: Seq<u8>) -> bool {
    forall|i: int, j: int| 0 <= i <= j < s.len() ==> s[i] >= s[j]
}

/// The sequence never decreases from left to right.
pub open spec fn sorted_ascending(s: Seq<u8>) -> bool {
    forall|i: int, j: int| 0 <= i <= j < s.len() ==> s[i] <= s[j]
}

proof fn lemma_sum_take_step(s: Seq<u8>, i: int)
    requires
        0 <= i < s.len(),
    ensures
        sum_of(s.take(i + 1)) == sum_of(s.take(i)) + s[i],
        count_of(s.take(i + 1), s[i]) == count_of(s.take(i), s[i]) + 1,
        forall|v: u8| v != s[i] ==> count_of(s.take(i + 1), v) == count_of(s.take(i), v),
{
    assert(s.take(i + 1).drop_last() =~= s.take(i));
    assert(s.take(i + 1).last() == s[i]);
}

proof fn lemma_count_matching_take_step(s: Seq<u8>, p: spec_fn(u8) -> bool, i: int)
    requires
        0 <= i < s.len(),
    ensures
        count_matching(s.take(i + 1), p) == count_matching(s.take(i), p) + if p(s[i]) {
            1nat
        } else {
            0nat
        },
{
    assert(s.take(i + 1).drop_last() =~= s.take(i));
    assert(s.take(i + 1).last() == s[i]);
}

proof fn lemma_sum_bound(s: Seq<u8>)
    ensures
        0 <= sum_of(s) <= 255 * s.len(),
    decreases s.len(),
{
    if s.len() > 0 {
        lemma_sum_bound(s.drop_last());
    }
}

/// A single die with a user-defined number of sides.
#[derive(Debug, Clone, Copy, PartialEq, Eq, PartialOrd, Ord, Structural)]
pub struct Die {
    pub sides: u8,
}

impl Die {
    /// Creates a new die with the specified number of sides (at least one).
    pub fn new(sides: u8) -> (d: Die)
        requires
            sides >= 1,
        ensures
            d.sides == sides,
    {
        Die { sides }
    }

    /// Rolls the die and returns the face-up value, between 1 and the number
    /// of sides inclusive.
    pub fn roll(&self) -> (r: u8)
        requires
            self.sides >= 1,
        ensures
            1 <= r <= self.sides,
    {
        random_in_range(1, self.sides)
    }

    /// Rolls the die `times` times and returns the results as a pool.
    pub fn roll_into_pool(&self, times: usize) -> (pool: DicePool)
        requires
            self.sides >= 1,
            times >= 1,
        ensures
            pool@.len() == times,
            forall|j: int| 0 <= j < pool@.len() ==> 1 <= #[trigger] pool@[j] <= self.sides,
    {
        let mut rolls: Vec<u8> = Vec::new();
        let mut i: usize = 0;
        while i < times
            invariant
                self.sides >= 1,
                i <= times,
                rolls@.len() == i,
                forall|j: int| 0 <= j < i ==> 1 <= #[trigger] rolls@[j] <= self.sides,
            decreases times - i,
        {
            rolls.push(self.roll());
            i += 1;
        }
        DicePool { rolls }
    }

    /// Rolls the die once, rolling again and adding whenever the trigger
    /// value comes up, with the running total capped at 255.
    ///
    /// Whatever the rolls were, the result is at least 1, and it can only
    /// equal the trigger itself if the total saturated at 255.
    pub fn roll_explode_on(&self, trigger: u8) -> (r: u8)
        requires
            self.sides >= 1,
        ensures
            r >= 1,
            r != trigger || r == 255,
            trigger > self.sides ==> r <= self.sides,
    {
        let first = self.roll();
        if first != trigger {
            return first;
        }
        // The trigger was rolled, so it is a reachable face: 1 <= trigger <= sides.
        let mut total: u8 = first;
        loop
            invariant
                1 <= self.sides,
                1 <= trigger <= self.sides,
                trigger <= total,
            decreases 255 - total,
        {
            if total == 255 {
                // Saturated: further exploding cannot change the total.
                return 255;
            }
            let next = self.roll();
            if next != trigger {
                return total.saturating_add(next);
            }
            total = total.saturating_add(trigger);
        }
    }

    /// Rolls the die once, exploding on the maximum face.
    pub fn roll_exploding(&self) -> (r: u8)
        requires
            self.sides >= 1,
        ensures
            r >= 1,
            r != self.sides || r == 255,
    {
        self.roll_explode_on(self.sides)
    }
}

/// A pool of simultaneously rolled dice results.
///
/// The view of a pool is the sequence of its rolls in storage order.
#[derive(Debug, Clone, Eq, PartialEq)]
pub struct DicePool {
    rolls: Vec<u8>,
}

impl View for DicePool {
    type V = Seq<u8>;

    closed spec fn view(&self) -> Seq<u8> {
        self.rolls@
    }
}

impl DicePool {
    /// Creates a new, empty pool.
    pub fn new() -> (pool: DicePool)
        ensures
            pool@ == Seq::<u8>::empty(),
    {
        DicePool { rolls: Vec::<u8>::new() }
    }

    /// Returns a slice of all rolls in the pool.
    pub fn results(&self) -> (r: &[u8])
        ensures
            r@ == self@,
    {
        self.rolls.as_slice()
    }

    /// Adds a roll to the pool.
    pub fn add_roll(&mut self, roll: u8)
        ensures
            final(self)@ == old(self)@.push(roll),
    {
        self.rolls.push(roll)
    }

    /// Returns the sum of all die rolls in the pool.
    pub fn sum(&self) -> (total: u64)
        requires
            self@.len() <= 0x1000_0000_0000,
        ensures
            total == sum_of(self@),
    {
        proof {
            lemma_sum_bound(self@);
        }
        let mut total: u64 = 0;
        let mut i: usize = 0;
        while i < self.rolls.len()
            invariant
                self@.len() <= 0x1000_0000_0000,
                i <= self@.len(),
                total == sum_of(self@.take(i as int)),
                total <= 255 * i,
            decreases self@.len() - i,
        {
            proof {
                lemma_sum_take_step(self@, i as int);
            }
            total = total + self.rolls[i] as u64;
            i += 1;
        }
        proof {
            assert(self@.take(self@.len() as int) =~= self@);
        }
        total
    }

    /// Returns the number of die rolls in the pool.
    pub fn size(&self) -> (n: usize)
        ensures
            n == self@.len(),
    {
        self.rolls.len()
    }

    /// Adds a bonus to every roll in the pool, saturating at 255.
    pub fn buff(&self, bonus: u8) -> (pool: DicePool)
        ensures
            pool@.len() == self@.len(),
            forall|i: int|
                0 <= i < self@.len() ==> #[trigger] pool@[i] == if self@[i] + bonus > 255 {
                    255u8
                } else {
                    (self@[i] + bonus) as u8
                },
    {
        let mut buffed: Vec<u8> = Vec::new();
        let mut i: usize = 0;
        while i < self.rolls.len()
            invariant
                i <= self@.len(),
                buffed@.len() == i,
                forall|j: int|
                    0 <= j < i ==> #[trigger] buffed@[j] == if self@[j] + bonus > 255 {
                        255u8
                    } else {
                        (self@[j] + bonus) as u8
                    },
            decreases self@.len() - i,
        {
            buffed.push(self.rolls[i].saturating_add(bonus));
            i += 1;
        }
        DicePool { rolls: buffed }
    }

    /// Reduces every roll in the pool by a penalty, stopping at zero.
    pub fn nerf(&self, penalty: u8) -> (pool: DicePool)
        ensures
            pool@.len() == self@.len(),
            forall|i: int|
                0 <= i < self@.len() ==> #[trigger] pool@[i] == if self@[i] - penalty < 0 {
                    0u8
                } else {
                    (self@[i] - penalty) as u8
                },
    {
        let mut nerfed: Vec<u8> = Vec::new();
        let mut i: usize = 0;
        while i < self.rolls.len()
            invariant
                i <= self@.len(),
                nerfed@.len() == i,
                forall|j: int|
                    0 <= j < i ==> #[trigger] nerfed@[j] == if self@[j] - penalty < 0 {
                        0u8
                    } else {
                        (self@[j] - penalty) as u8
                    },
            decreases self@.len() - i,
        {
            nerfed.push(self.rolls[i].saturating_sub(penalty));
            i += 1;
        }
        DicePool { rolls: nerfed }
    }

    /// Returns `Some((min, max))` of the rolls in the pool, or `None` if the
    /// pool is empty.
    pub fn range(&self) -> (r: Option<(u8, u8)>)
        ensures
            match r {
                None => self@.len() == 0,
                Some((mn, mx)) => {
                    &&& self@.len() > 0
                    &&& self@.contains(mn)
                    &&& self@.contains(mx)
                    &&& forall|i: int| 0 <= i < self@.len() ==> mn <= #[trigger] self@[i] <= mx
                },
            },
    {
        if self.rolls.len() == 0 {
            return None;
        }
        let mut mn: u8 = self.rolls[0];
        let mut mx: u8 = self.rolls[0];
        let mut i: usize = 1;
        while i < self.rolls.len()
            invariant
                1 <= i <= self@.len(),
                self@.contains(mn),
                self@.contains(mx),
                forall|j: int| 0 <= j < i ==> mn <= #[trigger] self@[j] <= mx,
            decreases self@.len() - i,
        {
            let x = self.rolls[i];
            if x < mn {
                mn = x;
            }
            if x > mx {
                mx = x;
            }
            i += 1;
        }
        Some((mn, mx))
    }

    /// Counts how many times a particular value was rolled.
    pub fn count_roll(&self, value: u8) -> (n: usize)
        ensures
            n == count_of(self@, value),
    {
        proof {
            lemma_count_le_len(self@, value);
        }
        let mut n: usize = 0;
        let mut i: usize = 0;
        while i < self.rolls.len()
            invariant
                i <= self@.len(),
                n == count_of(self@.take(i as int), value),
                n <= i,
            decreases self@.len() - i,
        {
            proof {
                lemma_sum_take_step(self@, i as int);
            }
            if self.rolls[i] == value {
                n += 1;
            }
            i += 1;
        }
        proof {
            assert(self@.take(self@.len() as int) =~= self@);
        }
        n
    }
}

proof fn lemma_count_le_len(s: Seq<u8>, v: u8)
    ensures
        count_of(s, v) <= s.len(),
    decreases s.len(),
{
    if s.len() > 0 {
        lemma_count_le_len(s.drop_last(), v);
    }
}

/// Copy of a roll vector, used where a transformation must not disturb the
/// original pool.
fn copy_rolls(v: &Vec<u8>) -> (out: Vec<u8>)
    ensures
        out@ == v@,
{
    let mut out: Vec<u8> = Vec::new();
    let mut i: usize = 0;
    while i < v.len()
        invariant
            i <= v@.len(),
            out@ == v@.take(i as int),
        decreases v@.len() - i,
    {
        out.push(v[i]);
        proof {
            assert(v@.take(i + 1) =~= v@.take(i as int).push(v@[i as int]));
        }
        i += 1;
    }
    proof {
        assert(v@.take(v@.len() as int) =~= v@);
    }
    out
}

/// Insertion sort into non-increasing order; the result holds exactly the
/// rolls of the input.
fn sort_rolls_descending(v: &Vec<u8>) -> (out: Vec<u8>)
    ensures
        out@.len() == v@.len(),
        out@.to_multiset() == v@.to_multiset(),
        sorted_descending(out@),
{
    broadcast use vstd::seq_lib::group_to_multiset_ensures;

    let mut out: Vec<u8> = Vec::new();
    let mut i: usize = 0;
    while i < v.len()
        invariant
            i <= v@.len(),
            out@.len() == i,
            sorted_descending(out@),
            out@.to_multiset() == v@.take(i as int).to_multiset(),
        decreases v@.len() - i,
    {
        let x = v[i];
        let ghost prev = out@;
        let mut pos: usize = 0;
        while pos < out.len() && x < out[pos]
            invariant
                pos <= out@.len(),
                forall|k: int| 0 <= k < pos ==> #[trigger] out@[k] > x,
                out@ == prev,
            decreases out@.len() - pos,
        {
            pos += 1;
        }
        out.insert(pos, x);
        proof {
            prev.insert_ensures(pos as int, x);
            assert forall|a: int, b: int| 0 <= a <= b < out@.len() implies out@[a] >= out@[b] by {
                if b > pos {
                    assert(out@[b] == prev[b - 1]);
                    assert(prev[pos as int] <= x);
                }
                if a < pos {
                    assert(out@[a] == prev[a]);
                    assert(out@[a] > x);
                }
                if pos < a <= b {
                    assert(out@[a] == prev[a - 1] && out@[b] == prev[b - 1]);
                }
            }
            vstd::seq_lib::to_multiset_insert(prev, pos as int, x);
            vstd::seq_lib::to_multiset_build(v@.take(i as int), x);
            assert(v@.take(i + 1) =~= v@.take(i as int).push(x));
            assert(out@.to_multiset() =~= v@.take(i + 1).to_multiset());
        }
        i += 1;
    }
    proof {
        assert(v@.take(v@.len() as int) =~= v@);
    }
    out
}

/// Insertion sort into non-decreasing order; the result holds exactly the
/// rolls of the input.
fn sort_rolls_ascending(v: &Vec<u8>) -> (out: Vec<u8>)
    ensures
        out@.len() == v@.len(),
        out@.to_multiset() == v@.to_multiset(),
        sorted_ascending(out@),
{
    broadcast use vstd::seq_lib::group_to_multiset_ensures;

    let mut out: Vec<u8> = Vec::new();
    let mut i: usize = 0;
    while i < v.len()
        invariant
            i <= v@.len(),
            out@.len() == i,
            sorted_ascending(out@),
            out@.to_multiset() == v@.take(i as int).to_multiset(),
        decreases v@.len() - i,
    {
        let x = v[i];
        let ghost prev = out@;
        let mut pos: usize = 0;
        while pos < out.len() && x > out[pos]
            invariant
                pos <= out@.len(),
                forall|k: int| 0 <= k < pos ==> #[trigger] out@[k] < x,
                out@ == prev,
            decreases out@.len() - pos,
        {
            pos += 1;
        }
        out.insert(pos, x);
        proof {
            prev.insert_ensures(pos as int, x);
            assert forall|a: int, b: int| 0 <= a <= b < out@.len() implies out@[a] <= out@[b] by {
                if b > pos {
                    assert(out@[b] == prev[b - 1]);
                    assert(prev[pos as int] >= x);
                }
                if a < pos {
                    assert(out@[a] == prev[a]);
                    assert(out@[a] < x);
                }
                if pos < a <= b {
                    assert(out@[a] == prev[a - 1] && out@[b] == prev[b - 1]);
                }
            }
            vstd::seq_lib::to_multiset_insert(prev, pos as int, x);
            vstd::seq_lib::to_multiset_build(v@.take(i as int), x);
            assert(v@.take(i + 1) =~= v@.take(i as int).push(x));
            assert(out@.to_multiset() =~= v@.take(i + 1).to_multiset());
        }
        i += 1;
    }
    proof {
        assert(v@.take(v@.len() as int) =~= v@);
    }
    out
}

/// The multiset of rolls that were discarded when `kept` was selected out of
/// `all`.
pub open spec fn discarded_from(all: Seq<u8>, kept: Seq<u8>) -> Multiset<u8> {
    all.to_multiset().sub(kept.to_multiset())
}

impl DicePool {
    /// Returns a new pool holding only the highest `count` rolls, in
    /// non-increasing order. A zero `count` gives an empty pool; a `count` at
    /// or above the pool size gives the pool back unchanged.
    pub fn take_highest(&self, count: usize) -> (pool: DicePool)
        ensures
            count == 0 ==> pool@ == Seq::<u8>::empty(),
            count >= self@.len() && count > 0 ==> pool@ == self@,
            0 < count < self@.len() ==> {
                &&& pool@.len() == count
                &&& sorted_descending(pool@)
                &&& pool@.to_multiset().subset_of(self@.to_multiset())
                &&& forall|a: u8, b: u8|
                    #[trigger] pool@.to_multiset().count(a) > 0 && #[trigger] discarded_from(
                        self@,
                        pool@,
                    ).count(b) > 0 ==> b <= a
            },
    {
        broadcast use vstd::seq_lib::group_to_multiset_ensures;

        if count == 0 {
            return DicePool::new();
        }
        if count >= self.rolls.len() {
            return DicePool { rolls: copy_rolls(&self.rolls) };
        }
        let mut best = sort_rolls_descending(&self.rolls);
        let ghost sorted = best@;
        best.truncate(count);
        proof {
            assert(best@ == sorted.take(count as int));
            lemma_take_skip_split(sorted, count as int);
            assert(discarded_from(self@, best@) =~= sorted.skip(count as int).to_multiset());
            assert forall|a: u8, b: u8|
                #[trigger] best@.to_multiset().count(a) > 0 && #[trigger] discarded_from(
                    self@,
                    best@,
                ).count(b) > 0 implies b <= a by {
                let kept = sorted.take(count as int);
                let dropped = sorted.skip(count as int);
                assert(kept.contains(a));
                assert(dropped.contains(b));
                let ka = choose|k: int| 0 <= k < kept.len() && kept[k] == a;
                let kb = choose|k: int| 0 <= k < dropped.len() && dropped[k] == b;
                assert(sorted[ka] == a && sorted[count + kb] == b);
            }
            assert forall|x: u8| #[trigger] best@.to_multiset().count(x) <= self@.to_multiset().count(
                x,
            ) by {
                lemma_take_count_le(sorted, count as int, x);
            }
        }
        DicePool { rolls: best }
    }

    /// Returns a new pool holding only the lowest `count` rolls, in
    /// non-decreasing order. A zero `count` gives an empty pool; a `count` at
    /// or above the pool size gives the pool back unchanged.
    pub fn take_lowest(&self, count: usize) -> (pool: DicePool)
        ensures
            count == 0 ==> pool@ == Seq::<u8>::empty(),
            count >= self@.len() && count > 0 ==> pool@ == self@,
            0 < count < self@.len() ==> {
                &&& pool@.len() == count
                &&& sorted_ascending(pool@)
                &&& pool@.to_multiset().subset_of(self@.to_multiset())
                &&& forall|a: u8, b: u8|
                    #[trigger] pool@.to_multiset().count(a) > 0 && #[trigger] discarded_from(
                        self@,
                        pool@,
                    ).count(b) > 0 ==> b >= a
            },
    {
        broadcast use vstd::seq_lib::group_to_multiset_ensures;

        if count == 0 {
            return DicePool::new();
        }
        if count >= self.rolls.len() {
            return DicePool { rolls: copy_rolls(&self.rolls) };
        }
        let mut best = sort_rolls_ascending(&self.rolls);
        let ghost sorted = best@;
        best.truncate(count);
        proof {
            assert(best@ == sorted.take(count as int));
            lemma_take_skip_split(sorted, count as int);
            assert(discarded_from(self@, best@) =~= sorted.skip(count as int).to_multiset());
            assert forall|a: u8, b: u8|
                #[trigger] best@.to_multiset().count(a) > 0 && #[trigger] discarded_from(
                    self@,
                    best@,
                ).count(b) > 0 implies b >= a by {
                let kept = sorted.take(count as int);
                let dropped = sorted.skip(count as int);
                assert(kept.contains(a));
                assert(dropped.contains(b));
                let ka = choose|k: int| 0 <= k < kept.len() && kept[k] == a;
                let kb = choose|k: int| 0 <= k < dropped.len() && dropped[k] == b;
                assert(sorted[ka] == a && sorted[count + kb] == b);
            }
            assert forall|x: u8| #[trigger] best@.to_multiset().count(x) <= self@.to_multiset().count(
                x,
            ) by {
                lemma_take_count_le(sorted, count as int, x);
            }
        }
        DicePool { rolls: best }
    }
}

/// Relates one roll before [`DicePool::reroll_if`] to the roll in its place
/// afterwards: if the predicate matched, the entry was rerolled with `die`;
/// otherwise it is unchanged.
pub open spec fn reroll_step<F: Fn(u8) -> bool>(f: F, before: u8, after: u8, sides: u8) -> bool {
    exists|b: bool|
        {
            &&& #[trigger] f.ensures((before,), b)
            &&& (b ==> 1 <= after <= sides)
            &&& (!b ==> after == before)
        }
}

impl DicePool {
    /// Returns a map from rolled value to the number of times it was rolled.
    pub fn binned_rolls(&self) -> (bins: HashMap<u8, usize>)
        ensures
            forall|v: u8| #[trigger] bins@.contains_key(v) <==> self@.contains(v),
            forall|v: u8| #[trigger] bins@.contains_key(v) ==> bins@[v] == count_of(self@, v),
    {
        broadcast use vstd::std_specs::hash::group_hash_axioms;

        let mut bins: HashMap<u8, usize> = HashMap::new();
        let mut i: usize = 0;
        while i < self.rolls.len()
            invariant
                i <= self@.len(),
                forall|v: u8| #[trigger] bins@.contains_key(v) <==> self@.take(i as int).contains(v),
                forall|v: u8| #[trigger] bins@.contains_key(v) ==> bins@[v] == count_of(self@, v),
            decreases self@.len() - i,
        {
            let x = self.rolls[i];
            let n = self.count_roll(x);
            bins.insert(x, n);
            proof {
                assert(self@.take(i + 1) =~= self@.take(i as int).push(self@[i as int]));
                assert forall|v: u8| #[trigger] bins@.contains_key(v) <==> self@.take(
                    i + 1,
                ).contains(v) by {
                    if bins@.contains_key(v) {
                        if v == x {
                            assert(self@.take(i + 1).last() == v);
                        } else {
                            let k = choose|k: int|
                                0 <= k < i && #[trigger] self@.take(i as int)[k] == v;
                            assert(self@.take(i + 1)[k] == v);
                        }
                    } else {
                        assert(!self@.take(i as int).contains(v) && v != x);
                        if self@.take(i + 1).contains(v) {
                            let k = choose|k: int|
                                0 <= k < i + 1 && #[trigger] self@.take(i + 1)[k] == v;
                            assert(k < i && self@.take(i as int)[k] == v);
                        }
                    }
                }
            }
            i += 1;
        }
        proof {
            assert(self@.take(self@.len() as int) =~= self@);
        }
        bins
    }

    /// Rerolls every result that satisfies the predicate, leaving the others
    /// untouched.
    pub fn reroll_if<F: Fn(u8) -> bool>(&self, die: &Die, predicate: F) -> (pool: DicePool)
        requires
            die.sides >= 1,
            forall|x: u8| predicate.requires((x,)),
        ensures
            pool@.len() == self@.len(),
            forall|i: int|
                0 <= i < self@.len() ==> #[trigger] reroll_step(
                    predicate,
                    self@[i],
                    pool@[i],
                    die.sides,
                ),
    {
        let mut rerolled: Vec<u8> = Vec::new();
        let mut i: usize = 0;
        while i < self.rolls.len()
            invariant
                die.sides >= 1,
                i <= self@.len(),
                rerolled@.len() == i,
                forall|x: u8| predicate.requires((x,)),
                forall|j: int|
                    0 <= j < i ==> #[trigger] reroll_step(
                        predicate,
                        self@[j],
                        rerolled@[j],
                        die.sides,
                    ),
            decreases self@.len() - i,
        {
            let x = self.rolls[i];
            let matched = predicate(x);
            if matched {
                rerolled.push(die.roll());
            } else {
                rerolled.push(x);
            }
            proof {
                assert(predicate.ensures((x,), matched));
                assert(reroll_step(predicate, self@[i as int], rerolled@[i as int], die.sides));
            }
            i += 1;
        }
        DicePool { rolls: rerolled }
    }

    /// Counts the rolls that satisfy the predicate. For a deterministic
    /// predicate the count is exactly the number of matching entries.
    pub fn count_if<F: Fn(u8) -> bool>(&self, predicate: F) -> (n: usize)
        requires
            forall|x: u8| predicate.requires((x,)),
        ensures
            n <= self@.len(),
            (forall|x: u8, b1: bool, b2: bool|
                #[trigger] predicate.ensures((x,), b1) && #[trigger] predicate.ensures((x,), b2)
                    ==> b1 == b2) ==> n == count_matching(
                self@,
                |x: u8| predicate.ensures((x,), true),
            ),
    {
        let ghost p = |x: u8| predicate.ensures((x,), true);
        let ghost det = forall|x: u8, b1: bool, b2: bool|
            #[trigger] predicate.ensures((x,), b1) && #[trigger] predicate.ensures((x,), b2)
                ==> b1 == b2;
        let mut n: usize = 0;
        let mut i: usize = 0;
        while i < self.rolls.len()
            invariant
                i <= self@.len(),
                n <= i,
                forall|x: u8| predicate.requires((x,)),
                det == (forall|x: u8, b1: bool, b2: bool|
                    #[trigger] predicate.ensures((x,), b1) && #[trigger] predicate.ensures(
                        (x,),
                        b2,
                    ) ==> b1 == b2),
                p == (|x: u8| predicate.ensures((x,), true)),
                det ==> n == count_matching(self@.take(i as int), p),
            decreases self@.len() - i,
        {
            let x = self.rolls[i];
            let b = predicate(x);
            proof {
                lemma_count_matching_take_step(self@, p, i as int);
                if det {
                    if b {
                        assert(p(x));
                    } else {
                        if p(x) {
                            assert(predicate.ensures((x,), true));
                            assert(predicate.ensures((x,), false));
                            assert(false);
                        }
                    }
                }
            }
            if b {
                n += 1;
            }
            i += 1;
        }
        proof {
            assert(self@.take(self@.len() as int) =~= self@);
        }
        n
    }

    /// Counts the rolls strictly over the given threshold.
    pub fn count_over(&self, threshold: u8) -> (n: usize)
        ensures
            n == count_matching(self@, |x: u8| x > threshold),
    {
        let ghost p = |x: u8| x > threshold;
        let mut n: usize = 0;
        let mut i: usize = 0;
        while i < self.rolls.len()
            invariant
                i <= self@.len(),
                n <= i,
                p == (|x: u8| x > threshold),
                n == count_matching(self@.take(i as int), p),
            decreases self@.len() - i,
        {
            proof {
                lemma_count_matching_take_step(self@, p, i as int);
            }
            if self.rolls[i] > threshold {
                n += 1;
            }
            i += 1;
        }
        proof {
            assert(self@.take(self@.len() as int) =~= self@);
        }
        n
    }
}

impl core::default::Default for DicePool {
    /// An empty pool.
    fn default() -> (pool: DicePool)
        ensures
            pool@ == Seq::<u8>::empty(),
    {
        DicePool::new()
    }
}

impl From<Vec<u8>> for DicePool {
    /// Wraps an existing vector of rolls as a pool.
    fn from(rolls: Vec<u8>) -> (pool: DicePool)
        ensures
            pool@ == rolls@,
    {
        DicePool { rolls }
    }
}

impl vstd::std_specs::convert::FromSpecImpl<Vec<u8>> for DicePool {
    open spec fn obeys_from_spec() -> bool {
        true
    }

    closed spec fn from_spec(rolls: Vec<u8>) -> DicePool {
        DicePool { rolls }
    }
}

impl From<&[u8]> for DicePool {
    /// Copies a slice of rolls into a new pool.
    fn from(rolls: &[u8]) -> (pool: DicePool)
        ensures
            pool@ == rolls@,
    {
        DicePool { rolls: vstd::slice::slice_to_vec(rolls) }
    }
}

impl vstd::std_specs::convert::FromSpecImpl<&[u8]> for DicePool {
    open spec fn obeys_from_spec() -> bool {
        false
    }

    closed spec fn from_spec(rolls: &[u8]) -> DicePool {
        vstd::pervasive::arbitrary()
    }
}

/// A sequence splits into its first `k` elements and the rest.
proof fn lemma_take_skip_split(s: Seq<u8>, k: int)
    requires
        0 <= k <= s.len(),
    ensures
        s.to_multiset() == s.take(k).to_multiset().add(s.skip(k).to_multiset()),
{
    assert(s =~= s.take(k) + s.skip(k));
    vstd::seq_lib::lemma_multiset_commutative(s.take(k), s.skip(k));
}

proof fn lemma_take_count_le(s: Seq<u8>, k: int, x: u8)
    requires
        0 <= k <= s.len(),
    ensures
        s.take(k).to_multiset().count(x) <= s.to_multiset().count(x),
{
    lemma_take_skip_split(s, k);
}

} // verus!
