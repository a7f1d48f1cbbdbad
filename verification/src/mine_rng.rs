//! The deterministic pseudo-random generator that places mines: a xorshift step on a
//! 64-bit seed, bounded draws, and a Fisher-Yates shuffle driven by it.

use vstd::prelude::*;

verus! {

/// One xorshift step of the seed; a zero result is replaced by 1 so the seed never sticks at 0.
pub open spec fn xorshift_step(value: u64) -> u64 {
    let a = value ^ (value << 13u64);
    let b = a ^ (a >> 7u64);
    let c = b ^ (b << 17u64);
    if c == 0 {
        1
    } else {
        c
    }
}

/// Advances the seed by one xorshift step and returns the new seed.
pub fn next_seed(seed: &mut u64) -> (value: u64)
    ensures
        value == xorshift_step(*old(seed)),
        *final(seed) == value,
        value >= 1,
{
    let mut value = *seed;
    value = value ^ (value << 13u64);
    value = value ^ (value >> 7u64);
    value = value ^ (value << 17u64);
    *seed = if value == 0 {
        1
    } else {
        value
    };
    *seed
}

/// A draw below `upper_exclusive`, advancing the seed; drawing below 0 gives 0 and keeps it.
pub fn random_index(seed: &mut u64, upper_exclusive: usize) -> (r: usize)
    ensures
        upper_exclusive == 0 ==> r == 0 && *final(seed) == *old(seed),
        upper_exclusive > 0 ==> {
            &&& *final(seed) == xorshift_step(*old(seed))
            &&& r as int == (xorshift_step(*old(seed)) as int) % (upper_exclusive as int)
            &&& r < upper_exclusive
        },
{
    if upper_exclusive == 0 {
        return 0;
    }
    let bound = upper_exclusive as u64;
    let value = next_seed(seed);
    (value % bound) as usize
}

/// The state of a Fisher-Yates shuffle that has still to place positions `1..=i`:
/// position `i` is swapped with a draw below `i + 1`, then the rest is shuffled.
pub open spec fn shuffle_from(values: Seq<usize>, seed: u64, i: int) -> (Seq<usize>, u64)
    decreases i,
{
    if i < 1 {
        (values, seed)
    } else {
        let s = xorshift_step(seed);
        let j = (s as int) % (i + 1);
        shuffle_from(values.update(i, values[j]).update(j, values[i]), s, i - 1)
    }
}

/// The shuffled sequence and the final seed of a full Fisher-Yates pass over `values`.
pub open spec fn shuffle_spec(values: Seq<usize>, seed: u64) -> (Seq<usize>, u64) {
    shuffle_from(values, seed, values.len() - 1)
}

/// A shuffle of distinct values keeps them distinct.
pub proof fn lemma_shuffle_from_distinct(values: Seq<usize>, seed: u64, i: int)
    requires
        i < values.len(),
        values.no_duplicates(),
    ensures
        shuffle_from(values, seed, i).0.no_duplicates(),
    decreases i,
{
    if i >= 1 {
        let s = xorshift_step(seed);
        let j = (s as int) % (i + 1);
        let swapped = values.update(i, values[j]).update(j, values[i]);
        assert forall|a: int, b: int| 0 <= a < swapped.len() && 0 <= b < swapped.len() && a != b implies swapped[a]
            != swapped[b] by {
            let pa = if a == j {
                i
            } else if a == i {
                j
            } else {
                a
            };
            let pb = if b == j {
                i
            } else if b == i {
                j
            } else {
                b
            };
            assert(swapped[a] == values[pa]);
            assert(swapped[b] == values[pb]);
        }
        lemma_shuffle_from_distinct(swapped, s, i - 1);
    }
}

/// A shuffle keeps the length and the set of values.
pub proof fn lemma_shuffle_from_keeps(values: Seq<usize>, seed: u64, i: int)
    requires
        i < values.len(),
    ensures
        shuffle_from(values, seed, i).0.len() == values.len(),
        forall|x: usize| #[trigger]
            shuffle_from(values, seed, i).0.contains(x) <==> values.contains(x),
    decreases i,
{
    if i >= 1 {
        let s = xorshift_step(seed);
        let j = (s as int) % (i + 1);
        let swapped = values.update(i, values[j]).update(j, values[i]);
        assert forall|x: usize| swapped.contains(x) <==> values.contains(x) by {
            if swapped.contains(x) {
                let k = choose|k: int| 0 <= k < swapped.len() && swapped[k] == x;
                if k == j {
                    assert(values[i] == x);
                } else if k == i {
                    assert(values[j] == x);
                } else {
                    assert(values[k] == x);
                }
            }
            if values.contains(x) {
                let k = choose|k: int| 0 <= k < values.len() && values[k] == x;
                if k == j {
                    assert(swapped[i] == x);
                } else if k == i {
                    assert(swapped[j] == x);
                } else {
                    assert(swapped[k] == x);
                }
            }
        }
        lemma_shuffle_from_keeps(swapped, s, i - 1);
    }
}

/// Shuffles `values` in place with the seeded Fisher-Yates pass of `shuffle_spec`.
pub fn shuffle_indexes(values: &mut Vec<usize>, seed: &mut u64)
    ensures
        (final(values)@, *final(seed)) == shuffle_spec(old(values)@, *old(seed)),
{
    let len = values.len();
    if len == 0 {
        return;
    }
    let mut index = len - 1;
    while index >= 1
        invariant
            values.len() == len,
            index < len,
            shuffle_from(values@, *seed, index as int) == shuffle_spec(old(values)@, *old(seed)),
        decreases index,
    {
        let swap_index = random_index(seed, index + 1);
        let a = values[index];
        let b = values[swap_index];
        values.set(index, b);
        values.set(swap_index, a);
        index = index - 1;
    }
}

/// A random starting row or column at least four cells from both edges of an axis of
/// length `size`; on axes too short for that, the middle.
pub fn random_tile_start_axis(seed: &mut u64, size: usize) -> (r: usize)
    ensures
        size <= 8 ==> r == size / 2 && *final(seed) == *old(seed),
        size > 8 ==> {
            &&& *final(seed) == xorshift_step(*old(seed))
            &&& r as int == 4 + (xorshift_step(*old(seed)) as int) % (size - 8)
            &&& 4 <= r < size - 4
        },
{
    let min: usize = 4;
    let max_exclusive = if size >= 4 {
        size - 4
    } else {
        0
    };
    if max_exclusive <= min {
        return size / 2;
    }
    min + random_index(seed, max_exclusive - min)
}

} // verus!
