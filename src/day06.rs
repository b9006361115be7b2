//! Boat races: holding the button for `i` of the race's `time` milliseconds
//! gives speed `i` for the remaining `time - i`.
use vstd::prelude::*;

verus! {

/// Whether holding for `i` beats the record `distance`.
pub open spec fn wins(time: int, distance: int, i: int) -> bool {
    i * (time - i) > distance
}

/// How many holding times in `1..k` beat the record.
pub open spec fn wins_below(time: int, distance: int, k: int) -> nat
    decreases k,
{
    if k <= 1 {
        0
    } else {
        wins_below(time, distance, k - 1) + if wins(time, distance, k - 1) {
            1nat
        } else {
            0nat
        }
    }
}

/// The number of holding times, from 1 to `time - 1`, that beat the record.
pub fn calculate_possibilities(time: u64, distance: u64) -> (r: u64)
    ensures
        r == wins_below(time as int, distance as int, time as int),
{
    let mut count: u64 = 0;
    let mut i: u64 = 1;
    if time == 0 {
        return 0;
    }
    while i < time
        invariant
            1 <= i <= time,
            count == wins_below(time as int, distance as int, i as int),
            count < i,
        decreases time - i,
    {
        let held = i as u128;
        proof {
            assert(held * (time - i) <= u64::MAX * u64::MAX) by (nonlinear_arith)
                requires
                    held <= u64::MAX,
                    time - i <= u64::MAX,
                    time >= i,
            ;
        }
        if held * ((time - i) as u128) > distance as u128 {
            count = count + 1;
        }
        i = i + 1;
    }
    count
}


/// The product of the winning counts of the first `k` races.
pub open spec fn race_product(races: Seq<(u64, u64)>, k: int) -> int
    decreases k,
{
    if k <= 0 {
        1
    } else {
        race_product(races, k - 1) * wins_below(
            races[k - 1].0 as int,
            races[k - 1].1 as int,
            races[k - 1].0 as int,
        )
    }
}

proof fn lemma_product_grows(races: Seq<(u64, u64)>, k: int, j: int)
    requires
        0 <= k <= j <= races.len(),
        forall|i: int|
            0 <= i < races.len() ==> wins_below(
                (#[trigger] races[i]).0 as int,
                races[i].1 as int,
                races[i].0 as int,
            ) >= 1,
    ensures
        1 <= race_product(races, k) <= race_product(races, j),
    decreases j,
{
    if j > 0 {
        if j > k {
            lemma_product_grows(races, k, j - 1);
        } else {
            lemma_product_grows(races, j - 1, j - 1);
        }
        let p = race_product(races, j - 1);
        let f = wins_below(races[j - 1].0 as int, races[j - 1].1 as int, races[j - 1].0 as int);
        assert(p * f >= p && p * f >= 1) by (nonlinear_arith)
            requires
                p >= 1,
                f >= 1,
        ;
    }
}

/// The product of the numbers of ways to win each race, given as (time,
/// record distance); `None` exactly when it exceeds 64 bits.
pub fn product_of_possibilities(races: &Vec<(u64, u64)>) -> (r: Option<u64>)
    ensures
        r matches Some(v) ==> v == race_product(races@, races@.len() as int),
        r is None ==> race_product(races@, races@.len() as int) > u64::MAX,
{
    let mut counts: Vec<u64> = Vec::new();
    let mut i: usize = 0;
    while i < races.len()
        invariant
            i <= races@.len(),
            counts@.len() == i,
            forall|j: int|
                0 <= j < i ==> counts@[j] == wins_below(
                    races@[j].0 as int,
                    races@[j].1 as int,
                    races@[j].0 as int,
                ),
        decreases races@.len() - i,
    {
        let (t, d) = races[i];
        counts.push(calculate_possibilities(t, d));
        i = i + 1;
    }
    let mut i: usize = 0;
    while i < counts.len()
        invariant
            i <= counts@.len(),
            counts@.len() == races@.len(),
            forall|j: int|
                0 <= j < counts@.len() ==> counts@[j] == wins_below(
                    races@[j].0 as int,
                    races@[j].1 as int,
                    races@[j].0 as int,
                ),
            forall|j: int| 0 <= j < i ==> counts@[j] >= 1,
        decreases counts@.len() - i,
    {
        if counts[i] == 0 {
            proof {
                lemma_product_zero(races@, i as int + 1, races@.len() as int);
            }
            return Some(0);
        }
        i = i + 1;
    }
    let mut p: u64 = 1;
    let mut k: usize = 0;
    while k < counts.len()
        invariant
            k <= counts@.len(),
            counts@.len() == races@.len(),
            forall|j: int|
                0 <= j < counts@.len() ==> counts@[j] == wins_below(
                    races@[j].0 as int,
                    races@[j].1 as int,
                    races@[j].0 as int,
                ),
            forall|j: int| 0 <= j < counts@.len() ==> counts@[j] >= 1,
            p == race_product(races@, k as int),
        decreases counts@.len() - k,
    {
        p = match p.checked_mul(counts[k]) {
            Some(x) => x,
            None => {
                proof {
                    assert forall|j: int| 0 <= j < races@.len() implies wins_below(
                        (#[trigger] races@[j]).0 as int,
                        races@[j].1 as int,
                        races@[j].0 as int,
                    ) >= 1 by {
                        assert(counts@[j] >= 1);
                    }
                    lemma_product_grows(races@, k + 1, races@.len() as int);
                }
                return None;
            },
        };
        k = k + 1;
    }
    Some(p)
}

/// A zero count makes every longer product zero.
proof fn lemma_product_zero(races: Seq<(u64, u64)>, k: int, j: int)
    requires
        1 <= k <= j,
        wins_below(races[k - 1].0 as int, races[k - 1].1 as int, races[k - 1].0 as int) == 0,
    ensures
        race_product(races, j) == 0,
    decreases j,
{
    if j > k {
        lemma_product_zero(races, k, j - 1);
    }
}

} // verus!
