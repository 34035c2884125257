//! Handing out leftover cells by largest remainder.
//!
//! When a length is divided among weighted shares and each share is rounded down, some cells are
//! left over. They go, one each, to the shares with the largest remainders; of two shares with
//! the same remainder the one with the lower index comes first.

use vstd::prelude::*;

verus! {

/// Whether entry `j` is served before entry `i`.
pub open spec fn outranks(rems: Seq<int>, eligible: Seq<bool>, j: int, i: int) -> bool {
    &&& eligible[j]
    &&& eligible[i]
    &&& (rems[j] > rems[i] || (rems[j] == rems[i] && j < i))
}

/// The number of entries among the first `n` that are served before entry `i`.
pub open spec fn rank_upto(rems: Seq<int>, eligible: Seq<bool>, i: int, n: int) -> int
    decreases n,
{
    if n <= 0 {
        0
    } else {
        rank_upto(rems, eligible, i, n - 1) + if outranks(rems, eligible, n - 1, i) {
            1int
        } else {
            0int
        }
    }
}

/// The place of entry `i` in the order of service, counted from zero.
pub open spec fn rank(rems: Seq<int>, eligible: Seq<bool>, i: int) -> int {
    rank_upto(rems, eligible, i, rems.len() as int)
}

/// The number of flags among the first `n` that are set.
pub open spec fn count_set(flags: Seq<bool>, n: int) -> int
    decreases n,
{
    if n <= 0 {
        0
    } else {
        count_set(flags, n - 1) + if flags[n - 1] {
            1int
        } else {
            0int
        }
    }
}

/// The remainders of a vector, as mathematical integers.
pub open spec fn as_ints(v: Seq<u128>) -> Seq<int> {
    Seq::new(v.len(), |i: int| v[i] as int)
}

pub proof fn lemma_count_set_bounds(flags: Seq<bool>, n: int)
    ensures
        0 <= count_set(flags, n),
        n >= 0 ==> count_set(flags, n) <= n,
    decreases n,
{
    if n > 0 {
        lemma_count_set_bounds(flags, n - 1);
    }
}

pub proof fn lemma_rank_bounds(rems: Seq<int>, eligible: Seq<bool>, i: int, n: int)
    ensures
        0 <= rank_upto(rems, eligible, i, n),
        n >= 0 ==> rank_upto(rems, eligible, i, n) <= n,
    decreases n,
{
    if n > 0 {
        lemma_rank_bounds(rems, eligible, i, n - 1);
    }
}

/// An entry that is served before another has the lower rank.
pub proof fn lemma_rank_monotone(rems: Seq<int>, eligible: Seq<bool>, a: int, b: int, n: int)
    requires
        rems.len() == eligible.len(),
        0 <= a < rems.len(),
        0 <= b < rems.len(),
        0 <= n <= rems.len(),
        outranks(rems, eligible, a, b),
    ensures
        rank_upto(rems, eligible, a, n) <= rank_upto(rems, eligible, b, n),
        n > a ==> rank_upto(rems, eligible, a, n) < rank_upto(rems, eligible, b, n),
    decreases n,
{
    if n > 0 {
        lemma_rank_monotone(rems, eligible, a, b, n - 1);
    }
}

/// Where the entries served before `c` are exactly the flagged ones, the rank of `c` is the
/// number of flags.
proof fn lemma_rank_counts_flags(
    rems: Seq<int>,
    eligible: Seq<bool>,
    flags: Seq<bool>,
    c: int,
    n: int,
)
    requires
        rems.len() == eligible.len(),
        rems.len() == flags.len(),
        0 <= n <= rems.len(),
        forall|j: int| 0 <= j < rems.len() ==> (flags[j] <==> outranks(rems, eligible, j, c)),
    ensures
        rank_upto(rems, eligible, c, n) == count_set(flags, n),
    decreases n,
{
    if n > 0 {
        lemma_rank_counts_flags(rems, eligible, flags, c, n - 1);
    }
}

/// Setting one flag that was clear raises the count by one.
proof fn lemma_count_set_update(flags: Seq<bool>, c: int, n: int)
    requires
        0 <= c < flags.len(),
        0 <= n <= flags.len(),
        !flags[c],
    ensures
        count_set(flags.update(c, true), n) == count_set(flags, n) + if c < n {
            1int
        } else {
            0int
        },
    decreases n,
{
    if n > 0 {
        lemma_count_set_update(flags, c, n - 1);
    }
}

/// Flags that cover every eligible entry, and nothing else, are as many as the eligible entries.
proof fn lemma_count_set_same(flags: Seq<bool>, eligible: Seq<bool>, n: int)
    requires
        flags.len() == eligible.len(),
        0 <= n <= flags.len(),
        forall|j: int| 0 <= j < flags.len() ==> flags[j] == eligible[j],
    ensures
        count_set(flags, n) == count_set(eligible, n),
    decreases n,
{
    if n > 0 {
        lemma_count_set_same(flags, eligible, n - 1);
    }
}

/// Flags that mark only eligible entries are at most as many as the eligible entries.
proof fn lemma_count_set_within(flags: Seq<bool>, eligible: Seq<bool>, n: int)
    requires
        flags.len() == eligible.len(),
        0 <= n <= flags.len(),
        forall|j: int| 0 <= j < flags.len() && flags[j] ==> eligible[j],
    ensures
        count_set(flags, n) <= count_set(eligible, n),
    decreases n,
{
    if n > 0 {
        lemma_count_set_within(flags, eligible, n - 1);
    }
}

/// Finds the eligible entry that is served first among those not yet chosen.
fn next_in_line(rems: &Vec<u128>, eligible: &Vec<bool>, chosen: &Vec<bool>) -> (best: Option<
    usize,
>)
    requires
        rems.len() == eligible.len(),
        rems.len() == chosen.len(),
    ensures
        match best {
            Some(c) => {
                &&& c < rems.len()
                &&& eligible[c as int]
                &&& !chosen[c as int]
                &&& forall|j: int|
                    0 <= j < rems.len() && eligible[j] && !chosen[j] && j != c ==> outranks(
                        as_ints(rems@),
                        eligible@,
                        c as int,
                        j,
                    )
            },
            None => forall|j: int| 0 <= j < rems.len() && eligible[j] ==> chosen[j],
        },
{
    let n = rems.len();
    let mut best: Option<usize> = None;
    let mut i: usize = 0;
    while i < n
        invariant
            n == rems.len(),
            n == eligible.len(),
            n == chosen.len(),
            i <= n,
            match best {
                Some(c) => {
                    &&& c < i
                    &&& eligible[c as int]
                    &&& !chosen[c as int]
                    &&& forall|j: int|
                        0 <= j < i && eligible[j] && !chosen[j] && j != c ==> outranks(
                            as_ints(rems@),
                            eligible@,
                            c as int,
                            j,
                        )
                },
                None => forall|j: int| 0 <= j < i && eligible[j] ==> chosen[j],
            },
        decreases n - i,
    {
        if eligible[i] && !chosen[i] {
            let better = match best {
                Some(c) => rems[i] > rems[c],
                None => true,
            };
            if better {
                best = Some(i);
            }
        }
        i = i + 1;
    }
    best
}

/// Serves up to `cells` of the eligible entries, and returns which were served and in what
/// order.
///
/// The entries are served in the order of their remainders, largest first, ties in the order of
/// their indices, until the cells or the eligible entries run out.
pub fn serve(rems: &Vec<u128>, eligible: &Vec<bool>, cells: usize) -> (r: (Vec<bool>, Vec<usize>))
    requires
        rems.len() == eligible.len(),
    ensures
        r.0.len() == rems.len(),
        forall|i: int|
            0 <= i < rems.len() ==> (r.0[i] <==> eligible[i] && rank(
                as_ints(rems@),
                eligible@,
                i,
            ) < cells),
        count_set(r.0@, rems.len() as int) == if cells <= count_set(
            eligible@,
            rems.len() as int,
        ) {
            cells as int
        } else {
            count_set(eligible@, rems.len() as int)
        },
        r.1.len() == count_set(r.0@, rems.len() as int),
        forall|t: int|
            0 <= t < r.1.len() ==> {
                &&& (#[trigger] r.1[t]) < rems.len()
                &&& eligible[r.1[t] as int]
                &&& rank(as_ints(rems@), eligible@, r.1[t] as int) == t
            },
        forall|i: int|
            0 <= i < rems.len() && r.0[i] ==> r.1@[rank(as_ints(rems@), eligible@, i)] == i,
{
    let n = rems.len();
    let ghost keys = as_ints(rems@);
    let mut chosen: Vec<bool> = Vec::new();
    let mut order: Vec<usize> = Vec::new();
    let mut k: usize = 0;
    while k < n
        invariant
            k <= n,
            chosen.len() == k,
            forall|j: int| 0 <= j < k ==> !chosen[j],
        decreases n - k,
    {
        chosen.push(false);
        k = k + 1;
    }
    proof {
        lemma_count_zero(chosen@, n as int);
        assert forall|i: int| 0 <= i < n implies rank(keys, eligible@, i) >= 0 by {
            lemma_rank_bounds(keys, eligible@, i, n as int);
        }
    }
    let mut served: usize = 0;
    let mut open = true;
    while served < cells && open
        invariant
            n == rems.len(),
            n == eligible.len(),
            n == chosen.len(),
            keys == as_ints(rems@),
            served <= cells,
            order.len() == served,
            count_set(chosen@, n as int) == served,
            forall|i: int|
                0 <= i < n ==> (chosen[i] <==> eligible[i] && rank(keys, eligible@, i) < served),
            forall|t: int|
                0 <= t < served ==> {
                    &&& (#[trigger] order[t]) < n
                    &&& eligible[order[t] as int]
                    &&& rank(keys, eligible@, order[t] as int) == t
                },
            forall|i: int| 0 <= i < n && chosen[i] ==> order@[rank(keys, eligible@, i)] == i,
            !open ==> forall|j: int| 0 <= j < n && eligible[j] ==> chosen[j],
        decreases
                (if open {
                    1int
                } else {
                    0int
                }),
                cells - served,
    {
        match next_in_line(rems, eligible, &chosen) {
            None => {
                open = false;
            },
            Some(c) => {
                proof {
                    let flags = chosen@;
                    assert forall|j: int| 0 <= j < n implies (flags[j] <==> outranks(
                        keys,
                        eligible@,
                        j,
                        c as int,
                    )) by {
                        if flags[j] {
                            if !outranks(keys, eligible@, j, c as int) {
                                assert(outranks(keys, eligible@, c as int, j));
                                lemma_rank_monotone(keys, eligible@, c as int, j, n as int);
                            }
                        }
                    }
                    lemma_rank_counts_flags(keys, eligible@, flags, c as int, n as int);
                    assert(rank(keys, eligible@, c as int) == served);
                    assert forall|i: int|
                        0 <= i < n && eligible[i] && !flags[i] && i != c implies rank(
                        keys,
                        eligible@,
                        i,
                    ) > served by {
                        lemma_rank_monotone(keys, eligible@, c as int, i, n as int);
                    }
                    lemma_count_set_update(flags, c as int, n as int);
                }
                let ghost flags = chosen@;
                let ghost line = order@;
                chosen.set(c, true);
                order.push(c);
                proof {
                    assert forall|i: int| 0 <= i < n && chosen[i] implies order@[rank(
                        keys,
                        eligible@,
                        i,
                    )] == i by {
                        lemma_rank_bounds(keys, eligible@, i, n as int);
                        assert(order@ =~= line.push(c));
                        if i != c {
                            assert(flags[i]);
                            assert(rank(keys, eligible@, i) < served);
                            assert(line[rank(keys, eligible@, i)] == i);
                        } else {
                            assert(rank(keys, eligible@, c as int) == served);
                        }
                    }
                }
                served = served + 1;
            },
        }
    }
    proof {
        lemma_count_set_within(chosen@, eligible@, n as int);
        if !open {
            lemma_count_set_same(chosen@, eligible@, n as int);
            assert forall|i: int| 0 <= i < n && eligible[i] implies rank(keys, eligible@, i)
                < cells by {}
        }
    }
    (chosen, order)
}

/// Chooses the entries that receive one of `cells` leftover cells.
///
/// The entries are served in the order of their remainders, largest first, ties in the order of
/// their indices, until the cells or the eligible entries run out.
pub fn distribute(rems: &Vec<u128>, eligible: &Vec<bool>, cells: usize) -> (chosen: Vec<bool>)
    requires
        rems.len() == eligible.len(),
    ensures
        chosen.len() == rems.len(),
        forall|i: int|
            0 <= i < rems.len() ==> (chosen[i] <==> eligible[i] && rank(
                as_ints(rems@),
                eligible@,
                i,
            ) < cells),
        count_set(chosen@, rems.len() as int) == if cells <= count_set(
            eligible@,
            rems.len() as int,
        ) {
            cells as int
        } else {
            count_set(eligible@, rems.len() as int)
        },
{
    serve(rems, eligible, cells).0
}

/// Two different eligible entries have different ranks.
pub proof fn lemma_rank_distinct(rems: Seq<int>, eligible: Seq<bool>, a: int, b: int)
    requires
        rems.len() == eligible.len(),
        0 <= a < rems.len(),
        0 <= b < rems.len(),
        eligible[a],
        eligible[b],
        a != b,
    ensures
        rank(rems, eligible, a) != rank(rems, eligible, b),
{
    if outranks(rems, eligible, a, b) {
        lemma_rank_monotone(rems, eligible, a, b, rems.len() as int);
    } else {
        assert(outranks(rems, eligible, b, a));
        lemma_rank_monotone(rems, eligible, b, a, rems.len() as int);
    }
}

/// All flags set count as many as there are.
pub proof fn lemma_count_all(flags: Seq<bool>, n: int)
    requires
        0 <= n <= flags.len(),
        forall|j: int| 0 <= j < n ==> flags[j],
    ensures
        count_set(flags, n) == n,
    decreases n,
{
    if n > 0 {
        lemma_count_all(flags, n - 1);
    }
}

/// Flags that are all clear count as none.
proof fn lemma_count_zero(flags: Seq<bool>, n: int)
    requires
        0 <= n <= flags.len(),
        forall|j: int| 0 <= j < n ==> !flags[j],
    ensures
        count_set(flags, n) == 0,
    decreases n,
{
    if n > 0 {
        lemma_count_zero(flags, n - 1);
    }
}

/// An entry is not served before itself: among `n` entries its rank is below `n`.
pub proof fn lemma_rank_below(rems: Seq<int>, eligible: Seq<bool>, i: int, n: int)
    requires
        0 <= i,
        0 <= n,
    ensures
        0 <= rank_upto(rems, eligible, i, n),
        i < n ==> rank_upto(rems, eligible, i, n) < n,
        rank_upto(rems, eligible, i, n) <= n,
    decreases n,
{
    if n > 0 {
        lemma_rank_below(rems, eligible, i, n - 1);
    }
}

/// The entries that are served when `cells` cells are handed out.
pub open spec fn served(rems: Seq<int>, eligible: Seq<bool>, cells: int) -> Seq<bool> {
    Seq::new(rems.len(), |i: int| eligible[i] && rank(rems, eligible, i) < cells)
}

/// Finds, among the first `m` entries, the eligible entry without a flag that is served first.
proof fn lemma_first_in_line(rems: Seq<int>, eligible: Seq<bool>, flags: Seq<bool>, m: int) -> (best:
    int)
    requires
        rems.len() == eligible.len(),
        rems.len() == flags.len(),
        0 <= m <= rems.len(),
    ensures
        -1 <= best < m,
        best == -1 ==> forall|j: int| 0 <= j < m && eligible[j] ==> flags[j],
        best >= 0 ==> eligible[best] && !flags[best] && forall|j: int|
            0 <= j < m && eligible[j] && !flags[j] && j != best ==> outranks(
                rems,
                eligible,
                best,
                j,
            ),
    decreases m,
{
    if m == 0 {
        -1
    } else {
        let before = lemma_first_in_line(rems, eligible, flags, m - 1);
        let i = m - 1;
        if eligible[i] && !flags[i] && (before == -1 || rems[i] > rems[before]) {
            i
        } else {
            before
        }
    }
}

/// Cells are handed out one to an entry: as many entries are served as there are cells, while
/// there are eligible entries for them.
pub proof fn lemma_served_count(rems: Seq<int>, eligible: Seq<bool>, cells: int)
    requires
        rems.len() == eligible.len(),
        0 <= cells <= count_set(eligible, rems.len() as int),
    ensures
        count_set(served(rems, eligible, cells), rems.len() as int) == cells,
    decreases cells,
{
    let n = rems.len() as int;
    let now = served(rems, eligible, cells);
    if cells == 0 {
        assert forall|j: int| 0 <= j < n implies !now[j] by {
            lemma_rank_bounds(rems, eligible, j, n);
        }
        lemma_count_zero(now, n);
    } else {
        let t = cells - 1;
        let flags = served(rems, eligible, t);
        lemma_served_count(rems, eligible, t);
        let c = lemma_first_in_line(rems, eligible, flags, n);
        if c == -1 {
            assert forall|j: int| 0 <= j < n implies flags[j] == eligible[j] by {}
            lemma_count_set_same(flags, eligible, n);
        }
        assert forall|j: int| 0 <= j < n implies (flags[j] <==> outranks(rems, eligible, j, c)) by {
            if flags[j] {
                if !outranks(rems, eligible, j, c) {
                    assert(outranks(rems, eligible, c, j));
                    lemma_rank_monotone(rems, eligible, c, j, n);
                }
            }
        }
        lemma_rank_counts_flags(rems, eligible, flags, c, n);
        assert(rank(rems, eligible, c) == t);
        assert forall|i: int| 0 <= i < n implies now[i] == flags.update(c, true)[i] by {
            if i != c && eligible[i] && !flags[i] {
                lemma_rank_monotone(rems, eligible, c, i, n);
            }
        }
        assert(now =~= flags.update(c, true));
        lemma_count_set_update(flags, c, n);
    }
}

/// Every place in the order of service is taken: for each place below the number of eligible
/// entries there is an entry of that rank.
pub proof fn lemma_rank_onto(rems: Seq<int>, eligible: Seq<bool>, k: int) -> (i: int)
    requires
        rems.len() == eligible.len(),
        0 <= k < count_set(eligible, rems.len() as int),
    ensures
        0 <= i < rems.len(),
        eligible[i],
        rank(rems, eligible, i) == k,
{
    let n = rems.len() as int;
    let upto = served(rems, eligible, k);
    let more = served(rems, eligible, k + 1);
    lemma_served_count(rems, eligible, k);
    lemma_served_count(rems, eligible, k + 1);
    if forall|j: int| 0 <= j < n && more[j] ==> upto[j] {
        lemma_count_set_within(more, upto, n);
    }
    choose|j: int| 0 <= j < n && more[j] && !upto[j]
}

} // verus!
