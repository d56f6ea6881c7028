//! Every order in which a number of words can be taken.

use factorial::Factorial;
use vstd::prelude::*;

verus! {

/// The product of the numbers from 1 to `n`.
pub open spec fn factorial_of(n: nat) -> nat
    decreases n,
{
    if n == 0 {
        1
    } else {
        n * factorial_of((n - 1) as nat)
    }
}

/// Calls `Factorial::factorial` of the crate `factorial` on a `usize`. The
/// crate computes the product of the numbers from 1 to `n` and panics where
/// it does not fit the type; the contract leaves those `n` out and claims
/// that product for the others.
#[verifier::external_body]
fn usize_factorial(n: usize) -> (product: usize)
    requires
        factorial_of(n as nat) <= usize::MAX,
    ensures
        product == factorial_of(n as nat),
{
    n.factorial()
}

/// The sequences that a list of vectors holds.
pub open spec fn views(list: Seq<Vec<usize>>) -> Seq<Seq<usize>> {
    Seq::new(list.len(), |k: int| list[k]@)
}

/// The orderings that the search for places for the ranks from `rank` on
/// finds, trying the positions from `from` on for `rank`. In `ordering` a
/// position that holds `n` is free, and any other holds the rank of the word
/// there. A free position takes `rank`; then the next rank is placed in the
/// same way, from the first position on, or, once `rank` is the last one,
/// the ordering is complete.
pub open spec fn fill(n: nat, rank: nat, ordering: Seq<usize>, from: nat) -> Seq<Seq<usize>>
    decreases n - rank, n - from,
{
    if from >= n {
        Seq::empty()
    } else {
        let here = if ordering[from as int] == n {
            let next = ordering.update(from as int, rank as usize);
            if rank + 1 < n {
                fill(n, rank + 1, next, 0)
            } else {
                seq![next]
            }
        } else {
            Seq::empty()
        };
        here + fill(n, rank, ordering, from + 1)
    }
}

/// `n` free positions.
pub open spec fn blank(n: nat) -> Seq<usize> {
    Seq::new(n, |p: int| n as usize)
}

/// The orderings of `n` words, as sequences that give each word its rank:
/// none for fewer than two words, and else all of them, sorted by the
/// position of rank 0, then by that of rank 1, and so on.
pub open spec fn orderings(n: nat) -> Seq<Seq<usize>> {
    if n < 2 {
        Seq::empty()
    } else {
        fill(n, 0, blank(n), 0)
    }
}

/// Number of free positions of `ordering` from position `from` on.
pub open spec fn free_from(ordering: Seq<usize>, n: nat, from: nat) -> nat
    decreases n - from,
{
    if from >= n {
        0
    } else {
        free_from(ordering, n, from + 1) + if ordering[from as int] == n {
            1nat
        } else {
            0nat
        }
    }
}

/// Some word has rank `rank`.
pub open spec fn has_rank(ordering: Seq<usize>, n: nat, rank: nat) -> bool {
    exists|p: int| 0 <= p < n && #[trigger] ordering[p] == rank
}

/// `ordering` places the ranks below `rank`, each at one position, and
/// leaves the other positions free.
pub open spec fn is_partial(ordering: Seq<usize>, n: nat, rank: nat) -> bool {
    &&& ordering.len() == n
    &&& forall|p: int| 0 <= p < n ==> #[trigger] ordering[p] == n || ordering[p] < rank
    &&& forall|p: int, q: int|
        #![trigger ordering[p], ordering[q]]
        0 <= p < n && 0 <= q < n && p != q && ordering[p] != n ==> ordering[p] != ordering[q]
    &&& forall|r: nat| r < rank ==> #[trigger] has_rank(ordering, n, r)
    &&& free_from(ordering, n, 0) == n - rank
}

/// `ordering` gives each of `n` words a rank below `n`, and each of these
/// ranks to one word.
pub open spec fn is_ordering(ordering: Seq<usize>, n: nat) -> bool {
    &&& ordering.len() == n
    &&& forall|p: int| 0 <= p < n ==> #[trigger] ordering[p] < n
    &&& forall|p: int, q: int|
        #![trigger ordering[p], ordering[q]]
        0 <= p < n && 0 <= q < n && p != q ==> ordering[p] != ordering[q]
    &&& forall|r: nat| r < n ==> #[trigger] has_rank(ordering, n, r)
}

/// `full` keeps every rank that `partial` has placed.
pub open spec fn extends(partial: Seq<usize>, full: Seq<usize>, n: nat) -> bool {
    forall|p: int| 0 <= p < n && #[trigger] partial[p] != n ==> full[p] == partial[p]
}

/// A position that takes a rank is no longer free.
pub proof fn lemma_free_from_update(ordering: Seq<usize>, n: nat, from: nat, at: int, rank: usize)
    requires
        ordering.len() == n,
        0 <= at < n,
        ordering[at] == n,
        rank != n,
    ensures
        free_from(ordering.update(at, rank), n, from) + (if from <= at {
            1nat
        } else {
            0nat
        }) == free_from(ordering, n, from),
    decreases n - from,
{
    if from < n {
        lemma_free_from_update(ordering, n, from + 1, at, rank);
    }
}

/// Without free positions from `from` on, no position there holds `n`.
pub proof fn lemma_free_from_zero(ordering: Seq<usize>, n: nat, from: nat, at: int)
    requires
        ordering.len() == n,
        free_from(ordering, n, from) == 0,
        from <= at < n,
    ensures
        ordering[at] != n,
    decreases n - from,
{
    if from < at {
        lemma_free_from_zero(ordering, n, from + 1, at);
    }
}

/// Every position of `blank(n)` is free.
pub proof fn lemma_blank_free(n: nat, from: nat)
    requires
        from <= n <= usize::MAX,
    ensures
        free_from(blank(n), n, from) == n - from,
    decreases n - from,
{
    if from < n {
        lemma_blank_free(n, from + 1);
    }
}

/// Placing the next rank at a free position keeps an ordering partial.
pub proof fn lemma_place_rank(ordering: Seq<usize>, n: nat, rank: nat, at: int)
    requires
        is_partial(ordering, n, rank),
        rank < n <= usize::MAX,
        0 <= at < n,
        ordering[at] == n,
    ensures
        is_partial(ordering.update(at, rank as usize), n, rank + 1),
{
    let next = ordering.update(at, rank as usize);
    lemma_free_from_update(ordering, n, 0, at, rank as usize);
    assert forall|r: nat| r < rank + 1 implies #[trigger] has_rank(next, n, r) by {
        if r < rank {
            assert(has_rank(ordering, n, r));
            let p = choose|p: int| 0 <= p < n && #[trigger] ordering[p] == r;
            assert(next[p] == r);
        } else {
            assert(next[at] == r);
        }
    }
}

/// A partial ordering that has placed every rank is an ordering.
pub proof fn lemma_partial_complete(ordering: Seq<usize>, n: nat)
    requires
        is_partial(ordering, n, n),
    ensures
        is_ordering(ordering, n),
{
    assert forall|p: int| 0 <= p < n implies #[trigger] ordering[p] < n by {
        lemma_free_from_zero(ordering, n, 0, p);
    }
}

/// Every ordering that [`fill`] finds is an ordering of `n` words. It keeps
/// the ranks that were placed before, gives the free positions the ranks from
/// `rank` on, and none of the free positions before `from` rank `rank`.
pub proof fn lemma_fill_finds_orderings(
    n: nat,
    rank: nat,
    ordering: Seq<usize>,
    from: nat,
    k: int,
)
    requires
        is_partial(ordering, n, rank),
        rank < n <= usize::MAX,
        from <= n,
        0 <= k < fill(n, rank, ordering, from).len(),
    ensures
        is_ordering(fill(n, rank, ordering, from)[k], n),
        extends(ordering, fill(n, rank, ordering, from)[k], n),
        forall|p: int|
            0 <= p < n && #[trigger] ordering[p] == n ==> fill(n, rank, ordering, from)[k][p]
                >= rank,
        forall|p: int|
            0 <= p < from && #[trigger] ordering[p] == n ==> fill(n, rank, ordering, from)[k][p]
                > rank,
    decreases n - rank, n - from,
{
    let found = fill(n, rank, ordering, from)[k];
    let next = ordering.update(from as int, rank as usize);
    let here = if ordering[from as int] == n {
        if rank + 1 < n {
            fill(n, rank + 1, next, 0)
        } else {
            seq![next]
        }
    } else {
        Seq::empty()
    };
    if k < here.len() {
        lemma_place_rank(ordering, n, rank, from as int);
        if rank + 1 < n {
            lemma_fill_finds_orderings(n, rank + 1, next, 0, k);
            assert forall|p: int| 0 <= p < n && #[trigger] ordering[p] != n implies found[p]
                == ordering[p] by {
                assert(next[p] != n);
            }
            assert forall|p: int| 0 <= p < n && #[trigger] ordering[p] == n implies found[p]
                >= rank && (p < from ==> found[p] > rank) by {
                if p == from {
                    assert(next[p] != n);
                } else {
                    assert(next[p] == n);
                }
            }
        } else {
            lemma_partial_complete(next, n);
        }
    } else {
        lemma_fill_finds_orderings(n, rank, ordering, from + 1, k - here.len());
    }
}

/// [`fill`] finds as many orderings as there are ways to place the ranks that
/// are left: one for each free position from `from` on and each ordering of
/// the positions that are then still free.
pub proof fn lemma_fill_count(n: nat, rank: nat, ordering: Seq<usize>, from: nat)
    requires
        is_partial(ordering, n, rank),
        rank < n <= usize::MAX,
        from <= n,
    ensures
        fill(n, rank, ordering, from).len() == free_from(ordering, n, from) * factorial_of(
            (n - rank - 1) as nat,
        ),
    decreases n - rank, n - from,
{
    let each = factorial_of((n - rank - 1) as nat);
    if from < n {
        lemma_fill_count(n, rank, ordering, from + 1);
        let rest = free_from(ordering, n, from + 1);
        if ordering[from as int] == n {
            let next = ordering.update(from as int, rank as usize);
            if rank + 1 < n {
                lemma_place_rank(ordering, n, rank, from as int);
                lemma_fill_count(n, rank + 1, next, 0);
            }
            assert((rest + 1) * each == rest * each + each) by (nonlinear_arith);
        }
    } else {
        assert(0 * each == 0);
    }
}

/// [`fill`] finds no ordering twice.
pub proof fn lemma_fill_distinct(
    n: nat,
    rank: nat,
    ordering: Seq<usize>,
    from: nat,
    k1: int,
    k2: int,
)
    requires
        is_partial(ordering, n, rank),
        rank < n <= usize::MAX,
        from <= n,
        0 <= k1 < k2 < fill(n, rank, ordering, from).len(),
    ensures
        fill(n, rank, ordering, from)[k1] != fill(n, rank, ordering, from)[k2],
    decreases n - rank, n - from,
{
    let next = ordering.update(from as int, rank as usize);
    let here = if ordering[from as int] == n {
        if rank + 1 < n {
            fill(n, rank + 1, next, 0)
        } else {
            seq![next]
        }
    } else {
        Seq::empty()
    };
    if k2 < here.len() {
        lemma_place_rank(ordering, n, rank, from as int);
        lemma_fill_distinct(n, rank + 1, next, 0, k1, k2);
    } else if k1 < here.len() {
        lemma_fill_finds_orderings(n, rank, ordering, from + 1, k2 - here.len());
        lemma_place_rank(ordering, n, rank, from as int);
        if rank + 1 < n {
            lemma_fill_finds_orderings(n, rank + 1, next, 0, k1);
            assert(next[from as int] != n);
        }
    } else {
        lemma_fill_distinct(n, rank, ordering, from + 1, k1 - here.len(), k2 - here.len());
    }
}

/// [`fill`] finds every ordering that keeps the ranks placed before and has
/// rank `rank` at position `from` or later.
pub proof fn lemma_fill_finds_all(
    n: nat,
    rank: nat,
    ordering: Seq<usize>,
    from: nat,
    wanted: Seq<usize>,
) -> (k: int)
    requires
        is_partial(ordering, n, rank),
        rank < n <= usize::MAX,
        is_ordering(wanted, n),
        extends(ordering, wanted, n),
        exists|p: int| from <= p < n && #[trigger] wanted[p] == rank,
    ensures
        0 <= k < fill(n, rank, ordering, from).len(),
        fill(n, rank, ordering, from)[k] == wanted,
    decreases n - rank, n - from,
{
    let at = choose|p: int| from <= p < n && #[trigger] wanted[p] == rank;
    let next = ordering.update(from as int, rank as usize);
    let here = if ordering[from as int] == n {
        if rank + 1 < n {
            fill(n, rank + 1, next, 0)
        } else {
            seq![next]
        }
    } else {
        Seq::empty()
    };
    if at == from {
        lemma_place_rank(ordering, n, rank, at);
        if rank + 1 < n {
            assert(has_rank(wanted, n, rank + 1));
            lemma_fill_finds_all(n, rank + 1, next, 0, wanted)
        } else {
            assert forall|p: int| 0 <= p < n implies wanted[p] == next[p] by {
                lemma_free_from_zero(next, n, 0, p);
            }
            0
        }
    } else {
        let k = lemma_fill_finds_all(n, rank, ordering, from + 1, wanted);
        here.len() + k
    }
}

/// For two words or more, [`orderings`] holds every ordering of the words
/// once, and nothing else: as many sequences as the factorial of `n` says.
pub proof fn lemma_orderings_are_all(n: nat)
    requires
        2 <= n <= usize::MAX,
    ensures
        orderings(n).len() == factorial_of(n),
        forall|k: int| 0 <= k < orderings(n).len() ==> is_ordering(#[trigger] orderings(n)[k], n),
        forall|k1: int, k2: int|
            #![trigger orderings(n)[k1], orderings(n)[k2]]
            0 <= k1 < k2 < orderings(n).len() ==> orderings(n)[k1] != orderings(n)[k2],
        forall|wanted: Seq<usize>| #[trigger]
            is_ordering(wanted, n) ==> exists|k: int|
                0 <= k < orderings(n).len() && #[trigger] orderings(n)[k] == wanted,
{
    lemma_blank_free(n, 0);
    lemma_fill_count(n, 0, blank(n), 0);
    assert forall|k: int| 0 <= k < orderings(n).len() implies is_ordering(
        #[trigger] orderings(n)[k],
        n,
    ) by {
        lemma_fill_finds_orderings(n, 0, blank(n), 0, k);
    }
    assert forall|k1: int, k2: int|
        #![trigger orderings(n)[k1], orderings(n)[k2]]
        0 <= k1 < k2 < orderings(n).len() implies orderings(n)[k1] != orderings(n)[k2] by {
        lemma_fill_distinct(n, 0, blank(n), 0, k1, k2);
    }
    assert forall|wanted: Seq<usize>| #[trigger] is_ordering(wanted, n) implies exists|k: int|
        0 <= k < orderings(n).len() && #[trigger] orderings(n)[k] == wanted by {
        assert(has_rank(wanted, n, 0));
        let k = lemma_fill_finds_all(n, 0, blank(n), 0, wanted);
        assert(orderings(n)[k] == wanted);
    }
}

/// How many orderings `n_words` words have: see [`orderings`].
pub fn count_orderings(n_words: usize) -> (count: usize)
    requires
        factorial_of(n_words as nat) <= usize::MAX,
    ensures
        count == orderings(n_words as nat).len(),
{
    if n_words < 2 {
        0
    } else {
        proof {
            lemma_orderings_are_all(n_words as nat);
        }
        usize_factorial(n_words)
    }
}

/// The orderings of `n_words` words: see [`orderings`].
pub fn get_combinations(n_words: usize) -> (orderings: Vec<Vec<usize>>)
    requires
        factorial_of(n_words as nat) <= usize::MAX,
    ensures
        views(orderings@) == self::orderings(n_words as nat),
        n_words >= 2 ==> orderings@.len() == factorial_of(n_words as nat),
        n_words < 2 ==> orderings@.len() == 0,
        forall|k: int|
            0 <= k < orderings@.len() ==> is_ordering((#[trigger] orderings@[k])@, n_words as nat),
        forall|k1: int, k2: int|
            #![trigger orderings@[k1], orderings@[k2]]
            0 <= k1 < k2 < orderings@.len() ==> orderings@[k1]@ != orderings@[k2]@,
        forall|wanted: Seq<usize>|
            n_words >= 2 && #[trigger] is_ordering(wanted, n_words as nat) ==> exists|k: int|
                0 <= k < orderings@.len() && (#[trigger] orderings@[k])@ == wanted,
{
    let mut orderings: Vec<Vec<usize>> = Vec::with_capacity(usize_factorial(n_words));
    let ghost n = n_words as nat;
    let mut i: usize = 0;
    while i < n_words
        invariant
            i <= n_words,
            n == n_words,
            n >= 2 ==> views(orderings@) + fill(n, 0, blank(n), i as nat) == fill(
                n,
                0,
                blank(n),
                0,
            ),
            n < 2 ==> views(orderings@) == Seq::<Seq<usize>>::empty(),
        decreases n_words - i,
    {
        let mut ordering: Vec<usize> = vec![n_words; n_words];
        assert(ordering@ =~= blank(n));
        ordering.set(i, 0);
        set_remaining_options(n_words, 1, ordering, &mut orderings);
        proof {
            if n >= 2 {
            } else {
                assert(fill(n, 1, ordering@, 1) =~= Seq::<Seq<usize>>::empty());
            }
        }
        i += 1;
    }
    proof {
        if n >= 2 {
            lemma_orderings_are_all(n);
            let all = self::orderings(n);
            assert forall|k: int| 0 <= k < orderings@.len() implies is_ordering(
                (#[trigger] orderings@[k])@,
                n,
            ) by {
                assert(views(orderings@)[k] == all[k]);
            }
            assert forall|k1: int, k2: int|
                #![trigger orderings@[k1], orderings@[k2]]
                0 <= k1 < k2 < orderings@.len() implies orderings@[k1]@ != orderings@[k2]@ by {
                assert(views(orderings@)[k1] == all[k1]);
                assert(views(orderings@)[k2] == all[k2]);
            }
        }
    }
    orderings
}

/// Adds to `orderings` the orderings that place the ranks from
/// `current_index` on in the free positions of `ordering`: see [`fill`].
pub fn set_remaining_options(
    n: usize,
    current_index: usize,
    ordering: Vec<usize>,
    orderings: &mut Vec<Vec<usize>>,
)
    requires
        ordering@.len() >= n,
    ensures
        views(final(orderings)@) == views(old(orderings)@) + fill(
            n as nat,
            current_index as nat,
            ordering@,
            0,
        ),
    decreases n - current_index,
{
    let mut i: usize = 0;
    while i < n
        invariant
            i <= n,
            ordering@.len() >= n,
            views(orderings@) + fill(n as nat, current_index as nat, ordering@, i as nat) == views(
                old(orderings)@,
            ) + fill(n as nat, current_index as nat, ordering@, 0),
        decreases n - i,
    {
        if ordering[i] == n {
            let mut next = ordering.clone();
            next.set(i, current_index);
            if current_index < n - 1 {
                set_remaining_options(n, current_index + 1, next, orderings);
            } else {
                orderings.push(next);
            }
        }
        i += 1;
    }
}

} // verus!
