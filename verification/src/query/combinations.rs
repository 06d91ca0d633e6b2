//! The order in which combinations are enumerated, and how many there are.

use crate::query::binomial::{binomial, lemma_binomial_zero};
use vstd::prelude::*;

verus! {

/// Whether position `i` of the combination `positions` can still move up:
/// there is room above it for itself and every position after it.
///
/// `positions[k]` counts the items that cursor `k` has gone past, so its
/// current item is item `positions[k] - 1` of the `n` items of the query.
pub open spec fn can_advance(positions: Seq<int>, n: int, i: int) -> bool {
    0 <= i < positions.len() && positions[i] + (positions.len() - i) <= n
}

/// Whether `i` is the last position that can still move up.
pub open spec fn is_pivot(positions: Seq<int>, n: int, i: int) -> bool {
    &&& can_advance(positions, n, i)
    &&& forall|j: int| i < j < positions.len() ==> !can_advance(positions, n, j)
}

/// The combination after `positions` in lexicographic order, given its
/// pivot: the pivot moves up by one, and every later position follows
/// directly behind its predecessor.
pub open spec fn advance_at(positions: Seq<int>, i: int) -> Seq<int> {
    Seq::new(
        positions.len(),
        |k: int|
            if k < i {
                positions[k]
            } else {
                positions[i] + 1 + (k - i)
            },
    )
}

/// The positions of a combination iterator that has not been asked yet:
/// the first cursor is fresh and all others are exhausted.
pub open spec fn initial_positions(k: int, n: int) -> Seq<int> {
    Seq::new(
        k as nat,
        |i: int|
            if i == 0 {
                0
            } else {
                n
            },
    )
}

/// The pivot of a combination is unique.
pub proof fn lemma_pivot_unique(positions: Seq<int>, n: int, i: int, j: int)
    requires
        is_pivot(positions, n, i),
        is_pivot(positions, n, j),
    ensures
        i == j,
{
}

/// The combination that follows `positions`, if there is one.
pub open spec fn next_positions(positions: Seq<int>, n: int) -> Option<Seq<int>> {
    if exists|i: int| is_pivot(positions, n, i) {
        Some(advance_at(positions, choose|i: int| is_pivot(positions, n, i)))
    } else {
        None
    }
}

/// What a combination iterator yields next, as positions: the combination
/// that follows `positions`, if there is one. The combination of no items
/// has no positions to tell it from its successor: it comes once, while the
/// iterator is `fresh`, and nothing follows it.
pub open spec fn following(fresh: bool, positions: Seq<int>, n: int) -> Option<Seq<int>> {
    if positions.len() == 0 {
        if fresh {
            Some(positions)
        } else {
            None
        }
    } else {
        next_positions(positions, n)
    }
}

/// If any position can move up, there is a pivot.
pub proof fn lemma_pivot_exists(positions: Seq<int>, n: int, i: int)
    requires
        can_advance(positions, n, i),
    ensures
        exists|j: int| is_pivot(positions, n, j),
    decreases positions.len() - i,
{
    if exists|j: int| i < j < positions.len() && can_advance(positions, n, j) {
        let j = choose|j: int| i < j < positions.len() && can_advance(positions, n, j);
        lemma_pivot_exists(positions, n, j);
    } else {
        assert(is_pivot(positions, n, i));
    }
}

/// `a` comes before `b` in lexicographic order.
pub open spec fn lex_less(a: Seq<int>, b: Seq<int>) -> bool {
    exists|i: int|
        0 <= i < a.len() && i < b.len() && a[i] < b[i] && forall|m: int|
            0 <= m < i ==> a[m] == b[m]
}

/// The `k` positions directly above `lo`: the first combination above `lo`.
pub open spec fn ascending(lo: int, k: nat) -> Seq<int> {
    Seq::new(k, |i: int| lo + 1 + i)
}

/// The `k` highest positions up to `n`: the last combination.
pub open spec fn top(n: int, k: nat) -> Seq<int> {
    Seq::new(k, |i: int| n - k + 1 + i)
}

/// All combinations of `k` positions out of `lo + 1 ..= n`, each in
/// increasing order, listed in lexicographic order: first those that start
/// with `lo + 1`, then those that do not.
pub open spec fn combinations(lo: int, n: int, k: nat) -> Seq<Seq<int>>
    decreases n - lo,
{
    if k == 0 {
        seq![Seq::<int>::empty()]
    } else if n - lo < k {
        Seq::empty()
    } else {
        combinations(lo + 1, n, (k - 1) as nat).map_values(|c: Seq<int>| seq![lo + 1] + c)
            + combinations(lo + 1, n, k)
    }
}

/// There are `C(n - lo, k)` combinations.
pub proof fn lemma_combinations_len(lo: int, n: int, k: nat)
    requires
        lo <= n,
    ensures
        combinations(lo, n, k).len() == binomial((n - lo) as nat, k),
    decreases n - lo,
{
    if k == 0 {
    } else if n - lo < k {
        lemma_binomial_zero((n - lo) as nat, k);
    } else {
        lemma_combinations_len(lo + 1, n, (k - 1) as nat);
        lemma_combinations_len(lo + 1, n, k);
    }
}

/// The first combination takes the lowest positions and the last one the
/// highest.
pub proof fn lemma_first_and_last(lo: int, n: int, k: nat)
    requires
        k <= n - lo,
    ensures
        combinations(lo, n, k).len() > 0,
        combinations(lo, n, k)[0] == ascending(lo, k),
        combinations(lo, n, k).last() == top(n, k),
    decreases n - lo,
{
    if k == 0 {
        assert(combinations(lo, n, k)[0] =~= ascending(lo, k));
        assert(combinations(lo, n, k).last() =~= top(n, k));
    } else {
        let inner = combinations(lo + 1, n, (k - 1) as nat);
        let a = inner.map_values(|c: Seq<int>| seq![lo + 1] + c);
        let b = combinations(lo + 1, n, k);
        lemma_first_and_last(lo + 1, n, (k - 1) as nat);
        assert((a + b)[0] == a[0]);
        assert(a[0] == seq![lo + 1] + inner[0]);
        assert(seq![lo + 1] + ascending(lo + 1, (k - 1) as nat) =~= ascending(lo, k));
        if k <= n - lo - 1 {
            lemma_first_and_last(lo + 1, n, k);
            assert((a + b).last() == b.last());
        } else {
            assert(b.len() == 0);
            assert(a + b =~= a);
            assert(a.last() == seq![lo + 1] + inner.last());
            assert(seq![lo + 1] + top(n, (k - 1) as nat) =~= top(n, k));
        }
    }
}

/// Every combination has `k` positions in `lo + 1 ..= n`, in strictly
/// increasing order.
pub proof fn lemma_members(lo: int, n: int, k: nat, j: int)
    requires
        0 <= j < combinations(lo, n, k).len(),
    ensures
        combinations(lo, n, k)[j].len() == k,
        forall|i: int| 0 <= i < k ==> lo < #[trigger] combinations(lo, n, k)[j][i] <= n,
        forall|i: int, m: int|
            0 <= i < m < k ==> combinations(lo, n, k)[j][i] < combinations(lo, n, k)[j][m],
    decreases n - lo,
{
    if k == 0 {
    } else {
        let inner = combinations(lo + 1, n, (k - 1) as nat);
        let a = inner.map_values(|c: Seq<int>| seq![lo + 1] + c);
        let b = combinations(lo + 1, n, k);
        if j < a.len() {
            lemma_members(lo + 1, n, (k - 1) as nat, j);
            let c = combinations(lo, n, k)[j];
            assert(c == seq![lo + 1] + inner[j]);
            assert forall|i: int| 0 <= i < k implies lo < #[trigger] c[i] <= n by {
                if i > 0 {
                    assert(c[i] == inner[j][i - 1]);
                }
            }
            assert forall|i: int, m: int| 0 <= i < m < k implies c[i] < c[m] by {
                assert(c[m] == inner[j][m - 1]);
                if i > 0 {
                    assert(c[i] == inner[j][i - 1]);
                }
            }
        } else {
            lemma_members(lo + 1, n, k, j - a.len());
            assert(combinations(lo, n, k)[j] == b[j - a.len()]);
        }
    }
}

/// What putting a position in front of a combination does to its
/// successor: while the tail has a successor, the head stays; when it has
/// none, the head moves up, if there is room, and the tail restarts directly
/// above it.
pub proof fn lemma_next_with_head(head: int, tail: Seq<int>, n: int)
    ensures
        next_positions(tail, n) is Some ==> next_positions(seq![head] + tail, n) == Some(
            seq![head] + next_positions(tail, n)->0,
        ),
        next_positions(tail, n) is None && head + tail.len() + 1 <= n ==> next_positions(
            seq![head] + tail,
            n,
        ) == Some(ascending(head, tail.len() + 1)),
        next_positions(tail, n) is None && head + tail.len() + 1 > n ==> next_positions(
            seq![head] + tail,
            n,
        ) is None,
{
    let whole = seq![head] + tail;
    assert(whole.len() == tail.len() + 1);
    assert forall|i: int| 0 <= i implies (can_advance(tail, n, i) <==> can_advance(
        whole,
        n,
        i + 1,
    )) by {
        if i < tail.len() {
            assert(whole[i + 1] == tail[i]);
        }
    }
    if next_positions(tail, n) is Some {
        let i = choose|i: int| is_pivot(tail, n, i);
        assert(is_pivot(whole, n, i + 1)) by {
            assert forall|j: int| i + 1 < j < whole.len() implies !can_advance(whole, n, j) by {
                assert(can_advance(tail, n, j - 1) <==> can_advance(whole, n, j - 1 + 1));
            }
        }
        let chosen = choose|j: int| is_pivot(whole, n, j);
        lemma_pivot_unique(whole, n, chosen, i + 1);
        assert(advance_at(whole, i + 1) =~= seq![head] + advance_at(tail, i)) by {
            assert forall|m: int| 0 <= m < whole.len() implies advance_at(whole, i + 1)[m] == (
            seq![head] + advance_at(tail, i))[m] by {
                if m > 0 {
                    assert(whole[m] == tail[m - 1]);
                    assert(whole[i + 1] == tail[i]);
                }
            }
        }
    } else {
        assert forall|i: int| 1 <= i implies !can_advance(whole, n, i) by {
            if can_advance(whole, n, i) {
                assert(can_advance(tail, n, i - 1) <==> can_advance(whole, n, i - 1 + 1));
                lemma_pivot_exists(tail, n, i - 1);
            }
        }
        if head + tail.len() + 1 <= n {
            assert(is_pivot(whole, n, 0));
            let chosen = choose|j: int| is_pivot(whole, n, j);
            lemma_pivot_unique(whole, n, chosen, 0);
            assert(advance_at(whole, 0) =~= ascending(head, tail.len() + 1));
        } else {
            assert forall|i: int| !is_pivot(whole, n, i) by {
                if i == 0 {
                    assert(!can_advance(whole, n, 0));
                }
            }
        }
    }
}

/// Each combination of the list is followed by the next one, and the last
/// one by none.
pub proof fn lemma_enumeration(lo: int, n: int, k: nat, j: int)
    requires
        0 <= j < combinations(lo, n, k).len(),
    ensures
        j + 1 < combinations(lo, n, k).len() ==> next_positions(combinations(lo, n, k)[j], n)
            == Some(combinations(lo, n, k)[j + 1]),
        j + 1 == combinations(lo, n, k).len() ==> next_positions(combinations(lo, n, k)[j], n)
            is None,
    decreases n - lo,
{
    if k == 0 {
        let none = Seq::<int>::empty();
        assert(combinations(lo, n, k)[j] == none);
        assert forall|i: int| !is_pivot(none, n, i) by {}
    } else {
        let inner = combinations(lo + 1, n, (k - 1) as nat);
        let a = inner.map_values(|c: Seq<int>| seq![lo + 1] + c);
        let b = combinations(lo + 1, n, k);
        let list = combinations(lo, n, k);
        assert(list == a + b);
        if j < a.len() {
            lemma_enumeration(lo + 1, n, (k - 1) as nat, j);
            lemma_members(lo + 1, n, (k - 1) as nat, j);
            lemma_next_with_head(lo + 1, inner[j], n);
            assert(list[j] == seq![lo + 1] + inner[j]);
            if j + 1 < a.len() {
                assert(list[j + 1] == seq![lo + 1] + inner[j + 1]);
            } else if b.len() > 0 {
                lemma_first_and_last(lo + 1, n, k);
                assert(list[j + 1] == b[0]);
            } else {
                if k <= n - lo - 1 {
                    lemma_first_and_last(lo + 1, n, k);
                }
            }
        } else {
            lemma_enumeration(lo + 1, n, k, j - a.len());
            assert(list[j] == b[j - a.len()]);
            if j + 1 < list.len() {
                assert(list[j + 1] == b[j + 1 - a.len()]);
            }
        }
    }
}

/// A combination comes before its successor in lexicographic order.
pub proof fn lemma_next_is_greater(positions: Seq<int>, n: int)
    requires
        next_positions(positions, n) is Some,
    ensures
        lex_less(positions, next_positions(positions, n)->0),
{
    let i = choose|i: int| is_pivot(positions, n, i);
    let next = advance_at(positions, i);
    assert(0 <= i < positions.len() && i < next.len() && positions[i] < next[i] && forall|m: int|
        0 <= m < i ==> positions[m] == next[m]);
}

/// The combination count: an iterator over combinations of `k` out of `n`
/// items, asked again and again from its initial positions, passes through
/// exactly the combinations of `combinations(0, n, k)`, in that order, and
/// then stops. Each of them is made of `k` increasing positions out of
/// `1..=n`, each comes before its successor in lexicographic order, there
/// are `C(n, k)` of them: one when `k == 0`, and none when `k > n`.
pub proof fn law_combination_count(n: nat, k: nat)
    ensures
        combinations(0, n as int, k).len() == binomial(n, k),
        k > n ==> combinations(0, n as int, k).len() == 0,
        k == 0 ==> combinations(0, n as int, k).len() == 1,
        following(true, initial_positions(k as int, n as int), n as int) == if k <= n {
            Some(combinations(0, n as int, k)[0])
        } else {
            None
        },
        forall|j: int|
            0 <= j < combinations(0, n as int, k).len() - 1 ==> following(
                false,
                #[trigger] combinations(0, n as int, k)[j],
                n as int,
            ) == Some(combinations(0, n as int, k)[j + 1]) && lex_less(
                combinations(0, n as int, k)[j],
                combinations(0, n as int, k)[j + 1],
            ),
        combinations(0, n as int, k).len() > 0 ==> following(
            false,
            combinations(0, n as int, k).last(),
            n as int,
        ) is None,
        forall|j: int, i: int|
            0 <= j < combinations(0, n as int, k).len() && 0 <= i < k ==> 1
                <= #[trigger] combinations(0, n as int, k)[j][i] <= n && (i + 1 < k
                ==> combinations(0, n as int, k)[j][i] < combinations(0, n as int, k)[j][i + 1]),
{
    let list = combinations(0, n as int, k);
    lemma_combinations_len(0, n as int, k);
    if k > n {
        lemma_binomial_zero(n, k);
    }
    let start = initial_positions(k as int, n as int);
    if k == 0 {
        assert(start =~= Seq::<int>::empty());
        assert(list[0] =~= start);
    } else {
        assert forall|i: int| 1 <= i implies !can_advance(start, n as int, i) by {}
        if k <= n {
            lemma_first_and_last(0, n as int, k);
            assert(is_pivot(start, n as int, 0));
            let chosen = choose|i: int| is_pivot(start, n as int, i);
            lemma_pivot_unique(start, n as int, chosen, 0);
            assert(advance_at(start, 0) =~= ascending(0, k));
            lemma_enumeration(0, n as int, k, list.len() - 1);
        } else {
            assert forall|i: int| !is_pivot(start, n as int, i) by {
                if i == 0 {
                    assert(!can_advance(start, n as int, 0));
                }
            }
        }
    }
    assert forall|j: int| 0 <= j < list.len() implies (#[trigger] list[j]).len() == k by {
        lemma_members(0, n as int, k, j);
    }
    assert forall|j: int| 0 <= j < list.len() - 1 implies following(
        false,
        #[trigger] list[j],
        n as int,
    ) == Some(list[j + 1]) && lex_less(list[j], list[j + 1]) by {
        lemma_enumeration(0, n as int, k, j);
        assert(k > 0);
        lemma_next_is_greater(list[j], n as int);
    }
    if list.len() > 0 && k > 0 {
        lemma_enumeration(0, n as int, k, list.len() - 1);
    }
    assert forall|j: int, i: int| 0 <= j < list.len() && 0 <= i < k implies 1 <= #[trigger] list[j][i]
        <= n && (i + 1 < k ==> list[j][i] < list[j][i + 1]) by {
        lemma_members(0, n as int, k, j);
    }
}

} // verus!
