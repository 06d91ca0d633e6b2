//! The storage positions that a query touches, for whoever decides which
//! queries may run side by side.

use crate::archetype::{Archetype, Archetypes};
use crate::component::ComponentId;
use vstd::prelude::*;

verus! {

/// The archetype-component indices of the components of `with` that the
/// archetype has, in the order of `with`.
pub open spec fn component_access(archetype: &Archetype, with: Seq<ComponentId>) -> Seq<usize>
    decreases with.len(),
{
    if with.len() == 0 {
        Seq::empty()
    } else {
        let before = component_access(archetype, with.drop_last());
        if archetype.slots().contains_key(with.last().0) {
            before.push(archetype.slots()[with.last().0].1)
        } else {
            before
        }
    }
}

/// The archetype-component indices that a query for the components `with`
/// touches in the archetypes `indices`: those of the first archetype, then
/// those of the second, and so on.
pub open spec fn archetype_component_access(
    archetypes: Seq<Archetype>,
    indices: Seq<usize>,
    with: Seq<ComponentId>,
) -> Seq<usize>
    decreases indices.len(),
{
    if indices.len() == 0 {
        Seq::empty()
    } else {
        archetype_component_access(archetypes, indices.drop_last(), with) + component_access(
            &archetypes[indices.last() as int],
            with,
        )
    }
}

/// Whether `x` is the archetype-component index of the `p`-th component of
/// `with` in the archetype.
pub open spec fn touches_at(archetype: &Archetype, with: Seq<ComponentId>, p: int, x: usize) -> bool {
    0 <= p < with.len() && archetype.slots().contains_key(with[p].0) && archetype.slots()[with[p].0].1
        == x
}

/// What `component_access` holds: the indices of the components of `with`
/// that the archetype has.
pub proof fn lemma_component_access(archetype: &Archetype, with: Seq<ComponentId>, x: usize)
    ensures
        component_access(archetype, with).contains(x) <==> exists|p: int|
            touches_at(archetype, with, p, x),
    decreases with.len(),
{
    let access = component_access(archetype, with);
    if with.len() > 0 {
        let front = with.drop_last();
        let before = component_access(archetype, front);
        lemma_component_access(archetype, front, x);
        let last = with.len() - 1;
        if access.contains(x) {
            let i = choose|i: int| 0 <= i < access.len() && access[i] == x;
            if i < before.len() {
                assert(before[i] == x);
                assert(before.contains(x));
                let p = choose|p: int| touches_at(archetype, front, p, x);
                assert(touches_at(archetype, with, p, x));
            } else {
                assert(touches_at(archetype, with, last, x));
            }
        }
        if exists|p: int| touches_at(archetype, with, p, x) {
            let p = choose|p: int| touches_at(archetype, with, p, x);
            if p < last {
                assert(touches_at(archetype, front, p, x));
                let i = choose|i: int| 0 <= i < before.len() && before[i] == x;
                assert(access[i] == x);
            } else {
                assert(access[access.len() - 1] == x);
            }
        }
    }
}

/// What `archetype_component_access` holds: the indices that
/// `component_access` holds for one of the archetypes.
pub proof fn lemma_archetype_component_access(
    archetypes: Seq<Archetype>,
    indices: Seq<usize>,
    with: Seq<ComponentId>,
    x: usize,
)
    ensures
        archetype_component_access(archetypes, indices, with).contains(x) <==> exists|q: int, p: int|
            0 <= q < indices.len() && #[trigger] touches_at(&archetypes[indices[q] as int], with, p, x),
    decreases indices.len(),
{
    let access = archetype_component_access(archetypes, indices, with);
    if indices.len() > 0 {
        let front = indices.drop_last();
        let before = archetype_component_access(archetypes, front, with);
        let last = indices.len() - 1;
        let tail = component_access(&archetypes[indices[last] as int], with);
        lemma_archetype_component_access(archetypes, front, with, x);
        lemma_component_access(&archetypes[indices[last] as int], with, x);
        if access.contains(x) {
            let i = choose|i: int| 0 <= i < access.len() && access[i] == x;
            if i < before.len() {
                assert(before[i] == x);
                assert(before.contains(x));
                let (q, p) = choose|q: int, p: int|
                    0 <= q < front.len() && #[trigger] touches_at(
                        &archetypes[front[q] as int],
                        with,
                        p,
                        x,
                    );
                assert(touches_at(&archetypes[indices[q] as int], with, p, x));
            } else {
                assert(tail[i - before.len()] == x);
                assert(tail.contains(x));
                let p = choose|p: int| touches_at(&archetypes[indices[last] as int], with, p, x);
                assert(touches_at(&archetypes[indices[last] as int], with, p, x));
            }
        }
        if exists|q: int, p: int|
            0 <= q < indices.len() && #[trigger] touches_at(&archetypes[indices[q] as int], with, p, x) {
            let (q, p) = choose|q: int, p: int|
                0 <= q < indices.len() && #[trigger] touches_at(
                    &archetypes[indices[q] as int],
                    with,
                    p,
                    x,
                );
            if q < last {
                assert(touches_at(&archetypes[front[q] as int], with, p, x));
                assert(before.contains(x));
                let i = choose|i: int| 0 <= i < before.len() && before[i] == x;
                assert(access[i] == x);
            } else {
                assert(tail.contains(x));
                let i = choose|i: int| 0 <= i < tail.len() && tail[i] == x;
                assert(access[before.len() + i] == x);
            }
        }
    }
}

/// Two queries touch no common storage position if no archetype that both
/// walk has a component that both ask for, whatever else the two have in
/// common: neither component types that overlap in different archetypes
/// nor shared archetypes with different components make a conflict.
pub proof fn law_disjoint_queries_share_no_position(
    archetypes: &Archetypes,
    first: Seq<usize>,
    first_with: Seq<ComponentId>,
    second: Seq<usize>,
    second_with: Seq<ComponentId>,
    x: usize,
)
    requires
        archetypes.consistent(),
        forall|q: int| 0 <= q < first.len() ==> #[trigger] first[q] < archetypes@.len(),
        forall|q: int| 0 <= q < second.len() ==> #[trigger] second[q] < archetypes@.len(),
        forall|q: int, r: int, p: int, s: int|
            0 <= q < first.len() && 0 <= r < second.len() && 0 <= p < first_with.len() && 0 <= s
                < second_with.len() && #[trigger] first[q] == #[trigger] second[r]
                ==> #[trigger] first_with[p].0 != #[trigger] second_with[s].0,
    ensures
        !(archetype_component_access(archetypes@, first, first_with).contains(x)
            && archetype_component_access(archetypes@, second, second_with).contains(x)),
{
    lemma_archetype_component_access(archetypes@, first, first_with, x);
    lemma_archetype_component_access(archetypes@, second, second_with, x);
    if archetype_component_access(archetypes@, first, first_with).contains(x)
        && archetype_component_access(archetypes@, second, second_with).contains(x) {
        let (q, p) = choose|q: int, p: int|
            0 <= q < first.len() && #[trigger] touches_at(
                &archetypes@[first[q] as int],
                first_with,
                p,
                x,
            );
        let (r, s) = choose|r: int, s: int|
            0 <= r < second.len() && #[trigger] touches_at(
                &archetypes@[second[r] as int],
                second_with,
                s,
                x,
            );
        archetypes.law_component_ids_are_unique(
            first[q] as int,
            first_with[p].0,
            second[r] as int,
            second_with[s].0,
        );
        assert(first[q] == second[r]);
        assert(first_with[p].0 == second_with[s].0);
    }
}

} // verus!
