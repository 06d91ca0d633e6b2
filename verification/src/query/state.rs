//! The cached match result of a query.

use crate::archetype::{
    Archetype, ArchetypeComponentId, ArchetypeGeneration, ArchetypeId, Archetypes,
};
use crate::component::{ComponentId, Components, StorageType};
use crate::query::access::{archetype_component_access, component_access};
use crate::query::filter::QueryFilter;
use crate::storage::table::{TableId, Tables};
use vstd::prelude::*;

verus! {

/// Whether an archetype with the given component slots has every component
/// of `with` and none of `without`.
pub open spec fn matches_component_set(
    archetype: &Archetype,
    with: Seq<ComponentId>,
    without: Seq<ComponentId>,
) -> bool {
    &&& forall|i: int| 0 <= i < with.len() ==> archetype.slots().contains_key(#[trigger] with[i].0)
    &&& forall|i: int|
        0 <= i < without.len() ==> !archetype.slots().contains_key(#[trigger] without[i].0)
}

/// The indices of the archetypes in `archetypes[from..to]` that match, in
/// increasing order.
pub open spec fn matching_archetypes(
    archetypes: Seq<Archetype>,
    with: Seq<ComponentId>,
    without: Seq<ComponentId>,
    from: int,
    to: int,
) -> Seq<usize>
    decreases to - from,
{
    if from >= to {
        Seq::empty()
    } else {
        let before = matching_archetypes(archetypes, with, without, from, to - 1);
        if matches_component_set(&archetypes[to - 1], with, without) {
            before.push((to - 1) as usize)
        } else {
            before
        }
    }
}

/// `tables` followed by the tables of the archetypes `indices`, each table
/// listed once, at its first occurrence.
pub open spec fn tables_of(
    tables: Seq<TableId>,
    archetypes: Seq<Archetype>,
    indices: Seq<usize>,
) -> Seq<TableId>
    decreases indices.len(),
{
    if indices.len() == 0 {
        tables
    } else {
        let before = tables_of(tables, archetypes, indices.drop_last());
        let table = archetypes[indices.last() as int].spec_table_id();
        if before.contains(table) {
            before
        } else {
            before.push(table)
        }
    }
}

/// Whether `table` is the table of one of the archetypes `indices`.
pub open spec fn table_backed(archetypes: Seq<Archetype>, indices: Seq<usize>, table: TableId) -> bool {
    exists|k: int|
        0 <= k < indices.len() && #[trigger] archetypes[indices[k] as int].spec_table_id() == table
}

/// Whether every component of `with` is registered as table-stored.
pub open spec fn all_table_stored(components: &Components, with: Seq<ComponentId>) -> bool {
    forall|i: int|
        0 <= i < with.len() ==> (#[trigger] with[i]).0 < components@.len()
            && components@[with[i].0 as int].storage_type == StorageType::Table
}

/// Whether every component of `ids` is registered as table-stored.
pub fn is_table_stored(components: &Components, ids: &Vec<ComponentId>) -> (b: bool)
    ensures
        b == all_table_stored(components, ids@),
{
    let mut i: usize = 0;
    while i < ids.len()
        invariant
            i <= ids.len(),
            all_table_stored(components, ids@.take(i as int)),
        decreases ids.len() - i,
    {
        let stored = match components.get_info(ids[i]) {
            Some(info) => info.storage_type == StorageType::Table,
            None => false,
        };
        if !stored {
            return false;
        }
        proof {
            let prefix = ids@.take(i as int);
            let next = ids@.take(i + 1);
            assert forall|j: int| 0 <= j < next.len() implies (#[trigger] next[j]).0
                < components@.len() && components@[next[j].0 as int].storage_type
                == StorageType::Table by {
                if j < i {
                    assert(prefix[j] == next[j]);
                }
            }
        }
        i += 1;
    }
    assert(ids@.take(ids.len() as int) =~= ids@);
    true
}

/// The cached match result of a query: which archetypes and tables it walks.
///
/// The result is refreshed incrementally: only archetypes created since the
/// last refresh are looked at.
pub struct QueryState<F: QueryFilter> {
    archetype_generation: ArchetypeGeneration,
    matched_tables: Vec<bool>,
    matched_archetypes: Vec<bool>,
    matched_table_ids: Vec<TableId>,
    matched_archetype_ids: Vec<ArchetypeId>,
    with: Vec<ComponentId>,
    without: Vec<ComponentId>,
    is_dense: bool,
    filter: F,
}

impl<F: QueryFilter> QueryState<F> {
    /// The indices of the matched archetypes, in the order in which they
    /// were matched.
    pub closed spec fn archetype_indices(&self) -> Seq<usize> {
        Seq::new(
            self.matched_archetype_ids@.len(),
            |i: int| self.matched_archetype_ids@[i].spec_index(),
        )
    }

    /// The matched tables, in the order in which they were matched.
    pub closed spec fn table_ids(&self) -> Seq<TableId> {
        self.matched_table_ids@
    }

    /// The number of archetypes that had been looked at by the last refresh.
    pub closed spec fn generation(&self) -> usize {
        self.archetype_generation.0
    }

    pub closed spec fn with(&self) -> Seq<ComponentId> {
        self.with@
    }

    pub closed spec fn without(&self) -> Seq<ComponentId> {
        self.without@
    }

    pub closed spec fn spec_filter(&self) -> F {
        self.filter
    }

    /// Whether cursors over this query walk tables (dense) or archetypes.
    pub closed spec fn dense(&self) -> bool {
        self.is_dense
    }

    /// Whether the archetype with index `i` is flagged as matched.
    pub closed spec fn archetype_flag(&self, i: int) -> bool {
        0 <= i < self.matched_archetypes@.len() && self.matched_archetypes@[i]
    }

    /// Whether the table with index `i` is flagged as matched.
    pub closed spec fn table_flag(&self, i: int) -> bool {
        0 <= i < self.matched_tables@.len() && self.matched_tables@[i]
    }

    /// The flags agree with the lists, and only archetypes that had been
    /// created by the last refresh are matched.
    pub open spec fn wf(&self) -> bool {
        &&& forall|i: int| #[trigger]
            self.archetype_flag(i) ==> 0 <= i <= usize::MAX && self.archetype_indices().contains(
                i as usize,
            )
        &&& forall|k: int|
            0 <= k < self.archetype_indices().len() ==> self.archetype_flag(
                #[trigger] self.archetype_indices()[k] as int,
            ) && self.archetype_indices()[k] < self.generation()
        &&& forall|i: int| #[trigger]
            self.table_flag(i) ==> 0 <= i <= usize::MAX && self.table_ids().contains(
                TableId(i as usize),
            )
        &&& forall|k: int|
            0 <= k < self.table_ids().len() ==> self.table_flag(#[trigger] self.table_ids()[k].0 as int)
    }

    /// Every matched id names an archetype or table that exists, the table
    /// of every matched archetype exists, and these tables are well-formed.
    pub open spec fn valid_for(&self, archetypes: &Archetypes, tables: &Tables) -> bool {
        &&& forall|i: int|
            0 <= i < self.archetype_indices().len() ==> (#[trigger] self.archetype_indices()[i])
                < archetypes@.len() && archetypes@[self.archetype_indices()[i] as int].spec_table_id().0
                < tables@.len()
                && tables@[archetypes@[self.archetype_indices()[i] as int].spec_table_id().0 as int].wf()
        &&& forall|i: int|
            0 <= i < self.table_ids().len() ==> (#[trigger] self.table_ids()[i]).0 < tables@.len()
                && tables@[self.table_ids()[i].0 as int].wf()
    }

    /// Everything that is matched comes from `archetypes`: every matched
    /// archetype is one of them, and every matched table is the table of a
    /// matched archetype.
    pub open spec fn drawn_from(&self, archetypes: &Archetypes) -> bool {
        &&& self.generation() <= archetypes@.len()
        &&& forall|i: int|
            0 <= i < self.table_ids().len() ==> table_backed(
                archetypes@,
                self.archetype_indices(),
                #[trigger] self.table_ids()[i],
            )
    }

    /// The match result is what a scan of the archetypes that have been
    /// looked at gives: an archetype is matched exactly when it has the
    /// components asked for and none of those ruled out, the table of every
    /// matched archetype is matched, and nothing is listed twice.
    pub open spec fn exact_for(&self, archetypes: &Archetypes) -> bool {
        &&& self.archetype_indices().no_duplicates()
        &&& self.table_ids().no_duplicates()
        &&& forall|a: int|
            0 <= a < self.generation() && a < archetypes@.len() ==> (self.archetype_indices().contains(
                a as usize,
            ) <==> matches_component_set(&#[trigger] archetypes@[a], self.with(), self.without()))
        &&& forall|k: int|
            0 <= k < self.archetype_indices().len() ==> self.table_ids().contains(
                archetypes@[#[trigger] self.archetype_indices()[k] as int].spec_table_id(),
            )
    }

    /// Matches stay drawn from the archetypes of a world while the world
    /// grows: new archetypes do not disturb them, as long as the archetypes
    /// that were there keep their tables.
    pub proof fn lemma_drawn_from_grown(&self, before: &Archetypes, after: &Archetypes)
        requires
            self.wf(),
            self.drawn_from(before),
            before@.len() <= after@.len(),
            forall|a: int|
                0 <= a < before@.len() ==> (#[trigger] after@[a]).spec_table_id()
                    == before@[a].spec_table_id(),
        ensures
            self.drawn_from(after),
    {
        assert forall|i: int| 0 <= i < self.table_ids().len() implies table_backed(
            after@,
            self.archetype_indices(),
            #[trigger] self.table_ids()[i],
        ) by {
            assert(table_backed(before@, self.archetype_indices(), self.table_ids()[i]));
            let k = choose|k: int|
                0 <= k < self.archetype_indices().len()
                    && #[trigger] before@[self.archetype_indices()[k] as int].spec_table_id()
                    == self.table_ids()[i];
            assert(self.archetype_flag(self.archetype_indices()[k] as int));
            assert(after@[self.archetype_indices()[k] as int].spec_table_id()
                == self.table_ids()[i]);
        }
    }

    /// A query over the archetypes that have every component of `with` and
    /// none of `without`, with `filter` applied to each row. Nothing is
    /// matched until the first refresh.
    ///
    /// The query is dense exactly when every component of `with` and of
    /// `without` is registered as table-stored and the filter is dense:
    /// only then do all entities of a matched table belong to matched
    /// archetypes.
    pub fn new(
        components: &Components,
        with: Vec<ComponentId>,
        without: Vec<ComponentId>,
        filter: F,
    ) -> (s: Self)
        ensures
            s.wf(),
            s.archetype_indices() == Seq::<usize>::empty(),
            s.table_ids() == Seq::<TableId>::empty(),
            s.generation() == 0,
            s.with() == with@,
            s.without() == without@,
            s.spec_filter() == filter,
            s.dense() == (all_table_stored(components, with@) && all_table_stored(
                components,
                without@,
            ) && filter.dense()),
            forall|archetypes: &Archetypes| #[trigger] s.drawn_from(archetypes),
            forall|archetypes: &Archetypes| #[trigger] s.exact_for(archetypes),
    {
        let table_stored = is_table_stored(components, &with) && is_table_stored(
            components,
            &without,
        );
        let is_dense = table_stored && filter.is_dense();
        let s = QueryState {
            archetype_generation: ArchetypeGeneration::initial(),
            matched_tables: Vec::new(),
            matched_archetypes: Vec::new(),
            matched_table_ids: Vec::new(),
            matched_archetype_ids: Vec::new(),
            with,
            without,
            is_dense,
            filter,
        };
        assert(s.archetype_indices() =~= Seq::<usize>::empty());
        s
    }

    #[verifier::when_used_as_spec(dense)]
    pub fn is_dense(&self) -> (b: bool)
        ensures
            b == self.dense(),
    {
        self.is_dense
    }

    pub fn filter(&self) -> (f: &F)
        ensures
            *f == self.spec_filter(),
    {
        &self.filter
    }

    pub fn matched_archetype_ids(&self) -> (ids: &Vec<ArchetypeId>)
        ensures
            ids@.len() == self.archetype_indices().len(),
            forall|i: int|
                0 <= i < ids@.len() ==> (#[trigger] ids@[i]).spec_index()
                    == self.archetype_indices()[i],
    {
        &self.matched_archetype_ids
    }

    pub fn matched_table_ids(&self) -> (ids: &Vec<TableId>)
        ensures
            ids@ == self.table_ids(),
    {
        &self.matched_table_ids
    }

    /// The storage positions that the query touches: for each matched
    /// archetype, in the order of matching, the archetype-component id of
    /// each component the query asks for. Two queries whose lists share no
    /// id never touch the same stored value.
    pub fn archetype_component_access(&self, archetypes: &Archetypes) -> (access: Vec<
        ArchetypeComponentId,
    >)
        requires
            self.wf(),
            archetypes.consistent(),
            self.generation() <= archetypes@.len(),
        ensures
            access@.len() == archetype_component_access(
                archetypes@,
                self.archetype_indices(),
                self.with(),
            ).len(),
            forall|i: int|
                0 <= i < access@.len() ==> (#[trigger] access@[i]).spec_index()
                    == archetype_component_access(
                    archetypes@,
                    self.archetype_indices(),
                    self.with(),
                )[i],
    {
        let mut access: Vec<ArchetypeComponentId> = Vec::new();
        let ghost mut found: Seq<usize> = Seq::empty();
        let n: usize = self.matched_archetype_ids.len();
        let m: usize = self.with.len();
        let mut q: usize = 0;
        while q < n
            invariant
                q <= n,
                n == self.archetype_indices().len(),
                m == self.with().len(),
                self.wf(),
                archetypes.consistent(),
                self.generation() <= archetypes@.len(),
                found == archetype_component_access(
                    archetypes@,
                    self.archetype_indices().take(q as int),
                    self.with(),
                ),
                access@.len() == found.len(),
                forall|i: int| 0 <= i < access@.len() ==> (#[trigger] access@[i]).spec_index() == found[i],
            decreases n - q,
        {
            let id = self.matched_archetype_ids[q];
            assert(id.spec_index() == self.archetype_indices()[q as int]);
            assert(self.archetype_indices()[q as int] < self.generation());
            let archetype = archetypes.index(id);
            assert(archetype.wf());
            let ghost before = found;
            let ghost mut here: Seq<usize> = Seq::empty();
            let mut p: usize = 0;
            while p < m
                invariant
                    p <= m,
                    m == self.with().len(),
                    archetype.wf(),
                    here == component_access(archetype, self.with().take(p as int)),
                    found == before + here,
                    access@.len() == found.len(),
                    forall|i: int|
                        0 <= i < access@.len() ==> (#[trigger] access@[i]).spec_index() == found[i],
                decreases m - p,
            {
                proof {
                    assert(self.with().take(p + 1).drop_last() =~= self.with().take(p as int));
                    assert(self.with().take(p + 1).last() == self.with()[p as int]);
                }
                match archetype.get_archetype_component_id(self.with[p]) {
                    Some(slot) => {
                        access.push(slot);
                        proof {
                            here = here.push(slot.spec_index());
                            found = found.push(slot.spec_index());
                            assert(found =~= before + here);
                        }
                    },
                    None => {},
                }
                p += 1;
            }
            proof {
                assert(self.with().take(m as int) =~= self.with());
                assert(self.archetype_indices().take(q + 1).drop_last()
                    =~= self.archetype_indices().take(q as int));
                assert(self.archetype_indices().take(q + 1).last()
                    == self.archetype_indices()[q as int]);
            }
            q += 1;
        }
        proof {
            assert(self.archetype_indices().take(n as int) =~= self.archetype_indices());
        }
        access
    }

    /// Whether the archetype with the given index has been matched.
    pub fn matches_archetype(&self, archetype_index: usize) -> (b: bool)
        requires
            self.wf(),
        ensures
            b == self.archetype_indices().contains(archetype_index),
    {
        let b = archetype_index < self.matched_archetypes.len()
            && self.matched_archetypes[archetype_index];
        proof {
            if self.archetype_indices().contains(archetype_index) {
                let k = choose|k: int|
                    0 <= k < self.archetype_indices().len() && self.archetype_indices()[k]
                        == archetype_index;
                assert(self.archetype_flag(self.archetype_indices()[k] as int));
            }
            if b {
                assert(self.archetype_flag(archetype_index as int));
            }
        }
        b
    }

    /// Whether `archetype` has every component of `with` and none of
    /// `without`.
    pub fn matches_archetype_components(&self, archetype: &Archetype) -> (b: bool)
        ensures
            b == matches_component_set(archetype, self.with(), self.without()),
    {
        let mut i: usize = 0;
        while i < self.with.len()
            invariant
                i <= self.with.len(),
                forall|j: int|
                    0 <= j < i ==> archetype.slots().contains_key(#[trigger] self.with()[j].0),
            decreases self.with.len() - i,
        {
            if !archetype.contains(self.with[i]) {
                return false;
            }
            i += 1;
        }
        let mut i: usize = 0;
        while i < self.without.len()
            invariant
                i <= self.without.len(),
                forall|j: int|
                    0 <= j < self.with().len() ==> archetype.slots().contains_key(
                        #[trigger] self.with()[j].0,
                    ),
                forall|j: int|
                    0 <= j < i ==> !archetype.slots().contains_key(#[trigger] self.without()[j].0),
            decreases self.without.len() - i,
        {
            if archetype.contains(self.without[i]) {
                return false;
            }
            i += 1;
        }
        true
    }

    /// Looks at one archetype that was created after the last refresh and
    /// adds it, and its table if that is new, when it matches.
    fn new_archetype(&mut self, archetype: &Archetype)
        requires
            old(self).wf(),
            old(self).generation() == archetype.spec_id().spec_index(),
            old(self).generation() < usize::MAX,
        ensures
            final(self).wf(),
            final(self).generation() == old(self).generation() + 1,
            final(self).with() == old(self).with(),
            final(self).without() == old(self).without(),
            final(self).spec_filter() == old(self).spec_filter(),
            final(self).dense() == old(self).dense(),
            matches_component_set(archetype, old(self).with(), old(self).without())
                ==> final(self).archetype_indices() == old(self).archetype_indices().push(
                archetype.spec_id().spec_index(),
            ) && final(self).table_ids() == if old(self).table_ids().contains(
                archetype.spec_table_id(),
            ) {
                old(self).table_ids()
            } else {
                old(self).table_ids().push(archetype.spec_table_id())
            },
            !matches_component_set(archetype, old(self).with(), old(self).without())
                ==> final(self).archetype_indices() == old(self).archetype_indices()
                    && final(self).table_ids()
                == old(self).table_ids(),
    {
        let index: usize = archetype.id().index();
        if self.matches_archetype_components(archetype) {
            let ghost before = self.archetype_indices();
            proof {
                if self.archetype_flag(index as int) {
                    let k = choose|k: int| 0 <= k < before.len() && before[k] == index;
                    assert(self.archetype_flag(before[k] as int));
                }
            }
            grow_flags(&mut self.matched_archetypes, index);
            self.matched_archetypes[index] = true;
            self.matched_archetype_ids.push(archetype.id());
            assert(self.archetype_indices() =~= before.push(index));
            let table_id = archetype.table_id();
            let table_index: usize = table_id.index();
            let ghost tables_before = self.table_ids();
            let known = table_index < self.matched_tables.len()
                && self.matched_tables[table_index];
            proof {
                assert(tables_before == old(self).table_ids());
                if tables_before.contains(table_id) {
                    let k = choose|k: int|
                        0 <= k < tables_before.len() && tables_before[k] == table_id;
                    assert(old(self).table_flag(old(self).table_ids()[k].0 as int));
                }
                if known {
                    assert(old(self).table_flag(table_index as int));
                }
            }
            if !known {
                grow_flags(&mut self.matched_tables, table_index);
                self.matched_tables[table_index] = true;
                self.matched_table_ids.push(table_id);
            }
            self.archetype_generation = ArchetypeGeneration(index + 1);
            proof {
                assert forall|i: int| #[trigger] self.archetype_flag(i) implies 0 <= i <= usize::MAX
                    && self.archetype_indices().contains(i as usize) by {
                    if i == index {
                        assert(self.archetype_indices()[before.len() as int] == index);
                    } else {
                        assert(old(self).archetype_flag(i));
                        let k = choose|k: int| 0 <= k < before.len() && before[k] == i as usize;
                        assert(self.archetype_indices()[k] == i as usize);
                    }
                }
                assert forall|k: int| 0 <= k < self.archetype_indices().len() implies self.archetype_flag(
                    #[trigger] self.archetype_indices()[k] as int,
                ) && self.archetype_indices()[k] < self.generation() by {
                    if k < before.len() {
                        assert(old(self).archetype_flag(before[k] as int));
                    }
                }
                assert forall|i: int| #[trigger] self.table_flag(i) implies 0 <= i <= usize::MAX
                    && self.table_ids().contains(TableId(i as usize)) by {
                    if i == table_index && !known {
                        assert(self.table_ids()[tables_before.len() as int] == table_id);
                    } else {
                        assert(old(self).table_flag(i));
                        let k = choose|k: int|
                            0 <= k < tables_before.len() && tables_before[k] == TableId(i as usize);
                        assert(self.table_ids()[k] == TableId(i as usize));
                    }
                }
                assert forall|k: int| 0 <= k < self.table_ids().len() implies self.table_flag(
                    #[trigger] self.table_ids()[k].0 as int,
                ) by {
                    if k < tables_before.len() {
                        assert(old(self).table_flag(tables_before[k].0 as int));
                    }
                }
            }
        } else {
            self.archetype_generation = ArchetypeGeneration(index + 1);
            proof {
                assert forall|k: int| 0 <= k < self.archetype_indices().len() implies self.archetype_flag(
                    #[trigger] self.archetype_indices()[k] as int,
                ) && self.archetype_indices()[k] < self.generation() by {
                    assert(old(self).archetype_flag(old(self).archetype_indices()[k] as int));
                }
                assert forall|i: int| #[trigger] self.archetype_flag(i) implies 0 <= i <= usize::MAX
                    && self.archetype_indices().contains(i as usize) by {
                    assert(old(self).archetype_flag(i));
                }
                assert forall|i: int| #[trigger] self.table_flag(i) implies 0 <= i <= usize::MAX
                    && self.table_ids().contains(TableId(i as usize)) by {
                    assert(old(self).table_flag(i));
                }
                assert forall|k: int| 0 <= k < self.table_ids().len() implies self.table_flag(
                    #[trigger] self.table_ids()[k].0 as int,
                ) by {
                    assert(old(self).table_flag(old(self).table_ids()[k].0 as int));
                }
            }
        }
    }

    /// Refreshes the match result: looks at the archetypes created since the
    /// last refresh, and only at those, and appends the ones that match, with
    /// their tables.
    pub fn update_archetypes(&mut self, archetypes: &Archetypes)
        requires
            old(self).wf(),
            archetypes.consistent(),
            old(self).generation() <= archetypes@.len(),
        ensures
            final(self).wf(),
            old(self).drawn_from(archetypes) ==> final(self).drawn_from(archetypes),
            old(self).exact_for(archetypes) ==> final(self).exact_for(archetypes),
            final(self).generation() == archetypes@.len(),
            final(self).with() == old(self).with(),
            final(self).without() == old(self).without(),
            final(self).spec_filter() == old(self).spec_filter(),
            final(self).dense() == old(self).dense(),
            final(self).archetype_indices() == old(self).archetype_indices() + matching_archetypes(
                archetypes@,
                old(self).with(),
                old(self).without(),
                old(self).generation() as int,
                archetypes@.len() as int,
            ),
            final(self).table_ids() == tables_of(
                old(self).table_ids(),
                archetypes@,
                matching_archetypes(
                    archetypes@,
                    old(self).with(),
                    old(self).without(),
                    old(self).generation() as int,
                    archetypes@.len() as int,
                ),
            ),
    {
        let first: usize = self.archetype_generation.value();
        let mut i: usize = first;
        while i < archetypes.len()
            invariant
                first <= i <= archetypes@.len(),
                first == old(self).generation(),
                archetypes.consistent(),
                self.wf(),
                self.generation() == i,
                self.with() == old(self).with(),
                self.without() == old(self).without(),
                self.spec_filter() == old(self).spec_filter(),
                self.dense() == old(self).dense(),
                self.archetype_indices() == old(self).archetype_indices() + matching_archetypes(
                    archetypes@,
                    old(self).with(),
                    old(self).without(),
                    first as int,
                    i as int,
                ),
                self.table_ids() == tables_of(
                    old(self).table_ids(),
                    archetypes@,
                    matching_archetypes(
                        archetypes@,
                        old(self).with(),
                        old(self).without(),
                        first as int,
                        i as int,
                    ),
                ),
                old(self).drawn_from(archetypes) ==> forall|j: int|
                    0 <= j < self.table_ids().len() ==> table_backed(
                        archetypes@,
                        self.archetype_indices(),
                        #[trigger] self.table_ids()[j],
                    ),
                old(self).exact_for(archetypes) ==> self.exact_for(archetypes),
            decreases archetypes@.len() - i,
        {
            let ghost found = matching_archetypes(
                archetypes@,
                old(self).with(),
                old(self).without(),
                first as int,
                i as int,
            );
            let ghost found_next = matching_archetypes(
                archetypes@,
                old(self).with(),
                old(self).without(),
                first as int,
                i + 1,
            );
            let archetype = archetypes.index(ArchetypeId::new(i));
            assert(archetypes@[i as int].wf());
            let ghost earlier = *self;
            self.new_archetype(archetype);
            proof {
                if old(self).drawn_from(archetypes) {
                    assert forall|j: int| 0 <= j < self.table_ids().len() implies table_backed(
                        archetypes@,
                        self.archetype_indices(),
                        #[trigger] self.table_ids()[j],
                    ) by {
                        if j < earlier.table_ids().len() {
                            assert(table_backed(
                                archetypes@,
                                earlier.archetype_indices(),
                                earlier.table_ids()[j],
                            ));
                            let k = choose|k: int|
                                0 <= k < earlier.archetype_indices().len()
                                    && #[trigger] archetypes@[earlier.archetype_indices(
                                        )[k] as int].spec_table_id()
                                    == earlier.table_ids()[j];
                            assert(self.archetype_indices()[k] == earlier.archetype_indices()[k]);
                            assert(self.table_ids()[j] == earlier.table_ids()[j]);
                            assert(archetypes@[self.archetype_indices()[k] as int].spec_table_id()
                                == self.table_ids()[j]);
                        } else {
                            let k = earlier.archetype_indices().len() as int;
                            assert(self.archetype_indices()[k] == i);
                            assert(archetypes@[self.archetype_indices()[k] as int].spec_table_id()
                                == self.table_ids()[j]);
                        }
                    }
                }
            }
            proof {
                if old(self).exact_for(archetypes) {
                    let before = earlier.archetype_indices();
                    let after = self.archetype_indices();
                    let matched = matches_component_set(archetype, self.with(), self.without());
                    assert(!before.contains(i)) by {
                        if before.contains(i) {
                            let k = choose|k: int| 0 <= k < before.len() && before[k] == i;
                            assert(before[k] < earlier.generation());
                        }
                    }
                    assert forall|a: int| 0 <= a < i + 1 implies (after.contains(a as usize)
                        <==> matches_component_set(
                        &#[trigger] archetypes@[a],
                        self.with(),
                        self.without(),
                    )) by {
                        if matched {
                            assert(after[after.len() - 1] == i);
                            if before.contains(a as usize) {
                                let k = choose|k: int| 0 <= k < before.len() && before[k] == a as usize;
                                assert(after[k] == a as usize);
                            }
                            if after.contains(a as usize) && a != i {
                                let k = choose|k: int| 0 <= k < after.len() && after[k] == a as usize;
                                assert(before[k] == a as usize);
                            }
                        }
                    }
                    assert forall|k: int| 0 <= k < after.len() implies self.table_ids().contains(
                        archetypes@[#[trigger] after[k] as int].spec_table_id(),
                    ) by {
                        let table = archetypes@[after[k] as int].spec_table_id();
                        if k < before.len() {
                            assert(after[k] == before[k]);
                            assert(earlier.table_ids().contains(table));
                            let j = choose|j: int|
                                0 <= j < earlier.table_ids().len() && earlier.table_ids()[j] == table;
                            assert(self.table_ids()[j] == table);
                        } else if earlier.table_ids().contains(table) {
                        } else {
                            assert(self.table_ids()[self.table_ids().len() - 1] == table);
                        }
                    }
                }
            }
            proof {
                if matches_component_set(archetype, old(self).with(), old(self).without()) {
                    assert(found_next == found.push(i));
                    assert(found_next.drop_last() =~= found);
                    assert(self.archetype_indices() =~= old(self).archetype_indices() + found_next);
                } else {
                    assert(found_next == found);
                }
            }
            i += 1;
        }
    }
}

/// Extends `flags` with `false` until `index` is a valid position.
fn grow_flags(flags: &mut Vec<bool>, index: usize)
    ensures
        final(flags)@.len() > index,
        final(flags)@.len() >= old(flags)@.len(),
        forall|i: int| 0 <= i < old(flags)@.len() ==> final(flags)@[i] == old(flags)@[i],
        forall|i: int| old(flags)@.len() <= i < final(flags)@.len() ==> !final(flags)@[i],
{
    while flags.len() <= index
        invariant
            flags@.len() >= old(flags)@.len(),
            forall|i: int| 0 <= i < old(flags)@.len() ==> flags@[i] == old(flags)@[i],
            forall|i: int| old(flags)@.len() <= i < flags@.len() ==> !flags@[i],
        decreases index + 1 - flags.len(),
    {
        flags.push(false);
    }
}

} // verus!
