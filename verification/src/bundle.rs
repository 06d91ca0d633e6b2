//! Bundles: groups of component types that are inserted or removed
//! together.

use crate::component::ComponentId;
use vstd::prelude::*;

verus! {

/// Identity of a statically known group of component types that are inserted
/// or removed together.
#[derive(Debug, Copy, Clone, PartialEq, Eq, Hash, Structural)]
pub struct BundleId(pub usize);

impl BundleId {
    pub fn new(index: usize) -> (id: Self)
        ensures
            id.0 == index,
    {
        BundleId(index)
    }

    pub fn index(self) -> (i: usize)
        ensures
            i == self.0,
    {
        self.0
    }
}

/// What the registry knows about one bundle: its id and its components, in
/// the order in which their values are handed over.
pub struct BundleInfo {
    id: BundleId,
    component_ids: Vec<ComponentId>,
}

impl BundleInfo {
    pub closed spec fn spec_id(&self) -> BundleId {
        self.id
    }

    /// The components of the bundle.
    pub closed spec fn view(&self) -> Seq<ComponentId> {
        self.component_ids@
    }

    pub fn id(&self) -> (id: BundleId)
        ensures
            id == self.spec_id(),
    {
        self.id
    }

    pub fn components(&self) -> (ids: &Vec<ComponentId>)
        ensures
            ids@ == self@,
    {
        &self.component_ids
    }
}

/// Whether `ids` names a component twice.
pub fn has_duplicates(ids: &Vec<ComponentId>) -> (b: bool)
    ensures
        b == !ids@.no_duplicates(),
{
    let mut i: usize = 0;
    while i < ids.len()
        invariant
            i <= ids@.len(),
            forall|p: int, q: int| 0 <= p < q < ids@.len() && q < i ==> ids@[p] != ids@[q],
        decreases ids@.len() - i,
    {
        let mut j: usize = 0;
        while j < i
            invariant
                j <= i < ids@.len(),
                forall|p: int| 0 <= p < j ==> ids@[p] != ids@[i as int],
            decreases i - j,
        {
            if ids[j] == ids[i] {
                return true;
            }
            j += 1;
        }
        i += 1;
    }
    assert forall|p: int, q: int| 0 <= p < ids@.len() && 0 <= q < ids@.len() && p != q implies ids@[p]
        != ids@[q] by {
        if p < q {
        } else {
            assert(ids@[q] != ids@[p]);
        }
    }
    false
}

/// Registry of bundles. Ids are handed out in registration order and never
/// change afterwards.
pub struct Bundles {
    infos: Vec<BundleInfo>,
}

impl Bundles {
    /// The components of each bundle, indexed by bundle id.
    pub closed spec fn view(&self) -> Seq<Seq<ComponentId>> {
        Seq::new(self.infos@.len(), |i: int| self.infos@[i]@)
    }

    /// Every bundle sits at the index its id names, and no bundle names a
    /// component twice.
    pub closed spec fn wf(&self) -> bool {
        forall|i: int|
            0 <= i < self.infos@.len() ==> (#[trigger] self.infos@[i]).spec_id().0 == i
                && self.infos@[i]@.no_duplicates()
    }

    /// What well-formedness says of the view.
    pub proof fn lemma_wf(&self)
        requires
            self.wf(),
        ensures
            forall|i: int| 0 <= i < self@.len() ==> (#[trigger] self@[i]).no_duplicates(),
    {
        assert forall|i: int| 0 <= i < self@.len() implies (#[trigger] self@[i]).no_duplicates() by {
            assert(self.infos@[i]@.no_duplicates());
        }
    }

    pub fn new() -> (b: Self)
        ensures
            b.wf(),
            b@ == Seq::<Seq<ComponentId>>::empty(),
    {
        let b = Bundles { infos: Vec::new() };
        assert(b@ =~= Seq::<Seq<ComponentId>>::empty());
        b
    }

    pub fn len(&self) -> (n: usize)
        ensures
            n == self@.len(),
    {
        self.infos.len()
    }

    /// Registers a bundle of the given components, which must all be
    /// different, and returns its id, the number of bundles registered
    /// before it.
    pub fn init_info(&mut self, component_ids: Vec<ComponentId>) -> (id: BundleId)
        requires
            old(self).wf(),
            component_ids@.no_duplicates(),
        ensures
            final(self).wf(),
            id.0 == old(self)@.len(),
            final(self)@ == old(self)@.push(component_ids@),
    {
        let id = BundleId(self.infos.len());
        self.infos.push(BundleInfo { id, component_ids });
        assert(self@ =~= old(self)@.push(component_ids@));
        id
    }

    /// The info registered for `id`, if any.
    pub fn get(&self, id: BundleId) -> (info: Option<&BundleInfo>)
        requires
            self.wf(),
        ensures
            match info {
                Some(info) => id.0 < self@.len() && info@ == self@[id.0 as int] && info.spec_id()
                    == id && info@.no_duplicates(),
                None => id.0 >= self@.len(),
            },
    {
        if id.0 < self.infos.len() {
            Some(&self.infos[id.0])
        } else {
            None
        }
    }
}

} // verus!
