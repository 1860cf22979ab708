use vstd::prelude::*;

use crate::data::init_id::InitId;
use crate::lifecycle::init_storage::{InitStorage, Removal};
use crate::lifecycle::model::{addition_queued, StorageModel};

verus! {

/// The handle through which inits are registered and freed; it hides the
/// storage behind it and behaves exactly as that storage does.
pub struct InitContext<T> {
    pub(crate) storage: InitStorage<T>,
}

impl<T> View for InitContext<T> {
    type V = StorageModel<T>;

    closed spec fn view(&self) -> StorageModel<T> {
        self.storage@
    }
}

impl<T> InitContext<T> {
    pub open spec fn wf(&self) -> bool {
        self@.wf()
    }

    pub fn new() -> (r: Self)
        ensures
            r.wf(),
            r@ == StorageModel::<T>::empty(),
    {
        Self::new_custom(InitStorage::new())
    }

    pub fn new_custom(storage: InitStorage<T>) -> (r: Self)
        ensures
            r@ == storage@,
    {
        InitContext { storage }
    }

    pub fn get_init(&self, id: InitId) -> (r: Option<&T>)
        ensures
            match r {
                Some(init) => self@.inits.contains_key(id@) && *init == self@.inits[id@],
                None => !self@.inits.contains_key(id@),
            },
    {
        self.storage.get_init(id)
    }

    pub fn add_init(&mut self, parent_id: InitId, id: InitId, init: T) -> (queued: bool)
        requires
            old(self).wf(),
        ensures
            final(self).wf(),
            final(self)@ == old(self)@.with_addition(parent_id@, id@, init),
            queued == !addition_queued(old(self)@.additions, parent_id@, id@),
    {
        self.storage.add_init(parent_id, id, init)
    }

    pub fn free(&mut self, id: InitId) -> (newly: bool)
        requires
            old(self).wf(),
        ensures
            final(self).wf(),
            final(self)@ == old(self)@.with_removal(id@),
            newly == !old(self)@.removals.contains(id@),
    {
        self.storage.free(id)
    }

    pub fn process_pending(&mut self) -> (removal: Removal<T>)
        requires
            old(self).wf(),
        ensures
            final(self).wf(),
            final(self)@ == old(self)@.processed(),
            crate::data::init_id::id_values(removal.ids@).no_duplicates(),
            crate::data::init_id::id_values(removal.ids@).to_set() == old(self)@.removal_set(),
            removal.freed@.map_values(|f: (InitId, T)| f.0@) == crate::data::init_id::id_values(
                removal.ids@,
            ).filter(|x: u64| old(self)@.committed_inits().contains_key(x)),
            forall|k: int|
                0 <= k < removal.freed@.len() ==> old(self)@.committed_inits().contains_key(
                    #[trigger] removal.freed@[k].0@,
                ) && removal.freed@[k].1 == old(self)@.committed_inits()[removal.freed@[k].0@],
            crate::data::init_id::id_values(removal.already_present@)
                == old(self)@.rejected_additions(),
    {
        self.storage.process_pending()
    }

    pub fn finish_pending(&mut self, ids: &Vec<InitId>)
        requires
            old(self).wf(),
        ensures
            final(self).wf(),
            final(self)@ == old(self)@.without_removals(
                crate::data::init_id::id_values(ids@).to_set(),
            ),
    {
        self.storage.finish_pending(ids)
    }

    pub fn ids(&self) -> (r: Vec<InitId>)
        ensures
            crate::data::init_id::id_values(r@).no_duplicates(),
            crate::data::init_id::id_values(r@).to_set() == self@.inits.dom(),
    {
        self.storage.ids()
    }

    pub fn len(&self) -> (r: usize)
        ensures
            r == self@.inits.len(),
    {
        self.storage.len()
    }
}

impl<T> Default for InitContext<T> {
    fn default() -> (r: Self)
        ensures
            r.wf(),
            r@ == StorageModel::<T>::empty(),
    {
        Self::new()
    }
}

} // verus!
