use std::collections::{HashMap, HashSet};

use vstd::prelude::*;
use vstd::std_specs::iter::IteratorSpec;

use crate::data::init_id::{id_values, InitId};
use crate::lifecycle::model::{
    addition_queued, cascade, children_committed, children_of, closed_under, commit_children,
    commit_inits, commit_rejected, lemma_closed_covers_cascade, lemma_reaches_root, lemma_reaches_step,
    lemma_wf_frame, prune, reaches, StorageModel,
};

verus! {

broadcast use vstd::std_specs::hash::group_hash_axioms;

/// The key under which an addition is queued: the parent it goes under and its own id.
#[derive(Debug, Clone, Copy, PartialEq, Eq, Hash, Structural)]
pub struct PendingAdditionKey {
    parent_id: InitId,
    id: InitId,
}

struct PendingAddition<T> {
    key: PendingAdditionKey,
    init: T,
}

/// What `process_pending` did beyond its effect on the storage: every id it
/// removed, the inits among them that were committed (each with its id), and
/// the ids of additions it dropped because the id was already committed.
pub struct Removal<T> {
    pub ids: Vec<InitId>,
    pub freed: Vec<(InitId, T)>,
    pub already_present: Vec<InitId>,
}

/// The inits, the parent relation between their ids, and the queued
/// additions and removals.
pub struct InitStorage<T> {
    init_collection: HashMap<u64, T>,
    ids_relationship: HashMap<u64, Vec<u64>>,
    pending_addition: Vec<PendingAddition<T>>,
    pending_removal: HashSet<u64>,
}

spec fn addition_view<T>(a: PendingAddition<T>) -> (u64, u64, T) {
    (a.key.parent_id@, a.key.id@, a.init)
}

impl<T> View for InitStorage<T> {
    type V = StorageModel<T>;

    closed spec fn view(&self) -> StorageModel<T> {
        StorageModel {
            inits: self.init_collection@,
            children: self.ids_relationship@.map_values(|v: Vec<u64>| v@),
            additions: self.pending_addition@.map_values(|a: PendingAddition<T>| addition_view(a)),
            removals: self.pending_removal@,
        }
    }
}

impl<T> InitStorage<T> {
    pub open spec fn wf(&self) -> bool {
        self@.wf()
    }

    pub fn new() -> (r: Self)
        ensures
            r.wf(),
            r@ == StorageModel::<T>::empty(),
    {
        let r = InitStorage {
            init_collection: HashMap::new(),
            ids_relationship: HashMap::new(),
            pending_addition: Vec::new(),
            pending_removal: HashSet::new(),
        };
        assert(r@.children =~= Map::<u64, Seq<u64>>::empty());
        assert(r@.additions =~= Seq::<(u64, u64, T)>::empty());
        r
    }

    /// Queues `init` to be registered under `parent_id` with `id` at the next
    /// `process_pending`. Returns false, and changes nothing, when an addition
    /// with the same parent and id is already queued.
    pub fn add_init(&mut self, parent_id: InitId, id: InitId, init: T) -> (queued: bool)
        requires
            old(self).wf(),
        ensures
            final(self).wf(),
            final(self)@ == old(self)@.with_addition(parent_id@, id@, init),
            queued == !addition_queued(old(self)@.additions, parent_id@, id@),
    {
        let ghost adds = self@.additions;
        let mut i: usize = 0;
        while i < self.pending_addition.len()
            invariant
                0 <= i <= self.pending_addition@.len(),
                self@ == old(self)@,
                old(self).wf(),
                adds == self@.additions,
                forall|k: int|
                    #![trigger adds[k]]
                    0 <= k < i ==> !(adds[k].0 == parent_id@ && adds[k].1 == id@),
            decreases self.pending_addition@.len() - i,
        {
            let key = &self.pending_addition[i].key;
            assert(adds[i as int] == addition_view(self.pending_addition@[i as int]));
            if key.parent_id.get_id() == parent_id.get_id() && key.id.get_id() == id.get_id() {
                return false;
            }
            i += 1;
        }
        self.pending_addition.push(PendingAddition { key: PendingAdditionKey { parent_id, id }, init });
        assert(self@.additions =~= adds.push((parent_id@, id@, init)));
        proof {
            let new_adds = self@.additions;
            assert forall|i: int, j: int|
                #![trigger new_adds[i], new_adds[j]]
                0 <= i < j < new_adds.len() implies (new_adds[i].0 != new_adds[j].0
                    || new_adds[i].1 != new_adds[j].1) by {
                assert(new_adds[i] == adds[i]);
                if j < adds.len() {
                    assert(new_adds[j] == adds[j]);
                }
            }
            assert(self@.inits == old(self)@.inits);
            assert(self@.children == old(self)@.children);
        }
        true
    }

    /// Queues the removal of `id` for the next `process_pending`. Returns false
    /// when its removal was already queued.
    pub fn free(&mut self, id: InitId) -> (newly: bool)
        requires
            old(self).wf(),
        ensures
            final(self).wf(),
            final(self)@ == old(self)@.with_removal(id@),
            newly == !old(self)@.removals.contains(id@),
    {
        let newly = self.pending_removal.insert(id.get_id());
        proof {
            lemma_wf_frame(old(self)@, self@);
        }
        newly
    }

    /// The committed init with this id, if any.
    pub fn get_init(&self, id: InitId) -> (r: Option<&T>)
        ensures
            match r {
                Some(init) => self@.inits.contains_key(id@) && *init == self@.inits[id@],
                None => !self@.inits.contains_key(id@),
            },
    {
        self.init_collection.get(&id.get_id())
    }

    /// The number of committed inits.
    pub fn len(&self) -> (r: usize)
        ensures
            r == self@.inits.len(),
    {
        self.init_collection.len()
    }

    /// The ids of the committed inits, each once, in no particular order.
    pub fn ids(&self) -> (r: Vec<InitId>)
        ensures
            id_values(r@).no_duplicates(),
            id_values(r@).to_set() == self@.inits.dom(),
    {
        let mut r: Vec<InitId> = Vec::new();
        let ghost keys = vstd::std_specs::hash::spec_keys_iter(&self.init_collection).remaining();
        for k in it: self.init_collection.keys()
            invariant
                it.seq() == keys,
                r@.len() == it.index(),
                forall|j: int| 0 <= j < it.index() ==> #[trigger] r@[j]@ == *keys[j],
        {
            r.push(InitId::new(*k));
        }
        assert(r@.len() == keys.len());
        assert(id_values(r@) =~= keys.unref());
        r
    }

    /// Runs the queued work. First the queued additions are committed in queue
    /// order, except those whose id is queued for removal: an id that is
    /// already committed keeps its init, and each id is appended to its
    /// parent's list. Then the ids queued for removal and every id below them
    /// are removed, from the collection and from the parent relation, and both
    /// queues are emptied.
    ///
    /// Returns the removed ids and, among them, the inits that were committed,
    /// in the same order (the caller runs their free callbacks and then calls
    /// `finish_pending` with the ids), and the ids of the additions dropped
    /// because their id was already committed.
    pub fn process_pending(&mut self) -> (removal: Removal<T>)
        requires
            old(self).wf(),
        ensures
            final(self).wf(),
            final(self)@ == old(self)@.processed(),
            id_values(removal.ids@).no_duplicates(),
            id_values(removal.ids@).to_set() == old(self)@.removal_set(),
            removal.freed@.map_values(|f: (InitId, T)| f.0@) == id_values(removal.ids@).filter(|x: u64| old(self)@.committed_inits().contains_key(x)),
            forall|k: int|
                0 <= k < removal.freed@.len() ==> old(self)@.committed_inits().contains_key(
                    #[trigger] removal.freed@[k].0@,
                ) && removal.freed@[k].1 == old(self)@.committed_inits()[removal.freed@[k].0@],
            id_values(removal.already_present@) == old(self)@.rejected_additions(),
    {
        let rejected = self.commit_additions();
        let ghost committed = self@;
        let (removed, order) = self.collect_cascade();
        let freed = self.take_inits(&order);
        self.prune_children(&removed, &order);
        self.pending_removal.clear();
        let mut ids: Vec<InitId> = Vec::new();
        let mut i: usize = 0;
        while i < order.len()
            invariant
                0 <= i <= order@.len(),
                id_values(ids@) == order@.take(i as int),
            decreases order@.len() - i,
        {
            ids.push(InitId::new(order[i]));
            assert(order@.take(i + 1) =~= order@.take(i as int).push(order@[i as int]));
            assert(id_values(ids@) =~= order@.take(i + 1));
            i += 1;
        }
        assert(order@.take(order@.len() as int) =~= order@);
        let mut already_present: Vec<InitId> = Vec::new();
        let mut i: usize = 0;
        while i < rejected.len()
            invariant
                0 <= i <= rejected@.len(),
                id_values(already_present@) == rejected@.take(i as int),
            decreases rejected@.len() - i,
        {
            already_present.push(InitId::new(rejected[i]));
            assert(rejected@.take(i + 1) =~= rejected@.take(i as int).push(rejected@[i as int]));
            assert(id_values(already_present@) =~= rejected@.take(i + 1));
            i += 1;
        }
        assert(rejected@.take(rejected@.len() as int) =~= rejected@);
        proof {
            let gone = order@.to_set();
            let pruned = self@.children;
            let inits = self@.inits;
            assert forall|p: u64, x: u64| #[trigger] children_of(pruned, p).contains(x)
                implies inits.contains_key(x) by {
                let list = committed.children[p];
                let keep = |y: u64| !gone.contains(y);
                assert(pruned[p] == list.filter(keep));
                list.lemma_filter_contains_rev(keep, x);
                assert(children_of(committed.children, p).contains(x));
            }
            assert(self@.additions =~= Seq::<(u64, u64, T)>::empty());
            assert(self@.removals =~= Set::<u64>::empty());
            assert(self@ =~= old(self)@.processed());
        }
        Removal { ids, freed, already_present }
    }

    /// Forgets the queued removals of `ids`. After the free callbacks of a
    /// `process_pending` run, this drops the removals they queued for ids that
    /// were already removed, while those of other ids stay queued.
    pub fn finish_pending(&mut self, ids: &Vec<InitId>)
        requires
            old(self).wf(),
        ensures
            final(self).wf(),
            final(self)@ == old(self)@.without_removals(id_values(ids@).to_set()),
    {
        let ghost r0 = old(self)@.removals;
        let mut i: usize = 0;
        proof {
            let s = id_values(ids@);
            assert(s.take(0) =~= Seq::<u64>::empty());
            assert(self@.removals =~= r0.difference(s.take(0).to_set()));
            assert(self@ =~= old(self)@.without_removals(s.take(0).to_set()));
        }
        while i < ids.len()
            invariant
                0 <= i <= ids@.len(),
                old(self).wf(),
                r0 == old(self)@.removals,
                self@ == old(self)@.without_removals(id_values(ids@).take(i as int).to_set()),
            decreases ids@.len() - i,
        {
            let ghost before = self@;
            let x = ids[i].get_id();
            self.pending_removal.remove(&x);
            proof {
                let s = id_values(ids@);
                assert(s.take(i + 1) =~= s.take(i as int).push(x));
                s.take(i as int).lemma_push_to_set_commute(x);
                assert(self@.removals =~= before.removals.remove(x));
                assert(before.removals == r0.difference(s.take(i as int).to_set()));
                assert(s.take(i + 1).to_set() == s.take(i as int).to_set().insert(x));
                assert(self@.removals =~= r0.difference(s.take(i + 1).to_set()));
                assert(self@ =~= old(self)@.without_removals(s.take(i + 1).to_set()));
            }
            i += 1;
        }
        proof {
            let s = id_values(ids@);
            assert(s.take(ids@.len() as int) =~= s);
            lemma_wf_frame(old(self)@, self@);
        }
    }

    /// Commits, in queue order, the queued additions whose id is not queued
    /// for removal, and empties the queue.
    fn commit_additions(&mut self) -> (rejected: Vec<u64>)
        requires
            old(self).wf(),
        ensures
            rejected@ == old(self)@.rejected_additions(),
            final(self)@.inits == old(self)@.committed_inits(),
            final(self)@.children == old(self)@.committed_children(),
            final(self)@.additions == Seq::<(u64, u64, T)>::empty(),
            final(self)@.removals == old(self)@.removals,
            children_committed(final(self)@.inits, final(self)@.children),
    {
        let mut adds: Vec<PendingAddition<T>> = Vec::new();
        std::mem::swap(&mut adds, &mut self.pending_addition);
        let ghost all = old(self)@.additions;
        let ghost removals = old(self)@.removals;
        let ghost keep = |a: (u64, u64, T)| !removals.contains(a.1);
        let ghost items = adds@;
        assert(all =~= items.map_values(|a: PendingAddition<T>| addition_view(a)));
        assert(self@.additions =~= Seq::<(u64, u64, T)>::empty());
        assert(all.take(0) =~= Seq::<(u64, u64, T)>::empty());
        let mut rejected: Vec<u64> = Vec::new();
        for a in it: adds.into_iter()
            invariant
                it.seq() == items,
                items.len() == all.len(),
                forall|k: int| 0 <= k < items.len() ==> #[trigger] addition_view(items[k]) == all[k],
                keep == (|a: (u64, u64, T)| !removals.contains(a.1)),
                self@.removals == removals,
                self@.additions == Seq::<(u64, u64, T)>::empty(),
                self@.inits == commit_inits(old(self)@.inits, all.take(it.index() as int).filter(keep)),
                rejected@ == commit_rejected(old(self)@.inits, all.take(it.index() as int).filter(keep)),
                self@.children == commit_children(old(self)@.children, all.take(it.index() as int).filter(keep)),
                children_committed(self@.inits, self@.children),
        {
            let ghost k = it.index() as int;
            let ghost done = all.take(k).filter(keep);
            let ghost entry = all[k];
            assert(addition_view(items[k]) == entry);
            assert(all.take(k + 1) =~= all.take(k).push(entry));
            proof {
                all.take(k).lemma_filter_push(entry, keep);
            }
            let PendingAddition { key, init } = a;
            let parent = key.parent_id.get_id();
            let id = key.id.get_id();
            if !self.pending_removal.contains(&id) {
                let ghost inits0 = self@.inits;
                let ghost children0 = self@.children;
                assert(done.push(entry).drop_last() =~= done);
                if !self.init_collection.contains_key(&id) {
                    self.init_collection.insert(id, init);
                } else {
                    rejected.push(id);
                }
                let mut kids = match self.ids_relationship.remove(&parent) {
                    Some(v) => v,
                    None => Vec::new(),
                };
                assert(kids@ == children_of(children0, parent));
                kids.push(id);
                self.ids_relationship.insert(parent, kids);
                assert(self@.children =~= children0.insert(parent, children_of(children0, parent).push(id)));
                assert(self@.inits.contains_key(id));
                assert forall|p: u64, x: u64| #[trigger] children_of(self@.children, p).contains(x)
                    implies self@.inits.contains_key(x) by {
                    if p == parent {
                        if x != id {
                            let j = choose|j: int| 0 <= j < children_of(self@.children, p).len()
                                && children_of(self@.children, p)[j] == x;
                            assert(children_of(children0, parent)[j] == x);
                            assert(children_of(children0, parent).contains(x));
                        }
                    } else {
                        assert(children_of(children0, p) == children_of(self@.children, p));
                    }
                }
            }
        }
        assert(all.take(all.len() as int) =~= all);
        rejected
    }

    /// Takes the inits with the given ids out of the collection, returning
    /// those that were there, in the order of `ids`.
    fn take_inits(&mut self, ids: &Vec<u64>) -> (freed: Vec<(InitId, T)>)
        requires
            ids@.no_duplicates(),
        ensures
            final(self)@.inits == old(self)@.inits.remove_keys(ids@.to_set()),
            final(self)@.children == old(self)@.children,
            final(self)@.additions == old(self)@.additions,
            final(self)@.removals == old(self)@.removals,
            freed@.map_values(|f: (InitId, T)| f.0@) == ids@.filter(
                |x: u64| old(self)@.inits.contains_key(x),
            ),
            forall|k: int|
                0 <= k < freed@.len() ==> old(self)@.inits.contains_key(#[trigger] freed@[k].0@)
                    && freed@[k].1 == old(self)@.inits[freed@[k].0@],
    {
        let ghost inits0 = old(self)@.inits;
        let ghost present = |x: u64| inits0.contains_key(x);
        let mut freed: Vec<(InitId, T)> = Vec::new();
        let mut i: usize = 0;
        assert(ids@.take(0) =~= Seq::<u64>::empty());
        assert(inits0.remove_keys(ids@.take(0).to_set()) =~= inits0);
        while i < ids.len()
            invariant
                0 <= i <= ids@.len(),
                inits0 == old(self)@.inits,
                present == (|x: u64| inits0.contains_key(x)),
                self@.inits == inits0.remove_keys(ids@.take(i as int).to_set()),
                self@.children == old(self)@.children,
                self@.additions == old(self)@.additions,
                self@.removals == old(self)@.removals,
                freed@.map_values(|f: (InitId, T)| f.0@) == ids@.take(i as int).filter(present),
                forall|k: int|
                    0 <= k < freed@.len() ==> inits0.contains_key(#[trigger] freed@[k].0@)
                        && freed@[k].1 == inits0[freed@[k].0@],
                ids@.no_duplicates(),
            decreases ids@.len() - i,
        {
            let x = ids[i];
            let ghost before = freed@;
            let ghost inits1 = self@.inits;
            assert(!ids@.take(i as int).to_set().contains(x)) by {
                if ids@.take(i as int).contains(x) {
                    let w = choose|w: int| 0 <= w < i && #[trigger] ids@.take(i as int)[w] == x;
                    assert(ids@[w] == ids@[i as int]);
                }
            }
            assert(ids@.take(i + 1) =~= ids@.take(i as int).push(x));
            proof {
                ids@.take(i as int).lemma_filter_push(x, present);
                ids@.take(i as int).lemma_push_to_set_commute(x);
            }
            match self.init_collection.remove(&x) {
                Some(init) => {
                    assert(inits1.contains_key(x));
                    assert(present(x));
                    freed.push((InitId::new(x), init));
                    assert(freed@.map_values(|f: (InitId, T)| f.0@) =~= before.map_values(
                        |f: (InitId, T)| f.0@).push(x));
                },
                None => {
                    assert(!inits1.contains_key(x));
                    assert(!present(x));
                    assert(freed@ == before);
                },
            }
            assert(self@.inits =~= inits0.remove_keys(ids@.take(i + 1).to_set()));
            i += 1;
        }
        assert(ids@.take(ids@.len() as int) =~= ids@);
        freed
    }

    /// Removes the `removed` ids from the parent relation: their own entries,
    /// and their places in every other list.
    fn prune_children(&mut self, removed: &HashSet<u64>, ids: &Vec<u64>)
        requires
            ids@.to_set() == removed@,
        ensures
            final(self)@.children == prune(old(self)@.children, removed@),
            final(self)@.inits == old(self)@.inits,
            final(self)@.additions == old(self)@.additions,
            final(self)@.removals == old(self)@.removals,
    {
        let ghost c0 = old(self)@.children;
        let ghost gone = removed@;
        let mut i: usize = 0;
        while i < ids.len()
            invariant
                0 <= i <= ids@.len(),
                ids@.to_set() == gone,
                gone == removed@,
                self@.children == c0.remove_keys(ids@.take(i as int).to_set()),
                self@.inits == old(self)@.inits,
                self@.additions == old(self)@.additions,
                self@.removals == old(self)@.removals,
            decreases ids@.len() - i,
        {
            let x = ids[i];
            proof {
                assert(ids@.take(i + 1) =~= ids@.take(i as int).push(x));
                ids@.take(i as int).lemma_push_to_set_commute(x);
            }
            let ghost cb = self@.children;
            self.ids_relationship.remove(&x);
            assert(self@.children =~= cb.remove(x));
            assert(self@.children =~= c0.remove_keys(ids@.take(i + 1).to_set()));
            i += 1;
        }
        assert(ids@.take(ids@.len() as int) =~= ids@);
        let ghost c1 = self@.children;
        assert(c1 =~= c0.remove_keys(gone));
        let mut parents: Vec<u64> = Vec::new();
        let ghost keys = vstd::std_specs::hash::spec_keys_iter(&self.ids_relationship).remaining();
        for k in it: self.ids_relationship.keys()
            invariant
                it.seq() == keys,
                parents@.len() == it.index(),
                forall|j: int| 0 <= j < it.index() ==> #[trigger] parents@[j] == *keys[j],
        {
            parents.push(*k);
        }
        assert(parents@ =~= keys.unref());
        assert(parents@.to_set() == c1.dom());
        let ghost keep = |y: u64| !gone.contains(y);
        let mut j: usize = 0;
        while j < parents.len()
            invariant
                0 <= j <= parents@.len(),
                parents@.to_set() == c1.dom(),
                parents@.no_duplicates(),
                gone == removed@,
                keep == (|y: u64| !gone.contains(y)),
                self@.children.dom() == c1.dom(),
                forall|p: u64| #[trigger] self@.children.contains_key(p) ==> self@.children[p] == (
                    if parents@.take(j as int).contains(p) { c1[p].filter(keep) } else { c1[p] }),
                self@.inits == old(self)@.inits,
                self@.additions == old(self)@.additions,
                self@.removals == old(self)@.removals,
            decreases parents@.len() - j,
        {
            let p = parents[j];
            assert(parents@.to_set().contains(p));
            assert(!parents@.take(j as int).contains(p));
            let list = self.ids_relationship.remove(&p).unwrap();
            assert(list@ == c1[p]);
            let mut kept: Vec<u64> = Vec::new();
            let mut n: usize = 0;
            assert(list@.take(0) =~= Seq::<u64>::empty());
            while n < list.len()
                invariant
                    0 <= n <= list@.len(),
                    keep == (|y: u64| !gone.contains(y)),
                    gone == removed@,
                    kept@ == list@.take(n as int).filter(keep),
                decreases list@.len() - n,
            {
                let y = list[n];
                proof {
                    assert(list@.take(n + 1) =~= list@.take(n as int).push(y));
                    list@.take(n as int).lemma_filter_push(y, keep);
                }
                if !removed.contains(&y) {
                    kept.push(y);
                }
                n += 1;
            }
            assert(list@.take(list@.len() as int) =~= list@);
            self.ids_relationship.insert(p, kept);
            proof {
                assert(parents@.take(j + 1) =~= parents@.take(j as int).push(p));
                assert forall|q: u64| #[trigger] self@.children.contains_key(q) implies self@.children[q] == (
                    if parents@.take(j + 1).contains(q) { c1[q].filter(keep) } else { c1[q] }) by {
                    if q != p {
                        assert(parents@.take(j + 1).contains(q) == parents@.take(j as int).contains(q)) by {
                            if parents@.take(j + 1).contains(q) {
                                let pre = parents@.take(j + 1);
                                let w = choose|w: int| 0 <= w < pre.len() && #[trigger] pre[w] == q;
                                assert(parents@.take(j as int)[w] == q);
                            }
                        }
                    } else {
                        assert(parents@.take(j + 1)[j as int] == p);
                    }
                }
                assert(self@.children.dom() =~= c1.dom());
            }
            j += 1;
        }
        proof {
            assert(parents@.take(parents@.len() as int) =~= parents@);
            assert forall|p: u64| #[trigger] self@.children.contains_key(p) implies parents@.contains(p) by {
                assert(parents@.to_set().contains(p));
            }
            assert(self@.children =~= prune(c0, gone));
        }
    }

    /// The ids queued for removal together with every id below them, as a set
    /// and as a sequence without repeats.
    fn collect_cascade(&self) -> (r: (HashSet<u64>, Vec<u64>))
        requires
            children_committed(self@.inits, self@.children),
        ensures
            r.0@ == cascade(self@.children, self@.removals),
            r.1@.to_set() == r.0@,
            r.1@.no_duplicates(),
    {
        let ghost c = self@.children;
        let ghost roots = self@.removals;
        let mut to_remove: HashSet<u64> = HashSet::new();
        let mut order: Vec<u64> = Vec::new();
        let mut frontier: Vec<u64> = Vec::new();
        let ghost seeds = vstd::std_specs::hash::spec_hash_keys_iter(&self.pending_removal).remaining();
        assert(seeds.unref().to_set() == roots);
        for r in it: self.pending_removal.iter()
            invariant
                it.seq() == seeds,
                seeds.unref().to_set() == roots,
                to_remove@ == order@.to_set(),
                order@.no_duplicates(),
                frontier@ == order@,
                to_remove@.subset_of(roots),
                forall|j: int| 0 <= j < it.index() ==> to_remove@.contains(#[trigger] *seeds[j]),
        {
            let ghost i = it.index();
            let ghost o0 = order@;
            assert(seeds.unref()[i] == *seeds[i]);
            if to_remove.insert(*r) {
                order.push(*r);
                frontier.push(*r);
                proof {
                    o0.lemma_push_to_set_commute(*r);
                }
            }
        }
        assert forall|x: u64| roots.contains(x) implies to_remove@.contains(x) by {
            assert(seeds.unref().contains(x));
            let j = choose|j: int| 0 <= j < seeds.unref().len() && seeds.unref()[j] == x;
            assert(*seeds[j] == x);
        }
        assert(to_remove@ =~= roots);
        proof {
            vstd::seq_lib::seq_to_set_is_finite(order@);
        }
        let ghost universe = roots.union(self@.inits.dom());
        assert(universe.finite());
        assert forall|x: u64| to_remove@.contains(x) implies reaches(c, roots, x) by {
            lemma_reaches_root(c, roots, x);
        }
        while frontier.len() > 0
            invariant
                c == self@.children,
                roots == self@.removals,
                children_committed(self@.inits, c),
                universe == roots.union(self@.inits.dom()),
                universe.finite(),
                to_remove@ == order@.to_set(),
                order@.no_duplicates(),
                frontier@.no_duplicates(),
                forall|x: u64| #[trigger] frontier@.contains(x) ==> to_remove@.contains(x),
                roots.subset_of(to_remove@),
                to_remove@.subset_of(universe),
                forall|x: u64| #[trigger] to_remove@.contains(x) ==> reaches(c, roots, x),
                forall|x: u64, y: u64|
                    #![trigger to_remove@.contains(x), children_of(c, x).contains(y)]
                    to_remove@.contains(x) && !frontier@.contains(x) && children_of(c, x).contains(y)
                        ==> to_remove@.contains(y),
            decreases universe.len() - to_remove@.len(), frontier@.len(),
        {
            proof {
                vstd::set_lib::lemma_len_subset(to_remove@, universe);
            }
            let ghost before = to_remove@;
            let ghost frontier_before = frontier@;
            let id = frontier.pop().unwrap();
            assert(frontier_before.contains(id));
            assert(!frontier@.contains(id)) by {
                if frontier@.contains(id) {
                    let k = choose|k: int| 0 <= k < frontier@.len() && frontier@[k] == id;
                    assert(frontier_before[k] == frontier_before[frontier_before.len() - 1]);
                }
            }
            assert forall|x: u64| #[trigger] frontier@.contains(x) implies frontier_before.contains(x) by {
                let k = choose|k: int| 0 <= k < frontier@.len() && frontier@[k] == x;
                assert(frontier_before[k] == x);
            }
            assert forall|x: u64| #[trigger] frontier_before.contains(x) && x != id implies frontier@.contains(x) by {
                let k = choose|k: int| 0 <= k < frontier_before.len() && frontier_before[k] == x;
                assert(frontier@[k] == x);
            }
            let ghost frontier_mid = frontier@;
            match self.ids_relationship.get(&id) {
                Some(kids) => {
                    assert(kids@ == children_of(c, id));
                    let mut j: usize = 0;
                    while j < kids.len()
                        invariant
                            0 <= j <= kids@.len(),
                            kids@ == children_of(c, id),
                            c == self@.children,
                            roots == self@.removals,
                            children_committed(self@.inits, c),
                            universe == roots.union(self@.inits.dom()),
                            universe.finite(),
                            reaches(c, roots, id),
                            to_remove@.contains(id),
                            !frontier@.contains(id),
                            before.subset_of(to_remove@),
                            before.finite(),
                            to_remove@.finite(),
                            to_remove@ == order@.to_set(),
                            order@.no_duplicates(),
                            frontier@.no_duplicates(),
                            frontier@.len() - frontier_mid.len() == to_remove@.len() - before.len(),
                            forall|x: u64| #[trigger] frontier@.contains(x) ==> to_remove@.contains(x),
                            forall|x: u64| #[trigger] frontier_mid.contains(x) ==> frontier@.contains(x),
                            roots.subset_of(to_remove@),
                            to_remove@.subset_of(universe),
                            forall|x: u64| #[trigger] to_remove@.contains(x) ==> reaches(c, roots, x),
                            forall|k: int| 0 <= k < j ==> to_remove@.contains(#[trigger] kids@[k]),
                            forall|x: u64, y: u64|
                                #![trigger to_remove@.contains(x), children_of(c, x).contains(y)]
                                to_remove@.contains(x) && !frontier@.contains(x) && x != id
                                    && children_of(c, x).contains(y) ==> to_remove@.contains(y),
                        decreases kids@.len() - j,
                    {
                        let child = kids[j];
                        assert(children_of(c, id).contains(child));
                        let ghost t0 = to_remove@;
                        let ghost f0 = frontier@;
                        let ghost o0 = order@;
                        if to_remove.insert(child) {
                            order.push(child);
                            frontier.push(child);
                            proof {
                                lemma_reaches_step(c, roots, id, child);
                                o0.lemma_push_to_set_commute(child);
                                assert(frontier@[frontier@.len() - 1] == child);
                                assert(frontier@ == f0.push(child));
                                assert forall|x: u64| #[trigger] frontier@.contains(x) implies to_remove@.contains(x) by {
                                    if x != child {
                                        let k = choose|k: int| 0 <= k < frontier@.len() && frontier@[k] == x;
                                        assert(f0[k] == x);
                                        assert(f0.contains(x));
                                    }
                                }
                                assert forall|x: u64| #[trigger] frontier_mid.contains(x) implies frontier@.contains(x) by {
                                    assert(f0.contains(x));
                                    let k = choose|k: int| 0 <= k < f0.len() && f0[k] == x;
                                    assert(frontier@[k] == x);
                                }
                                assert(!f0.contains(child));
                                assert(frontier@.no_duplicates());
                                assert(t0.len() + 1 == to_remove@.len());
                                assert(!frontier@.contains(id)) by {
                                    if frontier@.contains(id) {
                                        let k = choose|k: int| 0 <= k < frontier@.len() && frontier@[k] == id;
                                        if k < f0.len() {
                                            assert(f0[k] == id);
                                        }
                                    }
                                }
                                assert forall|x: u64, y: u64|
                                    to_remove@.contains(x) && !frontier@.contains(x) && x != id
                                        && #[trigger] children_of(c, x).contains(y) implies to_remove@.contains(y) by {
                                    if x == child {
                                        assert(frontier@[frontier@.len() - 1] == child);
                                    } else {
                                        assert(t0.contains(x));
                                        if f0.contains(x) {
                                            let k = choose|k: int| 0 <= k < f0.len() && f0[k] == x;
                                            assert(frontier@[k] == x);
                                        }
                                    }
                                }
                            }
                        }
                        j += 1;
                    }
                    proof {
                        assert forall|y: u64| children_of(c, id).contains(y) implies to_remove@.contains(y) by {
                            let k = choose|k: int| 0 <= k < kids@.len() && kids@[k] == y;
                        }
                    }
                },
                None => {
                    assert(children_of(c, id) =~= Seq::<u64>::empty());
                },
            }
            proof {
                vstd::set_lib::lemma_len_subset(before, to_remove@);
                vstd::set_lib::lemma_len_subset(to_remove@, universe);
            }
        }
        proof {
            assert(closed_under(c, to_remove@));
            lemma_closed_covers_cascade(c, roots, to_remove@);
            assert(to_remove@ =~= cascade(c, roots));
        }
        (to_remove, order)
    }
}

impl<T> Default for InitStorage<T> {
    fn default() -> (r: Self)
        ensures
            r.wf(),
            r@ == StorageModel::<T>::empty(),
    {
        Self::new()
    }
}

} // verus!
