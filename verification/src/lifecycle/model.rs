use vstd::prelude::*;

verus! {

/// What an `InitStorage` holds, as mathematical values.
#[verifier::ext_equal]
pub struct StorageModel<T> {
    /// The committed inits, by id.
    pub inits: Map<u64, T>,
    /// For each parent id, the ids registered under it, in registration order.
    pub children: Map<u64, Seq<u64>>,
    /// The queued additions `(parent id, id, init)`, in the order they were queued.
    pub additions: Seq<(u64, u64, T)>,
    /// The ids whose removal is queued.
    pub removals: Set<u64>,
}

/// The ids registered under `parent` (none if it has no entry).
pub open spec fn children_of(children: Map<u64, Seq<u64>>, parent: u64) -> Seq<u64> {
    if children.contains_key(parent) {
        children[parent]
    } else {
        Seq::empty()
    }
}

/// Whether an addition under `parent` with this `id` is queued.
pub open spec fn addition_queued<T>(additions: Seq<(u64, u64, T)>, parent: u64, id: u64) -> bool {
    exists|i: int|
        #![trigger additions[i]]
        0 <= i < additions.len() && additions[i].0 == parent && additions[i].1 == id
}

/// The inits after committing `adds` in order: an id that is already present
/// keeps its first init.
pub open spec fn commit_inits<T>(inits: Map<u64, T>, adds: Seq<(u64, u64, T)>) -> Map<u64, T>
    decreases adds.len(),
{
    if adds.len() == 0 {
        inits
    } else {
        let before = commit_inits(inits, adds.drop_last());
        let a = adds.last();
        if before.contains_key(a.1) {
            before
        } else {
            before.insert(a.1, a.2)
        }
    }
}

/// The ids of `adds` that were already committed when their turn came, in
/// order; their inits are dropped.
pub open spec fn commit_rejected<T>(inits: Map<u64, T>, adds: Seq<(u64, u64, T)>) -> Seq<u64>
    decreases adds.len(),
{
    if adds.len() == 0 {
        Seq::empty()
    } else {
        let before = commit_rejected(inits, adds.drop_last());
        let a = adds.last();
        if commit_inits(inits, adds.drop_last()).contains_key(a.1) {
            before.push(a.1)
        } else {
            before
        }
    }
}

/// The parent relation after committing `adds` in order: each id is appended
/// to its parent's list.
pub open spec fn commit_children<T>(children: Map<u64, Seq<u64>>, adds: Seq<(u64, u64, T)>) -> Map<
    u64,
    Seq<u64>,
>
    decreases adds.len(),
{
    if adds.len() == 0 {
        children
    } else {
        let before = commit_children(children, adds.drop_last());
        let a = adds.last();
        before.insert(a.0, children_of(before, a.0).push(a.1))
    }
}

/// `path` goes from each id to one of its children.
pub open spec fn is_descent(children: Map<u64, Seq<u64>>, path: Seq<u64>) -> bool {
    forall|i: int|
        0 <= i < path.len() - 1 ==> #[trigger] children_of(children, path[i]).contains(path[i + 1])
}

/// `x` is one of `roots` or lies below one of them.
pub open spec fn reaches(children: Map<u64, Seq<u64>>, roots: Set<u64>, x: u64) -> bool {
    exists|path: Seq<u64>|
        #[trigger] is_descent(children, path) && path.len() > 0 && roots.contains(path[0])
            && path.last() == x
}

/// The roots together with every id below them.
pub open spec fn cascade(children: Map<u64, Seq<u64>>, roots: Set<u64>) -> Set<u64> {
    Set::new(|x: u64| reaches(children, roots, x))
}

/// The parent relation without the `removed` ids, as parents or as children.
pub open spec fn prune(children: Map<u64, Seq<u64>>, removed: Set<u64>) -> Map<u64, Seq<u64>> {
    Map::new(
        |p: u64| children.contains_key(p) && !removed.contains(p),
        |p: u64| children[p].filter(|c: u64| !removed.contains(c)),
    )
}

/// One piece of work queued on a storage: an addition `(parent id, id, init)`
/// or the removal of an id.
pub enum QueuedWork<T> {
    Add(u64, u64, T),
    Free(u64),
}

/// The ids whose removal `work` queues.
pub open spec fn freed_by<T>(work: Seq<QueuedWork<T>>) -> Set<u64> {
    Set::new(|x: u64| exists|k: int| 0 <= k < work.len() && #[trigger] work[k] == QueuedWork::<T>::Free(x))
}

/// No two queued additions share both parent and id.
pub open spec fn additions_distinct<T>(additions: Seq<(u64, u64, T)>) -> bool {
    forall|i: int, j: int|
        #![trigger additions[i], additions[j]]
        0 <= i < j < additions.len() ==> (additions[i].0 != additions[j].0 || additions[i].1
            != additions[j].1)
}

/// Every id registered under a parent is a committed init.
pub open spec fn children_committed<T>(inits: Map<u64, T>, children: Map<u64, Seq<u64>>) -> bool {
    forall|p: u64, c: u64|
        #![trigger children_of(children, p).contains(c)]
        children_of(children, p).contains(c) ==> inits.contains_key(c)
}

/// Every child of an id in `s` is in `s`.
pub open spec fn closed_under(children: Map<u64, Seq<u64>>, s: Set<u64>) -> bool {
    forall|x: u64, y: u64|
        #![trigger s.contains(x), children_of(children, x).contains(y)]
        s.contains(x) && children_of(children, x).contains(y) ==> s.contains(y)
}

pub proof fn lemma_reaches_root(children: Map<u64, Seq<u64>>, roots: Set<u64>, x: u64)
    requires
        roots.contains(x),
    ensures
        reaches(children, roots, x),
{
    let p = seq![x];
    assert(is_descent(children, p));
}

pub proof fn lemma_reaches_step(children: Map<u64, Seq<u64>>, roots: Set<u64>, x: u64, y: u64)
    requires
        reaches(children, roots, x),
        children_of(children, x).contains(y),
    ensures
        reaches(children, roots, y),
{
    let p = choose|p: Seq<u64>|
        #[trigger] is_descent(children, p) && p.len() > 0 && roots.contains(p[0]) && p.last() == x;
    let q = p.push(y);
    assert forall|i: int| 0 <= i < q.len() - 1 implies #[trigger] children_of(
        children,
        q[i],
    ).contains(q[i + 1]) by {
        if i < p.len() - 1 {
            assert(q[i] == p[i] && q[i + 1] == p[i + 1]);
            assert(children_of(children, p[i]).contains(p[i + 1]));
        } else {
            assert(q[i] == x && q[i + 1] == y);
        }
    }
    assert(is_descent(children, q));
    assert(q[0] == p[0]);
}

proof fn lemma_descent_stays(children: Map<u64, Seq<u64>>, s: Set<u64>, p: Seq<u64>, n: int)
    requires
        is_descent(children, p),
        0 <= n < p.len(),
        s.contains(p[0]),
        closed_under(children, s),
    ensures
        s.contains(p[n]),
    decreases n,
{
    if n > 0 {
        lemma_descent_stays(children, s, p, n - 1);
        assert(children_of(children, p[n - 1]).contains(p[n - 1 + 1]));
    }
}

/// A set that holds the roots and every child of its members holds the
/// whole cascade.
pub proof fn lemma_closed_covers_cascade(children: Map<u64, Seq<u64>>, roots: Set<u64>, s: Set<u64>)
    requires
        roots.subset_of(s),
        closed_under(children, s),
    ensures
        cascade(children, roots).subset_of(s),
{
    assert forall|x: u64| cascade(children, roots).contains(x) implies s.contains(x) by {
        let p = choose|p: Seq<u64>|
            #[trigger] is_descent(children, p) && p.len() > 0 && roots.contains(p[0]) && p.last()
                == x;
        lemma_descent_stays(children, s, p, p.len() - 1);
    }
}

/// Well-formedness depends only on the inits, the parent relation and the
/// queued additions.
pub proof fn lemma_wf_frame<T>(a: StorageModel<T>, b: StorageModel<T>)
    requires
        a.wf(),
        a.inits == b.inits,
        a.children == b.children,
        a.additions == b.additions,
    ensures
        b.wf(),
{
}

impl<T> StorageModel<T> {
    pub open spec fn empty() -> Self {
        StorageModel {
            inits: Map::empty(),
            children: Map::empty(),
            additions: Seq::empty(),
            removals: Set::empty(),
        }
    }

    /// No addition is queued twice under the same parent and id, and every id
    /// registered under a parent is a committed init.
    pub open spec fn wf(self) -> bool {
        &&& additions_distinct(self.additions)
        &&& children_committed(self.inits, self.children)
    }

    /// Queues an addition, unless one with the same parent and id is queued.
    pub open spec fn with_addition(self, parent: u64, id: u64, init: T) -> Self {
        if addition_queued(self.additions, parent, id) {
            self
        } else {
            StorageModel { additions: self.additions.push((parent, id, init)), ..self }
        }
    }

    /// Queues the removal of `id`.
    pub open spec fn with_removal(self, id: u64) -> Self {
        StorageModel { removals: self.removals.insert(id), ..self }
    }

    /// The queued additions whose id is not queued for removal.
    pub open spec fn surviving_additions(self) -> Seq<(u64, u64, T)> {
        self.additions.filter(|a: (u64, u64, T)| !self.removals.contains(a.1))
    }

    pub open spec fn committed_inits(self) -> Map<u64, T> {
        commit_inits(self.inits, self.surviving_additions())
    }

    /// The ids of surviving additions that found their id already committed.
    pub open spec fn rejected_additions(self) -> Seq<u64> {
        commit_rejected(self.inits, self.surviving_additions())
    }

    pub open spec fn committed_children(self) -> Map<u64, Seq<u64>> {
        commit_children(self.children, self.surviving_additions())
    }

    /// The ids that the next `process_pending` removes: those queued for
    /// removal and everything below them once the additions are committed.
    pub open spec fn removal_set(self) -> Set<u64> {
        cascade(self.committed_children(), self.removals)
    }

    /// The state after `process_pending`.
    pub open spec fn processed(self) -> Self {
        StorageModel {
            inits: self.committed_inits().remove_keys(self.removal_set()),
            children: prune(self.committed_children(), self.removal_set()),
            additions: Seq::empty(),
            removals: Set::empty(),
        }
    }

    /// The state after queuing `work`, in order.
    pub open spec fn after_work(self, work: Seq<QueuedWork<T>>) -> Self
        decreases work.len(),
    {
        if work.len() == 0 {
            self
        } else {
            let before = self.after_work(work.drop_last());
            match work.last() {
                QueuedWork::Add(parent, id, init) => before.with_addition(parent, id, init),
                QueuedWork::Free(id) => before.with_removal(id),
            }
        }
    }

    /// Forgets the queued removals of `ids`.
    pub open spec fn without_removals(self, ids: Set<u64>) -> Self {
        StorageModel { removals: self.removals.difference(ids), ..self }
    }
}

} // verus!
