use vstd::prelude::*;

use crate::lifecycle::model::{
    freed_by, QueuedWork, cascade, children_of, commit_children, commit_inits, is_descent, prune,
    reaches, StorageModel,
};

verus! {

proof fn lemma_filter_keeps_all<A>(s: Seq<A>, keep: spec_fn(A) -> bool)
    requires
        forall|i: int| 0 <= i < s.len() ==> keep(#[trigger] s[i]),
    ensures
        s.filter(keep) == s,
    decreases s.len(),
{
    if s.len() > 0 {
        lemma_filter_keeps_all(s.drop_last(), keep);
        s.drop_last().lemma_filter_push(s.last(), keep);
        assert(s.drop_last().push(s.last()) =~= s);
    }
}

proof fn lemma_cascade_of_nothing(children: Map<u64, Seq<u64>>)
    ensures
        cascade(children, Set::empty()) == Set::<u64>::empty(),
{
    assert(cascade(children, Set::empty()) =~= Set::<u64>::empty());
}

/// Committing additions keeps every committed init, and commits the init of
/// an id that was neither committed nor queued before.
proof fn lemma_commit_inits<T>(inits: Map<u64, T>, adds: Seq<(u64, u64, T)>, id: u64)
    ensures
        inits.contains_key(id) ==> commit_inits(inits, adds).contains_key(id) && commit_inits(
            inits,
            adds,
        )[id] == inits[id],
        !inits.contains_key(id) && (forall|i: int| 0 <= i < adds.len() ==> (#[trigger] adds[i]).1
            != id) ==> commit_inits(inits, adds) == commit_inits(inits, adds).remove(id)
            && !commit_inits(inits, adds).contains_key(id),
    decreases adds.len(),
{
    if adds.len() > 0 {
        lemma_commit_inits(inits, adds.drop_last(), id);
        let before = commit_inits(inits, adds.drop_last());
        if !inits.contains_key(id) && (forall|i: int| 0 <= i < adds.len() ==> (#[trigger] adds[i]).1 != id) {
            assert forall|i: int| 0 <= i < adds.drop_last().len() implies (#[trigger] adds.drop_last()[i]).1 != id by {
                assert(adds.drop_last()[i] == adds[i]);
            }
            assert(adds[adds.len() - 1].1 != id);
            assert(commit_inits(inits, adds) =~= commit_inits(inits, adds).remove(id));
        }
    }
}

/// Queuing an id's removal changes nothing until the next `process_pending`:
/// the committed inits and the parent relation stay as they are.
pub proof fn law_free_is_deferred<T>(s: StorageModel<T>, id: u64)
    ensures
        s.with_removal(id).inits == s.inits,
        s.with_removal(id).children == s.children,
        s.with_removal(id).additions == s.additions,
{
}

/// Freeing an id twice before `process_pending` is the same as freeing it once.
pub proof fn law_free_twice_is_free_once<T>(s: StorageModel<T>, id: u64)
    ensures
        s.with_removal(id).with_removal(id) == s.with_removal(id),
{
    assert(s.with_removal(id).with_removal(id).removals =~= s.with_removal(id).removals);
}

/// Queuing an addition under the same parent and id a second time leaves the
/// first one in place and changes nothing.
pub proof fn law_second_addition_is_ignored<T>(s: StorageModel<T>, parent: u64, id: u64, a: T, b: T)
    ensures
        s.with_addition(parent, id, a).with_addition(parent, id, b) == s.with_addition(parent, id, a),
{
    let s1 = s.with_addition(parent, id, a);
    if !crate::lifecycle::model::addition_queued(s.additions, parent, id) {
        let k = s.additions.len() as int;
        assert(s1.additions[k] == (parent, id, a));
        assert(crate::lifecycle::model::addition_queued(s1.additions, parent, id));
    }
}

/// A storage with nothing queued is left as it is by `process_pending`.
pub proof fn law_process_without_work_changes_nothing<T>(s: StorageModel<T>)
    requires
        s.additions.len() == 0,
        s.removals == Set::<u64>::empty(),
    ensures
        s.processed() == s,
{
    let keep = |a: (u64, u64, T)| !s.removals.contains(a.1);
    lemma_filter_keeps_all(s.additions, keep);
    assert(s.surviving_additions() == s.additions);
    assert(s.committed_inits() == s.inits);
    assert(s.committed_children() == s.children);
    lemma_cascade_of_nothing(s.children);
    assert(s.processed().inits =~= s.inits);
    assert forall|p: u64| #[trigger] s.children.contains_key(p) implies prune(
        s.children,
        Set::empty(),
    )[p] == s.children[p] by {
        lemma_filter_keeps_all(s.children[p], |c: u64| !Set::<u64>::empty().contains(c));
    }
    assert(prune(s.children, Set::empty()) =~= s.children);
    assert(s.processed().additions =~= s.additions);
    assert(s.processed() =~= s);
}

/// Running `process_pending` twice in a row is the same as running it once.
pub proof fn law_process_is_idempotent<T>(s: StorageModel<T>)
    ensures
        s.processed().processed() == s.processed(),
{
    law_process_without_work_changes_nothing(s.processed());
}

/// An id whose removal is queued is not committed after `process_pending`,
/// whether it was committed before, queued for addition, or unknown.
pub proof fn law_freed_id_is_gone<T>(s: StorageModel<T>, id: u64)
    requires
        s.removals.contains(id),
    ensures
        !s.processed().inits.contains_key(id),
{
    crate::lifecycle::model::lemma_reaches_root(s.committed_children(), s.removals, id);
}

/// Freeing an id removes, at the next `process_pending`, the init with that id
/// and every init below it, as the parent relation stands once the queued
/// additions are committed.
pub proof fn law_free_cascades<T>(s: StorageModel<T>, id: u64, x: u64)
    requires
        reaches(s.with_removal(id).committed_children(), set![id], x),
    ensures
        !s.with_removal(id).processed().inits.contains_key(x),
        !s.with_removal(id).processed().children.contains_key(x),
{
    let t = s.with_removal(id);
    let c = t.committed_children();
    let p = choose|p: Seq<u64>|
        #[trigger] is_descent(c, p) && p.len() > 0 && set![id].contains(p[0]) && p.last() == x;
    assert(t.removals.contains(p[0]));
    assert(reaches(c, t.removals, x));
    assert(t.removal_set().contains(x));
}

/// With no removal queued, `process_pending` commits a queued addition whose
/// id is neither committed nor queued under another parent: the id then maps
/// to its init and ends its parent's list.
pub proof fn law_addition_is_committed<T>(s: StorageModel<T>, parent: u64, id: u64, init: T)
    requires
        s.removals == Set::<u64>::empty(),
        !s.inits.contains_key(id),
        forall|i: int| 0 <= i < s.additions.len() ==> (#[trigger] s.additions[i]).1 != id,
    ensures
        s.with_addition(parent, id, init).processed().inits.contains_key(id),
        s.with_addition(parent, id, init).processed().inits[id] == init,
        children_of(s.with_addition(parent, id, init).processed().children, parent).last() == id,
{
    let t = s.with_addition(parent, id, init);
    assert(!crate::lifecycle::model::addition_queued(s.additions, parent, id));
    assert(t.additions == s.additions.push((parent, id, init)));
    let keep = |a: (u64, u64, T)| !t.removals.contains(a.1);
    lemma_filter_keeps_all(t.additions, keep);
    assert(t.surviving_additions() == t.additions);
    assert(t.additions.drop_last() =~= s.additions);
    lemma_commit_inits(s.inits, s.additions, id);
    assert(t.committed_inits() == commit_inits(s.inits, s.additions).insert(id, init));
    lemma_cascade_of_nothing(t.committed_children());
    assert(t.removal_set() == Set::<u64>::empty());
    let c = t.committed_children();
    assert(c == commit_children(s.children, s.additions).insert(
        parent,
        children_of(commit_children(s.children, s.additions), parent).push(id),
    ));
    lemma_filter_keeps_all(c[parent], |y: u64| !Set::<u64>::empty().contains(y));
    assert(t.processed().children[parent] == c[parent]);
}

/// Removals queued while the free callbacks of a `process_pending` run stay
/// queued for the next one, unless they name an id that was just removed.
pub proof fn law_free_during_callbacks<T>(s: StorageModel<T>, y: u64)
    ensures
        s.processed().with_removal(y).without_removals(s.removal_set()).removals.contains(y)
            <==> !s.removal_set().contains(y),
{
}

proof fn lemma_after_work<T>(m: StorageModel<T>, n: StorageModel<T>, work: Seq<QueuedWork<T>>)
    requires
        m.additions == n.additions,
    ensures
        m.after_work(work).inits == m.inits,
        m.after_work(work).children == m.children,
        m.after_work(work).removals == m.removals.union(freed_by(work)),
        m.after_work(work).additions == n.after_work(work).additions,
    decreases work.len(),
{
    if work.len() > 0 {
        let w = work.drop_last();
        lemma_after_work(m, n, w);
        let last = work.last();
        assert(work[work.len() - 1] == last);
        match last {
            QueuedWork::Add(parent, id, init) => {
                assert(freed_by(work) =~= freed_by(w)) by {
                    assert forall|x: u64| freed_by(work).contains(x) implies freed_by(w).contains(x) by {
                        let k = choose|k: int| 0 <= k < work.len() && #[trigger] work[k] == QueuedWork::<T>::Free(x);
                        assert(k < w.len());
                        assert(w[k] == work[k]);
                    }
                    assert forall|x: u64| freed_by(w).contains(x) implies freed_by(work).contains(x) by {
                        let k = choose|k: int| 0 <= k < w.len() && #[trigger] w[k] == QueuedWork::<T>::Free(x);
                        assert(work[k] == w[k]);
                    }
                }
            },
            QueuedWork::Free(id) => {
                assert(freed_by(work) =~= freed_by(w).insert(id)) by {
                    assert forall|x: u64| freed_by(work).contains(x) implies freed_by(w).insert(id).contains(x) by {
                        let k = choose|k: int| 0 <= k < work.len() && #[trigger] work[k] == QueuedWork::<T>::Free(x);
                        if k < w.len() {
                            assert(w[k] == work[k]);
                        }
                    }
                    assert forall|x: u64| freed_by(w).insert(id).contains(x) implies freed_by(work).contains(x) by {
                        if x == id {
                            assert(work[work.len() - 1] == QueuedWork::<T>::Free(x));
                        } else {
                            let k = choose|k: int| 0 <= k < w.len() && #[trigger] w[k] == QueuedWork::<T>::Free(x);
                            assert(work[k] == w[k]);
                        }
                    }
                }
                assert(m.after_work(work).removals =~= m.removals.union(freed_by(work)));
            },
        }
    }
}

/// What the free callbacks of a `process_pending` queue, in any order and
/// number, is all that is queued once `finish_pending` has run: the removals
/// they queued, except those of ids that were just removed, and their
/// additions (the first per parent and id); nothing queued before the call
/// survives, and the inits and the parent relation are those the call left.
pub proof fn law_work_during_callbacks<T>(s: StorageModel<T>, work: Seq<QueuedWork<T>>)
    ensures
        s.processed().after_work(work).without_removals(s.removal_set()).inits
            == s.processed().inits,
        s.processed().after_work(work).without_removals(s.removal_set()).children
            == s.processed().children,
        s.processed().after_work(work).without_removals(s.removal_set()).removals == freed_by(
            work,
        ).difference(s.removal_set()),
        s.processed().after_work(work).without_removals(s.removal_set()).additions
            == StorageModel::<T>::empty().after_work(work).additions,
{
    let t = s.processed();
    assert(t.additions == StorageModel::<T>::empty().additions);
    lemma_after_work(t, StorageModel::<T>::empty(), work);
    assert(t.removals =~= Set::<u64>::empty());
    assert(t.after_work(work).removals.difference(s.removal_set()) =~= freed_by(work).difference(
        s.removal_set(),
    ));
}

/// After `process_pending`, an id it removed has no list of children and is
/// in no parent's list: every edge touching it is gone.
pub proof fn law_removed_id_leaves_relation<T>(s: StorageModel<T>, c: u64, p: u64)
    requires
        s.removal_set().contains(c),
    ensures
        !s.processed().children.contains_key(c),
        !children_of(s.processed().children, p).contains(c),
{
    let pruned = s.processed().children;
    if children_of(pruned, p).contains(c) {
        let list = s.committed_children()[p];
        let keep = |y: u64| !s.removal_set().contains(y);
        assert(pruned[p] == list.filter(keep));
        let k = choose|k: int| 0 <= k < list.filter(keep).len() && list.filter(keep)[k] == c;
        list.lemma_filter_pred(keep, k);
    }
}

/// After `process_pending`, an id it removed is reached from other roots only
/// through edges added later: in the relation it leaves, only a root reaches it.
pub proof fn law_removed_id_is_not_reached<T>(s: StorageModel<T>, c: u64, roots: Set<u64>)
    requires
        s.removal_set().contains(c),
        !roots.contains(c),
    ensures
        !cascade(s.processed().children, roots).contains(c),
{
    let pruned = s.processed().children;
    if cascade(pruned, roots).contains(c) {
        let path = choose|path: Seq<u64>|
            #[trigger] is_descent(pruned, path) && path.len() > 0 && roots.contains(path[0])
                && path.last() == c;
        let n = path.len() - 1;
        assert(n > 0);
        assert(children_of(pruned, path[n - 1]).contains(path[n - 1 + 1]));
        law_removed_id_leaves_relation(s, c, path[n - 1]);
    }
}

/// An id that `process_pending` removed, then registered again under `q` and
/// committed, is not removed when its former parent `p` is freed, as long as
/// `q` does not lie below `p` (nor is `p`) in the relation as it then stands.
pub proof fn law_readded_id_survives_former_parent<T>(
    s: StorageModel<T>,
    c: u64,
    q: u64,
    y: T,
    p: u64,
)
    requires
        s.removal_set().contains(c),
        p != c,
        !reaches(s.processed().with_addition(q, c, y).processed().children, set![p], q),
    ensures
        s.processed().with_addition(q, c, y).processed().with_removal(p).processed().inits.contains_key(c),
        s.processed().with_addition(q, c, y).processed().with_removal(p).processed().inits[c] == y,
{
    let t = s.processed();
    assert(!t.inits.contains_key(c));
    assert(t.removals =~= Set::<u64>::empty());
    law_addition_is_committed(t, q, c, y);
    let t1 = t.with_addition(q, c, y);
    let u = t1.processed();
    // The only list of `u` that holds `c` is the one of `q`.
    let keep = |a: (u64, u64, T)| !t1.removals.contains(a.1);
    assert(!crate::lifecycle::model::addition_queued(t.additions, q, c));
    assert(t1.additions == t.additions.push((q, c, y)));
    lemma_filter_keeps_all(t1.additions, keep);
    assert(t1.surviving_additions() == t1.additions);
    assert(t1.additions.drop_last() =~= Seq::<(u64, u64, T)>::empty());
    assert(t1.additions.last() == (q, c, y));
    assert(commit_children(t.children, t1.additions.drop_last()) == t.children);
    let cc = t1.committed_children();
    assert(cc == t.children.insert(q, children_of(t.children, q).push(c)));
    lemma_cascade_of_nothing(cc);
    assert forall|x: u64| x != q implies !(#[trigger] children_of(u.children, x)).contains(c) by {
        law_removed_id_leaves_relation(s, c, x);
        if u.children.contains_key(x) {
            lemma_filter_keeps_all(cc[x], |z: u64| !t1.removal_set().contains(z));
            assert(u.children[x] == t.children[x]);
        }
    }
    // Freeing `p` does not reach `c`.
    let v = u.with_removal(p);
    assert(v.surviving_additions() =~= Seq::<(u64, u64, T)>::empty()) by {
        lemma_filter_keeps_all(v.additions, |a: (u64, u64, T)| !v.removals.contains(a.1));
    }
    assert(v.committed_inits() == u.inits);
    assert(v.committed_children() == u.children);
    assert(v.removals =~= set![p]);
    if v.removal_set().contains(c) {
        let path = choose|path: Seq<u64>|
            #[trigger] is_descent(u.children, path) && path.len() > 0 && set![p].contains(path[0])
                && path.last() == c;
        let n = path.len() - 1;
        assert(n > 0);
        assert(children_of(u.children, path[n - 1]).contains(path[n - 1 + 1]));
        assert(path[n - 1] == q);
        let prefix = path.take(n);
        assert forall|i: int| 0 <= i < prefix.len() - 1 implies #[trigger] children_of(
            u.children,
            prefix[i],
        ).contains(prefix[i + 1]) by {
            assert(prefix[i] == path[i] && prefix[i + 1] == path[i + 1]);
            assert(children_of(u.children, path[i]).contains(path[i + 1]));
        }
        assert(is_descent(u.children, prefix));
        assert(prefix[0] == path[0]);
        assert(prefix.last() == q);
        assert(reaches(u.children, set![p], q));
    }
}

/// Queuing an addition leaves the committed inits as they are. At the next
/// `process_pending` the init is committed under its id and the id is one of
/// its parent's children (so a later free of the parent reaches it), whenever
/// the id is neither committed nor queued for addition already, and is not
/// among the ids that step removes (as it is when it, or an ancestor, is
/// freed).
pub proof fn law_addition_is_committed_under_parent<T>(
    s: StorageModel<T>,
    parent: u64,
    id: u64,
    init: T,
)
    requires
        !s.inits.contains_key(id),
        forall|i: int| 0 <= i < s.additions.len() ==> (#[trigger] s.additions[i]).1 != id,
        !s.with_addition(parent, id, init).removal_set().contains(id),
    ensures
        s.with_addition(parent, id, init).inits == s.inits,
        s.with_addition(parent, id, init).processed().inits.contains_key(id),
        s.with_addition(parent, id, init).processed().inits[id] == init,
        children_of(s.with_addition(parent, id, init).processed().children, parent).contains(id),
        reaches(s.with_addition(parent, id, init).processed().children, set![parent], id),
{
    let t = s.with_addition(parent, id, init);
    let a = (parent, id, init);
    assert(!crate::lifecycle::model::addition_queued(s.additions, parent, id));
    assert(t.additions == s.additions.push(a));
    assert(t.removals == s.removals);
    // The id is not queued for removal, so its addition survives.
    if s.removals.contains(id) {
        crate::lifecycle::model::lemma_reaches_root(t.committed_children(), t.removals, id);
    }
    let keep = |b: (u64, u64, T)| !s.removals.contains(b.1);
    s.additions.lemma_filter_push(a, keep);
    let before = s.surviving_additions();
    assert(t.surviving_additions() == before.push(a));
    assert(before.push(a).drop_last() =~= before);
    assert(before.push(a).last() == a);
    // No surviving addition before it carries the id.
    assert forall|i: int| 0 <= i < before.len() implies (#[trigger] before[i]).1 != id by {
        s.additions.lemma_filter_contains_rev(keep, before[i]);
        let k = choose|k: int| 0 <= k < s.additions.len() && s.additions[k] == before[i];
    }
    lemma_commit_inits(s.inits, before, id);
    let ci = t.committed_inits();
    assert(ci == commit_inits(s.inits, before).insert(id, init));
    let cc = t.committed_children();
    let before_children = commit_children(s.children, before);
    assert(cc == before_children.insert(parent, children_of(before_children, parent).push(id)));
    let list = cc[parent];
    assert(list == children_of(before_children, parent).push(id));
    assert(list[list.len() - 1] == id);
    assert(children_of(cc, parent).contains(id));
    let r = t.removal_set();
    // The parent is not removed either, or the cascade would reach the id.
    if r.contains(parent) {
        crate::lifecycle::model::lemma_reaches_step(cc, t.removals, parent, id);
    }
    let keep_ids = |y: u64| !r.contains(y);
    list.lemma_filter_contains(keep_ids, list.len() - 1);
    let u = t.processed();
    assert(u.children.contains_key(parent));
    assert(u.children[parent] == list.filter(keep_ids));
    assert(children_of(u.children, parent).contains(id));
    let path = seq![parent, id];
    assert(path[0] == parent && path[1] == id);
    assert(is_descent(u.children, path));
    assert(set![parent].contains(path[0]));
    assert(path.last() == id);
}

proof fn lemma_commit_children_extends<T>(children: Map<u64, Seq<u64>>, adds: Seq<(u64, u64, T)>, p: u64)
    ensures
        children_of(children, p).len() <= children_of(commit_children(children, adds), p).len(),
        children_of(commit_children(children, adds), p).take(children_of(children, p).len() as int)
            == children_of(children, p),
    decreases adds.len(),
{
    if adds.len() > 0 {
        lemma_commit_children_extends(children, adds.drop_last(), p);
        let before = commit_children(children, adds.drop_last());
        let a = adds.last();
        if a.0 == p {
            let old_list = children_of(before, p);
            let n = children_of(children, p).len() as int;
            assert(children_of(commit_children(children, adds), p) == old_list.push(a.1));
            assert(old_list.push(a.1).take(n) =~= old_list.take(n));
        } else {
            assert(children_of(commit_children(children, adds), p) == children_of(before, p));
        }
    }
}

/// Committing queued additions only ever appends to a parent's list: the
/// children registered under `p` before stay, first and in order, whatever
/// additions are queued under `p` or elsewhere.
pub proof fn law_commit_keeps_earlier_children<T>(s: StorageModel<T>, p: u64)
    ensures
        children_of(s.children, p).len() <= children_of(s.committed_children(), p).len(),
        children_of(s.committed_children(), p).take(children_of(s.children, p).len() as int)
            == children_of(s.children, p),
{
    lemma_commit_children_extends(s.children, s.surviving_additions(), p);
}

/// A child registered under `p` in any earlier step is removed when `p` is
/// freed, even if further children are queued under `p` in the same step.
pub proof fn law_free_cascades_to_earlier_children<T>(s: StorageModel<T>, p: u64, c: u64)
    requires
        s.removals.contains(p),
        children_of(s.children, p).contains(c),
    ensures
        s.removal_set().contains(c),
        !s.processed().inits.contains_key(c),
{
    law_commit_keeps_earlier_children(s, p);
    let old_list = children_of(s.children, p);
    let new_list = children_of(s.committed_children(), p);
    let k = choose|k: int| 0 <= k < old_list.len() && old_list[k] == c;
    assert(new_list.take(old_list.len() as int)[k] == new_list[k]);
    assert(new_list.contains(c));
    crate::lifecycle::model::lemma_reaches_root(s.committed_children(), s.removals, p);
    crate::lifecycle::model::lemma_reaches_step(s.committed_children(), s.removals, p, c);
}

} // verus!
