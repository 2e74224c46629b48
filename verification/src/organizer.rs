//! The owning controller: one task store and one category tree, mutated in
//! lock-step. Every command applies to the store, then patches the tree with
//! the resulting event, so the tree is always exactly the grouping derived
//! from the store — the correctness anchor of the whole design.

use vstd::prelude::*;

use crate::store::lemma_categories_iff;
use crate::store::lemma_done_ids_facts;
use crate::store::lemma_done_ids_member;
use crate::store::lemma_undone_facts;
use crate::store::lemma_undone_member;
use crate::store::lemma_undone_not_done;
use crate::store::spec_categories;
use crate::store::spec_done_ids;
use crate::store::spec_undone;
use crate::store::store_views;
use crate::store::task_views;
use crate::store::StoredTask;
use crate::store::TasksManager;
use crate::task::spec_formatted;
use crate::task::OrganizerError;
use crate::task::Task;
use crate::tree::CategoryTree;
use crate::tree::Signal;

verus! {

/// The single owner of the task store and its derived category tree.
pub struct Organizer {
    pub store: TasksManager,
    pub tree: CategoryTree,
}

impl Organizer {
    /// The tree is exactly the grouping derived from the store: every entry
    /// has a leaf under its category with its rendered text, and every leaf
    /// belongs to an entry.
    pub open spec fn synced(self) -> bool {
        &&& forall|k: int|
            0 <= k < self.store.entries@.len() ==> self.tree.maps(
                (#[trigger] self.store.entries@[k]).id,
                self.store.entries@[k].task@.category,
                spec_formatted(self.store.entries@[k].task@, true),
            )
        &&& forall|id: u64| #[trigger] self.tree.has_leaf(id) ==> self.store.contains_id(id)
    }

    /// Both halves well-formed and in sync.
    pub open spec fn wf(self) -> bool {
        self.store.wf() && self.tree.wf() && self.synced()
    }

    /// An empty organizer.
    pub fn new() -> (r: Organizer)
        ensures
            r.wf(),
            r.store.entries@.len() == 0,
            r.store.next_id == 0,
    {
        Organizer { store: TasksManager::new(), tree: CategoryTree::new() }
    }

    /// An organizer over the given tasks: the store assigns identifiers and
    /// the tree is built once from that initial state.
    pub fn from_tasks(tasks: Vec<Task>) -> (r: Organizer)
        ensures
            r.wf(),
            task_views(r.store.entries@) == crate::codec::views_of(tasks@),
            r.store.next_id == r.store.entries@.len(),
    {
        let store = TasksManager::from_tasks(tasks);
        let mut tree = CategoryTree::new();
        let n = store.entries.len();
        let mut k: usize = 0;
        while k < n
            invariant
                0 <= k <= n == store.entries@.len(),
                store.wf(),
                tree.wf(),
                forall|m: int|
                    0 <= m < k ==> tree.maps(
                        (#[trigger] store.entries@[m]).id,
                        store.entries@[m].task@.category,
                        spec_formatted(store.entries@[m].task@, true),
                    ),
                forall|id: u64| #[trigger]
                    tree.has_leaf(id) ==> exists|m: int|
                        0 <= m < k && (#[trigger] store.entries@[m]).id == id,
            decreases n - k,
        {
            let e = &store.entries[k];
            proof {
                if tree.has_leaf(e.id) {
                    let m = choose|m: int|
                        0 <= m < k && (#[trigger] store.entries@[m]).id == e.id;
                    assert(store.entries@[m].id == store.entries@[k as int].id);
                    assert(false);
                }
            }
            let text = e.task.formatted(true);
            tree.add_leaf(e.id, &e.task.category, text);
            proof {
                assert forall|id: u64| #[trigger] tree.has_leaf(id) implies exists|m: int|
                    0 <= m < k + 1 && (#[trigger] store.entries@[m]).id == id by {
                    if id == e.id {
                        assert(store.entries@[k as int].id == id);
                    } else {
                        let m = choose|m: int|
                            0 <= m < k && (#[trigger] store.entries@[m]).id == id;
                    }
                }
            }
            k = k + 1;
        }
        Organizer { store, tree }
    }

    /// Appends a task: the store assigns its identifier, the tree gains its
    /// leaf, and the new leaf is signalled as the item to focus.
    pub fn add_task(&mut self, task: Task) -> (r: (u64, Signal))
        requires
            old(self).wf(),
            old(self).store.next_id < u64::MAX,
        ensures
            final(self).wf(),
            final(self).store.entries@.len() == old(self).store.entries@.len() + 1,
            final(self).store.entries@.drop_last() == old(self).store.entries@,
            final(self).store.entries@.last().id == old(self).store.next_id,
            final(self).store.entries@.last().task@ == task@,
            final(self).store.next_id == old(self).store.next_id + 1,
            r == (old(self).store.next_id, Signal::Select(old(self).store.next_id)),
    {
        let ghost pre = *old(self);
        let id = self.store.next_id;
        let ev = self.store.add_task(task);
        proof {
            if self.tree.has_leaf(id) {
                assert(pre.store.contains_id(id));
                let k = choose|k: int|
                    0 <= k < pre.store.entries@.len() && (#[trigger] pre.store.entries@[k]).id
                        == id;
                assert(false);
            }
        }
        let sig = self.tree.apply(ev);
        proof {
            let t = *self;
            assert forall|k: int| 0 <= k < t.store.entries@.len() implies t.tree.maps(
                (#[trigger] t.store.entries@[k]).id,
                t.store.entries@[k].task@.category,
                spec_formatted(t.store.entries@[k].task@, true),
            ) by {
                if k < pre.store.entries@.len() {
                    assert(t.store.entries@.drop_last()[k] == t.store.entries@[k]);
                    assert(pre.store.entries@[k] == t.store.entries@[k]);
                } else {
                    assert(t.store.entries@[k] == t.store.entries@.last());
                }
            }
            assert forall|id2: u64| #[trigger] t.tree.has_leaf(id2) implies t.store.contains_id(
                id2,
            ) by {
                if id2 == id {
                    assert(t.store.entries@.last().id == id2);
                    assert(t.store.entries@[t.store.entries@.len() - 1].id == id2);
                } else {
                    assert(pre.store.contains_id(id2));
                    let k = choose|k: int|
                        0 <= k < pre.store.entries@.len() && (#[trigger] pre.store.entries@[k]).id
                            == id2;
                    assert(t.store.entries@.drop_last()[k] == t.store.entries@[k]);
                    assert(t.store.entries@[k].id == id2);
                }
            }
        }
        (id, sig)
    }

    /// Replaces the fields of the task carrying `id`; its leaf is refreshed
    /// in place when the category is unchanged, and relocated (pruning the
    /// emptied node) when it moved. `NotFound` exactly when no task carries
    /// `id`, and then store and tree are untouched.
    pub fn edit_task(&mut self, id: u64, fields: Task) -> (r: Result<Signal, OrganizerError>)
        requires
            old(self).wf(),
        ensures
            final(self).wf(),
            r is Ok <==> old(self).store.contains_id(id),
            r matches Err(e) ==> e == OrganizerError::NotFound && *final(self) == *old(self),
            r is Ok ==> exists|i: int|
                {
                    &&& 0 <= i < old(self).store.entries@.len()
                    &&& (#[trigger] old(self).store.entries@[i]).id == id
                    &&& final(self).store.entries@ == old(self).store.entries@.update(
                        i,
                        StoredTask { id, task: fields },
                    )
                },
            r matches Ok(sig) ==> sig == Signal::Select(id),
            final(self).store.next_id == old(self).store.next_id,
    {
        let ghost pre = *old(self);
        match self.store.edit_task(id, fields) {
            Ok(ev) => {
                proof {
                    let i = choose|i: int|
                        {
                            &&& 0 <= i < pre.store.entries@.len()
                            &&& (#[trigger] pre.store.entries@[i]).id == id
                            &&& self.store.entries@ == pre.store.entries@.update(
                                i,
                                StoredTask { id, task: fields },
                            )
                        };
                    // the leaf of `id` sits under the old category
                    assert(pre.tree.maps(
                        id,
                        pre.store.entries@[i].task@.category,
                        spec_formatted(pre.store.entries@[i].task@, true),
                    ));
                }
                let sig = self.tree.apply(ev);
                proof {
                    let t = *self;
                    let i = choose|i: int|
                        {
                            &&& 0 <= i < pre.store.entries@.len()
                            &&& (#[trigger] pre.store.entries@[i]).id == id
                            &&& t.store.entries@ == pre.store.entries@.update(
                                i,
                                StoredTask { id, task: fields },
                            )
                        };
                    assert forall|k: int| 0 <= k < t.store.entries@.len() implies t.tree.maps(
                        (#[trigger] t.store.entries@[k]).id,
                        t.store.entries@[k].task@.category,
                        spec_formatted(t.store.entries@[k].task@, true),
                    ) by {
                        if k != i {
                            assert(t.store.entries@[k] == pre.store.entries@[k]);
                            assert(pre.store.entries@[k].id != id);
                        } else {
                            assert(t.store.entries@[k].id == id);
                        }
                    }
                    assert forall|id2: u64| #[trigger]
                        t.tree.has_leaf(id2) implies t.store.contains_id(id2) by {
                        assert(pre.store.contains_id(id2));
                        let k = choose|k: int|
                            0 <= k < pre.store.entries@.len() && (
                            #[trigger] pre.store.entries@[k]).id == id2;
                        if k == i {
                            assert(t.store.entries@[k].id == id2);
                        } else {
                            assert(t.store.entries@[k].id == id2);
                        }
                    }
                }
                Ok(sig)
            },
            Err(e) => Err(e),
        }
    }

    /// Removes the task carrying `id`; its leaf is detached and its node
    /// pruned when emptied. The detail panel no longer has a selection.
    /// `NotFound` exactly when no task carries `id`, and then store and tree
    /// are untouched.
    pub fn delete_task(&mut self, id: u64) -> (r: Result<Signal, OrganizerError>)
        requires
            old(self).wf(),
        ensures
            final(self).wf(),
            r is Ok <==> old(self).store.contains_id(id),
            r matches Err(e) ==> e == OrganizerError::NotFound && *final(self) == *old(self),
            r is Ok ==> exists|i: int|
                {
                    &&& 0 <= i < old(self).store.entries@.len()
                    &&& (#[trigger] old(self).store.entries@[i]).id == id
                    &&& final(self).store.entries@ == old(self).store.entries@.remove(i)
                },
            r matches Ok(sig) ==> sig == Signal::ClearSelection,
            final(self).store.next_id == old(self).store.next_id,
    {
        let ghost pre = *old(self);
        match self.store.delete_task(id) {
            Ok(ev) => {
                proof {
                    let i = choose|i: int|
                        {
                            &&& 0 <= i < pre.store.entries@.len()
                            &&& (#[trigger] pre.store.entries@[i]).id == id
                            &&& self.store.entries@ == pre.store.entries@.remove(i)
                        };
                    assert(pre.tree.maps(
                        id,
                        pre.store.entries@[i].task@.category,
                        spec_formatted(pre.store.entries@[i].task@, true),
                    ));
                    let (a, b) = choose|a: int, b: int|
                        pre.tree.maps_at(
                            a,
                            b,
                            id,
                            pre.store.entries@[i].task@.category,
                            spec_formatted(pre.store.entries@[i].task@, true),
                        );
                    assert(pre.tree.valid_pos(a, b) && pre.tree.leaf_id(a, b) == id);
                    assert(pre.tree.has_leaf(id));
                }
                let sig = self.tree.apply(ev);
                proof {
                    let t = *self;
                    let i = choose|i: int|
                        {
                            &&& 0 <= i < pre.store.entries@.len()
                            &&& (#[trigger] pre.store.entries@[i]).id == id
                            &&& t.store.entries@ == pre.store.entries@.remove(i)
                        };
                    assert forall|k: int| 0 <= k < t.store.entries@.len() implies t.tree.maps(
                        (#[trigger] t.store.entries@[k]).id,
                        t.store.entries@[k].task@.category,
                        spec_formatted(t.store.entries@[k].task@, true),
                    ) by {
                        let k0 = if k < i {
                            k
                        } else {
                            k + 1
                        };
                        assert(t.store.entries@[k] == pre.store.entries@[k0]);
                        assert(pre.store.entries@[k0].id != id);
                    }
                    assert forall|id2: u64| #[trigger]
                        t.tree.has_leaf(id2) implies t.store.contains_id(id2) by {
                        assert(pre.store.contains_id(id2) && id2 != id);
                        let k = choose|k: int|
                            0 <= k < pre.store.entries@.len() && (
                            #[trigger] pre.store.entries@[k]).id == id2;
                        assert(k != i);
                        let k1 = if k < i {
                            k
                        } else {
                            k - 1
                        };
                        assert(t.store.entries@[k1] == pre.store.entries@[k]);
                        assert(t.store.entries@[k1].id == id2);
                    }
                }
                Ok(sig)
            },
            Err(e) => Err(e),
        }
    }

    /// Removes every done task in one pass, pruning every emptied node. The
    /// remaining tasks keep their relative order; nothing is selected after.
    pub fn remove_done(&mut self) -> (sig: Signal)
        requires
            old(self).wf(),
        ensures
            final(self).wf(),
            store_views(final(self).store.entries@) == spec_undone(
                store_views(old(self).store.entries@),
            ),
            final(self).store.next_id == old(self).store.next_id,
            sig == Signal::ClearSelection,
    {
        let ghost pre = *old(self);
        let ghost sv = store_views(pre.store.entries@);
        proof {
            assert forall|k: int| 0 <= k < sv.len() implies (#[trigger] sv[k])
                == pre.store.entries@[k]@ by {}
            assert forall|a: int, b: int| 0 <= a < b < sv.len() implies (#[trigger] sv[a]).id != (
            #[trigger] sv[b]).id by {
                assert(pre.store.entries@[a].id != pre.store.entries@[b].id);
            }
            lemma_done_ids_facts(sv);
            lemma_undone_facts(sv);
            lemma_undone_not_done(sv);
        }
        let ev = self.store.remove_done();
        proof {
            let ids = spec_done_ids(sv);
            assert forall|m: int| 0 <= m < ids.len() implies pre.tree.has_leaf(
                #[trigger] ids[m],
            ) by {
                lemma_done_ids_member(sv, m);
                let k = choose|k: int|
                    0 <= k < sv.len() && (#[trigger] sv[k]).id == ids[m] && sv[k].task.done;
                assert(pre.tree.maps(
                    pre.store.entries@[k].id,
                    pre.store.entries@[k].task@.category,
                    spec_formatted(pre.store.entries@[k].task@, true),
                ));
                let (a, b) = choose|a: int, b: int|
                    pre.tree.maps_at(
                        a,
                        b,
                        pre.store.entries@[k].id,
                        pre.store.entries@[k].task@.category,
                        spec_formatted(pre.store.entries@[k].task@, true),
                    );
                assert(pre.tree.valid_pos(a, b) && pre.tree.leaf_id(a, b) == ids[m]);
            }
        }
        let sig = self.tree.apply(ev);
        proof {
            let t = *self;
            let ids = spec_done_ids(sv);
            let nv = store_views(t.store.entries@);
            assert(nv == spec_undone(sv));
            assert forall|k: int| 0 <= k < t.store.entries@.len() implies t.tree.maps(
                (#[trigger] t.store.entries@[k]).id,
                t.store.entries@[k].task@.category,
                spec_formatted(t.store.entries@[k].task@, true),
            ) by {
                assert(nv[k] == t.store.entries@[k]@);
                lemma_undone_member(sv, k);
                let k0 = choose|k0: int|
                    0 <= k0 < sv.len() && #[trigger] sv[k0] == spec_undone(sv)[k];
                assert(!sv[k0].task.done);
                assert(!ids.contains(sv[k0].id));
                assert(pre.tree.maps(
                    pre.store.entries@[k0].id,
                    pre.store.entries@[k0].task@.category,
                    spec_formatted(pre.store.entries@[k0].task@, true),
                ));
                assert(sv[k0].id == t.store.entries@[k].id);
                assert(sv[k0].task == t.store.entries@[k].task@);
            }
            assert forall|id2: u64| #[trigger] t.tree.has_leaf(id2) implies t.store.contains_id(
                id2,
            ) by {
                assert(pre.tree.has_leaf(id2) && !ids.contains(id2));
                assert(pre.store.contains_id(id2));
                let k = choose|k: int|
                    0 <= k < pre.store.entries@.len() && (#[trigger] pre.store.entries@[k]).id
                        == id2;
                assert(sv[k].id == id2);
                if sv[k].task.done {
                    assert(ids.contains(sv[k].id));
                    assert(false);
                }
                assert(spec_undone(sv).contains(sv[k]));
                let m = choose|m: int|
                    0 <= m < spec_undone(sv).len() && spec_undone(sv)[m] == sv[k];
                assert(nv[m] == sv[k]);
                assert(t.store.entries@[m].id == id2);
            }
        }
        sig
    }

    /// Serializes the current task sequence for the durable file.
    pub fn to_text(&self) -> (r: Vec<char>)
        ensures
            r@ == crate::codec::spec_encode(task_views(self.store.entries@)),
    {
        self.store.to_text()
    }

    /// An organizer loaded from serialized text: the encoded tasks where the
    /// text is well formed, empty otherwise — a missing or corrupt durable
    /// file is recovered from, never fatal.
    pub fn from_text(v: &Vec<char>) -> (r: Organizer)
        ensures
            r.wf(),
            match crate::codec::spec_decode(v@) {
                Some(ts) => task_views(r.store.entries@) == ts,
                None => r.store.entries@.len() == 0,
            },
    {
        let tasks = crate::codec::decode_or_empty(v);
        let r = Organizer::from_tasks(tasks);
        assert(task_views(r.store.entries@).len() == r.store.entries@.len());
        assert(crate::codec::views_of(tasks@).len() == tasks@.len());
        r
    }

    /// The distinct categories currently in use, in first-seen order.
    pub fn categories(&self) -> (r: Vec<String>)
        ensures
            r@.map_values(|s: String| s@) == spec_categories(store_views(self.store.entries@)),
    {
        self.store.categories()
    }

    /// The current entries, a read-only snapshot for rendering.
    pub fn tasks(&self) -> (r: &Vec<StoredTask>)
        ensures
            r@ == self.store.entries@,
    {
        self.store.tasks()
    }
}

/// The category-derivation law: in a synchronized organizer the tree's node
/// labels are exactly the categories of the current task sequence, and every
/// leaf's parent label is its task's current category.
pub proof fn lemma_category_derivation(org: Organizer)
    requires
        org.wf(),
    ensures
        forall|l: Seq<char>|
            #[trigger] org.tree.has_label(l) <==> spec_categories(
                store_views(org.store.entries@),
            ).contains(l),
        forall|id: u64, l: Seq<char>, x: Seq<char>|
            #[trigger] org.tree.maps(id, l, x) ==> exists|k: int|
                0 <= k < org.store.entries@.len() && (#[trigger] org.store.entries@[k]).id == id
                    && org.store.entries@[k].task@.category == l,
{
    let sv = store_views(org.store.entries@);
    assert forall|k: int| 0 <= k < sv.len() implies (#[trigger] sv[k])
        == org.store.entries@[k]@ by {}
    assert forall|id: u64, l: Seq<char>, x: Seq<char>| #[trigger]
        org.tree.maps(id, l, x) implies exists|k: int|
        0 <= k < org.store.entries@.len() && (#[trigger] org.store.entries@[k]).id == id
            && org.store.entries@[k].task@.category == l by {
        let (a, b) = choose|a: int, b: int| org.tree.maps_at(a, b, id, l, x);
        assert(org.tree.valid_pos(a, b) && org.tree.leaf_id(a, b) == id);
        assert(org.tree.has_leaf(id));
        assert(org.store.contains_id(id));
        let k = choose|k: int|
            0 <= k < org.store.entries@.len() && (#[trigger] org.store.entries@[k]).id == id;
        assert(org.tree.maps(
            org.store.entries@[k].id,
            org.store.entries@[k].task@.category,
            spec_formatted(org.store.entries@[k].task@, true),
        ));
        let (a2, b2) = choose|a2: int, b2: int|
            org.tree.maps_at(
                a2,
                b2,
                id,
                org.store.entries@[k].task@.category,
                spec_formatted(org.store.entries@[k].task@, true),
            );
        assert(org.tree.leaf_id(a, b) == org.tree.leaf_id(a2, b2));
        assert(a == a2 && b == b2);
        assert(l == org.store.entries@[k].task@.category);
    }
    assert forall|l: Seq<char>| #[trigger] org.tree.has_label(l) implies spec_categories(
        sv,
    ).contains(l) by {
        let i = choose|i: int|
            0 <= i < org.tree.nodes@.len() && (#[trigger] org.tree.nodes@[i]).label@ == l;
        assert(org.tree.nodes@[i].leaves@.len() >= 1);
        let id = org.tree.leaf_id(i, 0);
        let x = org.tree.nodes@[i].leaves@[0].text@;
        assert(org.tree.maps_at(i, 0, id, l, x));
        assert(org.tree.maps(id, l, x));
        let k = choose|k: int|
            0 <= k < org.store.entries@.len() && (#[trigger] org.store.entries@[k]).id == id
                && org.store.entries@[k].task@.category == l;
        lemma_categories_iff(sv, l);
        assert(sv[k].task.category == l);
    }
    assert forall|l: Seq<char>| spec_categories(sv).contains(l) implies org.tree.has_label(l) by {
        lemma_categories_iff(sv, l);
        let k = choose|k: int| 0 <= k < sv.len() && (#[trigger] sv[k]).task.category == l;
        assert(org.tree.maps(
            org.store.entries@[k].id,
            org.store.entries@[k].task@.category,
            spec_formatted(org.store.entries@[k].task@, true),
        ));
        let (a, b) = choose|a: int, b: int|
            org.tree.maps_at(
                a,
                b,
                org.store.entries@[k].id,
                org.store.entries@[k].task@.category,
                spec_formatted(org.store.entries@[k].task@, true),
            );
        assert(org.tree.nodes@[a].label@ == l);
    }
}

/// The no-empty-nodes law: in a well-formed organizer no category node has
/// zero leaves, after any sequence of mutations.
pub proof fn lemma_no_empty_nodes(org: Organizer)
    requires
        org.wf(),
    ensures
        forall|i: int|
            0 <= i < org.tree.nodes@.len() ==> (#[trigger] org.tree.nodes@[i]).leaves@.len() >= 1,
{
}

} // verus!
