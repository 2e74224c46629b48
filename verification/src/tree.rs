//! The category tree: a two-level forest of category nodes and task leaves,
//! patched incrementally as the store changes. A category node exists only
//! while it has at least one leaf, and every leaf is identified by its task's
//! store identifier, never by rendered text.

use vstd::prelude::*;

use crate::store::lemma_contains_push;
use crate::store::TreeEvent;
use crate::task::OrganizerError;

verus! {

/// One leaf: a task's identifier and its rendered text.
pub struct Leaf {
    pub id: u64,
    pub text: String,
}

/// One category node: its label and the leaves under it.
pub struct CategoryNode {
    pub label: String,
    pub leaves: Vec<Leaf>,
}

/// The two-level forest.
pub struct CategoryTree {
    pub nodes: Vec<CategoryNode>,
}

/// The outward focus signal of a tree mutation; the presentation layer
/// owns focus, the tree only suggests it.
#[derive(Debug, PartialEq, Eq, Clone, Copy)]
pub enum Signal {
    /// Focus the leaf of the named identifier.
    Select(u64),
    /// No leaf is selected any more: clear or disable the detail panel.
    ClearSelection,
}

impl CategoryTree {
    /// `(i, j)` names a leaf: node `i` exists and has a leaf `j`.
    pub open spec fn valid_pos(self, i: int, j: int) -> bool {
        0 <= i < self.nodes@.len() && 0 <= j < self.nodes@[i].leaves@.len()
    }

    /// The identifier of the leaf at `(i, j)`.
    pub open spec fn leaf_id(self, i: int, j: int) -> u64 {
        self.nodes@[i].leaves@[j].id
    }

    /// The leaf at `(i, j)` carries `id` under label `label` with text `text`.
    pub open spec fn maps_at(self, i: int, j: int, id: u64, label: Seq<char>, text: Seq<char>) -> bool {
        &&& self.valid_pos(i, j)
        &&& self.nodes@[i].leaves@[j].id == id
        &&& self.nodes@[i].label@ == label
        &&& self.nodes@[i].leaves@[j].text@ == text
    }

    /// Some leaf carries `id` under `label` with `text`.
    pub open spec fn maps(self, id: u64, label: Seq<char>, text: Seq<char>) -> bool {
        exists|i: int, j: int| self.maps_at(i, j, id, label, text)
    }

    /// Some leaf carries `id`.
    pub open spec fn has_leaf(self, id: u64) -> bool {
        exists|i: int, j: int| self.valid_pos(i, j) && #[trigger] self.leaf_id(i, j) == id
    }

    /// Some node carries `label`.
    pub open spec fn has_label(self, label: Seq<char>) -> bool {
        exists|i: int| 0 <= i < self.nodes@.len() && (#[trigger] self.nodes@[i]).label@ == label
    }

    /// Well-formed: labels are distinct, no node is empty, and no identifier
    /// appears on two leaves.
    pub open spec fn wf(self) -> bool {
        &&& forall|i: int, j: int|
            0 <= i < j < self.nodes@.len() ==> (#[trigger] self.nodes@[i]).label@ != (
            #[trigger] self.nodes@[j]).label@
        &&& forall|i: int|
            0 <= i < self.nodes@.len() ==> (#[trigger] self.nodes@[i]).leaves@.len() >= 1
        &&& forall|i: int, j: int, i2: int, j2: int|
            #![trigger self.leaf_id(i, j), self.leaf_id(i2, j2)]
            self.valid_pos(i, j) && self.valid_pos(i2, j2) && (i != i2 || j != j2)
                ==> self.leaf_id(i, j) != self.leaf_id(i2, j2)
    }

    /// An empty forest.
    pub fn new() -> (r: CategoryTree)
        ensures
            r.wf(),
            r.nodes@.len() == 0,
            forall|id: u64| !r.has_leaf(id),
            forall|id: u64, l: Seq<char>, x: Seq<char>| !r.maps(id, l, x),
    {
        CategoryTree { nodes: Vec::new() }
    }

    /// The index of the node labelled `label`, if any (linear scan; category
    /// counts are small by design).
    fn find_node(&self, label: &String) -> (r: Option<usize>)
        ensures
            match r {
                Some(i) => i < self.nodes@.len() && self.nodes@[i as int].label@ == label@,
                None => !self.has_label(label@),
            },
    {
        let mut i: usize = 0;
        while i < self.nodes.len()
            invariant
                0 <= i <= self.nodes@.len(),
                forall|k: int| 0 <= k < i ==> (#[trigger] self.nodes@[k]).label@ != label@,
            decreases self.nodes@.len() - i,
        {
            if self.nodes[i].label == *label {
                return Some(i);
            }
            i = i + 1;
        }
        None
    }

    /// The position of the leaf carrying `id`, if any.
    fn find_leaf(&self, id: u64) -> (r: Option<(usize, usize)>)
        ensures
            match r {
                Some((i, j)) => self.valid_pos(i as int, j as int) && self.leaf_id(
                    i as int,
                    j as int,
                ) == id,
                None => !self.has_leaf(id),
            },
    {
        let mut i: usize = 0;
        while i < self.nodes.len()
            invariant
                0 <= i <= self.nodes@.len(),
                forall|k: int, j: int|
                    0 <= k < i && 0 <= j < self.nodes@[k].leaves@.len() ==> #[trigger] self.leaf_id(
                        k,
                        j,
                    ) != id,
            decreases self.nodes@.len() - i,
        {
            let node = &self.nodes[i];
            let mut j: usize = 0;
            while j < node.leaves.len()
                invariant
                    0 <= j <= node.leaves@.len(),
                    0 <= i < self.nodes@.len(),
                    node == &self.nodes[i as int],
                    forall|jj: int| 0 <= jj < j ==> #[trigger] self.leaf_id(i as int, jj) != id,
                decreases node.leaves@.len() - j,
            {
                if node.leaves[j].id == id {
                    return Some((i, j));
                }
                assert(self.leaf_id(i as int, j as int) != id);
                j = j + 1;
            }
            i = i + 1;
        }
        None
    }

    /// Attaches a fresh leaf under the node labelled `category`, creating
    /// that node at the end when absent.
    pub fn add_leaf(&mut self, id: u64, category: &String, text: String)
        requires
            old(self).wf(),
            !old(self).has_leaf(id),
        ensures
            final(self).wf(),
            forall|id2: u64, l: Seq<char>, x: Seq<char>|
                #[trigger] final(self).maps(id2, l, x) <==> (old(self).maps(id2, l, x) || (id2
                    == id && l == category@ && x == text@)),
            forall|id2: u64| #[trigger]
                final(self).has_leaf(id2) <==> (old(self).has_leaf(id2) || id2 == id),
    {
        let ghost pre = *old(self);
        match self.find_node(category) {
            Some(i) => {
                let mut node = self.nodes.remove(i);
                let ghost oldlen = node.leaves@.len() as int;
                node.leaves.push(Leaf { id, text });
                self.nodes.insert(i, node);
                proof {
                    let t = *self;
                    assert(t.nodes@ =~= pre.nodes@.update(i as int, t.nodes@[i as int]));
                    assert(t.nodes@[i as int].leaves@ =~= pre.nodes@[i as int].leaves@.push(
                        t.nodes@[i as int].leaves@[oldlen],
                    ));
                    assert(t.maps_at(i as int, oldlen, id, category@, text@));
                    lemma_add_shift(pre, t, i as int, oldlen, id, category@, text@);
                }
            },
            None => {
                let mut leaves: Vec<Leaf> = Vec::new();
                leaves.push(Leaf { id, text });
                self.nodes.push(CategoryNode { label: category.clone(), leaves });
                proof {
                    let t = *self;
                    let n = pre.nodes@.len() as int;
                    assert(t.nodes@.drop_last() =~= pre.nodes@);
                    assert(t.maps_at(n, 0, id, category@, text@));
                    lemma_add_new_node(pre, t, n, id, category@, text@);
                }
            },
        }
    }

    /// Detaches the leaf carrying `id` and prunes its node when that leaves
    /// the node empty. `NotFound` exactly when no leaf carries `id`, and then
    /// nothing changes.
    pub fn remove_leaf(&mut self, id: u64) -> (r: Result<(), OrganizerError>)
        requires
            old(self).wf(),
        ensures
            final(self).wf(),
            r is Ok <==> old(self).has_leaf(id),
            r matches Err(e) ==> e == OrganizerError::NotFound && *final(self) == *old(self),
            r is Ok ==> forall|id2: u64, l: Seq<char>, x: Seq<char>|
                #[trigger] final(self).maps(id2, l, x) <==> (old(self).maps(id2, l, x) && id2
                    != id),
            r is Ok ==> forall|id2: u64| #[trigger]
                final(self).has_leaf(id2) <==> (old(self).has_leaf(id2) && id2 != id),
    {
        let ghost pre = *old(self);
        match self.find_leaf(id) {
            None => Err(OrganizerError::NotFound),
            Some((i, j)) => {
                let mut node = self.nodes.remove(i);
                if node.leaves.len() == 1 {
                    proof {
                        assert(j == 0);
                        let t = *self;
                        assert(t.nodes@ =~= pre.nodes@.remove(i as int));
                        lemma_remove_node(pre, t, i as int, id);
                    }
                } else {
                    node.leaves.remove(j);
                    self.nodes.insert(i, node);
                    proof {
                        let t = *self;
                        assert(t.nodes@ =~= pre.nodes@.update(i as int, t.nodes@[i as int]));
                        assert(t.nodes@[i as int].leaves@ =~= pre.nodes@[i as int].leaves@.remove(
                            j as int,
                        ));
                        lemma_remove_leaf_in_node(pre, t, i as int, j as int, id);
                    }
                }
                Ok(())
            },
        }
    }

    /// Replaces the rendered text of the leaf carrying `id`, in place: no
    /// structural change. `NotFound` exactly when no leaf carries `id`.
    pub fn refresh_leaf(&mut self, id: u64, text: String) -> (r: Result<(), OrganizerError>)
        requires
            old(self).wf(),
        ensures
            final(self).wf(),
            r is Ok <==> old(self).has_leaf(id),
            r matches Err(e) ==> e == OrganizerError::NotFound && *final(self) == *old(self),
            r is Ok ==> forall|id2: u64, l: Seq<char>, x: Seq<char>|
                id2 != id ==> (#[trigger] final(self).maps(id2, l, x) <==> old(self).maps(
                    id2,
                    l,
                    x,
                )),
            r is Ok ==> forall|l: Seq<char>, x: Seq<char>| #[trigger]
                final(self).maps(id, l, x) <==> (x == text@ && exists|x0: Seq<char>|
                    old(self).maps(id, l, x0)),
            r is Ok ==> forall|id2: u64| #[trigger]
                final(self).has_leaf(id2) <==> old(self).has_leaf(id2),
    {
        let ghost pre = *old(self);
        match self.find_leaf(id) {
            None => Err(OrganizerError::NotFound),
            Some((i, j)) => {
                let mut node = self.nodes.remove(i);
                let _old_leaf = node.leaves.remove(j);
                node.leaves.insert(j, Leaf { id, text });
                self.nodes.insert(i, node);
                proof {
                    let t = *self;
                    assert(t.nodes@ =~= pre.nodes@.update(i as int, t.nodes@[i as int]));
                    assert(t.nodes@[i as int].leaves@ =~= pre.nodes@[i as int].leaves@.update(
                        j as int,
                        t.nodes@[i as int].leaves@[j as int],
                    ));
                    lemma_refresh_leaf(pre, t, i as int, j as int, id, text@);
                }
                Ok(())
            },
        }
    }
}

impl CategoryTree {
    /// Consumes one store mutation event and patches the hierarchy in place:
    /// an added task gains a leaf (and a node on demand); an edited task's
    /// leaf is refreshed in place or relocated, pruning an emptied node; a
    /// removed task's leaf is detached, pruning likewise; a bulk removal
    /// detaches every listed leaf. The returned signal tells the
    /// presentation layer what to focus.
    pub fn apply(&mut self, ev: TreeEvent) -> (sig: Signal)
        requires
            old(self).wf(),
            ev matches TreeEvent::Added { id, .. } ==> !old(self).has_leaf(id),
            ev matches TreeEvent::Edited { id, old_category, .. } ==> exists|x0: Seq<char>|
                old(self).maps(id, old_category@, x0),
            ev matches TreeEvent::Removed { id } ==> old(self).has_leaf(id),
            ev matches TreeEvent::BulkRemoved { ids } ==> (forall|k: int|
                0 <= k < ids@.len() ==> old(self).has_leaf(ids@[k])) && (forall|a: int, b: int|
                0 <= a < b < ids@.len() ==> ids@[a] != ids@[b]),
        ensures
            final(self).wf(),
            ev matches TreeEvent::Added { id, category, text } ==> sig == Signal::Select(id) && (
            forall|id2: u64, l: Seq<char>, x: Seq<char>|
                #[trigger] final(self).maps(id2, l, x) <==> (old(self).maps(id2, l, x) || (id2
                    == id && l == category@ && x == text@))) && (forall|id2: u64| #[trigger]
                final(self).has_leaf(id2) <==> (old(self).has_leaf(id2) || id2 == id)),
            ev matches TreeEvent::Edited { id, old_category, category, text } ==> sig
                == Signal::Select(id) && (forall|id2: u64, l: Seq<char>, x: Seq<char>|
                id2 != id ==> (#[trigger] final(self).maps(id2, l, x) <==> old(self).maps(
                    id2,
                    l,
                    x,
                ))) && (forall|l: Seq<char>, x: Seq<char>| #[trigger]
                final(self).maps(id, l, x) <==> (l == category@ && x == text@)) && (
            forall|id2: u64| #[trigger] final(self).has_leaf(id2) <==> old(self).has_leaf(id2)),
            ev matches TreeEvent::Removed { id } ==> sig == Signal::ClearSelection && (forall|
                id2: u64,
                l: Seq<char>,
                x: Seq<char>,
            |
                #[trigger] final(self).maps(id2, l, x) <==> (old(self).maps(id2, l, x) && id2
                    != id)) && (forall|id2: u64| #[trigger]
                final(self).has_leaf(id2) <==> (old(self).has_leaf(id2) && id2 != id)),
            ev matches TreeEvent::BulkRemoved { ids } ==> sig == Signal::ClearSelection && (forall|
                id2: u64,
                l: Seq<char>,
                x: Seq<char>,
            |
                #[trigger] final(self).maps(id2, l, x) <==> (old(self).maps(id2, l, x)
                    && !ids@.contains(id2))) && (forall|id2: u64| #[trigger]
                final(self).has_leaf(id2) <==> (old(self).has_leaf(id2) && !ids@.contains(id2))),
    {
        let ghost pre = *old(self);
        match ev {
            TreeEvent::Added { id, category, text } => {
                self.add_leaf(id, &category, text);
                Signal::Select(id)
            },
            TreeEvent::Edited { id, old_category, category, text } => {
                proof {
                    let x0 = choose|x0: Seq<char>| pre.maps(id, old_category@, x0);
                    let (k, j) = choose|k: int, j: int| pre.maps_at(k, j, id, old_category@, x0);
                    assert(pre.valid_pos(k, j) && pre.leaf_id(k, j) == id);
                    assert(pre.has_leaf(id));
                }
                if old_category == category {
                    let _ = self.refresh_leaf(id, text);
                    proof {
                        let t = *self;
                        assert forall|l: Seq<char>, x: Seq<char>| #[trigger]
                            t.maps(id, l, x) implies (l == category@ && x == text@) by {
                            let x0 = choose|x0: Seq<char>| pre.maps(id, l, x0);
                            let (k, j) = choose|k: int, j: int| pre.maps_at(k, j, id, l, x0);
                            let x1 = choose|x1: Seq<char>| pre.maps(id, old_category@, x1);
                            let (k2, j2) = choose|k2: int, j2: int|
                                pre.maps_at(k2, j2, id, old_category@, x1);
                            assert(pre.leaf_id(k, j) == pre.leaf_id(k2, j2));
                            assert(k == k2 && j == j2);
                        }
                        assert forall|l: Seq<char>, x: Seq<char>|
                            l == category@ && x == text@ implies t.maps(id, l, x) by {
                            let x1 = choose|x1: Seq<char>| pre.maps(id, old_category@, x1);
                            assert(pre.maps(id, l, x1));
                        }
                    }
                    Signal::Select(id)
                } else {
                    let _ = self.remove_leaf(id);
                    self.add_leaf(id, &category, text);
                    Signal::Select(id)
                }
            },
            TreeEvent::Removed { id } => {
                let _ = self.remove_leaf(id);
                Signal::ClearSelection
            },
            TreeEvent::BulkRemoved { ids } => {
                let n = ids.len();
                let mut k: usize = 0;
                while k < n
                    invariant
                        0 <= k <= n == ids@.len(),
                        pre.wf(),
                        self.wf(),
                        forall|m: int| 0 <= m < ids@.len() ==> pre.has_leaf(ids@[m]),
                        forall|a: int, b: int| 0 <= a < b < ids@.len() ==> ids@[a] != ids@[b],
                        forall|id2: u64, l: Seq<char>, x: Seq<char>|
                            #[trigger] self.maps(id2, l, x) <==> (pre.maps(id2, l, x)
                                && !ids@.subrange(0, k as int).contains(id2)),
                        forall|id2: u64| #[trigger]
                            self.has_leaf(id2) <==> (pre.has_leaf(id2) && !ids@.subrange(
                                0,
                                k as int,
                            ).contains(id2)),
                    decreases n - k,
                {
                    let id = ids[k];
                    proof {
                        assert(pre.has_leaf(id));
                        assert forall|m: int|
                            0 <= m < k implies ids@.subrange(0, k as int)[m] != id by {}
                        assert(!ids@.subrange(0, k as int).contains(id));
                        assert(self.has_leaf(id));
                    }
                    let ghost mid = *self;
                    let _ = self.remove_leaf(id);
                    proof {
                        assert(ids@.subrange(0, k as int + 1) =~= ids@.subrange(0, k as int).push(
                            id,
                        ));
                        assert forall|id2: u64|
                            ids@.subrange(0, k as int + 1).contains(id2) <==> (ids@.subrange(
                                0,
                                k as int,
                            ).contains(id2) || id2 == id) by {
                            lemma_contains_push(ids@.subrange(0, k as int), id, id2);
                        }
                    }
                    k = k + 1;
                }
                assert(ids@.subrange(0, n as int) =~= ids@);
                Signal::ClearSelection
            },
        }
    }
}

/// After pushing one leaf onto node `i`, the tree maps exactly the old
/// triples plus the new one.
proof fn lemma_add_shift(
    pre: CategoryTree,
    t: CategoryTree,
    i: int,
    oldlen: int,
    id: u64,
    label: Seq<char>,
    text: Seq<char>,
)
    requires
        pre.wf(),
        !pre.has_leaf(id),
        0 <= i < pre.nodes@.len(),
        pre.nodes@[i].label@ == label,
        oldlen == pre.nodes@[i].leaves@.len(),
        t.nodes@.len() == pre.nodes@.len(),
        t.nodes@ == pre.nodes@.update(i, t.nodes@[i]),
        t.nodes@[i].label == pre.nodes@[i].label,
        t.nodes@[i].leaves@ == pre.nodes@[i].leaves@.push(t.nodes@[i].leaves@[oldlen]),
        t.nodes@[i].leaves@[oldlen].id == id,
        t.nodes@[i].leaves@[oldlen].text@ == text,
    ensures
        t.wf(),
        forall|id2: u64, l: Seq<char>, x: Seq<char>|
            #[trigger] t.maps(id2, l, x) <==> (pre.maps(id2, l, x) || (id2 == id && l == label && x
                == text)),
        forall|id2: u64| #[trigger] t.has_leaf(id2) <==> (pre.has_leaf(id2) || id2 == id),
{
    assert forall|k: int, j: int| t.valid_pos(k, j) implies (pre.valid_pos(k, j) || (k == i && j
        == oldlen)) && (pre.valid_pos(k, j) ==> t.leaf_id(k, j) == pre.leaf_id(k, j)
        && t.nodes@[k].label@ == pre.nodes@[k].label@ && t.nodes@[k].leaves@[j].text@
        == pre.nodes@[k].leaves@[j].text@) by {
        if k != i {
            assert(t.nodes@[k] == pre.nodes@[k]);
        }
    }
    assert forall|k: int, j: int| pre.valid_pos(k, j) implies t.valid_pos(k, j) by {
        if k != i {
            assert(t.nodes@[k] == pre.nodes@[k]);
        }
    }
    assert(t.maps_at(i, oldlen, id, label, text));
    // well-formedness: the new leaf's identifier is fresh
    assert forall|k: int, j: int| pre.valid_pos(k, j) implies #[trigger] pre.leaf_id(k, j)
        != id by {
        if pre.leaf_id(k, j) == id {
            assert(pre.has_leaf(id));
        }
    }
    assert forall|id2: u64, l: Seq<char>, x: Seq<char>| #[trigger]
        t.maps(id2, l, x) implies (pre.maps(id2, l, x) || (id2 == id && l == label && x
        == text)) by {
        let (k, j) = choose|k: int, j: int| t.maps_at(k, j, id2, l, x);
        if !(k == i && j == oldlen) {
            assert(pre.maps_at(k, j, id2, l, x));
        }
    }
    assert forall|id2: u64, l: Seq<char>, x: Seq<char>| pre.maps(id2, l, x) implies t.maps(
        id2,
        l,
        x,
    ) by {
        let (k, j) = choose|k: int, j: int| pre.maps_at(k, j, id2, l, x);
        assert(t.maps_at(k, j, id2, l, x));
    }
    assert forall|id2: u64| #[trigger] t.has_leaf(id2) implies (pre.has_leaf(id2) || id2 == id) by {
        let (k, j) = choose|k: int, j: int| t.valid_pos(k, j) && t.leaf_id(k, j) == id2;
        if !(k == i && j == oldlen) {
            assert(pre.valid_pos(k, j) && pre.leaf_id(k, j) == id2);
        }
    }
    assert forall|id2: u64| pre.has_leaf(id2) || id2 == id implies t.has_leaf(id2) by {
        if pre.has_leaf(id2) {
            let (k, j) = choose|k: int, j: int| pre.valid_pos(k, j) && pre.leaf_id(k, j) == id2;
            assert(t.valid_pos(k, j) && t.leaf_id(k, j) == id2);
        } else {
            assert(t.valid_pos(i, oldlen) && t.leaf_id(i, oldlen) == id);
        }
    }
}

/// After appending a one-leaf node, the tree maps exactly the old triples
/// plus the new one.
proof fn lemma_add_new_node(
    pre: CategoryTree,
    t: CategoryTree,
    n: int,
    id: u64,
    label: Seq<char>,
    text: Seq<char>,
)
    requires
        pre.wf(),
        !pre.has_leaf(id),
        !pre.has_label(label),
        n == pre.nodes@.len(),
        t.nodes@.len() == n + 1,
        t.nodes@.drop_last() == pre.nodes@,
        t.nodes@[n].label@ == label,
        t.nodes@[n].leaves@.len() == 1,
        t.nodes@[n].leaves@[0].id == id,
        t.nodes@[n].leaves@[0].text@ == text,
    ensures
        t.wf(),
        forall|id2: u64, l: Seq<char>, x: Seq<char>|
            #[trigger] t.maps(id2, l, x) <==> (pre.maps(id2, l, x) || (id2 == id && l == label && x
                == text)),
        forall|id2: u64| #[trigger] t.has_leaf(id2) <==> (pre.has_leaf(id2) || id2 == id),
{
    assert forall|k: int| 0 <= k < n implies t.nodes@[k] == pre.nodes@[k] by {
        assert(t.nodes@.drop_last()[k] == t.nodes@[k]);
    }
    assert forall|k: int, j: int| pre.valid_pos(k, j) implies #[trigger] pre.leaf_id(k, j)
        != id by {
        if pre.leaf_id(k, j) == id {
            assert(pre.has_leaf(id));
        }
    }
    assert forall|k: int| 0 <= k < n implies (#[trigger] t.nodes@[k]).label@ != label by {
        if t.nodes@[k].label@ == label {
            assert(pre.has_label(label));
        }
    }
    assert(t.maps_at(n, 0, id, label, text));
    assert forall|a: int, b: int| 0 <= a < b < t.nodes@.len() implies (#[trigger] t.nodes@[a]).label@
        != (#[trigger] t.nodes@[b]).label@ by {
        if b < n {
            assert(pre.nodes@[a].label@ != pre.nodes@[b].label@);
        }
    }
    assert forall|k: int| 0 <= k < t.nodes@.len() implies (#[trigger] t.nodes@[k]).leaves@.len()
        >= 1 by {
        if k < n {
            assert(t.nodes@[k] == pre.nodes@[k]);
        }
    }
    assert forall|a: int, b: int, c: int, d: int|
        #![trigger t.leaf_id(a, b), t.leaf_id(c, d)]
        t.valid_pos(a, b) && t.valid_pos(c, d) && (a != c || b != d) implies t.leaf_id(a, b)
        != t.leaf_id(c, d) by {
        if a < n && c < n {
            assert(pre.valid_pos(a, b) && pre.valid_pos(c, d));
            assert(pre.leaf_id(a, b) == t.leaf_id(a, b) && pre.leaf_id(c, d) == t.leaf_id(c, d));
        } else if a == n && c < n {
            assert(b == 0 && t.leaf_id(a, b) == id);
            assert(pre.valid_pos(c, d) && pre.leaf_id(c, d) == t.leaf_id(c, d));
            assert(pre.leaf_id(c, d) != id);
        } else if a < n && c == n {
            assert(d == 0 && t.leaf_id(c, d) == id);
            assert(pre.valid_pos(a, b) && pre.leaf_id(a, b) == t.leaf_id(a, b));
            assert(pre.leaf_id(a, b) != id);
        } else {
            assert(a == n && c == n && b == 0 && d == 0);
        }
    }
    assert forall|id2: u64, l: Seq<char>, x: Seq<char>| #[trigger]
        t.maps(id2, l, x) implies (pre.maps(id2, l, x) || (id2 == id && l == label && x
        == text)) by {
        let (k, j) = choose|k: int, j: int| t.maps_at(k, j, id2, l, x);
        if k < n {
            assert(pre.maps_at(k, j, id2, l, x));
        }
    }
    assert forall|id2: u64, l: Seq<char>, x: Seq<char>| pre.maps(id2, l, x) implies t.maps(
        id2,
        l,
        x,
    ) by {
        let (k, j) = choose|k: int, j: int| pre.maps_at(k, j, id2, l, x);
        assert(t.maps_at(k, j, id2, l, x));
    }
    assert forall|id2: u64| #[trigger] t.has_leaf(id2) implies (pre.has_leaf(id2) || id2 == id) by {
        let (k, j) = choose|k: int, j: int| t.valid_pos(k, j) && t.leaf_id(k, j) == id2;
        if k < n {
            assert(pre.valid_pos(k, j) && pre.leaf_id(k, j) == id2);
        }
    }
    assert forall|id2: u64| pre.has_leaf(id2) || id2 == id implies t.has_leaf(id2) by {
        if pre.has_leaf(id2) {
            let (k, j) = choose|k: int, j: int| pre.valid_pos(k, j) && pre.leaf_id(k, j) == id2;
            assert(t.valid_pos(k, j) && t.leaf_id(k, j) == id2);
        } else {
            assert(t.valid_pos(n, 0) && t.leaf_id(n, 0) == id);
        }
    }
}

/// After dropping node `i`, whose only leaf carried `id`, the tree maps
/// exactly the old triples of other identifiers.
proof fn lemma_remove_node(pre: CategoryTree, t: CategoryTree, i: int, id: u64)
    requires
        pre.wf(),
        0 <= i < pre.nodes@.len(),
        pre.nodes@[i].leaves@.len() == 1,
        pre.leaf_id(i, 0) == id,
        t.nodes@ == pre.nodes@.remove(i),
    ensures
        t.wf(),
        forall|id2: u64, l: Seq<char>, x: Seq<char>|
            #[trigger] t.maps(id2, l, x) <==> (pre.maps(id2, l, x) && id2 != id),
        forall|id2: u64| #[trigger] t.has_leaf(id2) <==> (pre.has_leaf(id2) && id2 != id),
{
    assert forall|k: int| 0 <= k < t.nodes@.len() implies t.nodes@[k] == (if k < i {
        pre.nodes@[k]
    } else {
        pre.nodes@[k + 1]
    }) by {}
    assert forall|a: int, b: int| 0 <= a < b < t.nodes@.len() implies (#[trigger] t.nodes@[a]).label@
        != (#[trigger] t.nodes@[b]).label@ by {
        let a0 = if a < i { a } else { a + 1 };
        let b0 = if b < i { b } else { b + 1 };
        assert(t.nodes@[a] == pre.nodes@[a0] && t.nodes@[b] == pre.nodes@[b0]);
        assert(pre.nodes@[a0].label@ != pre.nodes@[b0].label@);
    }
    assert forall|k: int| 0 <= k < t.nodes@.len() implies (#[trigger] t.nodes@[k]).leaves@.len()
        >= 1 by {
        let k0 = if k < i { k } else { k + 1 };
        assert(t.nodes@[k] == pre.nodes@[k0]);
    }
    assert forall|a: int, b: int, c: int, d: int|
        #![trigger t.leaf_id(a, b), t.leaf_id(c, d)]
        t.valid_pos(a, b) && t.valid_pos(c, d) && (a != c || b != d) implies t.leaf_id(a, b)
        != t.leaf_id(c, d) by {
        let a0 = if a < i { a } else { a + 1 };
        let c0 = if c < i { c } else { c + 1 };
        assert(pre.valid_pos(a0, b) && pre.valid_pos(c0, d));
        assert(t.leaf_id(a, b) == pre.leaf_id(a0, b) && t.leaf_id(c, d) == pre.leaf_id(c0, d));
        assert(pre.leaf_id(a0, b) != pre.leaf_id(c0, d));
    }
    assert forall|id2: u64, l: Seq<char>, x: Seq<char>| #[trigger]
        t.maps(id2, l, x) implies (pre.maps(id2, l, x) && id2 != id) by {
        let (k, j) = choose|k: int, j: int| t.maps_at(k, j, id2, l, x);
        let k0 = if k < i { k } else { k + 1 };
        assert(pre.maps_at(k0, j, id2, l, x));
        assert(pre.leaf_id(k0, j) == id2);
        if id2 == id {
            assert(pre.leaf_id(i, 0) == pre.leaf_id(k0, j));
            assert(k0 == i && j == 0);
            assert(false);
        }
    }
    assert forall|id2: u64, l: Seq<char>, x: Seq<char>| pre.maps(id2, l, x) && id2
        != id implies t.maps(id2, l, x) by {
        let (k, j) = choose|k: int, j: int| pre.maps_at(k, j, id2, l, x);
        if k == i {
            assert(j == 0);
            assert(false);
        }
        let k1 = if k < i { k } else { k - 1 };
        assert(t.maps_at(k1, j, id2, l, x));
    }
    assert forall|id2: u64| #[trigger] t.has_leaf(id2) implies (pre.has_leaf(id2) && id2 != id) by {
        let (k, j) = choose|k: int, j: int| t.valid_pos(k, j) && t.leaf_id(k, j) == id2;
        let k0 = if k < i { k } else { k + 1 };
        assert(pre.valid_pos(k0, j) && pre.leaf_id(k0, j) == id2);
        if id2 == id {
            assert(pre.leaf_id(i, 0) == pre.leaf_id(k0, j));
            assert(false);
        }
    }
    assert forall|id2: u64| pre.has_leaf(id2) && id2 != id implies t.has_leaf(id2) by {
        let (k, j) = choose|k: int, j: int| pre.valid_pos(k, j) && pre.leaf_id(k, j) == id2;
        if k == i {
            assert(j == 0);
            assert(false);
        }
        let k1 = if k < i { k } else { k - 1 };
        assert(t.valid_pos(k1, j) && t.leaf_id(k1, j) == id2);
    }
}

/// After dropping leaf `j` of node `i`, which carried `id` and was not the
/// node's last leaf, the tree maps exactly the old triples of other
/// identifiers.
proof fn lemma_remove_leaf_in_node(pre: CategoryTree, t: CategoryTree, i: int, j: int, id: u64)
    requires
        pre.wf(),
        0 <= i < pre.nodes@.len(),
        0 <= j < pre.nodes@[i].leaves@.len(),
        pre.nodes@[i].leaves@.len() >= 2,
        pre.leaf_id(i, j) == id,
        t.nodes@.len() == pre.nodes@.len(),
        t.nodes@ == pre.nodes@.update(i, t.nodes@[i]),
        t.nodes@[i].label == pre.nodes@[i].label,
        t.nodes@[i].leaves@ == pre.nodes@[i].leaves@.remove(j),
    ensures
        t.wf(),
        forall|id2: u64, l: Seq<char>, x: Seq<char>|
            #[trigger] t.maps(id2, l, x) <==> (pre.maps(id2, l, x) && id2 != id),
        forall|id2: u64| #[trigger] t.has_leaf(id2) <==> (pre.has_leaf(id2) && id2 != id),
{
    assert forall|k: int| 0 <= k < t.nodes@.len() && k != i implies t.nodes@[k]
        == pre.nodes@[k] by {}
    assert forall|j2: int| 0 <= j2 < t.nodes@[i].leaves@.len() implies t.nodes@[i].leaves@[j2] == (
    if j2 < j {
        pre.nodes@[i].leaves@[j2]
    } else {
        pre.nodes@[i].leaves@[j2 + 1]
    }) by {}
    assert forall|a: int, b: int| 0 <= a < b < t.nodes@.len() implies (#[trigger] t.nodes@[a]).label@
        != (#[trigger] t.nodes@[b]).label@ by {
        assert(t.nodes@[a].label@ == pre.nodes@[a].label@);
        assert(t.nodes@[b].label@ == pre.nodes@[b].label@);
    }
    assert forall|k: int| 0 <= k < t.nodes@.len() implies (#[trigger] t.nodes@[k]).leaves@.len()
        >= 1 by {
        if k != i {
            assert(t.nodes@[k] == pre.nodes@[k]);
        }
    }
    assert forall|a: int, b: int, c: int, d: int|
        #![trigger t.leaf_id(a, b), t.leaf_id(c, d)]
        t.valid_pos(a, b) && t.valid_pos(c, d) && (a != c || b != d) implies t.leaf_id(a, b)
        != t.leaf_id(c, d) by {
        let b0 = if a != i || b < j { b } else { b + 1 };
        let d0 = if c != i || d < j { d } else { d + 1 };
        assert(pre.valid_pos(a, b0) && pre.valid_pos(c, d0));
        assert(t.leaf_id(a, b) == pre.leaf_id(a, b0) && t.leaf_id(c, d) == pre.leaf_id(c, d0));
        assert(pre.leaf_id(a, b0) != pre.leaf_id(c, d0));
    }
    assert forall|id2: u64, l: Seq<char>, x: Seq<char>| #[trigger]
        t.maps(id2, l, x) implies (pre.maps(id2, l, x) && id2 != id) by {
        let (k, j2) = choose|k: int, j2: int| t.maps_at(k, j2, id2, l, x);
        let j0 = if k != i || j2 < j { j2 } else { j2 + 1 };
        assert(pre.maps_at(k, j0, id2, l, x));
        assert(pre.leaf_id(k, j0) == id2);
        if id2 == id {
            assert(pre.leaf_id(i, j) == pre.leaf_id(k, j0));
            assert(k == i && j0 == j);
            assert(false);
        }
    }
    assert forall|id2: u64, l: Seq<char>, x: Seq<char>| pre.maps(id2, l, x) && id2
        != id implies t.maps(id2, l, x) by {
        let (k, j2) = choose|k: int, j2: int| pre.maps_at(k, j2, id2, l, x);
        if k == i && j2 == j {
            assert(false);
        }
        let j1 = if k != i || j2 < j { j2 } else { j2 - 1 };
        assert(t.maps_at(k, j1, id2, l, x));
    }
    assert forall|id2: u64| #[trigger] t.has_leaf(id2) implies (pre.has_leaf(id2) && id2 != id) by {
        let (k, j2) = choose|k: int, j2: int| t.valid_pos(k, j2) && t.leaf_id(k, j2) == id2;
        let j0 = if k != i || j2 < j { j2 } else { j2 + 1 };
        assert(pre.valid_pos(k, j0) && pre.leaf_id(k, j0) == id2);
        if id2 == id {
            assert(pre.leaf_id(i, j) == pre.leaf_id(k, j0));
            assert(false);
        }
    }
    assert forall|id2: u64| pre.has_leaf(id2) && id2 != id implies t.has_leaf(id2) by {
        let (k, j2) = choose|k: int, j2: int| pre.valid_pos(k, j2) && pre.leaf_id(k, j2) == id2;
        if k == i && j2 == j {
            assert(false);
        }
        let j1 = if k != i || j2 < j { j2 } else { j2 - 1 };
        assert(t.valid_pos(k, j1) && t.leaf_id(k, j1) == id2);
    }
}

/// After replacing the text of leaf `(i, j)`, which carries `id`, the tree
/// maps the old triples except that `id`'s text is now `text`.
proof fn lemma_refresh_leaf(
    pre: CategoryTree,
    t: CategoryTree,
    i: int,
    j: int,
    id: u64,
    text: Seq<char>,
)
    requires
        pre.wf(),
        0 <= i < pre.nodes@.len(),
        0 <= j < pre.nodes@[i].leaves@.len(),
        pre.leaf_id(i, j) == id,
        t.nodes@.len() == pre.nodes@.len(),
        t.nodes@ == pre.nodes@.update(i, t.nodes@[i]),
        t.nodes@[i].label == pre.nodes@[i].label,
        t.nodes@[i].leaves@ == pre.nodes@[i].leaves@.update(j, t.nodes@[i].leaves@[j]),
        t.nodes@[i].leaves@[j].id == id,
        t.nodes@[i].leaves@[j].text@ == text,
    ensures
        t.wf(),
        forall|id2: u64, l: Seq<char>, x: Seq<char>|
            id2 != id ==> (#[trigger] t.maps(id2, l, x) <==> pre.maps(id2, l, x)),
        forall|l: Seq<char>, x: Seq<char>| #[trigger]
            t.maps(id, l, x) <==> (x == text && exists|x0: Seq<char>| pre.maps(id, l, x0)),
        forall|id2: u64| #[trigger] t.has_leaf(id2) <==> pre.has_leaf(id2),
{
    assert forall|k: int, j2: int| t.valid_pos(k, j2) implies pre.valid_pos(k, j2) && t.leaf_id(
        k,
        j2,
    ) == pre.leaf_id(k, j2) && t.nodes@[k].label@ == pre.nodes@[k].label@ by {}
    assert forall|k: int, j2: int| pre.valid_pos(k, j2) implies t.valid_pos(k, j2) by {}
    assert forall|k: int, j2: int| t.valid_pos(k, j2) && (k != i || j2 != j) implies t.nodes@[k]
        .leaves@[j2].text@ == pre.nodes@[k].leaves@[j2].text@ by {}
    assert forall|id2: u64, l: Seq<char>, x: Seq<char>| id2 != id implies (#[trigger] t.maps(
        id2,
        l,
        x,
    ) <==> pre.maps(id2, l, x)) by {
        if t.maps(id2, l, x) {
            let (k, j2) = choose|k: int, j2: int| t.maps_at(k, j2, id2, l, x);
            assert((k, j2) != (i, j));
            assert(pre.maps_at(k, j2, id2, l, x));
        }
        if pre.maps(id2, l, x) {
            let (k, j2) = choose|k: int, j2: int| pre.maps_at(k, j2, id2, l, x);
            assert((k, j2) != (i, j));
            assert(t.maps_at(k, j2, id2, l, x));
        }
    }
    assert forall|l: Seq<char>, x: Seq<char>| #[trigger] t.maps(id, l, x) implies (x == text
        && exists|x0: Seq<char>| pre.maps(id, l, x0)) by {
        let (k, j2) = choose|k: int, j2: int| t.maps_at(k, j2, id, l, x);
        assert(pre.leaf_id(k, j2) == id == pre.leaf_id(i, j));
        assert(k == i && j2 == j);
        assert(pre.maps_at(i, j, id, l, pre.nodes@[i].leaves@[j].text@));
        assert(pre.maps(id, l, pre.nodes@[i].leaves@[j].text@));
    }
    assert forall|l: Seq<char>, x: Seq<char>| x == text && (exists|x0: Seq<char>|
        pre.maps(id, l, x0)) implies t.maps(id, l, x) by {
        let x0 = choose|x0: Seq<char>| pre.maps(id, l, x0);
        let (k, j2) = choose|k: int, j2: int| pre.maps_at(k, j2, id, l, x0);
        assert(pre.leaf_id(k, j2) == id == pre.leaf_id(i, j));
        assert(k == i && j2 == j);
        assert(t.maps_at(i, j, id, l, text));
    }
    assert forall|id2: u64| #[trigger] t.has_leaf(id2) implies pre.has_leaf(id2) by {
        let (k, j2) = choose|k: int, j2: int| t.valid_pos(k, j2) && t.leaf_id(k, j2) == id2;
        assert(pre.valid_pos(k, j2) && pre.leaf_id(k, j2) == id2);
    }
    assert forall|id2: u64| pre.has_leaf(id2) implies t.has_leaf(id2) by {
        let (k, j2) = choose|k: int, j2: int| pre.valid_pos(k, j2) && pre.leaf_id(k, j2) == id2;
        assert(t.valid_pos(k, j2) && t.leaf_id(k, j2) == id2);
    }
}

} // verus!
