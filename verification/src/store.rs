//! The task store: the authoritative ordered sequence of tasks, each carried
//! with an assigned identifier, plus the mutation events the category tree
//! consumes. Identifiers are handed out monotonically, so every entry's
//! identity is unambiguous — tasks are never matched by rendered text.

use vstd::prelude::*;

use crate::codec::decode_or_empty;
use crate::codec::encode;
use crate::codec::spec_decode;
use crate::codec::spec_encode;
use crate::codec::views_of;
use crate::task::OrganizerError;
use crate::task::spec_formatted;
use crate::task::Task;
use crate::task::TaskView;

verus! {

/// One stored task: the task and its store-assigned identifier.
pub struct StoredTask {
    pub id: u64,
    pub task: Task,
}

/// The mathematical value of a stored task.
pub struct StoredTaskView {
    pub id: u64,
    pub task: TaskView,
}

impl View for StoredTask {
    type V = StoredTaskView;

    open spec fn view(&self) -> StoredTaskView {
        StoredTaskView { id: self.id, task: self.task@ }
    }
}

impl Clone for StoredTask {
    fn clone(&self) -> (r: StoredTask)
        ensures
            r@ == self@,
    {
        StoredTask { id: self.id, task: self.task.clone() }
    }
}

/// A mutation event handed to the category tree synchronizer: what changed,
/// described by identifier, category label and rendered text.
pub enum TreeEvent {
    /// A task was appended.
    Added { id: u64, category: String, text: String },
    /// A task was changed in place; `old_category` is where its leaf was.
    Edited { id: u64, old_category: String, category: String, text: String },
    /// A task was removed.
    Removed { id: u64 },
    /// Several tasks were removed in one pass.
    BulkRemoved { ids: Vec<u64> },
}

/// The task views of a stored sequence, in order.
pub open spec fn task_views(s: Seq<StoredTask>) -> Seq<TaskView> {
    s.map_values(|e: StoredTask| e.task@)
}

/// The views of a stored sequence, in order.
pub open spec fn store_views(s: Seq<StoredTask>) -> Seq<StoredTaskView> {
    s.map_values(|e: StoredTask| e@)
}

/// The entries that are not done, in their original relative order.
pub open spec fn spec_undone(s: Seq<StoredTaskView>) -> Seq<StoredTaskView>
    decreases s.len(),
{
    if s.len() == 0 {
        Seq::<StoredTaskView>::empty()
    } else {
        let p = spec_undone(s.drop_last());
        if s.last().task.done {
            p
        } else {
            p.push(s.last())
        }
    }
}

/// The identifiers of the done entries, in order.
pub open spec fn spec_done_ids(s: Seq<StoredTaskView>) -> Seq<u64>
    decreases s.len(),
{
    if s.len() == 0 {
        Seq::<u64>::empty()
    } else {
        let p = spec_done_ids(s.drop_last());
        if s.last().task.done {
            p.push(s.last().id)
        } else {
            p
        }
    }
}

/// The distinct categories of the entries, in first-seen order.
pub open spec fn spec_categories(s: Seq<StoredTaskView>) -> Seq<Seq<char>>
    decreases s.len(),
{
    if s.len() == 0 {
        Seq::<Seq<char>>::empty()
    } else {
        let p = spec_categories(s.drop_last());
        if p.contains(s.last().task.category) {
            p
        } else {
            p.push(s.last().task.category)
        }
    }
}

/// The authoritative, ordered sequence of tasks.
pub struct TasksManager {
    pub entries: Vec<StoredTask>,
    pub next_id: u64,
}

impl TasksManager {
    /// Identifiers are pairwise distinct and below the next one to assign.
    pub open spec fn wf(self) -> bool {
        &&& forall|i: int, j: int|
            0 <= i < j < self.entries@.len() ==> (#[trigger] self.entries@[i]).id != (
            #[trigger] self.entries@[j]).id
        &&& forall|i: int|
            0 <= i < self.entries@.len() ==> (#[trigger] self.entries@[i]).id < self.next_id
    }

    /// Whether some entry carries `id`.
    pub open spec fn contains_id(self, id: u64) -> bool {
        exists|i: int| 0 <= i < self.entries@.len() && (#[trigger] self.entries@[i]).id == id
    }

    /// An empty store.
    pub fn new() -> (r: TasksManager)
        ensures
            r.wf(),
            r.entries@.len() == 0,
            r.next_id == 0,
    {
        TasksManager { entries: Vec::new(), next_id: 0 }
    }

    /// A store over the given tasks, identifiers assigned in order.
    pub fn from_tasks(tasks: Vec<Task>) -> (r: TasksManager)
        ensures
            r.wf(),
            task_views(r.entries@) == views_of(tasks@),
            r.next_id == r.entries@.len(),
    {
        let mut entries: Vec<StoredTask> = Vec::new();
        let n = tasks.len();
        let mut i: usize = 0;
        while i < n
            invariant
                0 <= i <= n == tasks@.len(),
                entries@.len() == i,
                forall|k: int|
                    0 <= k < i ==> (#[trigger] entries@[k]).id == k && entries@[k].task@
                        == tasks@[k]@,
            decreases n - i,
        {
            entries.push(StoredTask { id: i as u64, task: tasks[i].clone() });
            i = i + 1;
        }
        let r = TasksManager { entries, next_id: i as u64 };
        assert(task_views(r.entries@) =~= views_of(tasks@));
        r
    }

    /// The index of the entry carrying `id`, if any.
    pub fn find_index(&self, id: u64) -> (r: Option<usize>)
        ensures
            match r {
                Some(i) => i < self.entries@.len() && self.entries@[i as int].id == id,
                None => !self.contains_id(id),
            },
    {
        let mut i: usize = 0;
        while i < self.entries.len()
            invariant
                0 <= i <= self.entries@.len(),
                forall|k: int| 0 <= k < i ==> (#[trigger] self.entries@[k]).id != id,
            decreases self.entries@.len() - i,
        {
            if self.entries[i].id == id {
                return Some(i);
            }
            i = i + 1;
        }
        None
    }

    /// Appends `task`, assigning it a fresh identifier, and describes the
    /// change for the tree.
    pub fn add_task(&mut self, task: Task) -> (ev: TreeEvent)
        requires
            old(self).wf(),
            old(self).next_id < u64::MAX,
        ensures
            final(self).wf(),
            final(self).entries@.len() == old(self).entries@.len() + 1,
            final(self).entries@.last().id == old(self).next_id,
            final(self).entries@.last().task@ == task@,
            final(self).entries@.drop_last() == old(self).entries@,
            final(self).next_id == old(self).next_id + 1,
            !old(self).contains_id(old(self).next_id),
            ev matches TreeEvent::Added { id, category, text } ==> id == old(self).next_id
                && category@ == task@.category && text@ == spec_formatted(task@, true),
            ev is Added,
    {
        let id = self.next_id;
        let category = self.category_of(&task);
        let text = task.formatted(true);
        self.entries.push(StoredTask { id, task });
        self.next_id = self.next_id + 1;
        TreeEvent::Added { id, category, text }
    }

    /// A clone of the task's category label.
    fn category_of(&self, task: &Task) -> (r: String)
        ensures
            r@ == task@.category,
    {
        task.category.clone()
    }

    /// Replaces the fields of the task carrying `id`, keeping its identifier
    /// and position, and describes the change (including the old category,
    /// which is where the tree's leaf currently sits). `NotFound` exactly
    /// when no entry carries `id`, and then nothing changes.
    pub fn edit_task(&mut self, id: u64, fields: Task) -> (r: Result<TreeEvent, OrganizerError>)
        requires
            old(self).wf(),
        ensures
            final(self).wf(),
            r is Ok <==> old(self).contains_id(id),
            r matches Err(e) ==> e == OrganizerError::NotFound && *final(self) == *old(self),
            r is Ok ==> exists|i: int|
                {
                    &&& 0 <= i < old(self).entries@.len()
                    &&& (#[trigger] old(self).entries@[i]).id == id
                    &&& final(self).entries@ == old(self).entries@.update(
                        i,
                        StoredTask { id, task: fields },
                    )
                    &&& r matches Ok(ev) ==> ev matches TreeEvent::Edited {
                        id: eid,
                        old_category,
                        category,
                        text,
                    } && eid == id && old_category@ == old(self).entries@[i].task@.category
                        && category@ == fields@.category && text@ == spec_formatted(fields@, true)
                },
            r is Ok ==> final(self).next_id == old(self).next_id && (r matches Ok(ev) ==> ev
                is Edited),
    {
        match self.find_index(id) {
            Some(i) => {
                let old_entry = self.entries.remove(i);
                let old_category = old_entry.task.category;
                let category = self.category_of(&fields);
                let text = fields.formatted(true);
                self.entries.insert(i, StoredTask { id, task: fields });
                proof {
                    assert(final(self).entries@ =~= old(self).entries@.update(
                        i as int,
                        final(self).entries@[i as int],
                    ));
                }
                Ok(TreeEvent::Edited { id, old_category, category, text })
            },
            None => Err(OrganizerError::NotFound),
        }
    }

    /// Removes the task carrying `id`, preserving the order of the rest.
    /// `NotFound` exactly when no entry carries `id`, and then nothing
    /// changes — a missing match is never mapped to some other element.
    pub fn delete_task(&mut self, id: u64) -> (r: Result<TreeEvent, OrganizerError>)
        requires
            old(self).wf(),
        ensures
            final(self).wf(),
            r is Ok <==> old(self).contains_id(id),
            r matches Err(e) ==> e == OrganizerError::NotFound && *final(self) == *old(self),
            r is Ok ==> exists|i: int|
                {
                    &&& 0 <= i < old(self).entries@.len()
                    &&& (#[trigger] old(self).entries@[i]).id == id
                    &&& final(self).entries@ == old(self).entries@.remove(i)
                },
            r matches Ok(ev) ==> ev matches TreeEvent::Removed { id: rid } && rid == id,
            r is Ok ==> final(self).next_id == old(self).next_id,
    {
        match self.find_index(id) {
            Some(i) => {
                let _removed = self.entries.remove(i);
                Ok(TreeEvent::Removed { id })
            },
            None => Err(OrganizerError::NotFound),
        }
    }

    /// Removes every done task in one pass, keeping the relative order of
    /// the remaining ones, and lists the removed identifiers for the tree.
    pub fn remove_done(&mut self) -> (ev: TreeEvent)
        requires
            old(self).wf(),
        ensures
            final(self).wf(),
            store_views(final(self).entries@) == spec_undone(store_views(old(self).entries@)),
            final(self).next_id == old(self).next_id,
            ev matches TreeEvent::BulkRemoved { ids } ==> ids@ == spec_done_ids(
                store_views(old(self).entries@),
            ),
            ev is BulkRemoved,
    {
        let mut kept: Vec<StoredTask> = Vec::new();
        let mut removed: Vec<u64> = Vec::new();
        let n = self.entries.len();
        let mut i: usize = 0;
        while i < n
            invariant
                0 <= i <= n == self.entries@.len(),
                self == old(self),
                store_views(kept@) == spec_undone(store_views(self.entries@).subrange(0, i as int)),
                removed@ == spec_done_ids(store_views(self.entries@).subrange(0, i as int)),
            decreases n - i,
        {
            proof {
                let sv = store_views(self.entries@);
                assert(sv.subrange(0, i as int + 1).drop_last() =~= sv.subrange(0, i as int));
                assert(sv.subrange(0, i as int + 1).last() == sv[i as int]);
                assert(sv[i as int] == self.entries@[i as int]@);
            }
            let e = &self.entries[i];
            if e.task.done {
                removed.push(e.id);
            } else {
                kept.push(e.clone());
                assert(store_views(kept@) =~= spec_undone(
                    store_views(self.entries@).subrange(0, i as int + 1),
                ));
            }
            i = i + 1;
        }
        assert(store_views(self.entries@).subrange(0, n as int) =~= store_views(self.entries@));
        proof {
            lemma_undone_sub(store_views(old(self).entries@), old(self).next_id);
            assert forall|i: int| 0 <= i < kept@.len() implies (#[trigger] kept@[i]).id
                == store_views(kept@)[i].id by {}
        }
        self.entries = kept;
        TreeEvent::BulkRemoved { ids: removed }
    }

    /// The distinct categories currently in use, in first-seen order.
    pub fn categories(&self) -> (r: Vec<String>)
        ensures
            r@.map_values(|s: String| s@) == spec_categories(store_views(self.entries@)),
    {
        let mut out: Vec<String> = Vec::new();
        let n = self.entries.len();
        let mut i: usize = 0;
        while i < n
            invariant
                0 <= i <= n == self.entries@.len(),
                out@.map_values(|s: String| s@) == spec_categories(
                    store_views(self.entries@).subrange(0, i as int),
                ),
            decreases n - i,
        {
            proof {
                let sv = store_views(self.entries@);
                assert(sv.subrange(0, i as int + 1).drop_last() =~= sv.subrange(0, i as int));
                assert(sv.subrange(0, i as int + 1).last() == sv[i as int]);
                assert(sv[i as int] == self.entries@[i as int]@);
            }
            let cat = &self.entries[i].task.category;
            if !contains_string(&out, cat) {
                out.push(cat.clone());
                assert(out@.map_values(|s: String| s@) =~= spec_categories(
                    store_views(self.entries@).subrange(0, i as int + 1),
                ));
            } else {
                assert(out@.map_values(|s: String| s@) =~= spec_categories(
                    store_views(self.entries@).subrange(0, i as int + 1),
                ));
            }
            i = i + 1;
        }
        assert(store_views(self.entries@).subrange(0, n as int) =~= store_views(self.entries@));
        out
    }

    /// The current entries, a read-only snapshot for rendering.
    pub fn tasks(&self) -> (r: &Vec<StoredTask>)
        ensures
            r@ == self.entries@,
    {
        &self.entries
    }

    /// Serializes the current sequence; see [`spec_encode`].
    pub fn to_text(&self) -> (r: Vec<char>)
        ensures
            r@ == spec_encode(task_views(self.entries@)),
    {
        let mut snapshot: Vec<Task> = Vec::new();
        let n = self.entries.len();
        let mut i: usize = 0;
        while i < n
            invariant
                0 <= i <= n == self.entries@.len(),
                snapshot@.len() == i,
                forall|k: int| 0 <= k < i ==> (#[trigger] snapshot@[k])@ == self.entries@[k].task@,
            decreases n - i,
        {
            snapshot.push(self.entries[i].task.clone());
            i = i + 1;
        }
        assert(views_of(snapshot@) =~= task_views(self.entries@));
        encode(&snapshot)
    }

    /// A store parsed from serialized text: the encoded tasks where the text
    /// is a well-formed encoding, the empty store otherwise — an absent or
    /// unreadable durable file is never fatal.
    pub fn from_text(v: &Vec<char>) -> (r: TasksManager)
        ensures
            r.wf(),
            match spec_decode(v@) {
                Some(ts) => task_views(r.entries@) == ts,
                None => r.entries@.len() == 0,
            },
    {
        let tasks = decode_or_empty(v);
        let r = TasksManager::from_tasks(tasks);
        assert(task_views(r.entries@).len() == r.entries@.len());
        assert(views_of(tasks@).len() == tasks@.len());
        r
    }
}

/// Every identifier the undone filter keeps already sat below `bound`.
proof fn lemma_undone_sub(s: Seq<StoredTaskView>, bound: u64)
    requires
        forall|i: int| 0 <= i < s.len() ==> (#[trigger] s[i]).id < bound,
        forall|i: int, j: int| 0 <= i < j < s.len() ==> (#[trigger] s[i]).id != (#[trigger] s[j]).id,
    ensures
        forall|i: int| 0 <= i < spec_undone(s).len() ==> (#[trigger] spec_undone(s)[i]).id < bound,
        forall|i: int, j: int|
            0 <= i < j < spec_undone(s).len() ==> (#[trigger] spec_undone(s)[i]).id != (
            #[trigger] spec_undone(s)[j]).id,
    decreases s.len(),
{
    if s.len() > 0 {
        lemma_undone_is_subseq(s);
        lemma_undone_sub(s.drop_last(), bound);
        let p = spec_undone(s.drop_last());
        if !s.last().task.done {
            assert forall|i: int, j: int|
                0 <= i < j < spec_undone(s).len() implies (#[trigger] spec_undone(s)[i]).id != (
            #[trigger] spec_undone(s)[j]).id by {
                if j == spec_undone(s).len() - 1 {
                    lemma_undone_member(s.drop_last(), i);
                }
            }
        }
    }
}

/// Every undone entry is one of the original entries.
pub proof fn lemma_undone_member(s: Seq<StoredTaskView>, i: int)
    requires
        0 <= i < spec_undone(s).len(),
    ensures
        exists|k: int| 0 <= k < s.len() && #[trigger] s[k] == spec_undone(s)[i],
    decreases s.len(),
{
    if s.len() > 0 {
        let p = spec_undone(s.drop_last());
        if !s.last().task.done && i == spec_undone(s).len() - 1 {
            assert(s[s.len() - 1] == spec_undone(s)[i]);
        } else {
            lemma_undone_member(s.drop_last(), i);
            let k = choose|k: int| 0 <= k < s.drop_last().len() && #[trigger] s.drop_last()[k]
                == spec_undone(s.drop_last())[i];
            assert(s[k] == spec_undone(s)[i]);
        }
    }
}

/// The undone filter never grows the sequence.
proof fn lemma_undone_is_subseq(s: Seq<StoredTaskView>)
    ensures
        spec_undone(s).len() <= s.len(),
    decreases s.len(),
{
    if s.len() > 0 {
        lemma_undone_is_subseq(s.drop_last());
    }
}

/// No kept entry is done.
pub proof fn lemma_undone_not_done(s: Seq<StoredTaskView>)
    ensures
        forall|i: int| 0 <= i < spec_undone(s).len() ==> !(#[trigger] spec_undone(s)[i]).task.done,
    decreases s.len(),
{
    if s.len() > 0 {
        lemma_undone_not_done(s.drop_last());
    }
}

/// Every done identifier belongs to a done entry.
pub proof fn lemma_done_ids_member(s: Seq<StoredTaskView>, m: int)
    requires
        0 <= m < spec_done_ids(s).len(),
    ensures
        exists|k: int|
            0 <= k < s.len() && (#[trigger] s[k]).id == spec_done_ids(s)[m] && s[k].task.done,
    decreases s.len(),
{
    if s.len() > 0 {
        let d = s.drop_last();
        let p = spec_done_ids(d);
        assert forall|k: int| 0 <= k < d.len() implies s[k] == d[k] by {}
        if s.last().task.done && m == spec_done_ids(s).len() - 1 {
            assert(s[s.len() - 1].id == spec_done_ids(s)[m] && s[s.len() - 1].task.done);
        } else {
            lemma_done_ids_member(d, m);
            let k = choose|k: int|
                0 <= k < d.len() && (#[trigger] d[k]).id == p[m] && d[k].task.done;
            assert(s[k].id == spec_done_ids(s)[m] && s[k].task.done);
        }
    }
}

/// Membership in a sequence extended by one element.
pub proof fn lemma_contains_push<A>(s: Seq<A>, e: A, x: A)
    ensures
        s.push(e).contains(x) <==> (s.contains(x) || x == e),
{
    if s.contains(x) {
        let i = choose|i: int| 0 <= i < s.len() && s[i] == x;
        assert(s.push(e)[i] == x);
    }
    if x == e {
        assert(s.push(e)[s.len() as int] == x);
    }
    if s.push(e).contains(x) {
        let i = choose|i: int| 0 <= i < s.push(e).len() && s.push(e)[i] == x;
        if i < s.len() {
            assert(s[i] == x);
        }
    }
}

/// What the done-identifier list holds, given pairwise distinct identifiers:
/// exactly the identifiers of the done entries, each once.
pub proof fn lemma_done_ids_facts(s: Seq<StoredTaskView>)
    requires
        forall|a: int, b: int| 0 <= a < b < s.len() ==> (#[trigger] s[a]).id != (#[trigger] s[b]).id,
    ensures
        forall|a: int, b: int|
            0 <= a < b < spec_done_ids(s).len() ==> spec_done_ids(s)[a] != spec_done_ids(s)[b],
        forall|k: int|
            0 <= k < s.len() && (#[trigger] s[k]).task.done ==> spec_done_ids(s).contains(s[k].id),
        forall|k: int|
            0 <= k < s.len() && !(#[trigger] s[k]).task.done ==> !spec_done_ids(s).contains(
                s[k].id,
            ),
    decreases s.len(),
{
    if s.len() > 0 {
        let d = s.drop_last();
        lemma_done_ids_facts(d);
        let p = spec_done_ids(d);
        let last = s.last();
        assert forall|k: int| 0 <= k < d.len() implies s[k] == d[k] by {}
        if last.task.done {
            assert(spec_done_ids(s) == p.push(last.id));
            // the appended identifier is fresh among the earlier done ones
            assert forall|m: int| 0 <= m < p.len() implies p[m] != last.id by {
                lemma_done_ids_member(d, m);
                let k = choose|k: int| 0 <= k < d.len() && (#[trigger] d[k]).id == p[m]
                    && d[k].task.done;
                assert(s[k].id != s[s.len() - 1].id);
            }
            assert forall|k: int|
                0 <= k < s.len() && (#[trigger] s[k]).task.done implies spec_done_ids(s).contains(
                s[k].id,
            ) by {
                lemma_contains_push(p, last.id, s[k].id);
                if k < d.len() {
                    assert(p.contains(d[k].id));
                }
            }
            assert forall|k: int|
                0 <= k < s.len() && !(#[trigger] s[k]).task.done implies !spec_done_ids(
                s,
            ).contains(s[k].id) by {
                lemma_contains_push(p, last.id, s[k].id);
                assert(k < d.len());
                assert(s[k].id != last.id);
                assert(!p.contains(d[k].id));
            }
        } else {
            assert(spec_done_ids(s) == p);
            assert forall|k: int|
                0 <= k < s.len() && (#[trigger] s[k]).task.done implies spec_done_ids(s).contains(
                s[k].id,
            ) by {
                assert(k < d.len());
                assert(p.contains(d[k].id));
            }
            assert forall|k: int|
                0 <= k < s.len() && !(#[trigger] s[k]).task.done implies !spec_done_ids(
                s,
            ).contains(s[k].id) by {
                if k < d.len() {
                    assert(!p.contains(d[k].id));
                } else {
                    if p.contains(last.id) {
                        let m = choose|m: int| 0 <= m < p.len() && p[m] == last.id;
                        lemma_done_ids_member(d, m);
                        let k2 = choose|k2: int| 0 <= k2 < d.len() && (#[trigger] d[k2]).id == p[m]
                            && d[k2].task.done;
                        assert(s[k2].id != s[s.len() - 1].id);
                        assert(false);
                    }
                }
            }
        }
    }
}

/// What the undone filter keeps: every kept entry is an original entry that
/// is not done, and every original entry that is not done is kept.
pub proof fn lemma_undone_facts(s: Seq<StoredTaskView>)
    ensures
        forall|k: int|
            0 <= k < s.len() && !(#[trigger] s[k]).task.done ==> spec_undone(s).contains(s[k]),
    decreases s.len(),
{
    if s.len() > 0 {
        let d = s.drop_last();
        lemma_undone_facts(d);
        let p = spec_undone(d);
        let last = s.last();
        assert forall|k: int| 0 <= k < d.len() implies s[k] == d[k] by {}
        assert forall|k: int|
            0 <= k < s.len() && !(#[trigger] s[k]).task.done implies spec_undone(s).contains(
            s[k],
        ) by {
            if k < d.len() {
                assert(p.contains(d[k]));
                let m = choose|m: int| 0 <= m < p.len() && p[m] == d[k];
                if last.task.done {
                    assert(spec_undone(s)[m] == s[k]);
                } else {
                    assert(spec_undone(s)[m] == s[k]);
                }
            } else {
                assert(!last.task.done);
                assert(spec_undone(s)[spec_undone(s).len() - 1] == s[k]);
            }
        }
    }
}

/// A label occurs among the first-seen categories exactly when some entry
/// carries it.
pub proof fn lemma_categories_iff(s: Seq<StoredTaskView>, l: Seq<char>)
    ensures
        spec_categories(s).contains(l) <==> exists|k: int|
            0 <= k < s.len() && (#[trigger] s[k]).task.category == l,
    decreases s.len(),
{
    if s.len() > 0 {
        let d = s.drop_last();
        lemma_categories_iff(d, l);
        let p = spec_categories(d);
        let last = s.last();
        assert forall|k: int| 0 <= k < d.len() implies s[k] == d[k] by {}
        if !p.contains(last.task.category) {
            lemma_contains_push(p, last.task.category, l);
        }
        if spec_categories(s).contains(l) {
            if p.contains(l) {
                let k = choose|k: int| 0 <= k < d.len() && (#[trigger] d[k]).task.category == l;
                assert(s[k].task.category == l);
            } else {
                assert(l == last.task.category);
                assert(s[s.len() - 1].task.category == l);
            }
        }
        if exists|k: int| 0 <= k < s.len() && (#[trigger] s[k]).task.category == l {
            let k = choose|k: int| 0 <= k < s.len() && (#[trigger] s[k]).task.category == l;
            if k < d.len() {
                assert(d[k].task.category == l);
                assert(p.contains(l));
                if !p.contains(last.task.category) {
                    let m = choose|m: int| 0 <= m < p.len() && p[m] == l;
                    assert(spec_categories(s)[m] == l);
                }
            } else {
                if p.contains(last.task.category) {
                    assert(p.contains(l));
                } else {
                    assert(spec_categories(s)[p.len() as int] == l);
                }
            }
        }
    }
}

/// Whether some element of `v` equals `s`, character for character.
pub fn contains_string(v: &Vec<String>, s: &String) -> (r: bool)
    ensures
        r == v@.map_values(|x: String| x@).contains(s@),
{
    let n = v.len();
    let mut i: usize = 0;
    while i < n
        invariant
            0 <= i <= n == v@.len(),
            forall|k: int| 0 <= k < i ==> (#[trigger] v@[k])@ != s@,
        decreases n - i,
    {
        if v[i] == *s {
            assert(v@.map_values(|x: String| x@)[i as int] == s@);
            return true;
        }
        i = i + 1;
    }
    assert forall|k: int| 0 <= k < v@.len() implies (#[trigger] v@[k])@ != s@ && v@.map_values(
        |x: String| x@,
    )[k] != s@ by {
        assert(v@.map_values(|x: String| x@)[k] == v@[k]@);
    }
    assert(!v@.map_values(|x: String| x@).contains(s@));
    false
}

} // verus!
